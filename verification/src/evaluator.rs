//! Core evaluation: the three partial operations and the search over the six
//! fixed evaluation patterns.

use vstd::prelude::*;

verus! {

/// An operand or result that may be absent.
pub type OptU = Option<usize>;

/// The mathematical value carried by an optional machine integer.
pub open spec fn value_of(x: OptU) -> Option<int> {
    match x {
        Some(v) => Some(v as int),
        None => None,
    }
}

/// `a - b`, present only when it does not go below zero.
pub open spec fn difference(a: int, b: Option<int>) -> Option<int> {
    match b {
        Some(b) => if a >= b { Some(a - b) } else { None },
        None => None,
    }
}

/// `a * b`, present whenever `b` is.
pub open spec fn product(a: int, b: Option<int>) -> Option<int> {
    match b {
        Some(b) => Some(a * b),
        None => None,
    }
}

/// `a / b`, present only when `b` is nonzero and divides `a` exactly.
pub open spec fn quotient(a: int, b: Option<int>) -> Option<int> {
    match b {
        Some(b) => if b != 0 && a % b == 0 { Some(a / b) } else { None },
        None => None,
    }
}

/// Subtraction that is absent instead of going negative.
pub fn s_sub(a: usize, b: OptU) -> (r: OptU)
    ensures
        value_of(r) == difference(a as int, value_of(b)),
        r.is_some() <==> (b.is_some() && a >= b.unwrap()),
{
    a.checked_sub(b?)
}

/// Multiplication; the product has to fit the machine word.
pub fn s_mul(a: usize, b: OptU) -> (r: OptU)
    requires
        b.is_some() ==> a * b.unwrap() <= usize::MAX,
    ensures
        value_of(r) == product(a as int, value_of(b)),
        r.is_some() <==> b.is_some(),
{
    Some(a * b?)
}

/// Division that is absent unless it is exact.
pub fn s_div(a: usize, b: OptU) -> (r: OptU)
    ensures
        value_of(r) == quotient(a as int, value_of(b)),
        r.is_some() <==> (b.is_some() && b.unwrap() != 0 && a as int % b.unwrap() as int == 0),
{
    match b {
        Some(b) if b > 0 && a % b == 0 => Some(a / b),
        _ => None,
    }
}

/// One of the three operations of the puzzle.
#[derive(Clone, Copy, PartialEq, Eq, Structural, Debug)]
pub enum Operation {
    Sub,
    Mul,
    Div,
}

/// One step of an evaluation pattern: an operation and the position of the
/// operand it consumes.
#[derive(Clone, Copy, PartialEq, Eq, Structural, Debug)]
pub struct Step {
    pub operation: Operation,
    pub operand: usize,
}

/// What one operation makes of an accumulator and an operand.
pub open spec fn apply(operation: Operation, acc: int, operand: Option<int>) -> Option<int> {
    match operation {
        Operation::Sub => difference(acc, operand),
        Operation::Mul => product(acc, operand),
        Operation::Div => quotient(acc, operand),
    }
}

/// The accumulator after one step, absent once any earlier step was.
pub open spec fn advance(acc: Option<int>, step: Step, q: Seq<int>) -> Option<int> {
    match acc {
        Some(a) => apply(step.operation, a, Some(q[step.operand as int])),
        None => None,
    }
}

/// The six evaluation patterns. Every pattern uses each operation once and
/// each of the operands 1, 2, 3 once. Two of the six orders of the operations,
/// subtract-divide-multiply and divide-multiply-subtract, would divide before
/// they multiply; there the multiplication is moved in front of the division
/// and the two keep their operands, so that no fraction arises midway.
pub open spec fn patterns() -> Seq<Seq<Step>> {
    seq![
        seq![
            Step { operation: Operation::Sub, operand: 1 },
            Step { operation: Operation::Mul, operand: 2 },
            Step { operation: Operation::Div, operand: 3 },
        ],
        seq![
            Step { operation: Operation::Sub, operand: 1 },
            Step { operation: Operation::Mul, operand: 3 },
            Step { operation: Operation::Div, operand: 2 },
        ],
        seq![
            Step { operation: Operation::Mul, operand: 1 },
            Step { operation: Operation::Sub, operand: 2 },
            Step { operation: Operation::Div, operand: 3 },
        ],
        seq![
            Step { operation: Operation::Mul, operand: 1 },
            Step { operation: Operation::Div, operand: 2 },
            Step { operation: Operation::Sub, operand: 3 },
        ],
        seq![
            Step { operation: Operation::Div, operand: 1 },
            Step { operation: Operation::Sub, operand: 2 },
            Step { operation: Operation::Mul, operand: 3 },
        ],
        seq![
            Step { operation: Operation::Mul, operand: 2 },
            Step { operation: Operation::Div, operand: 1 },
            Step { operation: Operation::Sub, operand: 3 },
        ],
    ]
}

/// The accumulator of pattern `k` on the operands `q` after its first `n`
/// steps.
pub open spec fn partial_value(q: Seq<int>, k: int, n: int) -> Option<int>
    decreases n,
{
    if n <= 0 {
        Some(q[0])
    } else {
        advance(partial_value(q, k, n - 1), patterns()[k][n - 1], q)
    }
}

/// The result of pattern `k` on the operands `q`.
pub open spec fn pattern_value(q: Seq<int>, k: int) -> Option<int> {
    partial_value(q, k, 3)
}

/// The smaller of two optional values, where an absent one never wins.
pub open spec fn least(a: Option<int>, b: Option<int>) -> Option<int> {
    match (a, b) {
        (Some(x), Some(y)) => if y < x { b } else { a },
        (Some(_), None) => a,
        (None, _) => b,
    }
}

/// The least result among the first `n` patterns.
pub open spec fn least_of_first(q: Seq<int>, n: int) -> Option<int>
    decreases n,
{
    if n <= 0 {
        None
    } else {
        least(least_of_first(q, n - 1), pattern_value(q, n - 1))
    }
}

/// The core of four operands: the least result over the six patterns.
pub open spec fn core_value(q: Seq<int>) -> Option<int> {
    least_of_first(q, 6)
}

/// The operands as mathematical integers.
pub open spec fn operands(input: [usize; 4]) -> Seq<int> {
    Seq::new(4, |i: int| input@[i] as int)
}

/// No pattern leaves the machine word on these operands: every product that
/// a pattern reaches fits a `usize`.
pub open spec fn in_native_range(q: Seq<int>) -> bool {
    forall|k: int, n: int|
        0 <= k < 6 && 0 <= n <= 3 ==> match #[trigger] partial_value(q, k, n) {
            Some(v) => v <= usize::MAX,
            None => true,
        }
}

/// The steps of pattern `k`.
fn pattern(k: usize) -> (steps: [Step; 3])
    requires
        k < 6,
    ensures
        steps@ == patterns()[k as int],
{
    let steps = if k == 0 {
        [
            Step { operation: Operation::Sub, operand: 1 },
            Step { operation: Operation::Mul, operand: 2 },
            Step { operation: Operation::Div, operand: 3 },
        ]
    } else if k == 1 {
        [
            Step { operation: Operation::Sub, operand: 1 },
            Step { operation: Operation::Mul, operand: 3 },
            Step { operation: Operation::Div, operand: 2 },
        ]
    } else if k == 2 {
        [
            Step { operation: Operation::Mul, operand: 1 },
            Step { operation: Operation::Sub, operand: 2 },
            Step { operation: Operation::Div, operand: 3 },
        ]
    } else if k == 3 {
        [
            Step { operation: Operation::Mul, operand: 1 },
            Step { operation: Operation::Div, operand: 2 },
            Step { operation: Operation::Sub, operand: 3 },
        ]
    } else if k == 4 {
        [
            Step { operation: Operation::Div, operand: 1 },
            Step { operation: Operation::Sub, operand: 2 },
            Step { operation: Operation::Mul, operand: 3 },
        ]
    } else {
        [
            Step { operation: Operation::Mul, operand: 2 },
            Step { operation: Operation::Div, operand: 1 },
            Step { operation: Operation::Sub, operand: 3 },
        ]
    };
    assert(steps@ =~= patterns()[k as int]);
    steps
}

/// Takes one step of a pattern from the accumulator `acc`.
fn take_step(acc: usize, step: Step, input: &[usize; 4]) -> (r: OptU)
    requires
        step.operand < 4,
        step.operation == Operation::Mul ==> acc * input@[step.operand as int] <= usize::MAX,
    ensures
        value_of(r) == advance(Some(acc as int), step, operands(*input)),
{
    let operand = Some(input[step.operand]);
    match step.operation {
        Operation::Sub => s_sub(acc, operand),
        Operation::Mul => s_mul(acc, operand),
        Operation::Div => s_div(acc, operand),
    }
}

/// The smaller of two optional results, where an absent one never wins.
fn keep_least(a: OptU, b: OptU) -> (r: OptU)
    ensures
        value_of(r) == least(value_of(a), value_of(b)),
{
    match (a, b) {
        (Some(x), Some(y)) => if y < x { b } else { a },
        (Some(_), None) => a,
        (None, _) => b,
    }
}

/// The core of four operands: applies each of the six patterns to them and
/// returns the least result, or nothing where no pattern stays whole.
pub fn find_core(input: [usize; 4]) -> (r: OptU)
    requires
        in_native_range(operands(input)),
    ensures
        value_of(r) == core_value(operands(input)),
{
    let ghost q = operands(input);
    let mut best: OptU = None;
    let mut k: usize = 0;
    while k < 6
        invariant
            k <= 6,
            q == operands(input),
            in_native_range(q),
            value_of(best) == least_of_first(q, k as int),
        decreases 6 - k,
    {
        let steps = pattern(k);
        let mut acc: OptU = Some(input[0]);
        let mut n: usize = 0;
        while n < 3
            invariant
                n <= 3,
                k < 6,
                q == operands(input),
                in_native_range(q),
                steps@ == patterns()[k as int],
                value_of(acc) == partial_value(q, k as int, n as int),
            decreases 3 - n,
        {
            let ghost next = partial_value(q, k as int, n + 1);
            assert(next == advance(value_of(acc), steps@[n as int], q));
            acc = match acc {
                Some(a) => take_step(a, steps[n], &input),
                None => None,
            };
            n += 1;
        }
        best = keep_least(best, acc);
        k += 1;
    }
    best
}

/// Whether `find_core` can work on these operands within the machine word:
/// whether every product that a pattern reaches fits a `usize`.
pub fn fits_native_range(input: [usize; 4]) -> (r: bool)
    ensures
        r == in_native_range(operands(input)),
{
    let ghost q = operands(input);
    let mut k: usize = 0;
    while k < 6
        invariant
            k <= 6,
            q == operands(input),
            forall|k2: int, n: int|
                0 <= k2 < k && 0 <= n <= 3 ==> match #[trigger] partial_value(q, k2, n) {
                    Some(v) => v <= usize::MAX,
                    None => true,
                },
        decreases 6 - k,
    {
        let steps = pattern(k);
        let mut acc: OptU = Some(input[0]);
        let mut n: usize = 0;
        while n < 3
            invariant
                n <= 3,
                k < 6,
                q == operands(input),
                steps@ == patterns()[k as int],
                value_of(acc) == partial_value(q, k as int, n as int),
                forall|m: int|
                    0 <= m <= n ==> match #[trigger] partial_value(q, k as int, m) {
                        Some(v) => v <= usize::MAX,
                        None => true,
                    },
            decreases 3 - n,
        {
            let ghost next = partial_value(q, k as int, n + 1);
            assert(next == advance(value_of(acc), steps@[n as int], q));
            if let Some(a) = acc {
                let step = steps[n];
                if step.operation == Operation::Mul {
                    if a.checked_mul(input[step.operand]).is_none() {
                        assert(next == Some(a * input@[step.operand as int]));
                        return false;
                    }
                }
                acc = take_step(a, step, &input);
            }
            n += 1;
        }
        k += 1;
    }
    true
}

/// The core is absent exactly when every pattern's result is; where it is
/// present it is the result of a pattern, and no pattern has a smaller one.
pub proof fn lemma_core_is_least(q: Seq<int>)
    ensures
        core_value(q).is_none() <==> forall|k: int|
            0 <= k < 6 ==> (#[trigger] pattern_value(q, k)).is_none(),
        core_value(q).is_some() ==> exists|k: int|
            0 <= k < 6 && #[trigger] pattern_value(q, k) == core_value(q),
        forall|k: int|
            0 <= k < 6 && (#[trigger] pattern_value(q, k)).is_some() ==> core_value(q).is_some()
                && core_value(q).unwrap() <= pattern_value(q, k).unwrap(),
{
    reveal_with_fuel(least_of_first, 7);
    let v = core_value(q);
    if v.is_some() {
        assert(pattern_value(q, 0) == v || pattern_value(q, 1) == v || pattern_value(q, 2) == v
            || pattern_value(q, 3) == v || pattern_value(q, 4) == v || pattern_value(q, 5) == v);
    }
}

} // verus!
