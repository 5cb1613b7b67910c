//! Digit partitioning: splitting a number into four groups of consecutive
//! digits whose lengths differ by at most one, such that the groups' sum is
//! least.

use crate::arrangements::{
    first_occurrences, is_permutation_table, lemma_distinct_orderings, permutations, rows, unique,
};
use crate::digits::{
    count_digits, digit_at, digit_count, digits_of, extract_digit, lemma_digit_count_bounds,
    lemma_digit_count_of_word, lemma_padded_to_own_length, lemma_pow10_adds,
    lemma_pow10_increases, lemma_pow10_step, padded_digits, pow10, power_of_ten,
};
use vstd::arithmetic::div_mod::{
    lemma_breakdown, lemma_div_denominator, lemma_div_pos_is_pos, lemma_fundamental_div_mod,
    lemma_fundamental_div_mod_converse, lemma_mod_bound, lemma_mod_decreases, lemma_mod_mod,
    lemma_small_mod,
};
use vstd::prelude::*;

verus! {

/// How many digits come before group `i` of a layout.
pub open spec fn layout_start(layout: Seq<nat>, i: int) -> nat
    decreases i,
{
    if i <= 0 {
        0
    } else {
        layout_start(layout, i - 1) + layout[i - 1]
    }
}

/// `layout` gives four group lengths that take up `d` digits.
pub open spec fn is_layout(layout: Seq<nat>, d: nat) -> bool {
    layout.len() == 4 && layout_start(layout, 4) == d
}

/// `layout` is a layout of `d` digits whose lengths differ by at most one.
pub open spec fn is_balanced(layout: Seq<nat>, d: nat) -> bool {
    &&& is_layout(layout, d)
    &&& forall|i: int, j: int| 0 <= i < 4 && 0 <= j < 4 ==> layout[i] <= layout[j] + 1
}

/// The balanced layouts of `d` digits: the different orderings of `d % 4`
/// groups of `d / 4 + 1` digits and the others of `d / 4`, in lexicographic
/// order.
pub open spec fn balanced_layouts(d: nat) -> Seq<Seq<nat>> {
    let s = d / 4;
    let l = s + 1;
    if d % 4 == 0 {
        seq![seq![s, s, s, s]]
    } else if d % 4 == 1 {
        seq![seq![s, s, s, l], seq![s, s, l, s], seq![s, l, s, s], seq![l, s, s, s]]
    } else if d % 4 == 2 {
        seq![
            seq![s, s, l, l],
            seq![s, l, s, l],
            seq![s, l, l, s],
            seq![l, s, s, l],
            seq![l, s, l, s],
            seq![l, l, s, s],
        ]
    } else {
        seq![seq![s, l, l, l], seq![l, s, l, l], seq![l, l, s, l], seq![l, l, l, s]]
    }
}

/// The number that the `len` digits of `n` after its first `start` digits
/// spell.
pub open spec fn group_value(n: nat, start: nat, len: nat) -> nat {
    ((n as int / pow10((digit_count(n) - start - len) as nat)) % pow10(len)) as nat
}

/// The four groups of `n` under a layout.
pub open spec fn quad_of(n: nat, layout: Seq<nat>) -> Seq<nat> {
    Seq::new(4, |i: int| group_value(n, layout_start(layout, i), layout[i]))
}

/// The sum of four groups.
pub open spec fn quad_sum(q: Seq<nat>) -> nat {
    q[0] + q[1] + q[2] + q[3]
}

/// The sums of the groups of `n` under each of the layouts.
pub open spec fn layout_sums(n: nat, layouts: Seq<Seq<nat>>) -> Seq<nat> {
    layouts.map_values(|layout: Seq<nat>| quad_sum(quad_of(n, layout)))
}

/// The position of the least element; of several least ones, the first.
pub open spec fn first_least(sums: Seq<nat>) -> int
    decreases sums.len(),
{
    if sums.len() <= 1 {
        0
    } else {
        let before = first_least(sums.drop_last());
        if sums.last() < sums[before] {
            sums.len() - 1
        } else {
            before
        }
    }
}

/// The balanced layout under which the groups of `n` have the least sum; of
/// several such, the first in the order of `balanced_layouts`.
pub open spec fn best_layout(n: nat) -> Seq<nat> {
    let layouts = balanced_layouts(digit_count(n));
    layouts[first_least(layout_sums(n, layouts))]
}

/// The partition of `n`: its four groups under the best layout.
pub open spec fn partition(n: nat) -> Seq<nat> {
    quad_of(n, best_layout(n))
}

/// The first least element is in range, no larger than any element, and
/// smaller than every element before it.
pub proof fn lemma_first_least(sums: Seq<nat>)
    requires
        sums.len() > 0,
    ensures
        0 <= first_least(sums) < sums.len(),
        forall|i: int| 0 <= i < sums.len() ==> sums[first_least(sums)] <= #[trigger] sums[i],
        forall|i: int| 0 <= i < first_least(sums) ==> sums[first_least(sums)] < #[trigger] sums[i],
    decreases sums.len(),
{
    if sums.len() > 1 {
        lemma_first_least(sums.drop_last());
        let before = first_least(sums.drop_last());
        assert forall|i: int| 0 <= i < sums.len() implies sums[first_least(sums)]
            <= #[trigger] sums[i] by {
            if i < sums.len() - 1 {
                assert(sums.drop_last()[i] == sums[i]);
            }
        }
        assert forall|i: int| 0 <= i < first_least(sums) implies sums[first_least(sums)]
            < #[trigger] sums[i] by {
            assert(sums.drop_last()[i] == sums[i]);
        }
    }
}

/// A layout is balanced exactly when it is one of `balanced_layouts`.
pub proof fn lemma_balanced_layouts(layout: Seq<nat>, d: nat)
    ensures
        is_balanced(layout, d) <==> balanced_layouts(d).contains(layout),
{
    reveal_with_fuel(layout_start, 5);
    let s = d / 4;
    let l = s + 1;
    let all = balanced_layouts(d);
    if is_balanced(layout, d) {
        let (a, b, c, e) = (layout[0], layout[1], layout[2], layout[3]);
        assert(a + b + c + e == d);
        assert(a <= b + 1 && a <= c + 1 && a <= e + 1);
        assert(b <= a + 1 && b <= c + 1 && b <= e + 1);
        assert(c <= a + 1 && c <= b + 1 && c <= e + 1);
        assert(e <= a + 1 && e <= b + 1 && e <= c + 1);
        assert((a == s || a == l) && (b == s || b == l) && (c == s || c == l) && (e == s || e
            == l));
        let i = layout_index(layout, d);
        assert(0 <= i < all.len());
        assert(all[i] =~= layout);
    }
    if all.contains(layout) {
        let i = choose|i: int| 0 <= i < all.len() && all[i] == layout;
        assert(layout.len() == 4);
        assert(layout_start(layout, 4) == layout[0] + layout[1] + layout[2] + layout[3]);
    }
}

/// Where a balanced layout stands among `balanced_layouts`.
pub open spec fn layout_index(layout: Seq<nat>, d: nat) -> int {
    let s = d / 4;
    if d % 4 == 0 {
        0
    } else if d % 4 == 1 {
        if layout[3] != s {
            0
        } else if layout[2] != s {
            1
        } else if layout[1] != s {
            2
        } else {
            3
        }
    } else if d % 4 == 2 {
        if layout[0] == s {
            if layout[1] == s {
                0
            } else if layout[2] == s {
                1
            } else {
                2
            }
        } else {
            if layout[1] != s {
                5
            } else if layout[2] == s {
                3
            } else {
                4
            }
        }
    } else {
        if layout[0] == s {
            0
        } else if layout[1] == s {
            1
        } else if layout[2] == s {
            2
        } else {
            3
        }
    }
}

/// A group is smaller than the power of ten of its length; shifted to its
/// place it does not exceed the number.
pub proof fn lemma_group_bounds(n: nat, start: nat, len: nat)
    requires
        start + len <= digit_count(n),
    ensures
        group_value(n, start, len) < pow10(len),
        group_value(n, start, len) * pow10((digit_count(n) - start - len) as nat) <= n,
{
    let rest = (digit_count(n) - start - len) as nat;
    let shift = pow10(rest);
    lemma_pow10_step(rest);
    lemma_pow10_step(len);
    let a = n as int / shift;
    lemma_div_pos_is_pos(n as int, shift);
    lemma_mod_bound(a, pow10(len));
    lemma_fundamental_div_mod(n as int, shift);
    lemma_mod_bound(n as int, shift);
    let g = group_value(n, start, len) as int;
    lemma_mod_decreases(a as nat, pow10(len) as nat);
    assert(g * shift <= a * shift) by (nonlinear_arith)
        requires
            0 <= g <= a,
            shift > 0,
    ;
    assert(a * shift == shift * a) by (nonlinear_arith);
}

/// Taking one more digit into a group multiplies it by ten and adds the
/// digit.
pub proof fn lemma_group_extend(n: nat, start: nat, len: nat)
    requires
        n > 0,
        start + len + 1 <= digit_count(n),
    ensures
        group_value(n, start, len + 1) == 10 * group_value(n, start, len) + digit_at(
            n,
            start + len + 1,
        ),
{
    let rest = (digit_count(n) - start - len - 1) as nat;
    let shift = pow10(rest);
    lemma_pow10_step(rest);
    lemma_pow10_step(len);
    let a = n as int / shift;
    lemma_div_pos_is_pos(n as int, shift);
    assert(pow10((digit_count(n) - start - len) as nat) == 10 * shift);
    assert(n as int / (shift * 10) == a / 10) by {
        lemma_div_denominator(n as int, shift, 10);
    }
    assert(a % (10 * pow10(len)) == 10 * ((a / 10) % pow10(len)) + a % 10) by {
        lemma_breakdown(a, 10, pow10(len));
    }
    lemma_div_pos_is_pos(a, 10);
    lemma_mod_bound(a / 10, pow10(len));
    lemma_mod_bound(a, 10);
}

/// A group of no digits is zero.
pub proof fn lemma_group_empty(n: nat, start: nat)
    ensures
        group_value(n, start, 0) == 0,
{
    lemma_pow10_step(0);
}

/// What is left of `n` after its first `start` digits is the next group,
/// shifted to its place, and what is left after that group.
proof fn lemma_split_off_group(n: nat, start: nat, len: nat)
    requires
        start + len <= digit_count(n),
    ensures
        n as int % pow10((digit_count(n) - start) as nat) == group_value(n, start, len) * pow10(
            (digit_count(n) - start - len) as nat,
        ) + n as int % pow10((digit_count(n) - start - len) as nat),
{
    let rest = (digit_count(n) - start - len) as nat;
    lemma_pow10_adds(rest, len);
    lemma_breakdown(n as int, pow10(rest), pow10(len));
    lemma_div_pos_is_pos(n as int, pow10(rest));
    lemma_mod_bound(n as int / pow10(rest), pow10(len));
    let g = group_value(n, start, len) as int;
    assert(pow10(rest) * g == g * pow10(rest)) by (nonlinear_arith);
}

/// The place values of the four groups of a layout of the digits of `n`.
pub open spec fn place(n: nat, layout: Seq<nat>, i: int) -> int {
    pow10((digit_count(n) - layout_start(layout, i + 1)) as nat)
}

/// The four groups, each shifted to its place, add up to the number.
pub proof fn lemma_groups_add_up(n: nat, layout: Seq<nat>)
    requires
        is_layout(layout, digit_count(n)),
    ensures
        ({
            let q = quad_of(n, layout);
            n == q[0] * place(n, layout, 0) + q[1] * place(n, layout, 1) + q[2] * place(
                n,
                layout,
                2,
            ) + q[3] * place(n, layout, 3)
        }),
        place(n, layout, 3) == 1,
        forall|i: int| 0 <= i < 4 ==> #[trigger] place(n, layout, i) >= 1,
{
    reveal_with_fuel(layout_start, 5);
    let d = digit_count(n);
    lemma_digit_count_bounds(n);
    lemma_small_mod(n, pow10(d) as nat);
    lemma_pow10_step(0);
    lemma_split_off_group(n, layout_start(layout, 0), layout[0]);
    lemma_split_off_group(n, layout_start(layout, 1), layout[1]);
    lemma_split_off_group(n, layout_start(layout, 2), layout[2]);
    lemma_split_off_group(n, layout_start(layout, 3), layout[3]);
    assert forall|i: int| 0 <= i < 4 implies #[trigger] place(n, layout, i) >= 1 by {
        lemma_pow10_step((d - layout_start(layout, i + 1)) as nat);
    }
}

/// The sum of the four groups does not exceed the number, and stays below
/// it where no group is empty.
pub proof fn lemma_sum_below_number(n: nat, layout: Seq<nat>)
    requires
        n > 0,
        is_layout(layout, digit_count(n)),
    ensures
        quad_sum(quad_of(n, layout)) <= n,
        (forall|i: int| 0 <= i < 4 ==> layout[i] >= 1) ==> quad_sum(quad_of(n, layout)) < n,
{
    reveal_with_fuel(layout_start, 5);
    let q = quad_of(n, layout);
    let d = digit_count(n);
    lemma_groups_add_up(n, layout);
    let (w0, w1, w2, w3) = (
        place(n, layout, 0),
        place(n, layout, 1),
        place(n, layout, 2),
        place(n, layout, 3),
    );
    assert(w0 >= 1 && w1 >= 1 && w2 >= 1 && w3 >= 1);
    let (q0, q1, q2, q3) = (q[0] as int, q[1] as int, q[2] as int, q[3] as int);
    assert(q0 * w0 >= q0 && q1 * w1 >= q1 && q2 * w2 >= q2 && q3 * w3 >= q3) by (nonlinear_arith)
        requires
            w0 >= 1 && w1 >= 1 && w2 >= 1 && w3 >= 1,
            q0 >= 0 && q1 >= 0 && q2 >= 0 && q3 >= 0,
    ;
    if forall|i: int| 0 <= i < 4 ==> layout[i] >= 1 {
        assert(layout[0] >= 1 && layout[1] >= 1);
        // the first group holds the leading digit, and stands at least a ten
        lemma_digit_count_bounds(n);
        let rest = (d - layout[0]) as nat;
        lemma_pow10_increases(rest, (d - 1) as nat);
        lemma_pow10_adds(rest, layout[0]);
        lemma_pow10_increases(1, rest);
        lemma_pow10_step(0);
        let a = n as int / pow10(rest);
        assert(a >= 1) by {
            lemma_fundamental_div_mod(n as int, pow10(rest));
            lemma_mod_bound(n as int, pow10(rest));
            lemma_div_pos_is_pos(n as int, pow10(rest));
            if a == 0 {
                assert(pow10(rest) * 0 == 0);
            }
        }
        assert(a < pow10(layout[0])) by {
            lemma_fundamental_div_mod(n as int, pow10(rest));
            lemma_mod_bound(n as int, pow10(rest));
            let p = pow10(rest);
            let m = pow10(layout[0]);
            assert(a < m) by (nonlinear_arith)
                requires
                    p * a <= n,
                    n < p * m,
                    p > 0,
            ;
        }
        lemma_small_mod(a as nat, pow10(layout[0]) as nat);
        assert(q0 == a);
        assert(w0 == pow10(rest));
        assert(q0 * w0 >= q0 + 9) by (nonlinear_arith)
            requires
                w0 >= 10,
                q0 >= 1,
        ;
    }
}

/// The digits of a group, padded to the group's length, are the digits of
/// the number at the group's place.
pub proof fn lemma_group_digits(n: nat, start: nat, len: nat)
    requires
        start + len <= digit_count(n),
    ensures
        padded_digits(group_value(n, start, len), len) == digits_of(n).subrange(
            start as int,
            (start + len) as int,
        ),
{
    let d = digit_count(n);
    let g = group_value(n, start, len);
    let rest = (d - start - len) as nat;
    let a = n as int / pow10(rest);
    lemma_pow10_step(rest);
    lemma_div_pos_is_pos(n as int, pow10(rest));
    assert forall|i: int| 0 <= i < len implies padded_digits(g, len)[i] == digits_of(n)[start
        + i] by {
        let j = (len - 1 - i) as nat;
        let low = pow10(j);
        let high = pow10((len - j) as nat);
        lemma_pow10_adds(j, (len - j) as nat);
        lemma_pow10_step((len - j - 1) as nat);
        // the group, cut below digit j
        lemma_breakdown(a, low, high);
        lemma_div_pos_is_pos(a, low);
        lemma_mod_bound(a / low, high);
        lemma_mod_bound(a, low);
        let upper = (a / low) % high;
        assert(low * upper == upper * low) by (nonlinear_arith);
        lemma_fundamental_div_mod_converse(g as int, low, upper, a % low);
        assert(g as int / low == upper);
        // its last digit
        lemma_mod_mod(a / low, 10, pow10((len - j - 1) as nat));
        assert(upper % 10 == (a / low) % 10);
        // the same digit of the number
        lemma_pow10_adds(rest, j);
        lemma_div_denominator(n as int, pow10(rest), low);
        assert(a / low == n as int / pow10(rest + j));
        if n == 0 {
            assert(0int / pow10(rest + j) == 0) by (nonlinear_arith)
                requires
                    pow10(rest + j) > 0,
            ;
        }
    }
    assert(padded_digits(g, len) =~= digits_of(n).subrange(
        start as int,
        (start + len) as int,
    ));
}

/// The digits of the four groups of a layout, each group padded to its
/// length, spell the number when put one after the other.
pub proof fn lemma_groups_spell_number(n: nat, layout: Seq<nat>)
    requires
        is_layout(layout, digit_count(n)),
    ensures
        ({
            let q = quad_of(n, layout);
            padded_digits(q[0], layout[0]) + padded_digits(q[1], layout[1]) + padded_digits(
                q[2],
                layout[2],
            ) + padded_digits(q[3], layout[3]) == digits_of(n)
        }),
{
    reveal_with_fuel(layout_start, 5);
    let q = quad_of(n, layout);
    lemma_group_digits(n, layout_start(layout, 0), layout[0]);
    lemma_group_digits(n, layout_start(layout, 1), layout[1]);
    lemma_group_digits(n, layout_start(layout, 2), layout[2]);
    lemma_group_digits(n, layout_start(layout, 3), layout[3]);
    assert(padded_digits(q[0], layout[0]) + padded_digits(q[1], layout[1]) + padded_digits(
        q[2],
        layout[2],
    ) + padded_digits(q[3], layout[3]) =~= digits_of(n));
}

/// The best layout is balanced, and under no balanced layout do the groups
/// of `n` have a smaller sum than its partition has.
pub proof fn lemma_partition_is_least(n: nat, layout: Seq<nat>)
    requires
        is_balanced(layout, digit_count(n)),
    ensures
        is_balanced(best_layout(n), digit_count(n)),
        quad_sum(partition(n)) <= quad_sum(quad_of(n, layout)),
{
    let d = digit_count(n);
    let layouts = balanced_layouts(d);
    let sums = layout_sums(n, layouts);
    lemma_first_least(sums);
    lemma_balanced_layouts(layout, d);
    let i = choose|i: int| 0 <= i < layouts.len() && layouts[i] == layout;
    assert(sums[first_least(sums)] <= sums[i]);
    lemma_balanced_layouts(best_layout(n), d);
}

/// Digit reconstruction: the decimal digits of the four groups of the
/// partition of `n`, put one after the other, are the decimal digits of `n`,
/// where every group has as many digits as its place in `n` is long, that
/// is, where no group but a single 0 begins with the digit 0.
pub proof fn lemma_partition_keeps_digits(n: nat)
    requires
        n > 999,
        forall|i: int| 0 <= i < 4 ==> digit_count(#[trigger] partition(n)[i]) == best_layout(n)[i],
    ensures
        ({
            let q = partition(n);
            digits_of(q[0]) + digits_of(q[1]) + digits_of(q[2]) + digits_of(q[3]) == digits_of(n)
        }),
{
    let q = partition(n);
    let layout = best_layout(n);
    let d = digit_count(n);
    let layouts = balanced_layouts(d);
    lemma_first_least(layout_sums(n, layouts));
    lemma_balanced_layouts(layout, d);
    lemma_groups_spell_number(n, layout);
    assert(digit_count(q[0]) == layout[0] && digit_count(q[1]) == layout[1] && digit_count(q[2])
        == layout[2] && digit_count(q[3]) == layout[3]);
    lemma_padded_to_own_length(q[0]);
    lemma_padded_to_own_length(q[1]);
    lemma_padded_to_own_length(q[2]);
    lemma_padded_to_own_length(q[3]);
}

/// The lengths in a row as natural numbers.
pub open spec fn lengths(row: Seq<u32>) -> Seq<nat> {
    row.map_values(|x: u32| x as nat)
}

/// The groups in an array as natural numbers.
pub open spec fn quad_view(q: [usize; 4]) -> Seq<nat> {
    q@.map_values(|x: usize| x as nat)
}

/// The orderings of the group lengths for `digits` digits, less the repeated
/// ones, are the balanced layouts.
proof fn lemma_splits_are_layouts(
    all: Seq<Seq<u32>>,
    kept: Seq<Seq<u32>>,
    base: Seq<u32>,
    digits: u32,
)
    requires
        is_permutation_table(all, base, 4),
        kept == first_occurrences(all),
        ({
            let s = (digits / 4) as u32;
            let l = (s + 1) as u32;
            &&& digits % 4 == 0 ==> base == seq![s, s, s, s]
            &&& digits % 4 == 1 ==> base == seq![s, s, s, l]
            &&& digits % 4 == 2 ==> base == seq![s, s, l, l]
            &&& digits % 4 == 3 ==> base == seq![s, l, l, l]
        }),
    ensures
        kept.len() == balanced_layouts(digits as nat).len(),
        forall|i: int|
            0 <= i < kept.len() ==> lengths(#[trigger] kept[i]) == balanced_layouts(
                digits as nat,
            )[i],
{
    let s = (digits / 4) as u32;
    let l = (s + 1) as u32;
    lemma_distinct_orderings(all, base, s, l);
    let layouts = balanced_layouts(digits as nat);
    assert(kept.len() == layouts.len());
    assert forall|i: int| 0 <= i < kept.len() implies lengths(#[trigger] kept[i])
        == layouts[i] by {
        assert(lengths(kept[i]) =~= layouts[i]);
    }
}

/// The balanced layouts of `digits` digits, in the order of
/// `balanced_layouts`: every ordering of the group lengths, less the
/// repeated ones.
pub fn balanced_splits(digits: u32) -> (splits: Vec<Vec<u32>>)
    ensures
        splits@.len() == balanced_layouts(digits as nat).len(),
        forall|i: int|
            0 <= i < splits@.len() ==> lengths(#[trigger] splits@[i]@) == balanced_layouts(
                digits as nat,
            )[i],
{
    let small_size: u32 = digits / 4;
    let large_size: u32 = small_size + 1;
    let large_count: u32 = digits % 4;
    let base_splits: [u32; 4] = if large_count == 0 {
        [small_size, small_size, small_size, small_size]
    } else if large_count == 1 {
        [small_size, small_size, small_size, large_size]
    } else if large_count == 2 {
        [small_size, small_size, large_size, large_size]
    } else {
        [small_size, large_size, large_size, large_size]
    };
    proof {
        let (s, l) = (small_size, large_size);
        if large_count == 0 {
            assert(base_splits@ =~= seq![s, s, s, s]);
        } else if large_count == 1 {
            assert(base_splits@ =~= seq![s, s, s, l]);
        } else if large_count == 2 {
            assert(base_splits@ =~= seq![s, s, l, l]);
        } else {
            assert(base_splits@ =~= seq![s, l, l, l]);
        }
    }
    let all = permutations(base_splits, 4);
    let splits = unique(all);
    proof {
        lemma_splits_are_layouts(rows(all@), rows(splits@), base_splits@, digits);
        assert forall|i: int| 0 <= i < splits@.len() implies lengths(#[trigger] splits@[i]@)
            == balanced_layouts(digits as nat)[i] by {
            assert(rows(splits@)[i] == splits@[i]@);
        }
    }
    splits
}

/// The four groups of `input` under the layout `split`, read digit by
/// digit.
fn split_by(input: usize, split: &Vec<u32>) -> (candidate_numbers: [usize; 4])
    requires
        input > 0,
        is_layout(lengths(split@), digit_count(input as nat)),
    ensures
        quad_view(candidate_numbers) == quad_of(input as nat, lengths(split@)),
{
    let ghost n = input as nat;
    let ghost layout = lengths(split@);
    let ghost d = digit_count(n);
    let mut next_digit: u32 = 0;
    let mut candidate_numbers: [usize; 4] = [0;4];
    let mut number: usize = 0;
    proof {
        reveal_with_fuel(layout_start, 5);
        lemma_digit_count_bounds(n);
        lemma_digit_count_of_word(input);
    }
    while number < 4
        invariant
            number <= 4,
            d <= 20,
            n == input,
            n > 0,
            layout == lengths(split@),
            d == digit_count(n),
            is_layout(layout, d),
            next_digit == layout_start(layout, number as int),
            forall|i: int|
                0 <= i < number ==> candidate_numbers@[i] == group_value(
                    n,
                    layout_start(layout, i),
                    layout[i],
                ),
            forall|i: int| number <= i < 4 ==> candidate_numbers@[i] == 0,
        decreases 4 - number,
    {
        let this_split_digits: u32 = split[number];
        let ghost start = layout_start(layout, number as int);
        proof {
            reveal_with_fuel(layout_start, 5);
            assert(layout[number as int] == this_split_digits);
            assert(start + this_split_digits <= d);
            lemma_group_empty(n, start);
            assert(0 * pow10(this_split_digits as nat) == 0);
        }
        let ghost others = candidate_numbers@;
        let mut extract: u32 = this_split_digits;
        while extract > 0
            invariant
                number < 4,
                n == input,
                n > 0,
                d == digit_count(n),
                d <= 20,
                others.len() == 4,
                extract <= this_split_digits,
                start + this_split_digits <= d,
                next_digit == start + (this_split_digits - extract),
                candidate_numbers@[number as int] == group_value(
                    n,
                    start,
                    (this_split_digits - extract) as nat,
                ) * pow10(extract as nat),
                forall|i: int|
                    0 <= i < 4 && i != number ==> candidate_numbers@[i] == others[i],
            decreases extract,
        {
            let ghost taken = (this_split_digits - extract) as nat;
            extract = extract - 1;
            next_digit = next_digit + 1;
            proof {
                lemma_group_extend(n, start, taken);
                lemma_group_bounds(n, start, taken + 1);
                lemma_pow10_step(extract as nat);
                lemma_digit_count_bounds(n);
                lemma_pow10_increases(extract as nat, (d - start - taken - 1) as nat);
                lemma_pow10_increases(extract as nat, (d - 1) as nat);
                let p = pow10(extract as nat);
                let far = pow10((d - start - taken - 1) as nat);
                let before = group_value(n, start, taken) as int;
                let after = group_value(n, start, taken + 1) as int;
                let digit = digit_at(n, next_digit as nat);
                assert(after * p == before * (10 * p) + digit * p) by (nonlinear_arith)
                    requires
                        after == 10 * before + digit,
                ;
                assert(after * p <= after * far) by (nonlinear_arith)
                    requires
                        0 <= after,
                        0 < p <= far,
                ;
                assert(0 <= digit * p <= after * p) by (nonlinear_arith)
                    requires
                        after == 10 * before + digit,
                        0 <= before,
                        0 <= digit,
                        0 < p,
                ;
            }
            let tens_actual = power_of_ten(extract);
            let digit = extract_digit(input, next_digit);
            let value = candidate_numbers[number] + digit * tens_actual;
            candidate_numbers[number] = value;
        }
        proof {
            lemma_pow10_step(0);
            let g = group_value(n, start, this_split_digits as nat) as int;
            assert(g * 1 == g);
            assert(candidate_numbers@[number as int] == g);
            assert forall|i: int| 0 <= i < number implies candidate_numbers@[i] == group_value(
                n,
                layout_start(layout, i),
                layout[i],
            ) by {
                assert(candidate_numbers@[i] == others[i]);
            }
            assert forall|i: int| number < i < 4 implies candidate_numbers@[i] == 0 by {
                assert(candidate_numbers@[i] == others[i]);
            }
        }
        number = number + 1;
    }
    assert(quad_view(candidate_numbers) =~= quad_of(n, layout));
    candidate_numbers
}

/// A number above 999 has at least four digits, so none of the groups of a
/// balanced layout of its digits is empty.
pub proof fn lemma_no_empty_group(n: nat, layout: Seq<nat>)
    requires
        n > 999,
        is_balanced(layout, digit_count(n)),
    ensures
        digit_count(n) >= 4,
        forall|i: int| 0 <= i < 4 ==> layout[i] >= 1,
{
    reveal_with_fuel(layout_start, 5);
    reveal_with_fuel(digit_count, 4);
    assert(layout[0] <= layout[1] + 1 && layout[0] <= layout[2] + 1 && layout[0] <= layout[3]
        + 1);
    assert(layout[1] <= layout[0] + 1 && layout[2] <= layout[0] + 1 && layout[3] <= layout[0]
        + 1);
}

/// Splits `input` into four groups of consecutive digits whose lengths
/// differ by at most one. Of all such splits it returns the one whose groups
/// have the least sum; where several have it, the first in the order of
/// `balanced_layouts`. The digits of the groups, each group padded with
/// zeros to its length, spell `input`.
pub fn split_numstring(input: usize) -> (result: [usize; 4])
    requires
        input > 999,
    ensures
        quad_view(result) == partition(input as nat),
        is_balanced(best_layout(input as nat), digit_count(input as nat)),
        forall|layout: Seq<nat>| #[trigger]
            is_balanced(layout, digit_count(input as nat)) ==> quad_sum(quad_view(result))
                <= quad_sum(quad_of(input as nat, layout)),
        ({
            let q = quad_view(result);
            let layout = best_layout(input as nat);
            padded_digits(q[0], layout[0]) + padded_digits(q[1], layout[1]) + padded_digits(
                q[2],
                layout[2],
            ) + padded_digits(q[3], layout[3]) == digits_of(input as nat)
        }),
{
    let digits: u32 = count_digits(input);
    // find the split pattern that results in the smallest total
    let splits = balanced_splits(digits);
    let ghost n = input as nat;
    let ghost layouts = balanced_layouts(digits as nat);
    let ghost sums = layout_sums(n, layouts);
    let mut lowest_sum: usize = usize::MAX;
    let mut result: [usize; 4] = [0;4];
    let mut index: usize = 0;
    while index < splits.len()
        invariant
            n == input,
            n > 999,
            digits == digit_count(n),
            layouts == balanced_layouts(digits as nat),
            sums == layout_sums(n, layouts),
            index <= splits@.len(),
            splits@.len() == layouts.len(),
            forall|i: int| 0 <= i < splits@.len() ==> lengths(#[trigger] splits@[i]@) == layouts[i],
            index == 0 ==> lowest_sum == usize::MAX,
            index > 0 ==> {
                let best = first_least(sums.take(index as int));
                &&& 0 <= best < index
                &&& quad_view(result) == quad_of(n, layouts[best])
                &&& lowest_sum == sums[best]
            },
        decreases splits@.len() - index,
    {
        // run each split and see if its sum is lower than the previous one
        let ghost layout = layouts[index as int];
        proof {
            lemma_balanced_layouts(layout, digits as nat);
            lemma_no_empty_group(n, layout);
            lemma_sum_below_number(n, layout);
            assert(lengths(splits@[index as int]@) == layout);
        }
        let candidate_numbers = split_by(input, &splits[index]);
        let sum: usize = candidate_numbers[0] + candidate_numbers[1] + candidate_numbers[2]
            + candidate_numbers[3];
        proof {
            assert(sum == sums[index as int]);
            let longer = sums.take(index + 1);
            assert(longer.drop_last() =~= sums.take(index as int));
            assert(longer.last() == sums[index as int]);
            if index > 0 {
                lemma_first_least(sums.take(index as int));
            }
        }
        if sum < lowest_sum {
            lowest_sum = sum;
            result = candidate_numbers;
        }
        index = index + 1;
    }
    proof {
        assert(sums.take(index as int) =~= sums);
        lemma_first_least(sums);
        lemma_balanced_layouts(best_layout(n), digits as nat);
        lemma_groups_spell_number(n, best_layout(n));
        assert forall|layout: Seq<nat>| #[trigger]
            is_balanced(layout, digit_count(n)) implies quad_sum(quad_view(result)) <= quad_sum(
            quad_of(n, layout),
        ) by {
            lemma_partition_is_least(n, layout);
        }
    }
    result
}

} // verus!
