//! Arrangements of a short list of group lengths: every ordering of the
//! list, and the orderings that remain once repeated ones are dropped.

use itertools::Itertools;
use vstd::prelude::*;

verus! {

/// The rows of a table as sequences.
pub open spec fn rows(table: Seq<Vec<u32>>) -> Seq<Seq<u32>> {
    table.map_values(|row: Vec<u32>| row@)
}

/// `p` selects `k` different positions of a list of `n` items.
pub open spec fn is_selection(p: Seq<int>, n: int, k: int) -> bool {
    &&& p.len() == k
    &&& forall|i: int| 0 <= i < k ==> 0 <= #[trigger] p[i] < n
    &&& forall|i: int, j: int| 0 <= i < j < k ==> p[i] != p[j]
}

/// `p` and `q` agree before position `d`, where `p` is smaller.
pub open spec fn differ_first_at(p: Seq<int>, q: Seq<int>, d: int) -> bool {
    &&& 0 <= d < p.len()
    &&& d < q.len()
    &&& p[d] < q[d]
    &&& forall|j: int| 0 <= j < d ==> p[j] == q[j]
}

/// `p` comes before `q` in lexicographic order.
pub open spec fn lex_before(p: Seq<int>, q: Seq<int>) -> bool {
    exists|d: int| differ_first_at(p, q, d)
}

/// The items of `items` at the positions `p`, in the order of `p`.
pub open spec fn select(items: Seq<u32>, p: Seq<int>) -> Seq<u32> {
    Seq::new(p.len(), |i: int| items[p[i]])
}

/// `selections` holds every selection of `k` positions out of `n` once, in
/// lexicographic order.
pub open spec fn lists_selections(selections: Seq<Seq<int>>, n: int, k: int) -> bool {
    &&& forall|i: int|
        0 <= i < selections.len() ==> is_selection(#[trigger] selections[i], n, k)
    &&& forall|i: int, j: int|
        0 <= i < j < selections.len() ==> lex_before(#[trigger] selections[i], #[trigger] selections[j])
    &&& forall|p: Seq<int>| #[trigger] is_selection(p, n, k) ==> selections.contains(p)
}

/// `out` goes through `selections` and holds the items that each selects.
pub open spec fn selected_by(out: Seq<Seq<u32>>, items: Seq<u32>, selections: Seq<Seq<int>>) -> bool {
    &&& out.len() == selections.len()
    &&& forall|i: int| 0 <= i < out.len() ==> #[trigger] out[i] == select(items, selections[i])
}

/// `out` holds the `k`-permutations of `items`: one row for every selection
/// of `k` different positions, the selections in lexicographic order. Items
/// that are equal are not told apart, so rows may repeat.
pub open spec fn is_permutation_table(out: Seq<Seq<u32>>, items: Seq<u32>, k: int) -> bool {
    exists|selections: Seq<Seq<int>>|
        lists_selections(selections, items.len() as int, k) && #[trigger] selected_by(
            out,
            items,
            selections,
        )
}

/// What is left of `s` when every element that occurred earlier is dropped.
pub open spec fn first_occurrences<A>(s: Seq<A>) -> Seq<A>
    decreases s.len(),
{
    if s.len() == 0 {
        s
    } else if s.drop_last().contains(s.last()) {
        first_occurrences(s.drop_last())
    } else {
        first_occurrences(s.drop_last()).push(s.last())
    }
}

/// All `k`-permutations of four items.
///
/// Trusted: calls `itertools::Itertools::permutations` on the four items and
/// collects what it yields. The contract claims that it yields one row of
/// length `k` for every way to pick `k` different positions, that the rows
/// come in lexicographic order of the positions picked, and that a row holds
/// the items at those positions; it yields nothing where `k` exceeds four.
#[verifier::external_body]
pub(crate) fn permutations(items: [u32; 4], k: usize) -> (out: Vec<Vec<u32>>)
    ensures
        is_permutation_table(rows(out@), items@, k as int),
{
    items.into_iter().permutations(k).collect()
}

/// The rows of a table without the repeated ones.
///
/// Trusted: calls `itertools::Itertools::unique` on the rows and collects
/// what it yields. The contract claims that it keeps the first of any rows
/// with equal contents, drops the later ones, and leaves the order of the
/// rows it keeps unchanged.
#[verifier::external_body]
pub(crate) fn unique(table: Vec<Vec<u32>>) -> (out: Vec<Vec<u32>>)
    ensures
        rows(out@) == first_occurrences(rows(table@)),
{
    table.into_iter().unique().collect()
}

/// The `i`-th ordering of four positions in lexicographic order, for `i`
/// from 0 to 23.
pub open spec fn ordering(i: int) -> (int, int, int, int) {
    if i == 0 {
        (0, 1, 2, 3)
    } else if i == 1 {
        (0, 1, 3, 2)
    } else if i == 2 {
        (0, 2, 1, 3)
    } else if i == 3 {
        (0, 2, 3, 1)
    } else if i == 4 {
        (0, 3, 1, 2)
    } else if i == 5 {
        (0, 3, 2, 1)
    } else if i == 6 {
        (1, 0, 2, 3)
    } else if i == 7 {
        (1, 0, 3, 2)
    } else if i == 8 {
        (1, 2, 0, 3)
    } else if i == 9 {
        (1, 2, 3, 0)
    } else if i == 10 {
        (1, 3, 0, 2)
    } else if i == 11 {
        (1, 3, 2, 0)
    } else if i == 12 {
        (2, 0, 1, 3)
    } else if i == 13 {
        (2, 0, 3, 1)
    } else if i == 14 {
        (2, 1, 0, 3)
    } else if i == 15 {
        (2, 1, 3, 0)
    } else if i == 16 {
        (2, 3, 0, 1)
    } else if i == 17 {
        (2, 3, 1, 0)
    } else if i == 18 {
        (3, 0, 1, 2)
    } else if i == 19 {
        (3, 0, 2, 1)
    } else if i == 20 {
        (3, 1, 0, 2)
    } else if i == 21 {
        (3, 1, 2, 0)
    } else if i == 22 {
        (3, 2, 0, 1)
    } else {
        (3, 2, 1, 0)
    }
}

/// An ordering as a sequence of positions.
pub open spec fn positions(o: (int, int, int, int)) -> Seq<int> {
    seq![o.0, o.1, o.2, o.3]
}

/// The place of an ordering of four positions among all of them: how many
/// orderings come before it.
pub open spec fn rank(p: Seq<int>) -> int {
    6 * p[0] + 2 * (if p[1] > p[0] {
        p[1] - 1
    } else {
        p[1]
    }) + (if p[2] > p[3] {
        1int
    } else {
        0int
    })
}

/// An ordering of four positions is the one that `ordering` gives at its
/// rank.
proof fn lemma_rank_finds(p: Seq<int>)
    requires
        is_selection(p, 4, 4),
    ensures
        0 <= rank(p) < 24,
        positions(ordering(rank(p))) == p,
{
    let r = rank(p);
    assert(0 <= p[0] < 4 && 0 <= p[1] < 4 && 0 <= p[2] < 4 && 0 <= p[3] < 4);
    assert(p[0] != p[1] && p[0] != p[2] && p[0] != p[3] && p[1] != p[2] && p[1] != p[3] && p[2]
        != p[3]);
    assert(positions(ordering(r)) =~= p);
}

/// What `ordering` gives orders the four positions and has its index as
/// rank.
proof fn lemma_ordering_is_selection(m: int)
    requires
        0 <= m < 24,
    ensures
        is_selection(positions(ordering(m)), 4, 4),
        rank(positions(ordering(m))) == m,
{
    let p = positions(ordering(m));
    assert(p.len() == 4);
    assert(0 <= p[0] < 4 && 0 <= p[1] < 4 && 0 <= p[2] < 4 && 0 <= p[3] < 4);
    assert(p[0] != p[1] && p[0] != p[2] && p[0] != p[3] && p[1] != p[2] && p[1] != p[3] && p[2]
        != p[3]);
}

/// Of two orderings of four positions, the lexicographically earlier one has
/// the smaller rank.
proof fn lemma_rank_follows_order(p: Seq<int>, q: Seq<int>)
    requires
        is_selection(p, 4, 4),
        is_selection(q, 4, 4),
        lex_before(p, q),
    ensures
        rank(p) < rank(q),
{
    let d = choose|d: int| differ_first_at(p, q, d);
    assert(0 <= p[0] < 4 && 0 <= p[1] < 4 && 0 <= p[2] < 4 && 0 <= p[3] < 4);
    assert(0 <= q[0] < 4 && 0 <= q[1] < 4 && 0 <= q[2] < 4 && 0 <= q[3] < 4);
    assert(p[0] != p[1] && p[0] != p[2] && p[0] != p[3] && p[1] != p[2] && p[1] != p[3] && p[2]
        != p[3]);
    assert(q[0] != q[1] && q[0] != q[2] && q[0] != q[3] && q[1] != q[2] && q[1] != q[3] && q[2]
        != q[3]);
    if d == 1 {
        assert(p[0] == q[0]);
    } else if d == 2 {
        assert(p[0] == q[0] && p[1] == q[1]);
    } else if d == 3 {
        assert(p[0] == q[0] && p[1] == q[1] && p[2] == q[2]);
    }
}

/// `s` rises strictly from each element to the next.
pub open spec fn strictly_increasing(s: Seq<int>) -> bool {
    forall|i: int, j: int| 0 <= i < j < s.len() ==> s[i] < s[j]
}

/// Two strictly increasing sequences with the same elements are equal.
proof fn lemma_same_increasing(a: Seq<int>, b: Seq<int>)
    requires
        strictly_increasing(a),
        strictly_increasing(b),
        forall|i: int| 0 <= i < a.len() ==> b.contains(#[trigger] a[i]),
        forall|j: int| 0 <= j < b.len() ==> a.contains(#[trigger] b[j]),
    ensures
        a == b,
    decreases a.len(),
{
    if a.len() == 0 {
        if b.len() > 0 {
            assert(a.contains(b[0]));
        }
        assert(a =~= b);
    } else {
        // each last element is the largest of its sequence and occurs in the other
        let x = a.last();
        assert(b.contains(a[a.len() - 1]));
        let y = b.last();
        assert(a.contains(b[b.len() - 1]));
        assert(x == y);
        let a0 = a.drop_last();
        let b0 = b.drop_last();
        assert forall|i: int| 0 <= i < a0.len() implies b0.contains(#[trigger] a0[i]) by {
            assert(b.contains(a[i]));
            let j = choose|j: int| 0 <= j < b.len() && b[j] == a[i];
            assert(b0[j] == a0[i]);
        }
        assert forall|j: int| 0 <= j < b0.len() implies a0.contains(#[trigger] b0[j]) by {
            assert(a.contains(b[j]));
            let i = choose|i: int| 0 <= i < a.len() && a[i] == b[j];
            assert(a0[i] == b0[j]);
        }
        lemma_same_increasing(a0, b0);
        assert(a =~= a0.push(x));
        assert(b =~= b0.push(y));
    }
}

/// The four items in the `i`-th ordering.
pub open spec fn ordered(items: Seq<u32>, i: int) -> Seq<u32> {
    let o = ordering(i);
    seq![items[o.0], items[o.1], items[o.2], items[o.3]]
}

/// The table of all orderings of four items has 24 rows, and row `i` holds
/// the items in the `i`-th ordering.
proof fn lemma_permutation_table_rows(table: Seq<Seq<u32>>, items: Seq<u32>)
    requires
        items.len() == 4,
        is_permutation_table(table, items, 4),
    ensures
        table.len() == 24,
        forall|i: int| 0 <= i < 24 ==> #[trigger] table[i] == ordered(items, i),
{
    let selections = choose|selections: Seq<Seq<int>>|
        lists_selections(selections, 4, 4) && #[trigger] selected_by(table, items, selections);
    let ranks = selections.map_values(|p: Seq<int>| rank(p));
    let all = Seq::new(24, |i: int| i);
    assert forall|i: int, j: int| 0 <= i < j < ranks.len() implies ranks[i] < ranks[j] by {
        lemma_rank_follows_order(selections[i], selections[j]);
    }
    assert forall|i: int| 0 <= i < ranks.len() implies all.contains(#[trigger] ranks[i]) by {
        lemma_rank_finds(selections[i]);
        assert(all[ranks[i]] == ranks[i]);
    }
    assert forall|m: int| 0 <= m < all.len() implies ranks.contains(#[trigger] all[m]) by {
        let p = positions(ordering(m));
        lemma_ordering_is_selection(m);
        assert(selections.contains(p));
        let i = choose|i: int| 0 <= i < selections.len() && selections[i] == p;
        assert(ranks[i] == m);
    }
    lemma_same_increasing(ranks, all);
    assert forall|i: int| 0 <= i < 24 implies #[trigger] table[i] == ordered(items, i) by {
        lemma_rank_finds(selections[i]);
        assert(ranks[i] == i);
        assert(select(items, selections[i]) =~= ordered(items, i));
    }
}

/// The elements of `s` at the positions `at`.
pub open spec fn elements_at<A>(s: Seq<A>, at: Seq<int>) -> Seq<A> {
    Seq::new(at.len(), |j: int| s[at[j]])
}

/// Where the positions `firsts` rise strictly, hold pairwise different
/// elements of `s`, and every element of `s` equals the one at a position
/// `firsts[class[i]]` that is not behind it, the first occurrences in `s`
/// are the elements at `firsts`.
proof fn lemma_first_occurrences_at<A>(s: Seq<A>, firsts: Seq<int>, class: Seq<int>)
    requires
        strictly_increasing(firsts),
        forall|j: int| 0 <= j < firsts.len() ==> 0 <= #[trigger] firsts[j] < s.len(),
        forall|j: int, k: int| 0 <= j < k < firsts.len() ==> s[firsts[j]] != s[firsts[k]],
        class.len() == s.len(),
        forall|i: int|
            0 <= i < s.len() ==> {
                &&& 0 <= #[trigger] class[i] < firsts.len()
                &&& firsts[class[i]] <= i
                &&& s[firsts[class[i]]] == s[i]
            },
    ensures
        first_occurrences(s) == elements_at(s, firsts),
    decreases s.len(),
{
    if s.len() == 0 {
        if firsts.len() > 0 {
            assert(0 <= firsts[0] < s.len());
        }
        assert(first_occurrences(s) =~= elements_at(s, firsts));
    } else {
        let n = s.len() - 1;
        let shorter = s.drop_last();
        let c = class[n];
        if firsts[c] == n {
            assert(c == firsts.len() - 1) by {
                if c < firsts.len() - 1 {
                    assert(firsts[c] < firsts[firsts.len() - 1]);
                }
            }
            let fewer = firsts.drop_last();
            assert forall|i: int| 0 <= i < shorter.len() implies {
                &&& 0 <= #[trigger] class.drop_last()[i] < fewer.len()
                &&& fewer[class.drop_last()[i]] <= i
                &&& shorter[fewer[class.drop_last()[i]]] == shorter[i]
            } by {
                assert(firsts[class[i]] <= i);
            }
            assert forall|j: int| 0 <= j < fewer.len() implies 0 <= #[trigger] fewer[j]
                < shorter.len() by {
                assert(firsts[j] < firsts[c]);
            }
            lemma_first_occurrences_at(shorter, fewer, class.drop_last());
            if shorter.contains(s.last()) {
                let i = choose|i: int| 0 <= i < shorter.len() && shorter[i] == s.last();
                assert(s[firsts[class[i]]] == s[i]);
                assert(class[i] < c) by {
                    assert(firsts[class[i]] <= i);
                }
                assert(s[firsts[class[i]]] != s[firsts[c]]);
            }
            assert(elements_at(s, firsts) =~= elements_at(shorter, fewer).push(s.last()));
        } else {
            assert forall|j: int| 0 <= j < firsts.len() implies 0 <= #[trigger] firsts[j]
                < shorter.len() by {
                if firsts[j] == n {
                    if j < c {
                        assert(firsts[j] < firsts[c]);
                    } else if c < j {
                        assert(firsts[c] < firsts[j]);
                    }
                }
            }
            assert forall|i: int| 0 <= i < shorter.len() implies {
                &&& 0 <= #[trigger] class.drop_last()[i] < firsts.len()
                &&& firsts[class.drop_last()[i]] <= i
                &&& shorter[firsts[class.drop_last()[i]]] == shorter[i]
            } by {
                assert(firsts[class[i]] <= i);
            }
            lemma_first_occurrences_at(shorter, firsts, class.drop_last());
            assert(shorter[firsts[c]] == s.last());
            assert(elements_at(s, firsts) =~= elements_at(shorter, firsts));
        }
    }
}

/// The orderings of four equal lengths are all the same row.
proof fn lemma_orderings_all_equal(table: Seq<Seq<u32>>, s: u32)
    requires
        table.len() == 24,
        forall|i: int| 0 <= i < 24 ==> #[trigger] table[i] == ordered(seq![s, s, s, s], i),
    ensures
        first_occurrences(table) == seq![seq![s, s, s, s]],
{
    let firsts = seq![0int];
    let class = Seq::new(24, |i: int| 0int);
    assert forall|i: int| 0 <= i < table.len() implies {
        &&& 0 <= #[trigger] class[i] < firsts.len()
        &&& firsts[class[i]] <= i
        &&& table[firsts[class[i]]] == table[i]
    } by {
        assert(table[0] =~= table[i]);
    }
    lemma_first_occurrences_at(table, firsts, class);
    assert(table[0] =~= seq![s, s, s, s]);
    assert(elements_at(table, firsts) =~= seq![seq![s, s, s, s]]);
}

/// Among the orderings of `s, s, s, l`, the first in which `l` stands where
/// it stands in the `i`-th.
spec fn first_like_one_differs_last(s: u32, l: u32, i: int) -> int {
    let row = ordered(seq![s, s, s, l], i);
    if row[3] == l {
        0
    } else if row[2] == l {
        1
    } else if row[1] == l {
        2
    } else {
        3
    }
}

/// `first_like_one_differs_last` finds an ordering that reads the same and
/// does not come later.
proof fn lemma_first_like_one_differs_last(s: u32, l: u32, i: int)
    requires
        0 <= i < 24,
        s != l,
    ensures
        ({
            let firsts = seq![0int, 1, 4, 18];
            let c = first_like_one_differs_last(s, l, i);
            &&& 0 <= c < 4
            &&& firsts[c] <= i
            &&& ordered(seq![s, s, s, l], firsts[c]) == ordered(seq![s, s, s, l], i)
        }),
{
    let firsts = seq![0int, 1, 4, 18];
    let c = first_like_one_differs_last(s, l, i);
    assert(ordered(seq![s, s, s, l], firsts[c]) =~= ordered(seq![s, s, s, l], i));
}

/// The orderings of three equal lengths and a different one, the different
/// one last: it moves from the last place to the first.
proof fn lemma_orderings_one_differs_last(table: Seq<Seq<u32>>, s: u32, l: u32)
    requires
        table.len() == 24,
        forall|i: int| 0 <= i < 24 ==> #[trigger] table[i] == ordered(seq![s, s, s, l], i),
        s != l,
    ensures
        first_occurrences(table) == seq![
            seq![s, s, s, l],
            seq![s, s, l, s],
            seq![s, l, s, s],
            seq![l, s, s, s],
        ],
{
    let firsts = seq![0int, 1, 4, 18];
    let class = Seq::new(24, |i: int| first_like_one_differs_last(s, l, i));
    assert forall|i: int| 0 <= i < table.len() implies {
        &&& 0 <= #[trigger] class[i] < firsts.len()
        &&& firsts[class[i]] <= i
        &&& table[firsts[class[i]]] == table[i]
    } by {
        lemma_first_like_one_differs_last(s, l, i);
    }
    assert(table[0] =~= seq![s, s, s, l]);
    assert(table[1] =~= seq![s, s, l, s]);
    assert(table[4] =~= seq![s, l, s, s]);
    assert(table[18] =~= seq![l, s, s, s]);
    assert forall|j: int, k: int| 0 <= j < k < firsts.len() implies table[firsts[j]]
        != table[firsts[k]] by {
        assert(table[firsts[j]][3 - j] == l);
        assert(table[firsts[k]][3 - j] == s);
    }
    assert(strictly_increasing(firsts));
    lemma_first_occurrences_at(table, firsts, class);
    assert(elements_at(table, firsts) =~= seq![
        seq![s, s, s, l],
        seq![s, s, l, s],
        seq![s, l, s, s],
        seq![l, s, s, s],
    ]);
}

/// Among the orderings of `s, s, l, l`, the first that reads like the
/// `i`-th.
spec fn first_like_two_and_two(s: u32, l: u32, i: int) -> int {
    let row = ordered(seq![s, s, l, l], i);
    if row[0] == s {
        if row[1] == s {
            0
        } else if row[2] == s {
            1
        } else {
            2
        }
    } else {
        if row[1] == l {
            5
        } else if row[2] == s {
            3
        } else {
            4
        }
    }
}

/// `first_like_two_and_two` finds an ordering that reads the same and does
/// not come later.
proof fn lemma_first_like_two_and_two(s: u32, l: u32, i: int)
    requires
        0 <= i < 24,
        s != l,
    ensures
        ({
            let firsts = seq![0int, 2, 3, 12, 13, 16];
            let c = first_like_two_and_two(s, l, i);
            &&& 0 <= c < 6
            &&& firsts[c] <= i
            &&& ordered(seq![s, s, l, l], firsts[c]) == ordered(seq![s, s, l, l], i)
        }),
{
    let firsts = seq![0int, 2, 3, 12, 13, 16];
    let c = first_like_two_and_two(s, l, i);
    assert(ordered(seq![s, s, l, l], firsts[c]) =~= ordered(seq![s, s, l, l], i));
}

/// The orderings of two equal lengths and two equal others, the others
/// last: six rows, in lexicographic order where the others are larger.
proof fn lemma_orderings_two_and_two(table: Seq<Seq<u32>>, s: u32, l: u32)
    requires
        table.len() == 24,
        forall|i: int| 0 <= i < 24 ==> #[trigger] table[i] == ordered(seq![s, s, l, l], i),
        s != l,
    ensures
        first_occurrences(table) == seq![
            seq![s, s, l, l],
            seq![s, l, s, l],
            seq![s, l, l, s],
            seq![l, s, s, l],
            seq![l, s, l, s],
            seq![l, l, s, s],
        ],
{
    let firsts = seq![0int, 2, 3, 12, 13, 16];
    let class = Seq::new(24, |i: int| first_like_two_and_two(s, l, i));
    assert forall|i: int| 0 <= i < table.len() implies {
        &&& 0 <= #[trigger] class[i] < firsts.len()
        &&& firsts[class[i]] <= i
        &&& table[firsts[class[i]]] == table[i]
    } by {
        lemma_first_like_two_and_two(s, l, i);
    }
    assert(table[0] =~= seq![s, s, l, l]);
    assert(table[2] =~= seq![s, l, s, l]);
    assert(table[3] =~= seq![s, l, l, s]);
    assert(table[12] =~= seq![l, s, s, l]);
    assert(table[13] =~= seq![l, s, l, s]);
    assert(table[16] =~= seq![l, l, s, s]);
    assert forall|j: int, k: int| 0 <= j < k < firsts.len() implies table[firsts[j]]
        != table[firsts[k]] by {
        let a = table[firsts[j]];
        let b = table[firsts[k]];
        assert(a[0] != b[0] || a[1] != b[1] || a[2] != b[2]);
    }
    assert(strictly_increasing(firsts));
    lemma_first_occurrences_at(table, firsts, class);
    assert(elements_at(table, firsts) =~= seq![
        seq![s, s, l, l],
        seq![s, l, s, l],
        seq![s, l, l, s],
        seq![l, s, s, l],
        seq![l, s, l, s],
        seq![l, l, s, s],
    ]);
}

/// Among the orderings of `s, l, l, l`, the first in which `s` stands where
/// it stands in the `i`-th.
spec fn first_like_one_differs_first(s: u32, l: u32, i: int) -> int {
    let row = ordered(seq![s, l, l, l], i);
    if row[0] == s {
        0
    } else if row[1] == s {
        1
    } else if row[2] == s {
        2
    } else {
        3
    }
}

/// `first_like_one_differs_first` finds an ordering that reads the same and
/// does not come later.
proof fn lemma_first_like_one_differs_first(s: u32, l: u32, i: int)
    requires
        0 <= i < 24,
        s != l,
    ensures
        ({
            let firsts = seq![0int, 6, 8, 9];
            let c = first_like_one_differs_first(s, l, i);
            &&& 0 <= c < 4
            &&& firsts[c] <= i
            &&& ordered(seq![s, l, l, l], firsts[c]) == ordered(seq![s, l, l, l], i)
        }),
{
    let firsts = seq![0int, 6, 8, 9];
    let c = first_like_one_differs_first(s, l, i);
    assert(ordered(seq![s, l, l, l], firsts[c]) =~= ordered(seq![s, l, l, l], i));
}

/// The orderings of a length and three equal others, the others last: the
/// one moves from the first place to the last.
proof fn lemma_orderings_one_differs_first(table: Seq<Seq<u32>>, s: u32, l: u32)
    requires
        table.len() == 24,
        forall|i: int| 0 <= i < 24 ==> #[trigger] table[i] == ordered(seq![s, l, l, l], i),
        s != l,
    ensures
        first_occurrences(table) == seq![
            seq![s, l, l, l],
            seq![l, s, l, l],
            seq![l, l, s, l],
            seq![l, l, l, s],
        ],
{
    let firsts = seq![0int, 6, 8, 9];
    let class = Seq::new(24, |i: int| first_like_one_differs_first(s, l, i));
    assert forall|i: int| 0 <= i < table.len() implies {
        &&& 0 <= #[trigger] class[i] < firsts.len()
        &&& firsts[class[i]] <= i
        &&& table[firsts[class[i]]] == table[i]
    } by {
        lemma_first_like_one_differs_first(s, l, i);
    }
    assert(table[0] =~= seq![s, l, l, l]);
    assert(table[6] =~= seq![l, s, l, l]);
    assert(table[8] =~= seq![l, l, s, l]);
    assert(table[9] =~= seq![l, l, l, s]);
    assert forall|j: int, k: int| 0 <= j < k < firsts.len() implies table[firsts[j]]
        != table[firsts[k]] by {
        assert(table[firsts[j]][j] == s);
        assert(table[firsts[k]][j] == l);
    }
    assert(strictly_increasing(firsts));
    lemma_first_occurrences_at(table, firsts, class);
    assert(elements_at(table, firsts) =~= seq![
        seq![s, l, l, l],
        seq![l, s, l, l],
        seq![l, l, s, l],
        seq![l, l, l, s],
    ]);
}

/// The rows that remain of the table of all orderings of four lengths of
/// which at most two differ, the smaller ones in front: one row where all
/// are equal, else the different orderings in lexicographic order.
pub proof fn lemma_distinct_orderings(table: Seq<Seq<u32>>, items: Seq<u32>, s: u32, l: u32)
    requires
        is_permutation_table(table, items, 4),
        s != l,
        items == seq![s, s, s, s] || items == seq![s, s, s, l] || items == seq![s, s, l, l]
            || items == seq![s, l, l, l],
    ensures
        items == seq![s, s, s, s] ==> first_occurrences(table) == seq![seq![s, s, s, s]],
        items == seq![s, s, s, l] ==> first_occurrences(table) == seq![
            seq![s, s, s, l],
            seq![s, s, l, s],
            seq![s, l, s, s],
            seq![l, s, s, s],
        ],
        items == seq![s, s, l, l] ==> first_occurrences(table) == seq![
            seq![s, s, l, l],
            seq![s, l, s, l],
            seq![s, l, l, s],
            seq![l, s, s, l],
            seq![l, s, l, s],
            seq![l, l, s, s],
        ],
        items == seq![s, l, l, l] ==> first_occurrences(table) == seq![
            seq![s, l, l, l],
            seq![l, s, l, l],
            seq![l, l, s, l],
            seq![l, l, l, s],
        ],
{
    lemma_permutation_table_rows(table, items);
    if items == seq![s, s, s, s] {
        lemma_orderings_all_equal(table, s);
    } else if items == seq![s, s, s, l] {
        lemma_orderings_one_differs_last(table, s, l);
    } else if items == seq![s, s, l, l] {
        lemma_orderings_two_and_two(table, s, l);
    } else {
        lemma_orderings_one_differs_first(table, s, l);
    }
    assert(seq![s, s, s, s][3] != seq![s, s, s, l][3]);
    assert(seq![s, s, s, s][3] != seq![s, s, l, l][3]);
    assert(seq![s, s, s, s][3] != seq![s, l, l, l][3]);
    assert(seq![s, s, s, l][2] != seq![s, s, l, l][2]);
    assert(seq![s, s, s, l][2] != seq![s, l, l, l][2]);
    assert(seq![s, s, l, l][1] != seq![s, l, l, l][1]);
}

} // verus!
