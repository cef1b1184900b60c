//! Ordering positions by the numbers found there.

use vstd::prelude::*;

use crate::binary64::Binary64;

verus! {

/// Whether every key has a place in the order of numbers.
pub open spec fn all_ordered(keys: Seq<Binary64>) -> bool {
    forall|i: int| 0 <= i < keys.len() ==> !(#[trigger] keys[i]).nan()
}

/// Whether position `i` comes before position `j`: its key is less, or the keys are equal and it
/// is the earlier one.
pub open spec fn precedes(keys: Seq<Binary64>, i: int, j: int) -> bool {
    keys[i].value() < keys[j].value() || (keys[i].value() == keys[j].value() && i < j)
}

/// Whether `order` lists distinct positions from `lo` to `hi`.
pub open spec fn lists_positions(order: Seq<usize>, lo: int, hi: int) -> bool {
    &&& forall|a: int| 0 <= a < order.len() ==> lo <= #[trigger] order[a] < hi
    &&& forall|a: int, b: int|
        0 <= a < b < order.len() ==> #[trigger] order[a] != #[trigger] order[b]
}

/// Whether the positions in `order` come one before the other.
pub open spec fn in_order(keys: Seq<Binary64>, order: Seq<usize>) -> bool {
    forall|a: int, b: int|
        0 <= a < b < order.len() ==> precedes(
            keys,
            #[trigger] order[a] as int,
            #[trigger] order[b] as int,
        )
}

/// Whether no key is less than another: each two are equal, or one of them is a NaN.
pub open spec fn none_below(keys: Seq<Binary64>) -> bool {
    forall|i: int, j: int|
        0 <= i < keys.len() && 0 <= j < keys.len() ==> !(#[trigger] keys[i]).below(
            #[trigger] keys[j],
        )
}

/// Whether the positions in `order` are in their original order.
pub open spec fn in_original_order(order: Seq<usize>) -> bool {
    forall|a: int, b: int| 0 <= a < b < order.len() ==> #[trigger] order[a] < #[trigger] order[b]
}

/// Whether `order` lists every position of `keys` once. Where no key is a NaN, the positions
/// come by increasing key, equal keys in their original order. Where no key is less than
/// another, all positions come in their original order.
pub open spec fn is_ranking(keys: Seq<Binary64>, order: Seq<usize>) -> bool {
    &&& order.len() == keys.len()
    &&& lists_positions(order, 0, keys.len() as int)
    &&& all_ordered(keys) ==> in_order(keys, order)
    &&& none_below(keys) ==> in_original_order(order)
}

/// Whether the `i`-th position of `rest` onwards all come after those in `order`.
spec fn all_before(keys: Seq<Binary64>, order: Seq<usize>, rest: Seq<usize>, i: int) -> bool {
    forall|a: int, b: int|
        0 <= a < order.len() && i <= b < rest.len() ==> precedes(
            keys,
            #[trigger] order[a] as int,
            #[trigger] rest[b] as int,
        )
}

/// Whether every position in `order` is among the first `i` of `left` or the first `j` of
/// `right`.
spec fn drawn_from(
    order: Seq<usize>,
    left: Seq<usize>,
    i: int,
    right: Seq<usize>,
    j: int,
    mid: int,
) -> bool {
    forall|a: int|
        0 <= a < order.len() ==> {
            ||| #[trigger] order[a] < mid && exists|b: int| 0 <= b < i && left[b] == order[a]
            ||| order[a] >= mid && exists|b: int| 0 <= b < j && right[b] == order[a]
        }
}

/// Merges two ordered lists of positions, those of `left` first where keys are equal.
fn merge(
    keys: &Vec<Binary64>,
    left: &Vec<usize>,
    right: &Vec<usize>,
    Ghost(lo): Ghost<int>,
    Ghost(mid): Ghost<int>,
    Ghost(hi): Ghost<int>,
) -> (order: Vec<usize>)
    requires
        0 <= lo <= mid <= hi <= keys@.len(),
        lists_positions(left@, lo, mid),
        lists_positions(right@, mid, hi),
        left@.len() + right@.len() <= usize::MAX,
        all_ordered(keys@) ==> in_order(keys@, left@) && in_order(keys@, right@),
        none_below(keys@) ==> in_original_order(left@) && in_original_order(right@),
    ensures
        order@.len() == left@.len() + right@.len(),
        lists_positions(order@, lo, hi),
        all_ordered(keys@) ==> in_order(keys@, order@),
        none_below(keys@) ==> in_original_order(order@),
{
    let mut order: Vec<usize> = Vec::with_capacity(left.len() + right.len());
    let mut i: usize = 0;
    let mut j: usize = 0;
    while i < left.len() || j < right.len()
        invariant
            0 <= lo <= mid <= hi <= keys@.len(),
            i <= left@.len(),
            j <= right@.len(),
            order@.len() == i + j,
            lists_positions(left@, lo, mid),
            lists_positions(right@, mid, hi),
            lists_positions(order@, lo, hi),
            drawn_from(order@, left@, i as int, right@, j as int, mid),
            all_ordered(keys@) ==> {
                &&& in_order(keys@, left@)
                &&& in_order(keys@, right@)
                &&& in_order(keys@, order@)
                &&& all_before(keys@, order@, left@, i as int)
                &&& all_before(keys@, order@, right@, j as int)
            },
            none_below(keys@) ==> {
                &&& in_original_order(left@)
                &&& in_original_order(right@)
                &&& j > 0 ==> i == left@.len()
                &&& order@ =~= left@.take(i as int) + right@.take(j as int)
            },
        decreases left@.len() - i + right@.len() - j,
    {
        let from_right: bool = i >= left.len() || (j < right.len() && keys[right[j]].less_than(
            keys[left[i]],
        ));
        if from_right {
            let next: usize = right[j];
            order.push(next);
            j = j + 1;
        } else {
            let next: usize = left[i];
            order.push(next);
            i = i + 1;
        }
    }
    order
}

/// Ranks the positions from `lo` to `hi`.
fn rank_range(keys: &Vec<Binary64>, lo: usize, hi: usize) -> (order: Vec<usize>)
    requires
        lo <= hi <= keys@.len(),
    ensures
        order@.len() == hi - lo,
        lists_positions(order@, lo as int, hi as int),
        all_ordered(keys@) ==> in_order(keys@, order@),
        none_below(keys@) ==> in_original_order(order@),
    decreases hi - lo,
{
    let mut order: Vec<usize> = Vec::new();
    if hi - lo == 0 {
        return order;
    }
    if hi - lo == 1 {
        order.push(lo);
        return order;
    }
    let mid: usize = lo + (hi - lo) / 2;
    let left: Vec<usize> = rank_range(keys, lo, mid);
    let right: Vec<usize> = rank_range(keys, mid, hi);
    merge(keys, &left, &right, Ghost(lo as int), Ghost(mid as int), Ghost(hi as int))
}

/// Ranks all positions by key, smallest first; equal keys keep their order.
pub fn rank(keys: &Vec<Binary64>) -> (order: Vec<usize>)
    ensures
        is_ranking(keys@, order@),
{
    rank_range(keys, 0, keys.len())
}

/// A ranking holds every position.
pub proof fn lemma_ranking_complete(keys: Seq<Binary64>, order: Seq<usize>, position: int)
    requires
        is_ranking(keys, order),
        0 <= position < keys.len(),
    ensures
        exists|a: int| 0 <= a < order.len() && #[trigger] order[a] == position,
{
    let listed = order.map_values(|p: usize| p as int);
    assert(listed.no_duplicates());
    listed.unique_seq_to_set();
    let found = listed.to_set();
    let all = vstd::set_lib::set_int_range(0, keys.len() as int);
    vstd::set_lib::lemma_int_range(0, keys.len() as int);
    assert forall|p: int| found.contains(p) implies all.contains(p) by {
        let a = choose|a: int| 0 <= a < listed.len() && listed[a] == p;
        assert(lists_positions(order, 0, keys.len() as int));
        assert(0 <= order[a] < keys.len());
    }
    vstd::set_lib::lemma_subset_equality(found, all);
    assert(found.contains(position));
    let a = choose|a: int| 0 <= a < listed.len() && listed[a] == position;
    assert(order[a] == position);
}

/// Numbers that are all ordered have one ranking only.
pub proof fn lemma_ranking_unique(keys: Seq<Binary64>, p: Seq<usize>, q: Seq<usize>)
    requires
        all_ordered(keys),
        is_ranking(keys, p),
        is_ranking(keys, q),
    ensures
        p == q,
{
    assert forall|a: int| 0 <= a < p.len() implies p[a] == q[a] by {
        lemma_ranking_prefix_unique(keys, p, q, a + 1);
    }
    assert(p =~= q);
}

proof fn lemma_ranking_prefix_unique(keys: Seq<Binary64>, p: Seq<usize>, q: Seq<usize>, n: int)
    requires
        all_ordered(keys),
        is_ranking(keys, p),
        is_ranking(keys, q),
        0 <= n <= p.len(),
    ensures
        forall|a: int| 0 <= a < n ==> #[trigger] p[a] == q[a],
    decreases n,
{
    if n > 0 {
        let a = n - 1;
        lemma_ranking_prefix_unique(keys, p, q, a);
        if p[a] != q[a] {
            lemma_ranking_complete(keys, q, p[a] as int);
            lemma_ranking_complete(keys, p, q[a] as int);
            let b = choose|b: int| 0 <= b < q.len() && #[trigger] q[b] == p[a];
            let c = choose|c: int| 0 <= c < p.len() && #[trigger] p[c] == q[a];
            if b < a {
                assert(p[b] == q[b]);
                assert(false);
            }
            if c < a {
                assert(p[c] == q[c]);
                assert(false);
            }
            assert(precedes(keys, q[a] as int, q[b] as int));
            assert(precedes(keys, p[a] as int, p[c] as int));
            assert(false);
        }
    }
}

} // verus!
