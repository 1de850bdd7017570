//! What the priority order of categories decides.
use vstd::prelude::*;

use crate::categorize::categories::{condition_at, first_category, CategoryV, OrderedNode};
use crate::categorize::order::{
    beats, first_ready, is_priority_order, order_has_no_repeats, order_respects_excludes, ready,
};
use crate::decision_tree::laws::holding;
use crate::lang::context::CtxV;
use crate::lang::filter::{holds, FilterV};
use crate::text::lex_lt;

verus! {

/// What a category excludes stands before it in the order.
pub proof fn excluded_names_stand_before(
    ids: Seq<Seq<char>>,
    excludes: Seq<Seq<Seq<char>>>,
    order: Seq<Seq<char>>,
    i: int,
    y: Seq<char>,
    k: int,
)
    requires
        is_priority_order(ids, excludes, order),
        0 <= i < ids.len(),
        excludes[i].contains(y),
        0 <= k < order.len(),
        order[k] == ids[i],
    ensures
        exists|j: int| 0 <= j < k && #[trigger] order[j] == y,
{
    assert(beats(ids, excludes, y, order[k]));
    order_respects_excludes(ids, excludes, order, y, k);
}

/// A name stands before another that could have stood in its place, exactly because it comes first
/// in the alphabet.
pub proof fn ready_names_stand_in_alphabetical_order(
    ids: Seq<Seq<char>>,
    excludes: Seq<Seq<Seq<char>>>,
    order: Seq<Seq<char>>,
    j: int,
    k: int,
)
    requires
        is_priority_order(ids, excludes, order),
        0 <= j < k < order.len(),
        forall|i: int, y: Seq<char>|
            0 <= i < ids.len() && #[trigger] ids[i] == order[k] && #[trigger] excludes[i].contains(
                y,
            ) ==> exists|l: int| 0 <= l < j && #[trigger] order[l] == y,
    ensures
        lex_lt(order[j], order[k]),
{
    assert(first_ready(ids, excludes, order.take(j), order[j]));
    assert(first_ready(ids, excludes, order.take(k), order[k]));
    order_has_no_repeats(ids, excludes, order, j, k);
    assert(!order.take(j).contains(order[k])) by {
        if order.take(j).contains(order[k]) {
            let l = order.take(j).index_of(order[k]);
            assert(order.take(k)[l] == order[k]);
        }
    }
    assert forall|y: Seq<char>| #[trigger] beats(ids, excludes, y, order[k]) implies order.take(
        j,
    ).contains(y) by {
        let i = choose|i: int|
            0 <= i < ids.len() && (#[trigger] ids[i]) == order[k] && excludes[i].contains(y);
        assert(excludes[i].contains(y));
        let l = choose|l: int| 0 <= l < j && #[trigger] order[l] == y;
        assert(order.take(j)[l] == y);
    }
    assert(ready(ids, excludes, order.take(j), order[k]));
}

proof fn lemma_holding(fs: Seq<FilterV>, n: int, i: int, c: CtxV)
    requires
        0 <= n <= fs.len() <= usize::MAX,
        0 <= i <= fs.len(),
        forall|j: int| 0 <= j < i ==> !holds(#[trigger] fs[j], c),
        i < fs.len() ==> holds(fs[i], c),
    ensures
        n <= i ==> holding(fs, n, c).len() == 0,
        i < n ==> holding(fs, n, c).len() > 0 && holding(fs, n, c)[0] == i,
    decreases n,
{
    if n > 0 {
        lemma_holding(fs, n - 1, i, c);
        if n - 1 < i {
            assert(!holds(fs[n - 1], c));
        }
    }
}

/// An object falls into the category of the first place whose condition holds. Where that place is
/// none of a category, or no condition holds, it falls into none.
pub proof fn first_place_that_holds_decides(
    order: Seq<OrderedNode>,
    i: int,
    cats: Seq<CategoryV>,
    c: CtxV,
)
    requires
        0 <= i <= order.len() <= usize::MAX,
        forall|j: int|
            0 <= j < i ==> match #[trigger] order[j] {
                OrderedNode::Category { idx } => !holds(cats[idx as int].condition, c),
                OrderedNode::Skip { condition } => !holds(condition@, c),
            },
        i < order.len() ==> match order[i] {
            OrderedNode::Category { idx } => holds(cats[idx as int].condition, c),
            OrderedNode::Skip { condition } => holds(condition@, c),
        },
    ensures
        first_category(order, cats, c) == (if i < order.len() {
            match order[i] {
                OrderedNode::Category { idx } => Some(idx as int),
                OrderedNode::Skip { .. } => None,
            }
        } else {
            None
        }),
{
    let fs = order.map_values(|n: OrderedNode| condition_at(n, cats));
    assert forall|j: int| 0 <= j < i implies !holds(#[trigger] fs[j], c) by {
        assert(fs[j] == condition_at(order[j], cats));
    }
    lemma_holding(fs, fs.len() as int, i, c);
}

} // verus!
