//! The places that the leaves of a net name: those of the conditions it was made from.
use vstd::prelude::*;

use crate::assoc::lemma_first_position;
use crate::categorize::expr::{decide, ExprV, PredicateV};
use crate::decision_tree::candidates::{folded, leaf_of, CandidateV, LEAF_MAX};
use crate::decision_tree::compile::{are_nets, child_values, initial, is_net};
use crate::decision_tree::kleene::FactV;
use crate::decision_tree::runtime::{net_matches, true_places};
use crate::decision_tree::tree::{
    branch_value, child_position, children_stats, leaf_for, tree_stats, BranchKeyV, TreeV,
};
use crate::lang::context::CtxV;
use crate::number::ReadingsV;

verus! {

/// Whether every place of a leaf is one of a list of `n`.
pub open spec fn leaf_fits(v: Seq<(usize, ExprV)>, n: int) -> bool {
    forall|i: int| 0 <= i < v.len() ==> (#[trigger] v[i]).0 < n
}

/// Whether every place that the tree names is one of a list of `n`.
pub open spec fn fits(t: TreeV, n: int) -> bool {
    forall|c: CtxV| leaf_fits(#[trigger] leaf_for(t, c), n)
}

spec fn within(cs: Seq<CandidateV>, n: int) -> bool {
    forall|i: int| 0 <= i < cs.len() ==> (#[trigger] cs[i]).index < n
}

proof fn lemma_folded_within(cs: Seq<CandidateV>, f: FactV, r: ReadingsV, n: int)
    requires
        within(cs, n),
    ensures
        within(folded(cs, f, r), n),
    decreases cs.len(),
{
    if cs.len() > 0 {
        assert(within(cs.drop_last(), n)) by {
            assert forall|i: int| 0 <= i < cs.drop_last().len() implies (#[trigger] cs.drop_last()[i]).index
                < n by {
                assert(cs.drop_last()[i] == cs[i]);
            }
        }
        lemma_folded_within(cs.drop_last(), f, r, n);
        assert(cs[cs.len() - 1].index < n);
    }
}

proof fn lemma_net_fits(
    t: TreeV,
    cs: Seq<CandidateV>,
    used: Seq<BranchKeyV>,
    used_atoms: Seq<PredicateV>,
    budget: int,
    r: ReadingsV,
    n: int,
    c: CtxV,
)
    requires
        is_net(t, cs, used, used_atoms, budget, r),
        within(cs, n),
    ensures
        leaf_fits(leaf_for(t, c), n),
    decreases budget,
{
    if cs.len() <= LEAF_MAX || budget <= 0 || t is Leaf {
        assert forall|i: int| 0 <= i < leaf_of(cs).len() implies (#[trigger] leaf_of(cs)[i]).0
            < n by {
            assert(cs[i].index < n);
        }
    } else {
        match t {
            TreeV::Leaf(_) => {},
            TreeV::Branch(key, children, wildcard) => {
                let values = child_values(children);
                let other = FactV::Other(key, values);
                lemma_folded_within(cs, other, r, n);
                lemma_net_fits(
                    *wildcard,
                    folded(cs, other, r),
                    used.push(key),
                    used_atoms,
                    budget - 1,
                    r,
                    n,
                    c,
                );
                if branch_value(key, c) is Some {
                    let v = branch_value(key, c)->0;
                    lemma_first_position(children, v);
                    let p = child_position(children, v);
                    if p < children.len() {
                        let f = FactV::Value(key, children[p].0);
                        lemma_folded_within(cs, f, r, n);
                        assert(are_nets(
                            children,
                            cs,
                            key,
                            used.push(key),
                            used_atoms,
                            budget - 1,
                            r,
                        ));
                        lemma_net_fits(
                            children[p].1,
                            folded(cs, f, r),
                            used.push(key),
                            used_atoms,
                            budget - 1,
                            r,
                            n,
                            c,
                        );
                    }
                }
            },
            TreeV::AtomBranch(p, a, b) => {
                let truth = decide(p, c);
                let f = FactV::Atom(p, truth);
                lemma_folded_within(cs, f, r, n);
                lemma_net_fits(
                    if truth {
                        *a
                    } else {
                        *b
                    },
                    folded(cs, f, r),
                    used,
                    used_atoms.push(p),
                    budget - 1,
                    r,
                    n,
                    c,
                );
            },
        }
    }
}

/// A net names only places of the list of conditions that it was made from.
pub proof fn net_names_listed_places(
    t: TreeV,
    es: Seq<ExprV>,
    is_final: bool,
    max_depth: int,
    r: ReadingsV,
)
    requires
        es.len() <= usize::MAX,
        is_net(t, initial(es, is_final), Seq::empty(), Seq::empty(), max_depth, r),
    ensures
        fits(t, es.len() as int),
{
    assert(within(initial(es, is_final), es.len() as int));
    assert forall|c: CtxV| leaf_fits(#[trigger] leaf_for(t, c), es.len() as int) by {
        lemma_net_fits(
            t,
            initial(es, is_final),
            Seq::empty(),
            Seq::empty(),
            max_depth,
            r,
            es.len() as int,
            c,
        );
    }
}

/// Whether every place in every leaf of the tree is one of a list of `n`.
pub open spec fn places_within(t: TreeV, n: int) -> bool
    decreases t,
{
    match t {
        TreeV::Leaf(v) => leaf_fits(v, n),
        TreeV::Branch(_, children, wildcard) => children_within(children, n) && places_within(
            *wildcard,
            n,
        ),
        TreeV::AtomBranch(_, a, b) => places_within(*a, n) && places_within(*b, n),
    }
}

/// Whether every place in every leaf of every child is one of a list of `n`.
pub open spec fn children_within(children: Seq<(Seq<char>, TreeV)>, n: int) -> bool
    decreases children,
{
    forall|i: int| 0 <= i < children.len() ==> places_within((#[trigger] children[i]).1, n)
}

proof fn lemma_net_within(
    t: TreeV,
    cs: Seq<CandidateV>,
    used: Seq<BranchKeyV>,
    used_atoms: Seq<PredicateV>,
    budget: int,
    r: ReadingsV,
    n: int,
)
    requires
        is_net(t, cs, used, used_atoms, budget, r),
        within(cs, n),
    ensures
        places_within(t, n),
    decreases budget,
{
    if cs.len() <= LEAF_MAX || budget <= 0 || t is Leaf {
        assert forall|i: int| 0 <= i < leaf_of(cs).len() implies (#[trigger] leaf_of(cs)[i]).0
            < n by {
            assert(cs[i].index < n);
        }
    } else {
        match t {
            TreeV::Leaf(_) => {},
            TreeV::Branch(key, children, wildcard) => {
                let other = FactV::Other(key, child_values(children));
                let now = used.push(key);
                lemma_folded_within(cs, other, r, n);
                lemma_net_within(
                    *wildcard,
                    folded(cs, other, r),
                    now,
                    used_atoms,
                    budget - 1,
                    r,
                    n,
                );
                assert(are_nets(children, cs, key, now, used_atoms, budget - 1, r));
                assert forall|i: int| 0 <= i < children.len() implies places_within(
                    (#[trigger] children[i]).1,
                    n,
                ) by {
                    let f = FactV::Value(key, children[i].0);
                    lemma_folded_within(cs, f, r, n);
                    lemma_net_within(
                        children[i].1,
                        folded(cs, f, r),
                        now,
                        used_atoms,
                        budget - 1,
                        r,
                        n,
                    );
                }
                assert(children_within(children, n));
            },
            TreeV::AtomBranch(p, a, b) => {
                let now = used_atoms.push(p);
                lemma_folded_within(cs, FactV::Atom(p, true), r, n);
                lemma_folded_within(cs, FactV::Atom(p, false), r, n);
                lemma_net_within(
                    *a,
                    folded(cs, FactV::Atom(p, true), r),
                    used,
                    now,
                    budget - 1,
                    r,
                    n,
                );
                lemma_net_within(
                    *b,
                    folded(cs, FactV::Atom(p, false), r),
                    used,
                    now,
                    budget - 1,
                    r,
                    n,
                );
            },
        }
    }
}

/// Every place in every leaf of a net is one of the list of conditions that it was made from.
pub proof fn net_holds_listed_places(
    t: TreeV,
    es: Seq<ExprV>,
    is_final: bool,
    max_depth: int,
    r: ReadingsV,
)
    requires
        es.len() <= usize::MAX,
        is_net(t, initial(es, is_final), Seq::empty(), Seq::empty(), max_depth, r),
    ensures
        places_within(t, es.len() as int),
{
    assert(within(initial(es, is_final), es.len() as int));
    lemma_net_within(
        t,
        initial(es, is_final),
        Seq::empty(),
        Seq::empty(),
        max_depth,
        r,
        es.len() as int,
    );
}

proof fn lemma_true_places_fit(v: Seq<(usize, ExprV)>, c: CtxV, n: int)
    requires
        leaf_fits(v, n),
    ensures
        forall|i: int| 0 <= i < true_places(v, c).len() ==> #[trigger] true_places(v, c)[i] < n,
    decreases v.len(),
{
    if v.len() > 0 {
        assert(leaf_fits(v.drop_last(), n)) by {
            assert forall|i: int| 0 <= i < v.drop_last().len() implies (#[trigger] v.drop_last()[i]).0
                < n by {
                assert(v.drop_last()[i] == v[i]);
            }
        }
        lemma_true_places_fit(v.drop_last(), c, n);
        assert(v[v.len() - 1].0 < n);
        let rest = true_places(v.drop_last(), c);
        assert forall|i: int| 0 <= i < true_places(v, c).len() implies #[trigger] true_places(
            v,
            c,
        )[i] < n by {
            if i < rest.len() {
                assert(true_places(v, c)[i] == rest[i]);
            }
        }
    }
}

/// Every match of a tree whose places fit a list is a place of that list.
pub proof fn matches_are_listed(t: TreeV, c: CtxV, n: int)
    requires
        fits(t, n),
    ensures
        forall|i: int| 0 <= i < net_matches(t, c).len() ==> #[trigger] net_matches(t, c)[i] < n,
{
    assert(leaf_fits(leaf_for(t, c), n));
    lemma_true_places_fit(leaf_for(t, c), c, n);
}

/// Whether the places of a leaf stand in their order, each once.
pub open spec fn leaf_climbs(v: Seq<(usize, ExprV)>) -> bool {
    forall|i: int, j: int| 0 <= i < j < v.len() ==> (#[trigger] v[i]).0 < (#[trigger] v[j]).0
}

/// Whether the places of every leaf of a tree stand in their order, each once.
pub open spec fn places_climb(t: TreeV) -> bool
    decreases t,
{
    match t {
        TreeV::Leaf(v) => leaf_climbs(v),
        TreeV::Branch(_, children, wildcard) => children_climb(children) && places_climb(*wildcard),
        TreeV::AtomBranch(_, a, b) => places_climb(*a) && places_climb(*b),
    }
}

/// Whether the places of every leaf below some children stand in their order, each once.
pub open spec fn children_climb(children: Seq<(Seq<char>, TreeV)>) -> bool
    decreases children,
{
    forall|i: int| 0 <= i < children.len() ==> places_climb((#[trigger] children[i]).1)
}

spec fn climbs(cs: Seq<CandidateV>) -> bool {
    forall|i: int, j: int| 0 <= i < j < cs.len() ==> (#[trigger] cs[i]).index < (
    #[trigger] cs[j]).index
}

proof fn lemma_folded_climbs(cs: Seq<CandidateV>, f: FactV, r: ReadingsV)
    requires
        climbs(cs),
    ensures
        climbs(folded(cs, f, r)),
    decreases cs.len(),
{
    if cs.len() > 0 {
        let rest = cs.drop_last();
        assert(climbs(rest)) by {
            assert forall|i: int, j: int| 0 <= i < j < rest.len() implies (#[trigger] rest[i]).index
                < (#[trigger] rest[j]).index by {
                assert(rest[i] == cs[i] && rest[j] == cs[j]);
            }
        }
        lemma_folded_climbs(rest, f, r);
        let n = cs.last().index as int;
        assert(within(rest, n)) by {
            assert forall|i: int| 0 <= i < rest.len() implies (#[trigger] rest[i]).index < n by {
                assert(rest[i] == cs[i]);
                assert(cs[i].index < cs[cs.len() - 1].index);
            }
        }
        lemma_folded_within(rest, f, r, n);
        let d = folded(cs, f, r);
        let e = folded(rest, f, r);
        assert forall|i: int, j: int| 0 <= i < j < d.len() implies (#[trigger] d[i]).index < (
        #[trigger] d[j]).index by {
            if j < e.len() {
                assert(d[i] == e[i] && d[j] == e[j]);
            } else {
                assert(d[i] == e[i]);
            }
        }
    }
}

/// The first `n` of some trees at `depth` are no deeper than `limit`.
proof fn lemma_children_depth(
    children: Seq<(Seq<char>, TreeV)>,
    n: int,
    depth: int,
    limit: int,
)
    requires
        0 <= n <= children.len(),
        0 <= limit,
        forall|i: int|
            0 <= i < children.len() ==> tree_stats((#[trigger] children[i]).1, depth).max_depth
                <= limit,
    ensures
        children_stats(children, n, depth).max_depth <= limit,
    decreases n,
{
    if n > 0 {
        lemma_children_depth(children, n - 1, depth, limit);
        assert(tree_stats(children[n - 1].1, depth).max_depth <= limit);
    }
}

proof fn lemma_net_shape(
    t: TreeV,
    cs: Seq<CandidateV>,
    used: Seq<BranchKeyV>,
    used_atoms: Seq<PredicateV>,
    budget: int,
    r: ReadingsV,
    depth: int,
)
    requires
        is_net(t, cs, used, used_atoms, budget, r),
        climbs(cs),
        0 <= budget,
        0 <= depth,
    ensures
        places_climb(t),
        tree_stats(t, depth).max_depth <= depth + budget,
    decreases budget,
{
    if cs.len() <= LEAF_MAX || budget <= 0 || t is Leaf {
        assert forall|i: int, j: int| 0 <= i < j < leaf_of(cs).len() implies (#[trigger] leaf_of(
            cs,
        )[i]).0 < (#[trigger] leaf_of(cs)[j]).0 by {
            assert(cs[i].index < cs[j].index);
        }
    } else {
        match t {
            TreeV::Leaf(_) => {},
            TreeV::Branch(key, children, wildcard) => {
                let other = FactV::Other(key, child_values(children));
                let now = used.push(key);
                lemma_folded_climbs(cs, other, r);
                lemma_net_shape(
                    *wildcard,
                    folded(cs, other, r),
                    now,
                    used_atoms,
                    budget - 1,
                    r,
                    depth + 1,
                );
                assert(are_nets(children, cs, key, now, used_atoms, budget - 1, r));
                assert forall|i: int| 0 <= i < children.len() implies places_climb(
                    (#[trigger] children[i]).1,
                ) && tree_stats(children[i].1, depth + 1).max_depth <= depth + budget by {
                    let f = FactV::Value(key, children[i].0);
                    lemma_folded_climbs(cs, f, r);
                    lemma_net_shape(
                        children[i].1,
                        folded(cs, f, r),
                        now,
                        used_atoms,
                        budget - 1,
                        r,
                        depth + 1,
                    );
                }
                assert(children_climb(children));
                lemma_children_depth(children, children.len() as int, depth + 1, depth + budget);
            },
            TreeV::AtomBranch(p, a, b) => {
                let now = used_atoms.push(p);
                lemma_folded_climbs(cs, FactV::Atom(p, true), r);
                lemma_folded_climbs(cs, FactV::Atom(p, false), r);
                lemma_net_shape(
                    *a,
                    folded(cs, FactV::Atom(p, true), r),
                    used,
                    now,
                    budget - 1,
                    r,
                    depth + 1,
                );
                lemma_net_shape(
                    *b,
                    folded(cs, FactV::Atom(p, false), r),
                    used,
                    now,
                    budget - 1,
                    r,
                    depth + 1,
                );
            },
        }
    }
}

/// No leaf of a net lies deeper than was allowed.
pub proof fn nets_stay_within_their_depth(
    t: TreeV,
    es: Seq<ExprV>,
    is_final: bool,
    max_depth: int,
    r: ReadingsV,
)
    requires
        es.len() <= usize::MAX,
        0 <= max_depth,
        is_net(t, initial(es, is_final), Seq::empty(), Seq::empty(), max_depth, r),
    ensures
        tree_stats(t, 0).max_depth <= max_depth,
{
    lemma_net_shape(t, initial(es, is_final), Seq::empty(), Seq::empty(), max_depth, r, 0);
}

/// Every leaf of a net lists its conditions in the order in which they were given, each once.
pub proof fn leaves_keep_the_order(
    t: TreeV,
    es: Seq<ExprV>,
    is_final: bool,
    max_depth: int,
    r: ReadingsV,
)
    requires
        es.len() <= usize::MAX,
        0 <= max_depth,
        is_net(t, initial(es, is_final), Seq::empty(), Seq::empty(), max_depth, r),
    ensures
        places_climb(t),
{
    lemma_net_shape(t, initial(es, is_final), Seq::empty(), Seq::empty(), max_depth, r, 0);
}

} // verus!
