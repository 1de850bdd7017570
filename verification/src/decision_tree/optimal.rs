//! How good a net can be: a search through all nets, to hold the one that is built against.
//!
//! A net costs the size of its largest leaf, and its nodes where two nets share that. Nodes are
//! counted up to the largest number the machine has.
use vstd::prelude::*;

use crate::categorize::expr::{all_expressible, Predicate, PredicateV};
use crate::decision_tree::candidates::{
    branch_key_candidates, cands, eligible_atom, eligible_atoms, eligible_key, eligible_values,
    fold_candidates, folded, is_values, leaf_of, lemma_values_unique, values_of, Candidate,
    CandidateV, LEAF_MAX,
};
use crate::decision_tree::choice::{is_choice, larger, ChoiceV};
use crate::decision_tree::compile::{
    are_nets, build, child_values, conditions, initial, initial_candidates, is_net,
};
use crate::decision_tree::kleene::{Fact, FactV};
use crate::decision_tree::tree::{
    group_trees, leaf_view, trees, BranchKey, BranchKeyV, DecisionTree, TreeV,
};
use crate::lang::context::ValueSets;
use crate::lang::filter::{filters, group_filters, Filter};
use crate::model::{models, Model};
use crate::number::{Readings, ReadingsV};

verus! {

/// What a net costs: the size of its largest leaf, and its nodes.
#[derive(Debug, Clone, Copy, PartialEq, Eq, Structural)]
pub struct Cost {
    pub worst: usize,
    pub nodes: usize,
}

/// A sum, up to the largest number the machine has.
pub open spec fn capped(a: int, b: int) -> int {
    if a + b > usize::MAX {
        usize::MAX as int
    } else {
        a + b
    }
}

/// Whether one cost is at most another: by the largest leaf, then by the nodes.
pub open spec fn at_most(a: Cost, b: Cost) -> bool {
    a.worst < b.worst || (a.worst == b.worst && a.nodes <= b.nodes)
}

/// The cost of two nets side by side.
pub open spec fn together(a: Cost, b: Cost) -> Cost {
    Cost {
        worst: larger(a.worst as int, b.worst as int) as usize,
        nodes: capped(a.nodes as int, b.nodes as int) as usize,
    }
}

/// The cost of a single leaf.
pub open spec fn leaf_cost(n: nat) -> Cost {
    Cost { worst: n as usize, nodes: 1 }
}

/// The cost of a net with one more node on top.
pub open spec fn topped(c: Cost) -> Cost {
    together(Cost { worst: 0, nodes: 1 }, c)
}

/// What a net costs.
pub open spec fn net_cost(t: TreeV) -> Cost
    decreases t, 0int,
{
    match t {
        TreeV::Leaf(v) => leaf_cost(v.len()),
        TreeV::Branch(_, children, wildcard) => children_cost(
            topped(net_cost(*wildcard)),
            children,
            children.len() as int,
        ),
        TreeV::AtomBranch(_, a, b) => together(topped(net_cost(*a)), net_cost(*b)),
    }
}

/// What the first `n` children cost beside the rest of a net.
pub open spec fn children_cost(rest: Cost, children: Seq<(Seq<char>, TreeV)>, n: int) -> Cost
    decreases children, n,
{
    if n <= 0 || n > children.len() {
        rest
    } else {
        together(children_cost(rest, children, n - 1), net_cost(children[n - 1].1))
    }
}

/// What a branch on a key costs at best, with the first `n` of its values.
pub open spec fn key_cost(
    cs: Seq<CandidateV>,
    key: BranchKeyV,
    n: int,
    used: Seq<BranchKeyV>,
    used_atoms: Seq<PredicateV>,
    budget: int,
    r: ReadingsV,
) -> Cost
    decreases
            budget,
            2 + if n < 0 {
                0
            } else {
                n
            },
{
    let values = values_of(cs, key);
    if n <= 0 || n > values.len() {
        topped(best(folded(cs, FactV::Other(key, values), r), used.push(key), used_atoms, budget, r))
    } else {
        together(
            key_cost(cs, key, n - 1, used, used_atoms, budget, r),
            best(
                folded(cs, FactV::Value(key, values[n - 1]), r),
                used.push(key),
                used_atoms,
                budget,
                r,
            ),
        )
    }
}

/// What a branch on an atom costs at best.
pub open spec fn atom_cost(
    cs: Seq<CandidateV>,
    p: PredicateV,
    used: Seq<BranchKeyV>,
    used_atoms: Seq<PredicateV>,
    budget: int,
    r: ReadingsV,
) -> Cost
    decreases budget, 2int,
{
    together(
        topped(best(folded(cs, FactV::Atom(p, true), r), used, used_atoms.push(p), budget, r)),
        best(folded(cs, FactV::Atom(p, false), r), used, used_atoms.push(p), budget, r),
    )
}

/// The least of the costs on offer.
pub open spec fn least_of(offers: spec_fn(Cost) -> bool) -> Cost {
    choose|c: Cost| is_least_of(c, offers)
}

/// Whether a cost is on offer and no offer is less.
pub open spec fn is_least_of(c: Cost, offers: spec_fn(Cost) -> bool) -> bool {
    offers(c) && forall|d: Cost| #[trigger] offers(d) ==> at_most(c, d)
}

/// The costs on offer: that of a leaf, and those of every branch.
pub open spec fn offers(
    cs: Seq<CandidateV>,
    used: Seq<BranchKeyV>,
    used_atoms: Seq<PredicateV>,
    budget: int,
    r: ReadingsV,
) -> spec_fn(Cost) -> bool
    decreases budget, 0int,
    when budget > 0
{
    |c: Cost|
        {
            ||| c == leaf_cost(cs.len())
            ||| exists|k: BranchKeyV| #[trigger]
                eligible_key(cs, used, k) && c == key_cost(
                    cs,
                    k,
                    values_of(cs, k).len() as int,
                    used,
                    used_atoms,
                    budget - 1,
                    r,
                )
            ||| exists|p: PredicateV| #[trigger]
                eligible_atom(cs, used_atoms, p) && c == atom_cost(
                    cs,
                    p,
                    used,
                    used_atoms,
                    budget - 1,
                    r,
                )
        }
}

/// The least cost of any net over the conditions left, at most `budget` branches deep.
pub open spec fn best(
    cs: Seq<CandidateV>,
    used: Seq<BranchKeyV>,
    used_atoms: Seq<PredicateV>,
    budget: int,
    r: ReadingsV,
) -> Cost
    decreases budget, 1int,
{
    if cs.len() <= LEAF_MAX || budget <= 0 {
        leaf_cost(cs.len())
    } else {
        least_of(offers(cs, used, used_atoms, budget, r))
    }
}

proof fn lemma_descend(c: Cost, offers: spec_fn(Cost) -> bool) -> (m: Cost)
    requires
        offers(c),
    ensures
        is_least_of(m, offers),
    decreases c.worst, c.nodes,
{
    if is_least_of(c, offers) {
        c
    } else {
        let d = choose|d: Cost| #[trigger] offers(d) && !at_most(c, d);
        lemma_descend(d, offers)
    }
}

/// The least cost is on offer, and no offer is less.
pub proof fn best_is_least(
    cs: Seq<CandidateV>,
    used: Seq<BranchKeyV>,
    used_atoms: Seq<PredicateV>,
    budget: int,
    r: ReadingsV,
)
    requires
        cs.len() > LEAF_MAX,
        budget > 0,
    ensures
        is_least_of(
            best(cs, used, used_atoms, budget, r),
            offers(cs, used, used_atoms, budget, r),
        ),
{
    let all = offers(cs, used, used_atoms, budget, r);
    let leaf = leaf_cost(cs.len());
    assert(all(leaf));
    let m = lemma_descend(leaf, all);
    assert(is_least_of(least_of(all), all));
}

proof fn lemma_children_no_worse(
    children: Seq<(Seq<char>, TreeV)>,
    rest: Cost,
    n: int,
    cs: Seq<CandidateV>,
    key: BranchKeyV,
    used: Seq<BranchKeyV>,
    used_atoms: Seq<PredicateV>,
    budget: int,
    r: ReadingsV,
)
    requires
        0 <= n <= children.len(),
        child_values(children) == values_of(cs, key),
        cs.len() <= usize::MAX,
        are_nets(children, cs, key, used.push(key), used_atoms, budget, r),
        key_cost(cs, key, 0, used, used_atoms, budget, r).worst <= rest.worst,
    ensures
        key_cost(cs, key, n, used, used_atoms, budget, r).worst <= children_cost(
            rest,
            children,
            n,
        ).worst,
    decreases budget, 1 + n,
{
    if n > 0 {
        lemma_children_no_worse(
            children,
            rest,
            n - 1,
            cs,
            key,
            used,
            used_atoms,
            budget,
            r,
        );
        let values = values_of(cs, key);
        assert(values[n - 1] == children[n - 1].0);
        let f = FactV::Value(key, values[n - 1]);
        lemma_folded_len(cs, f, r);
        lemma_no_worse(
            children[n - 1].1,
            folded(cs, f, r),
            used.push(key),
            used_atoms,
            budget,
            r,
        );
    }
}

proof fn lemma_choice_eligible(
    cs: Seq<CandidateV>,
    used: Seq<BranchKeyV>,
    used_atoms: Seq<PredicateV>,
    r: ReadingsV,
    choice: ChoiceV,
)
    requires
        is_choice(cs, used, used_atoms, r, Some(choice)),
    ensures
        choice matches ChoiceV::Key(k) ==> eligible_key(cs, used, k),
        choice matches ChoiceV::Atom(p) ==> eligible_atom(cs, used_atoms, p),
{
    reveal(is_choice);
}

proof fn lemma_folded_len(cs: Seq<CandidateV>, f: FactV, r: ReadingsV)
    ensures
        folded(cs, f, r).len() <= cs.len(),
    decreases cs.len(),
{
    if cs.len() > 0 {
        lemma_folded_len(cs.drop_last(), f, r);
    }
}

proof fn lemma_no_worse(
    t: TreeV,
    cs: Seq<CandidateV>,
    used: Seq<BranchKeyV>,
    used_atoms: Seq<PredicateV>,
    budget: int,
    r: ReadingsV,
)
    requires
        is_net(t, cs, used, used_atoms, budget, r),
        cs.len() <= usize::MAX,
    ensures
        best(cs, used, used_atoms, budget, r).worst <= net_cost(t).worst,
    decreases budget, 0int,
{
    assert(leaf_of(cs).len() == cs.len());
    if cs.len() <= LEAF_MAX || budget <= 0 {
    } else {
        best_is_least(cs, used, used_atoms, budget, r);
        let b = best(cs, used, used_atoms, budget, r);
        match t {
            TreeV::Leaf(v) => {
                assert(offers(cs, used, used_atoms, budget, r)(leaf_cost(cs.len())));
            },
            TreeV::Branch(key, children, wildcard) => {
                let values = child_values(children);
                assert(is_choice(cs, used, used_atoms, r, Some(ChoiceV::Key(key))));
                lemma_choice_eligible(cs, used, used_atoms, r, ChoiceV::Key(key));
                assert(is_values(cs, key, values_of(cs, key)));
                lemma_values_unique(cs, key, values, values_of(cs, key));
                let rest = FactV::Other(key, values);
                lemma_folded_len(cs, rest, r);
                lemma_no_worse(
                    *wildcard,
                    folded(cs, rest, r),
                    used.push(key),
                    used_atoms,
                    budget - 1,
                    r,
                );
                lemma_children_no_worse(
                    children,
                    topped(net_cost(*wildcard)),
                    children.len() as int,
                    cs,
                    key,
                    used,
                    used_atoms,
                    budget - 1,
                    r,
                );
                let c = key_cost(
                    cs,
                    key,
                    values.len() as int,
                    used,
                    used_atoms,
                    budget - 1,
                    r,
                );
                assert(offers(cs, used, used_atoms, budget, r)(c));
            },
            TreeV::AtomBranch(p, x, y) => {
                assert(is_choice(cs, used, used_atoms, r, Some(ChoiceV::Atom(p))));
                lemma_choice_eligible(cs, used, used_atoms, r, ChoiceV::Atom(p));
                lemma_folded_len(cs, FactV::Atom(p, true), r);
                lemma_folded_len(cs, FactV::Atom(p, false), r);
                lemma_no_worse(
                    *x,
                    folded(cs, FactV::Atom(p, true), r),
                    used,
                    used_atoms.push(p),
                    budget - 1,
                    r,
                );
                lemma_no_worse(
                    *y,
                    folded(cs, FactV::Atom(p, false), r),
                    used,
                    used_atoms.push(p),
                    budget - 1,
                    r,
                );
                let c = atom_cost(cs, p, used, used_atoms, budget - 1, r);
                assert(offers(cs, used, used_atoms, budget, r)(c));
            },
        }
    }
}

/// The largest leaf of the best net is no larger than the largest leaf of the net that is built.
pub proof fn search_is_no_worse_than_building(
    t: TreeV,
    cs: Seq<CandidateV>,
    budget: int,
    r: ReadingsV,
)
    requires
        is_net(t, cs, Seq::empty(), Seq::empty(), budget, r),
        cs.len() <= usize::MAX,
    ensures
        best(cs, Seq::empty(), Seq::empty(), budget, r).worst <= net_cost(t).worst,
{
    lemma_no_worse(t, cs, Seq::empty(), Seq::empty(), budget, r);
}

fn add_capped(a: usize, b: usize) -> (r: usize)
    ensures
        r == capped(a as int, b as int),
{
    if a > usize::MAX - b {
        usize::MAX
    } else {
        a + b
    }
}

fn join_costs(a: Cost, b: Cost) -> (r: Cost)
    ensures
        r == together(a, b),
{
    Cost {
        worst: if a.worst >= b.worst {
            a.worst
        } else {
            b.worst
        },
        nodes: add_capped(a.nodes, b.nodes),
    }
}

/// What a net costs.
pub fn tree_cost(t: &DecisionTree) -> (r: Cost)
    ensures
        r == net_cost(t@),
    decreases t,
{
    broadcast use group_trees;

    match t {
        DecisionTree::Leaf(v) => {
            assert(leaf_view(v@).len() == v@.len());
            Cost { worst: v.len(), nodes: 1 }
        },
        DecisionTree::Branch { tag: _, children, wildcard } => {
            let ghost all = trees(children@);
            let top: Cost = Cost { worst: 0, nodes: 1 };
            let mut total: Cost = join_costs(top, tree_cost(wildcard));
            let ghost rest = total;
            let mut i: usize = 0;
            while i < children.len()
                invariant
                    i <= children@.len(),
                    *t is Branch,
                    t->children == *children,
                    all == trees(children@),
                    all.len() == children@.len(),
                    total == children_cost(rest, all, i as int),
                decreases children.len() - i,
            {
                proof {
                    assert(decreases_to!(children@ => children@[i as int]));
                    assert(decreases_to!(children@[i as int] => children@[i as int].1));
                    assert(all[i as int].1 == children@[i as int].1@);
                }
                total = join_costs(total, tree_cost(&children[i].1));
                i = i + 1;
            }
            total
        },
        DecisionTree::AtomBranch { atom: _, on_true, on_false } => {
            let top: Cost = Cost { worst: 0, nodes: 1 };
            join_costs(join_costs(top, tree_cost(on_true)), tree_cost(on_false))
        },
    }
}

fn lesser(a: Cost, b: Cost) -> (r: Cost)
    ensures
        r == a || r == b,
        at_most(r, a),
        at_most(r, b),
{
    if a.worst < b.worst || (a.worst == b.worst && a.nodes <= b.nodes) {
        a
    } else {
        b
    }
}

fn search_key(
    candidates: &Vec<Candidate>,
    tag: &BranchKey,
    used: &mut Vec<BranchKey>,
    used_atoms: &mut Vec<Predicate>,
    budget: usize,
    readings: &Readings,
) -> (r: Cost)
    ensures
        r == key_cost(
            cands(candidates@),
            tag@,
            values_of(cands(candidates@), tag@).len() as int,
            models(old(used)@),
            models(old(used_atoms)@),
            budget as int,
            readings@,
        ),
        final(used)@ == old(used)@,
        final(used_atoms)@ == old(used_atoms)@,
    decreases budget, 1int,
{
    let ghost cs = cands(candidates@);
    let ghost before = used@;
    let ghost atoms = used_atoms@;
    let ghost keys = models(used@);
    let values: Vec<String> = eligible_values(candidates, tag);
    let ghost vs = models(values@);
    assert(vs.len() == values@.len());
    used.push(tag.copy());
    assert(models(used@) =~= keys.push(tag@));
    let rest: Vec<Candidate> = fold_candidates(candidates, &Fact::Other(tag, &values), readings);
    let top: Cost = Cost { worst: 0, nodes: 1 };
    let mut total: Cost = join_costs(top, search(&rest, used, used_atoms, budget, readings));
    let mut i: usize = 0;
    while i < values.len()
        invariant
            i <= values@.len(),
            cs == cands(candidates@),
            vs == models(values@),
            vs == values_of(cs, tag@),
            vs.len() == values@.len(),
            used@.drop_last() == before,
            used@.len() == before.len() + 1,
            models(used@) == keys.push(tag@),
            used_atoms@ == atoms,
            total == key_cost(
                cs,
                tag@,
                i as int,
                keys,
                models(atoms),
                budget as int,
                readings@,
            ),
        decreases values.len() - i,
    {
        assert(vs[i as int] == values@[i as int]@);
        let child: Vec<Candidate> = fold_candidates(
            candidates,
            &Fact::Value(tag, values[i].as_str()),
            readings,
        );
        total = join_costs(total, search(&child, used, used_atoms, budget, readings));
        i = i + 1;
    }
    let _tag = used.pop();
    assert(used@ =~= before);
    total
}

fn search_atom(
    candidates: &Vec<Candidate>,
    atom: &Predicate,
    used: &mut Vec<BranchKey>,
    used_atoms: &mut Vec<Predicate>,
    budget: usize,
    readings: &Readings,
) -> (r: Cost)
    ensures
        r == atom_cost(
            cands(candidates@),
            atom@,
            models(old(used)@),
            models(old(used_atoms)@),
            budget as int,
            readings@,
        ),
        final(used)@ == old(used)@,
        final(used_atoms)@ == old(used_atoms)@,
    decreases budget, 1int,
{
    let ghost before = used_atoms@;
    used_atoms.push(atom.copy());
    assert(models(used_atoms@) =~= models(before).push(atom@));
    let yes: Vec<Candidate> = fold_candidates(candidates, &Fact::Atom(atom, true), readings);
    let no: Vec<Candidate> = fold_candidates(candidates, &Fact::Atom(atom, false), readings);
    let top: Cost = Cost { worst: 0, nodes: 1 };
    let a: Cost = join_costs(top, search(&yes, used, used_atoms, budget, readings));
    let b: Cost = search(&no, used, used_atoms, budget, readings);
    let _atom = used_atoms.pop();
    assert(used_atoms@ =~= before);
    join_costs(a, b)
}

/// The least cost of any net over the candidates, at most `budget` branches deep.
#[verifier::rlimit(60)]
pub fn search(
    candidates: &Vec<Candidate>,
    used: &mut Vec<BranchKey>,
    used_atoms: &mut Vec<Predicate>,
    budget: usize,
    readings: &Readings,
) -> (r: Cost)
    ensures
        r == best(
            cands(candidates@),
            models(old(used)@),
            models(old(used_atoms)@),
            budget as int,
            readings@,
        ),
        final(used)@ == old(used)@,
        final(used_atoms)@ == old(used_atoms)@,
    decreases budget, 0int,
{
    let n: usize = candidates.len();
    let ghost cs = cands(candidates@);
    let ghost keys = models(used@);
    let ghost atoms = models(used_atoms@);
    let ghost rv = readings@;
    let ghost b = budget as int;
    let mut least: Cost = Cost { worst: n, nodes: 1 };
    assert(cs.len() == n);
    if n <= LEAF_MAX || budget == 0 {
        return least;
    }
    let ghost on_offer = offers(cs, keys, atoms, b, rv);
    assert(on_offer(least));
    let tags: Vec<BranchKey> = branch_key_candidates(candidates, used);
    let ghost tv = models(tags@);
    let mut i: usize = 0;
    while i < tags.len()
        invariant
            i <= tags@.len(),
            budget > 0,
            b == budget as int,
            cs == cands(candidates@),
            rv == readings@,
            used@ == old(used)@,
            used_atoms@ == old(used_atoms)@,
            keys == models(used@),
            atoms == models(used_atoms@),
            tv == models(tags@),
            forall|k: BranchKeyV| tv.contains(k) <==> #[trigger] eligible_key(cs, keys, k),
            on_offer == offers(cs, keys, atoms, b, rv),
            on_offer(least),
            at_most(least, leaf_cost(cs.len())),
            forall|j: int|
                0 <= j < i ==> at_most(
                    least,
                    key_cost(
                        cs,
                        #[trigger] tv[j],
                        values_of(cs, tv[j]).len() as int,
                        keys,
                        atoms,
                        b - 1,
                        rv,
                    ),
                ),
        decreases tags.len() - i,
    {
        let c: Cost = search_key(candidates, &tags[i], used, used_atoms, budget - 1, readings);
        proof {
            assert(tv[i as int] == tags@[i as int]@);
            assert(tv.contains(tv[i as int]));
            assert(eligible_key(cs, keys, tv[i as int]));
            assert(on_offer(c));
        }
        least = lesser(least, c);
        i = i + 1;
    }
    let preds: Vec<Predicate> = eligible_atoms(candidates, used_atoms);
    let ghost pv = models(preds@);
    let mut k: usize = 0;
    while k < preds.len()
        invariant
            k <= preds@.len(),
            budget > 0,
            b == budget as int,
            cs == cands(candidates@),
            rv == readings@,
            used@ == old(used)@,
            used_atoms@ == old(used_atoms)@,
            keys == models(used@),
            atoms == models(used_atoms@),
            tv.len() == i,
            pv == models(preds@),
            forall|k: BranchKeyV| tv.contains(k) <==> #[trigger] eligible_key(cs, keys, k),
            forall|p: PredicateV| pv.contains(p) <==> #[trigger] eligible_atom(cs, atoms, p),
            on_offer == offers(cs, keys, atoms, b, rv),
            on_offer(least),
            at_most(least, leaf_cost(cs.len())),
            forall|j: int|
                0 <= j < i ==> at_most(
                    least,
                    key_cost(
                        cs,
                        #[trigger] tv[j],
                        values_of(cs, tv[j]).len() as int,
                        keys,
                        atoms,
                        b - 1,
                        rv,
                    ),
                ),
            forall|j: int|
                0 <= j < k ==> at_most(
                    least,
                    atom_cost(cs, #[trigger] pv[j], keys, atoms, b - 1, rv),
                ),
        decreases preds.len() - k,
    {
        let c: Cost = search_atom(candidates, &preds[k], used, used_atoms, budget - 1, readings);
        proof {
            assert(pv[k as int] == preds@[k as int]@);
            assert(pv.contains(pv[k as int]));
            assert(eligible_atom(cs, atoms, pv[k as int]));
            assert(on_offer(c));
        }
        least = lesser(least, c);
        k = k + 1;
    }
    proof {
        assert(pv.len() == k);
        assert forall|d: Cost| #[trigger] on_offer(d) implies at_most(least, d) by {
            if d != leaf_cost(cs.len()) {
                if exists|q: BranchKeyV| #[trigger]
                    eligible_key(cs, keys, q) && d == key_cost(
                        cs,
                        q,
                        values_of(cs, q).len() as int,
                        keys,
                        atoms,
                        b - 1,
                        rv,
                    ) {
                    let q = choose|q: BranchKeyV| #[trigger]
                        eligible_key(cs, keys, q) && d == key_cost(
                            cs,
                            q,
                            values_of(cs, q).len() as int,
                            keys,
                            atoms,
                            b - 1,
                            rv,
                        );
                    assert(tv.contains(q));
                    let j = tv.index_of(q);
                    assert(tv[j] == q);
                } else {
                    let p = choose|p: PredicateV| #[trigger]
                        eligible_atom(cs, atoms, p) && d == atom_cost(cs, p, keys, atoms, b - 1, rv);
                    assert(pv.contains(p));
                    let j = pv.index_of(p);
                    assert(pv[j] == p);
                }
            }
        }
        best_is_least(cs, keys, atoms, b, rv);
        let m = best(cs, keys, atoms, b, rv);
        assert(at_most(m, least) && at_most(least, m));
    }
    least
}

/// The least cost of any net over a list of conditions.
pub fn optimal_cost(
    conds: &Vec<Filter>,
    max_depth: usize,
    assume_match_is_final: bool,
    sets: &ValueSets,
    readings: &Readings,
) -> (r: Cost)
    requires
        all_expressible(filters(conds@)),
    ensures
        r == best(
            initial(conditions(filters(conds@), sets@), assume_match_is_final),
            Seq::empty(),
            Seq::empty(),
            max_depth as int,
            readings@,
        ),
{
    let candidates: Vec<Candidate> = initial_candidates(conds, assume_match_is_final, sets);
    let mut used: Vec<BranchKey> = Vec::new();
    let mut used_atoms: Vec<Predicate> = Vec::new();
    assert(models(used@) =~= Seq::<BranchKeyV>::empty());
    assert(models(used_atoms@) =~= Seq::<PredicateV>::empty());
    search(&candidates, &mut used, &mut used_atoms, max_depth, readings)
}

/// What the net that is built over a list of conditions costs.
pub fn greedy_cost(
    conds: &Vec<Filter>,
    max_depth: usize,
    assume_match_is_final: bool,
    sets: &ValueSets,
    readings: &Readings,
) -> (r: Cost)
    requires
        all_expressible(filters(conds@)),
    ensures
        best(
            initial(conditions(filters(conds@), sets@), assume_match_is_final),
            Seq::empty(),
            Seq::empty(),
            max_depth as int,
            readings@,
        ).worst <= r.worst,
        exists|t: TreeV| #[trigger]
            is_net(
                t,
                initial(conditions(filters(conds@), sets@), assume_match_is_final),
                Seq::empty(),
                Seq::empty(),
                max_depth as int,
                readings@,
            ) && r == net_cost(t),
{
    broadcast use group_filters;

    let n: usize = conds.len();
    let t: DecisionTree = build(conds, max_depth, assume_match_is_final, sets, readings);
    proof {
        let cs = initial(conditions(filters(conds@), sets@), assume_match_is_final);
        assert(cs.len() == n);
        search_is_no_worse_than_building(t@, cs, max_depth as int, readings@);
    }
    tree_cost(&t)
}

} // verus!
