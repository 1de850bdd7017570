//! Building a net over an ordered list of conditions.
use vstd::prelude::*;

use crate::categorize::expr::{
    all_expressible, clone_expr, expr_of, exprs, exprs_of, filters_to_exprs, group_exprs, nnf,
    to_negated_nnf, to_nnf, Expr, ExprV, Predicate, PredicateV,
};
use crate::decision_tree::candidates::{
    cands, conjoin, conjoined, eligible_values, fold_candidates, folded, into_leaf, is_values,
    leaf_of, Candidate, CandidateV, LEAF_MAX,
};
use crate::decision_tree::choice::{choose_branch, is_choice, BranchChoice, ChoiceV};
use crate::decision_tree::kleene::{Fact, FactV};
use crate::decision_tree::tree::{group_trees, trees, BranchKey, BranchKeyV, DecisionTree, TreeV};
use crate::lang::context::ValueSets;
use crate::lang::filter::{filters, group_filters, Filter, FilterV};
use crate::model::{models, Model};
use crate::number::{Readings, ReadingsV};

verus! {

/// The conditions as expressions in negation normal form.
pub open spec fn conditions(
    fs: Seq<FilterV>,
    sets: Seq<(Seq<char>, Seq<Seq<char>>)>,
) -> Seq<ExprV> {
    fs.map_values(|f: FilterV| nnf(expr_of(f, sets), false))
}

/// Condition `i` and the opposites of those before it.
pub open spec fn residual_parts(es: Seq<ExprV>, i: int) -> Seq<ExprV> {
    seq![es[i]] + es.take(i).map_values(|e: ExprV| nnf(e, true))
}

/// What condition `i` says beyond those before it, where the first one that holds is final; else
/// just what it says.
pub open spec fn initial_residual(es: Seq<ExprV>, i: int, is_final: bool) -> ExprV {
    if is_final {
        conjoined(residual_parts(es, i))
    } else {
        es[i]
    }
}

/// The conditions at the top of the net.
pub open spec fn initial(es: Seq<ExprV>, is_final: bool) -> Seq<CandidateV> {
    Seq::new(
        es.len(),
        |i: int|
            CandidateV {
                index: i as usize,
                residual: initial_residual(es, i, is_final),
                own: es[i],
            },
    )
}

/// The texts that a branch has children for.
pub open spec fn child_values(children: Seq<(Seq<char>, TreeV)>) -> Seq<Seq<char>> {
    children.map_values(|p: (Seq<char>, TreeV)| p.0)
}

/// Whether `t` is a net for the conditions: a leaf where few are left, where the net is as deep as
/// it may be or where no branch helps; else a branch that is the one to take, with a net for what
/// it leaves of the conditions in each child.
pub open spec fn is_net(
    t: TreeV,
    cs: Seq<CandidateV>,
    used: Seq<BranchKeyV>,
    used_atoms: Seq<PredicateV>,
    budget: int,
    r: ReadingsV,
) -> bool
    decreases budget, 0int,
{
    if cs.len() <= LEAF_MAX || budget <= 0 {
        t == TreeV::Leaf(leaf_of(cs))
    } else {
        match t {
            TreeV::Leaf(v) => v == leaf_of(cs) && is_choice(cs, used, used_atoms, r, None),
            TreeV::Branch(key, children, wildcard) => {
                let values = child_values(children);
                &&& is_choice(cs, used, used_atoms, r, Some(ChoiceV::Key(key)))
                &&& is_values(cs, key, values)
                &&& is_net(
                    *wildcard,
                    folded(cs, FactV::Other(key, values), r),
                    used.push(key),
                    used_atoms,
                    budget - 1,
                    r,
                )
                &&& are_nets(children, cs, key, used.push(key), used_atoms, budget - 1, r)
            },
            TreeV::AtomBranch(p, a, b) => {
                &&& is_choice(cs, used, used_atoms, r, Some(ChoiceV::Atom(p)))
                &&& is_net(
                    *a,
                    folded(cs, FactV::Atom(p, true), r),
                    used,
                    used_atoms.push(p),
                    budget - 1,
                    r,
                )
                &&& is_net(
                    *b,
                    folded(cs, FactV::Atom(p, false), r),
                    used,
                    used_atoms.push(p),
                    budget - 1,
                    r,
                )
            },
        }
    }
}

/// Whether each child is a net for what its text leaves of the conditions.
pub open spec fn are_nets(
    children: Seq<(Seq<char>, TreeV)>,
    cs: Seq<CandidateV>,
    key: BranchKeyV,
    used: Seq<BranchKeyV>,
    used_atoms: Seq<PredicateV>,
    budget: int,
    r: ReadingsV,
) -> bool
    decreases budget, 1int,
{
    forall|i: int|
        0 <= i < children.len() ==> is_net(
            (#[trigger] children[i]).1,
            folded(cs, FactV::Value(key, children[i].0), r),
            used,
            used_atoms,
            budget,
            r,
        )
}

/// The conditions at the top of the net.
pub fn initial_candidates(
    conds: &Vec<Filter>,
    assume_match_is_final: bool,
    sets: &ValueSets,
) -> (r: Vec<Candidate>)
    requires
        all_expressible(filters(conds@)),
    ensures
        cands(r@) == initial(conditions(filters(conds@), sets@), assume_match_is_final),
{
    broadcast use group_exprs, group_filters;

    let raw = filters_to_exprs(conds, sets);
    let mut es: Vec<Expr> = Vec::new();
    let ghost want = conditions(filters(conds@), sets@);
    proof {
        assert(exprs(raw@).len() == raw@.len());
        assert(exprs_of(filters(conds@), sets@).len() == filters(conds@).len());
    }
    for i in 0..raw.len()
        invariant
            raw@.len() == filters(conds@).len(),
            exprs(raw@) == exprs_of(filters(conds@), sets@),
            want == conditions(filters(conds@), sets@),
            es@.len() == i,
            forall|j: int| 0 <= j < i ==> (#[trigger] es@[j])@ == want[j],
    {
        let e = to_nnf(clone_expr(&raw[i]));
        proof {
            assert(exprs(raw@)[i as int] == raw@[i as int]@);
            assert(exprs_of(filters(conds@), sets@)[i as int] == expr_of(
                filters(conds@)[i as int],
                sets@,
            ));
        }
        es.push(e);
    }
    proof {
        assert(raw@.len() == conds@.len());
        assert(exprs(es@) =~= want);
    }
    let mut out: Vec<Candidate> = Vec::new();
    for i in 0..es.len()
        invariant
            exprs(es@) == want,
            out@.len() == i,
            forall|j: int|
                0 <= j < i ==> (#[trigger] out@[j])@ == initial(want, assume_match_is_final)[j],
    {
        let residual = if assume_match_is_final {
            let mut parts: Vec<Expr> = Vec::new();
            parts.push(clone_expr(&es[i]));
            for j in 0..i
                invariant
                    exprs(es@) == want,
                    i < es@.len(),
                    parts@.len() == j + 1,
                    parts@[0]@ == want[i as int],
                    forall|m: int| 0 <= m < j ==> (#[trigger] parts@[m + 1])@ == nnf(want[m], true),
            {
                let n = to_negated_nnf(&es[j]);
                proof {
                    assert(exprs(es@)[j as int] == es@[j as int]@);
                }
                let ghost before = parts@;
                parts.push(n);
                proof {
                    assert forall|m: int| 0 <= m < j + 1 implies (#[trigger] parts@[m + 1])@
                        == nnf(want[m], true) by {
                        if m < j {
                            assert(parts@[m + 1] == before[m + 1]);
                        }
                    }
                }
            }
            proof {
                let want_parts = residual_parts(want, i as int);
                assert forall|m: int| 0 <= m < want_parts.len() implies exprs(parts@)[m]
                    == #[trigger] want_parts[m] by {
                    if m > 0 {
                        assert(parts@[(m - 1) + 1]@ == nnf(want[m - 1], true));
                        assert(want.take(i as int)[m - 1] == want[m - 1]);
                    }
                }
                assert(exprs(parts@) =~= want_parts);
            }
            conjoin(parts)
        } else {
            clone_expr(&es[i])
        };
        let own = clone_expr(&es[i]);
        proof {
            assert(exprs(es@)[i as int] == es@[i as int]@);
        }
        out.push(Candidate { index: i, residual, own });
    }
    proof {
        assert(cands(out@) =~= initial(want, assume_match_is_final));
    }
    out
}

#[verifier::spinoff_prover]
#[verifier::rlimit(60)]
fn build_rec(
    candidates: Vec<Candidate>,
    used: &mut Vec<BranchKey>,
    used_atoms: &mut Vec<Predicate>,
    depth: usize,
    max_depth: usize,
    readings: &Readings,
) -> (r: DecisionTree)
    requires
        depth <= max_depth,
    ensures
        is_net(
            r@,
            cands(candidates@),
            models(old(used)@),
            models(old(used_atoms)@),
            max_depth - depth,
            readings@,
        ),
        final(used)@ == old(used)@,
        final(used_atoms)@ == old(used_atoms)@,
    decreases max_depth - depth, 0int,
{
    if candidates.len() <= LEAF_MAX || depth >= max_depth {
        return DecisionTree::Leaf(into_leaf(&candidates));
    }
    match choose_branch(&candidates, used, used_atoms, readings) {
        None => DecisionTree::Leaf(into_leaf(&candidates)),
        Some(BranchChoice::Key(tag)) => {
            let values = eligible_values(&candidates, &tag);
            used.push(tag.copy());
            proof {
                assert(models(used@) =~= models(old(used)@).push(tag@));
            }
            let rest = fold_candidates(&candidates, &Fact::Other(&tag, &values), readings);
            let wildcard = Box::new(
                build_rec(rest, used, used_atoms, depth + 1, max_depth, readings),
            );
            let children = build_children(
                &candidates,
                &tag,
                &values,
                used,
                used_atoms,
                depth,
                max_depth,
                readings,
            );
            let _tag = used.pop();
            proof {
                assert(used@ =~= old(used)@);
            }
            DecisionTree::Branch { tag, children, wildcard }
        },
        Some(BranchChoice::Atom(atom)) => {
            used_atoms.push(atom.copy());
            proof {
                assert(models(used_atoms@) =~= models(old(used_atoms)@).push(atom@));
            }
            let yes = fold_candidates(&candidates, &Fact::Atom(&atom, true), readings);
            let no = fold_candidates(&candidates, &Fact::Atom(&atom, false), readings);
            let on_true = Box::new(
                build_rec(yes, used, used_atoms, depth + 1, max_depth, readings),
            );
            let on_false = Box::new(
                build_rec(no, used, used_atoms, depth + 1, max_depth, readings),
            );
            let _atom = used_atoms.pop();
            proof {
                assert(used_atoms@ =~= old(used_atoms)@);
            }
            DecisionTree::AtomBranch { atom, on_true, on_false }
        },
    }
}

fn build_children(
    candidates: &Vec<Candidate>,
    tag: &BranchKey,
    values: &Vec<String>,
    used: &mut Vec<BranchKey>,
    used_atoms: &mut Vec<Predicate>,
    depth: usize,
    max_depth: usize,
    readings: &Readings,
) -> (r: Vec<(String, DecisionTree)>)
    requires
        depth < max_depth,
    ensures
        child_values(trees(r@)) == models(values@),
        are_nets(
            trees(r@),
            cands(candidates@),
            tag@,
            models(old(used)@),
            models(old(used_atoms)@),
            max_depth - depth - 1,
            readings@,
        ),
        final(used)@ == old(used)@,
        final(used_atoms)@ == old(used_atoms)@,
    decreases max_depth - depth - 1, 1int,
{
    broadcast use group_trees;

    let ghost cs = cands(candidates@);
    let ghost u = models(used@);
    let ghost ua = models(used_atoms@);
    let ghost vs = models(values@);
    let mut children: Vec<(String, DecisionTree)> = Vec::new();
    for i in 0..values.len()
        invariant
            depth < max_depth,
            cs == cands(candidates@),
            vs == models(values@),
            u == models(used@),
            ua == models(used_atoms@),
            used@ == old(used)@,
            used_atoms@ == old(used_atoms)@,
            children@.len() == i,
            forall|j: int|
                0 <= j < i ==> (#[trigger] children@[j]).0@ == vs[j] && is_net(
                    children@[j].1@,
                    folded(cs, FactV::Value(tag@, vs[j]), readings@),
                    u,
                    ua,
                    max_depth - depth - 1,
                    readings@,
                ),
    {
        let left = fold_candidates(candidates, &Fact::Value(tag, values[i].as_str()), readings);
        let child = build_rec(left, used, used_atoms, depth + 1, max_depth, readings);
        children.push((values[i].clone(), child));
    }
    proof {
        let kids = trees(children@);
        assert(child_values(kids) =~= vs);
        assert forall|i: int| 0 <= i < kids.len() implies is_net(
            (#[trigger] kids[i]).1,
            folded(cs, FactV::Value(tag@, kids[i].0), readings@),
            u,
            ua,
            max_depth - depth - 1,
            readings@,
        ) by {
            assert(children@[i].0@ == vs[i]);
        }
    }
    children
}

/// A net over an ordered list of conditions, at most `max_depth` branches deep.
///
/// Where the first condition that holds is final, a condition is dropped also where one before it
/// holds whenever it does; else every condition that may hold is kept.
pub fn build(
    conds: &Vec<Filter>,
    max_depth: usize,
    assume_match_is_final: bool,
    sets: &ValueSets,
    readings: &Readings,
) -> (r: DecisionTree)
    requires
        all_expressible(filters(conds@)),
    ensures
        is_net(
            r@,
            initial(conditions(filters(conds@), sets@), assume_match_is_final),
            Seq::empty(),
            Seq::empty(),
            max_depth as int,
            readings@,
        ),
{
    let all = initial_candidates(conds, assume_match_is_final, sets);
    let mut used: Vec<BranchKey> = Vec::new();
    let mut used_atoms: Vec<Predicate> = Vec::new();
    proof {
        assert(models(used@) =~= Seq::<BranchKeyV>::empty());
        assert(models(used_atoms@) =~= Seq::<PredicateV>::empty());
    }
    build_rec(all, &mut used, &mut used_atoms, 0, max_depth, readings)
}

} // verus!
