//! Evaluating atoms, expressions and nets for one object.
use vstd::prelude::*;

use crate::assoc::lemma_first_position;
use crate::categorize::expr::{
    decide, expr_holds, exprs, exprs_all_hold, exprs_any_holds, group_exprs, has_text,
    scoped_number, scoped_tags, scoped_text, Expr, ExprV, Literal, Predicate, Scope, TagRead,
};
use crate::decision_tree::kleene::num_satisfies;
use crate::decision_tree::tree::{
    branch_value, child_position, group_trees, leaf_for, leaf_view, trees, BranchKey, ContextKey,
    DecisionTree, TreeV,
};
use crate::lang::context::{parent_map, side_of, CtxV, ExtractCtx};
use crate::lang::filter::read_num;
use crate::model::Model;
use crate::tags::{has_key_prefix, is_empty, RawTags};
use crate::text::{contains_str, ends_with, starts_with, str_eq};

verus! {

/// The tags of a scope; none where there is no parent way.
fn tags_of_scope<'a>(scope: Scope, ctx: &ExtractCtx<'a>) -> (r: Option<&'a RawTags>)
    ensures
        parent_map(r) == scoped_tags(scope, ctx@),
{
    match scope {
        Scope::Own => Some(ctx.obj_tags),
        Scope::Parent => ctx.parent_tags,
    }
}

/// The text that a read gives, of the object's tags or of the parent way's.
pub fn read_extract(e: &TagRead, ctx: &ExtractCtx) -> (r: Option<String>)
    ensures
        r.model() == scoped_text(e@, ctx@),
{
    match tags_of_scope(e.scope, ctx) {
        Some(tags) => e.extract.read_str(&ctx.with_obj_tags(tags)),
        None => None,
    }
}

/// The number that a read gives, of the object's tags or of the parent way's.
pub fn read_extract_num(e: &TagRead, ctx: &ExtractCtx) -> (r: Option<u64>)
    ensures
        r == scoped_number(e@, ctx@),
{
    match tags_of_scope(e.scope, ctx) {
        Some(tags) => read_num(&e.extract, &ctx.with_obj_tags(tags)),
        None => None,
    }
}

/// Whether an atom is true of the object.
pub fn decide_concrete(p: &Predicate, ctx: &ExtractCtx) -> (r: bool)
    ensures
        r == decide(p@, ctx@),
{
    match p {
        Predicate::Eq(e, v) => match read_extract(e, ctx) {
            Some(s) => str_eq(s.as_str(), v.as_str()),
            None => false,
        },
        Predicate::Contains(e, s, ci) => match read_extract(e, ctx) {
            Some(v) => has_text(v.as_str(), s.as_str(), *ci),
            None => false,
        },
        Predicate::StartsWith(e, s) => match read_extract(e, ctx) {
            Some(v) => starts_with(v.as_str(), s.as_str()),
            None => false,
        },
        Predicate::EndsWith(e, s) => match read_extract(e, ctx) {
            Some(v) => ends_with(v.as_str(), s.as_str()),
            None => false,
        },
        Predicate::Exists(e) => read_extract(e, ctx).is_some(),
        Predicate::FirstTagIn(e, vals) => match read_extract(e, ctx) {
            Some(v) => contains_str(vals, v.as_str()),
            None => false,
        },
        Predicate::Num(e, op, bits) => match read_extract_num(e, ctx) {
            Some(n) => num_satisfies(*op, *bits, n),
            None => false,
        },
        Predicate::HasKeyPrefix(scope, prefix) => match tags_of_scope(*scope, ctx) {
            Some(tags) => has_key_prefix(tags, prefix.as_str()),
            None => false,
        },
        Predicate::HasParent => ctx.parent_tags.is_some(),
        Predicate::Side(v) => str_eq(side_of(ctx), v.as_str()),
        Predicate::Prefix(v) => match ctx.annotation("_prefix") {
            Some(s) => str_eq(s, v.as_str()),
            None => false,
        },
        Predicate::Infix(v) => match ctx.annotation("_infix") {
            Some(s) => str_eq(s, v.as_str()),
            None => false,
        },
        Predicate::TagsEmpty(scope) => match tags_of_scope(*scope, ctx) {
            Some(tags) => is_empty(tags),
            None => false,
        },
        Predicate::IsNum(e) => read_extract_num(e, ctx).is_some(),
    }
}

/// Whether an atom that a net branches on is true of the object.
pub fn eval_atom(atom: &Predicate, ctx: &ExtractCtx) -> (r: bool)
    ensures
        r == decide(atom@, ctx@),
{
    decide_concrete(atom, ctx)
}

/// Whether an expression is true of the object.
pub fn eval_expr(e: &Expr, ctx: &ExtractCtx) -> (r: bool)
    ensures
        r == expr_holds(e@, ctx@),
    decreases e,
{
    match e {
        Expr::True => true,
        Expr::False => false,
        Expr::Lit(Literal::Pos(p)) => decide_concrete(p, ctx),
        Expr::Lit(Literal::Neg(p)) => !decide_concrete(p, ctx),
        Expr::Not(x) => !eval_expr(x, ctx),
        Expr::And(xs) => eval_every(xs, ctx),
        Expr::Or(xs) => eval_some(xs, ctx),
    }
}

fn eval_every(v: &Vec<Expr>, ctx: &ExtractCtx) -> (r: bool)
    ensures
        r == exprs_all_hold(exprs(v@), ctx@),
    decreases v,
{
    broadcast use group_exprs;

    for i in 0..v.len()
        invariant
            forall|j: int| 0 <= j < i ==> expr_holds(#[trigger] exprs(v@)[j], ctx@),
    {
        if !eval_expr(&v[i], ctx) {
            proof {
                assert(!expr_holds(exprs(v@)[i as int], ctx@));
            }
            return false;
        }
    }
    true
}

fn eval_some(v: &Vec<Expr>, ctx: &ExtractCtx) -> (r: bool)
    ensures
        r == exprs_any_holds(exprs(v@), ctx@),
    decreases v,
{
    broadcast use group_exprs;

    for i in 0..v.len()
        invariant
            forall|j: int| 0 <= j < i ==> !expr_holds(#[trigger] exprs(v@)[j], ctx@),
    {
        if eval_expr(&v[i], ctx) {
            proof {
                assert(expr_holds(exprs(v@)[i as int], ctx@));
            }
            return true;
        }
    }
    false
}

/// What a branch reads of the object.
pub fn branch_key(ctx: &ExtractCtx, key: &BranchKey) -> (r: Option<String>)
    ensures
        r.model() == branch_value(key@, ctx@),
{
    match key {
        BranchKey::Sentinel(ContextKey::Side) => Some(side_of(ctx).to_owned()),
        BranchKey::Sentinel(ContextKey::HasParent) => Some(
            if ctx.parent_tags.is_some() {
                "true".to_owned()
            } else {
                "false".to_owned()
            },
        ),
        BranchKey::Sentinel(ContextKey::Prefix) => match ctx.annotation("_prefix") {
            Some(s) => Some(s.to_owned()),
            None => None,
        },
        BranchKey::Sentinel(ContextKey::Infix) => match ctx.annotation("_infix") {
            Some(s) => Some(s.to_owned()),
            None => None,
        },
        BranchKey::Tag(extract) => read_extract(extract, ctx),
    }
}

fn find_child(children: &Vec<(String, DecisionTree)>, v: &str) -> (r: usize)
    ensures
        r == child_position(trees(children@), v@),
        r <= children@.len(),
{
    broadcast use group_trees;

    let mut i: usize = 0;
    proof {
        lemma_first_position(trees(children@), v@);
    }
    while i < children.len() && !str_eq(children[i].0.as_str(), v)
        invariant
            0 <= i <= children@.len(),
            forall|j: int| 0 <= j < i ==> (#[trigger] trees(children@)[j]).0 != v@,
        decreases children.len() - i,
    {
        proof {
            assert(trees(children@)[i as int].0 != v@);
        }
        i = i + 1;
    }
    proof {
        lemma_first_position(trees(children@), v@);
        let p = child_position(trees(children@), v@);
        if p < i {
            assert(trees(children@)[p].0 == v@);
        }
        if i < p {
            assert(trees(children@)[i as int].0 == v@);
        }
    }
    i
}

impl DecisionTree {
    /// The conditions of the leaf that a walk for the object comes to.
    pub fn candidates<'a>(&'a self, ctx: &ExtractCtx) -> (r: &'a Vec<(usize, Expr)>)
        ensures
            leaf_view(r@) == leaf_for(self@, ctx@),
        decreases self,
    {
        broadcast use group_trees;

        match self {
            DecisionTree::Leaf(v) => v,
            DecisionTree::Branch { tag, children, wildcard } => {
                match branch_key(ctx, tag) {
                    Some(v) => {
                        let i: usize = find_child(children, v.as_str());
                        if i < children.len() {
                            proof {
                                assert(decreases_to!(children@ => children@[i as int]));
                                assert(decreases_to!(children@[i as int] => children@[i as int].1));
                                assert(decreases_to!(self => self->children));
                            }
                            children[i].1.candidates(ctx)
                        } else {
                            wildcard.candidates(ctx)
                        }
                    },
                    None => wildcard.candidates(ctx),
                }
            },
            DecisionTree::AtomBranch { atom, on_true, on_false } => if eval_atom(atom, ctx) {
                on_true.candidates(ctx)
            } else {
                on_false.candidates(ctx)
            },
        }
    }
}

/// The places of the conditions in `v` that are true of an object, in their order.
pub open spec fn true_places(v: Seq<(usize, ExprV)>, c: CtxV) -> Seq<usize>
    decreases v.len(),
{
    if v.len() == 0 {
        Seq::empty()
    } else if expr_holds(v.last().1, c) {
        true_places(v.drop_last(), c).push(v.last().0)
    } else {
        true_places(v.drop_last(), c)
    }
}

/// The places of the conditions that the net finds to be true of the object, in their order.
pub open spec fn net_matches(t: TreeV, c: CtxV) -> Seq<usize> {
    true_places(leaf_for(t, c), c)
}

/// The first place of a list.
pub open spec fn first_place(v: Seq<usize>) -> Option<usize> {
    if v.len() > 0 {
        Some(v[0])
    } else {
        None
    }
}

proof fn lemma_first_kept(v: Seq<(usize, ExprV)>, m: int, c: CtxV)
    requires
        0 <= m <= v.len(),
    ensures
        true_places(v.take(m), c).len() > 0 ==> first_place(true_places(v, c)) == first_place(
            true_places(v.take(m), c),
        ),
    decreases v.len(),
{
    if m == v.len() {
        assert(v.take(m) =~= v);
    } else {
        assert(v.drop_last().take(m) =~= v.take(m));
        lemma_first_kept(v.drop_last(), m, c);
    }
}

/// The places of all conditions that are true of the object, in their order: what a first-match
/// walk tries one after the other.
pub fn matching(tree: &DecisionTree, ctx: &ExtractCtx) -> (r: Vec<usize>)
    ensures
        r@ == net_matches(tree@, ctx@),
{
    let leaf = tree.candidates(ctx);
    let ghost all = leaf_view(leaf@);
    let mut out: Vec<usize> = Vec::new();
    for i in 0..leaf.len()
        invariant
            all == leaf_view(leaf@),
            out@ == true_places(all.take(i as int), ctx@),
    {
        proof {
            assert(all.take(i + 1).drop_last() =~= all.take(i as int));
            assert(all.take(i + 1).last() == all[i as int]);
        }
        if eval_expr(&leaf[i].1, ctx) {
            out.push(leaf[i].0);
        }
    }
    proof {
        assert(all.take(all.len() as int) =~= all);
    }
    out
}

/// The place of the first condition that is true of the object.
pub fn resolve_first(tree: &DecisionTree, ctx: &ExtractCtx) -> (r: Option<usize>)
    ensures
        r == first_place(net_matches(tree@, ctx@)),
{
    let leaf = tree.candidates(ctx);
    let ghost all = leaf_view(leaf@);
    for i in 0..leaf.len()
        invariant
            all == leaf_view(leaf@),
            all == leaf_for(tree@, ctx@),
            true_places(all.take(i as int), ctx@).len() == 0,
    {
        proof {
            assert(all.take(i + 1).drop_last() =~= all.take(i as int));
            assert(all.take(i + 1).last() == all[i as int]);
        }
        if eval_expr(&leaf[i].1, ctx) {
            proof {
                assert(true_places(all.take(i + 1), ctx@)[0] == all[i as int].0);
                lemma_first_kept(all, i + 1, ctx@);
            }
            return Some(leaf[i].0);
        }
    }
    proof {
        assert(all.take(all.len() as int) =~= all);
    }
    None
}

} // verus!
