//! The expression of a filter is true of exactly the objects that the filter holds of.
use vstd::prelude::*;

use crate::categorize::expr::{
    all_expressible, and_of, any_eq, bound_atoms, decide, expr_holds, expr_of, exprs_all_hold,
    exprs_any_holds, exprs_of, expressible, own_read, parent_read, prefixed_atom, prefixed_expr,
    prefixed_exprs, prefixed_literal, scoped_number, scoped_text, ExprV, PredicateV, TagReadV,
};
use crate::lang::context::{value_set, CtxV};
use crate::lang::filter::{all_hold, any_holds, holds, FilterV};
use crate::number::{within, Bound};
use crate::text::sorting_keeps_the_texts;

verus! {

proof fn lemma_any_eq(e: TagReadV, vs: Seq<Seq<char>>, c: CtxV)
    ensures
        exprs_any_holds(any_eq(e, vs), c) == (match scoped_text(e, c) {
            Some(v) => vs.contains(v),
            None => false,
        }),
{
    let xs = any_eq(e, vs);
    if exprs_any_holds(xs, c) {
        let i = choose|i: int| 0 <= i < xs.len() && expr_holds(#[trigger] xs[i], c);
        assert(decide(PredicateV::Eq(e, vs[i]), c));
    }
    if scoped_text(e, c) is Some && vs.contains(scoped_text(e, c)->0) {
        let i = vs.index_of(scoped_text(e, c)->0);
        assert(decide(PredicateV::Eq(e, vs[i]), c));
        assert(expr_holds(xs[i], c));
    }
}

proof fn lemma_bounds(e: TagReadV, min: Bound, max: Bound, c: CtxV)
    ensures
        expr_holds(and_of(bound_atoms(e, min, max)), c) == (match scoped_number(e, c) {
            Some(n) => within(min, max, n),
            None => false,
        }),
{
    let xs = bound_atoms(e, min, max);
    assert(0 < xs.len() <= 2);
    if xs.len() == 2 {
        assert(exprs_all_hold(xs, c) == (expr_holds(xs[0], c) && expr_holds(xs[1], c)));
    }
}

proof fn lemma_prefixed_bounds(e: TagReadV, min: Bound, max: Bound)
    ensures
        prefixed_expr(and_of(bound_atoms(e, min, max))) == and_of(
            bound_atoms(parent_read(e), min, max),
        ),
{
    let xs = bound_atoms(e, min, max);
    let ys = bound_atoms(parent_read(e), min, max);
    assert(0 < xs.len() <= 2);
    assert forall|i: int| 0 <= i < xs.len() implies prefixed_expr(#[trigger] xs[i]) == ys[i] by {}
    assert(prefixed_exprs(xs) =~= ys);
}

proof fn lemma_prefixed_any_eq(e: TagReadV, vs: Seq<Seq<char>>)
    ensures
        prefixed_exprs(any_eq(e, vs)) == any_eq(parent_read(e), vs),
{
    let xs = any_eq(e, vs);
    assert forall|i: int| 0 <= i < xs.len() implies prefixed_expr(#[trigger] xs[i]) == any_eq(
        parent_read(e),
        vs,
    )[i] by {}
    assert(prefixed_exprs(xs) =~= any_eq(parent_read(e), vs));
}

/// What is asked of the parent way's parent is asked of the parent way.
pub proof fn parents_have_no_parents(e: ExprV)
    ensures
        prefixed_expr(prefixed_expr(e)) == prefixed_expr(e),
    decreases e,
{
    match e {
        ExprV::Lit(l) => {
            assert(prefixed_atom(prefixed_atom(l.atom())) == prefixed_atom(l.atom()));
            assert(prefixed_literal(prefixed_literal(l)) == prefixed_literal(l));
        },
        ExprV::Not(x) => {
            parents_have_no_parents(*x);
        },
        ExprV::And(xs) => {
            lemma_no_parents(xs);
        },
        ExprV::Or(xs) => {
            lemma_no_parents(xs);
        },
        _ => {},
    }
}

proof fn lemma_no_parents(xs: Seq<ExprV>)
    ensures
        prefixed_exprs(prefixed_exprs(xs)) == prefixed_exprs(xs),
    decreases xs,
{
    let ys = prefixed_exprs(xs);
    assert forall|i: int| 0 <= i < xs.len() implies prefixed_exprs(ys)[i] == #[trigger] ys[i] by {
        parents_have_no_parents(xs[i]);
    }
    assert(prefixed_exprs(ys) =~= ys);
}

/// A conjunction of two.
proof fn lemma_both(a: ExprV, b: ExprV, c: CtxV)
    ensures
        exprs_all_hold(seq![a, b], c) == (expr_holds(a, c) && expr_holds(b, c)),
{
    let xs = seq![a, b];
    assert(xs[0] == a && xs[1] == b);
    if expr_holds(a, c) && expr_holds(b, c) {
        assert forall|i: int| 0 <= i < xs.len() implies expr_holds(#[trigger] xs[i], c) by {}
    }
}

/// A filter asked of the parent way: its expression over parent atoms says of the object what the
/// filter says of the parent way's tags.
pub proof fn parent_expression_is_faithful(f: FilterV, c: CtxV)
    requires
        expressible(f),
        c.parent is Some,
    ensures
        expr_holds(prefixed_expr(expr_of(f, c.value_sets)), c) == holds(
            f,
            c.with_obj(c.parent->0),
        ),
    decreases f,
{
    let d = c.with_obj(c.parent->0);
    match f {
        FilterV::And(fs) => {
            lemma_parent_list(fs, c);
        },
        FilterV::Or(fs) => {
            lemma_parent_list(fs, c);
        },
        FilterV::Not(g) => {
            parent_expression_is_faithful(*g, c);
        },
        FilterV::InSet(e, name) => {
            sorting_keeps_the_texts(value_set(c.value_sets, name));
            lemma_prefixed_any_eq(own_read(e), value_set(c.value_sets, name));
            lemma_any_eq(parent_read(own_read(e)), value_set(c.value_sets, name), c);
        },
        FilterV::In(e, vs) => {
            lemma_prefixed_any_eq(own_read(e), vs);
            lemma_any_eq(parent_read(own_read(e)), vs, c);
        },
        FilterV::Eq(e, v) => {
            assert(seq![v].contains(v) && (forall|w: Seq<char>| seq![v].contains(w) ==> w == v))
                by {
                assert(seq![v][0] == v);
            }
        },
        FilterV::NumRange(e, min, max) => {
            lemma_prefixed_bounds(own_read(e), min, max);
            lemma_bounds(parent_read(own_read(e)), min, max, c);
        },
        FilterV::Parent(g) => {
            let has = ExprV::Lit(crate::categorize::expr::LiteralV::Pos(PredicateV::HasParent));
            let inner = prefixed_expr(expr_of(*g, c.value_sets));
            parents_have_no_parents(expr_of(*g, c.value_sets));
            assert(prefixed_expr(has) == has);
            assert(prefixed_exprs(seq![has, inner]) =~= seq![has, inner]);
            lemma_both(has, inner, c);
            parent_expression_is_faithful(*g, c);
            assert(d.with_obj(c.parent->0) == d);
        },
        FilterV::AnnotationEq(key, eq) => {
            assert(d.annotation(key) == c.annotation(key));
            assert(d.side() == c.side());
        },
        _ => {},
    }
}

proof fn lemma_parent_list(fs: Seq<FilterV>, c: CtxV)
    requires
        all_expressible(fs),
        c.parent is Some,
    ensures
        exprs_all_hold(prefixed_exprs(exprs_of(fs, c.value_sets)), c) == all_hold(
            fs,
            c.with_obj(c.parent->0),
        ),
        exprs_any_holds(prefixed_exprs(exprs_of(fs, c.value_sets)), c) == any_holds(
            fs,
            c.with_obj(c.parent->0),
        ),
    decreases fs,
{
    let d = c.with_obj(c.parent->0);
    let xs = exprs_of(fs, c.value_sets);
    let ys = prefixed_exprs(xs);
    assert forall|i: int| 0 <= i < fs.len() implies expr_holds(#[trigger] ys[i], c) == holds(
        fs[i],
        d,
    ) by {
        assert(expressible(fs[i]));
        parent_expression_is_faithful(fs[i], c);
        assert(xs[i] == expr_of(fs[i], c.value_sets));
        assert(ys[i] == prefixed_expr(xs[i]));
    }
    if exprs_all_hold(ys, c) {
        assert forall|i: int| 0 <= i < fs.len() implies holds(#[trigger] fs[i], d) by {
            assert(expr_holds(ys[i], c));
        }
    }
    if exprs_any_holds(ys, c) {
        let i = choose|i: int| 0 <= i < ys.len() && expr_holds(#[trigger] ys[i], c);
        assert(holds(fs[i], d));
    }
    if any_holds(fs, d) {
        let i = choose|i: int| 0 <= i < fs.len() && holds(#[trigger] fs[i], d);
        assert(expr_holds(ys[i], c));
    }
}

/// The expression of a filter is true of an object exactly where the filter holds.
pub proof fn expression_is_faithful(f: FilterV, c: CtxV)
    requires
        expressible(f),
    ensures
        expr_holds(expr_of(f, c.value_sets), c) == holds(f, c),
    decreases f,
{
    match f {
        FilterV::And(fs) => {
            lemma_list(fs, c);
        },
        FilterV::Or(fs) => {
            lemma_list(fs, c);
        },
        FilterV::Not(g) => {
            expression_is_faithful(*g, c);
        },
        FilterV::InSet(e, name) => {
            sorting_keeps_the_texts(value_set(c.value_sets, name));
            lemma_any_eq(own_read(e), value_set(c.value_sets, name), c);
        },
        FilterV::In(e, vs) => {
            lemma_any_eq(own_read(e), vs, c);
        },
        FilterV::Eq(e, v) => {
            assert(seq![v].contains(v) && (forall|w: Seq<char>| seq![v].contains(w) ==> w == v))
                by {
                assert(seq![v][0] == v);
            }
        },
        FilterV::NumRange(e, min, max) => {
            lemma_bounds(own_read(e), min, max, c);
        },
        FilterV::Parent(g) => {
            let has = ExprV::Lit(crate::categorize::expr::LiteralV::Pos(PredicateV::HasParent));
            lemma_both(has, prefixed_expr(expr_of(*g, c.value_sets)), c);
            if c.parent is Some {
                parent_expression_is_faithful(*g, c);
            }
        },
        _ => {},
    }
}

proof fn lemma_list(fs: Seq<FilterV>, c: CtxV)
    requires
        all_expressible(fs),
    ensures
        exprs_all_hold(exprs_of(fs, c.value_sets), c) == all_hold(fs, c),
        exprs_any_holds(exprs_of(fs, c.value_sets), c) == any_holds(fs, c),
    decreases fs,
{
    let ys = exprs_of(fs, c.value_sets);
    assert forall|i: int| 0 <= i < fs.len() implies expr_holds(#[trigger] ys[i], c) == holds(
        fs[i],
        c,
    ) by {
        assert(expressible(fs[i]));
        expression_is_faithful(fs[i], c);
    }
    if exprs_all_hold(ys, c) {
        assert forall|i: int| 0 <= i < fs.len() implies holds(#[trigger] fs[i], c) by {
            assert(expr_holds(ys[i], c));
        }
    }
    if exprs_any_holds(ys, c) {
        let i = choose|i: int| 0 <= i < ys.len() && expr_holds(#[trigger] ys[i], c);
        assert(holds(fs[i], c));
    }
    if any_holds(fs, c) {
        let i = choose|i: int| 0 <= i < fs.len() && holds(#[trigger] fs[i], c);
        assert(expr_holds(ys[i], c));
    }
}

} // verus!
