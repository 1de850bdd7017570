//! A net gives the answers of the plain walk over the whole list of conditions.
use vstd::prelude::*;

use crate::assoc::lemma_first_position;
use crate::categorize::expr::{
    expr_holds, expr_of, exprs_all_hold, expressible, nnf, nnf_keeps_meaning, ExprV, LiteralV, PredicateV,
};
use crate::categorize::faithful::expression_is_faithful;
use crate::categorize::rank::{arranged, arranging_keeps_the_literals};
use crate::decision_tree::candidates::{
    clash, conjoined, conjuncts, conjuncts_of, folded, has_false, leaf_of, lits,
    named_value, no_literals, only_literals, sides, truths, CandidateV, LEAF_MAX,
};
use crate::decision_tree::compile::{
    are_nets, child_values, conditions, initial, is_net, residual_parts,
};
use crate::decision_tree::kleene::{
    fact_holds, is_unit, left_over, side_known, simplified, simplified_keeps_meaning,
    simplified_list, FactV,
};
use crate::decision_tree::runtime::{first_place, net_matches, true_places};
use crate::decision_tree::tree::{branch_value, child_position, leaf_for, BranchKeyV, TreeV};
use crate::decision_tree::walkers::{literal_values, literals, literals_in, mentions_value};
use crate::lang::context::CtxV;
use crate::lang::filter::{holds, FilterV};
use crate::number::ReadingsV;

verus! {

// ── Conjunctions ────────────────────────────────────────────────────────────────────────────

proof fn lemma_all_hold_concat(a: Seq<ExprV>, b: Seq<ExprV>, c: CtxV)
    ensures
        exprs_all_hold(a + b, c) == (exprs_all_hold(a, c) && exprs_all_hold(b, c)),
{
    if exprs_all_hold(a + b, c) {
        assert forall|i: int| 0 <= i < a.len() implies expr_holds(#[trigger] a[i], c) by {
            assert((a + b)[i] == a[i]);
        }
        assert forall|i: int| 0 <= i < b.len() implies expr_holds(#[trigger] b[i], c) by {
            assert((a + b)[a.len() + i] == b[i]);
        }
    }
    if exprs_all_hold(a, c) && exprs_all_hold(b, c) {
        assert forall|i: int| 0 <= i < (a + b).len() implies expr_holds(
            #[trigger] (a + b)[i],
            c,
        ) by {
            if i < a.len() {
                assert((a + b)[i] == a[i]);
            } else {
                assert((a + b)[i] == b[i - a.len()]);
            }
        }
    }
}

proof fn lemma_conjuncts(e: ExprV, c: CtxV)
    ensures
        exprs_all_hold(conjuncts(e), c) == expr_holds(e, c),
    decreases e, 0int,
{
    match e {
        ExprV::True => {},
        ExprV::And(xs) => {
            lemma_conjuncts_of(xs, xs.len() as int, c);
            assert(exprs_all_hold(xs, c) == (forall|i: int|
                0 <= i < xs.len() ==> expr_holds(#[trigger] xs[i], c)));
        },
        _ => {
            let one = seq![e];
            assert(one[0] == e);
            assert(exprs_all_hold(one, c) ==> expr_holds(one[0], c));
        },
    }
}

proof fn lemma_conjuncts_of(xs: Seq<ExprV>, n: int, c: CtxV)
    requires
        0 <= n <= xs.len(),
    ensures
        exprs_all_hold(conjuncts_of(xs, n), c) == (forall|i: int|
            0 <= i < n ==> expr_holds(#[trigger] xs[i], c)),
    decreases xs, n,
{
    if n > 0 {
        lemma_conjuncts(xs[n - 1], c);
        lemma_conjuncts_of(xs, n - 1, c);
        lemma_all_hold_concat(conjuncts(xs[n - 1]), conjuncts_of(xs, n - 1), c);
    }
}

proof fn lemma_members(fs: Seq<ExprV>)
    ensures
        forall|l: LiteralV| #[trigger]
            only_literals(fs).contains(l) <==> fs.contains(ExprV::Lit(l)),
        forall|e: ExprV| #[trigger]
            no_literals(fs).contains(e) <==> fs.contains(e) && !(e is Lit),
    decreases fs.len(),
{
    if fs.len() > 0 {
        let rest = fs.drop_last();
        lemma_members(rest);
        assert(fs =~= rest.push(fs.last()));
        assert forall|l: LiteralV| #[trigger] only_literals(fs).contains(l) <==> fs.contains(
            ExprV::Lit(l),
        ) by {
            assert(only_literals(rest).contains(l) <==> rest.contains(ExprV::Lit(l)));
            lemma_push_contains(rest, fs.last(), ExprV::Lit(l));
            match fs.last() {
                ExprV::Lit(m) => {
                    lemma_push_contains(only_literals(rest), m, l);
                },
                _ => {},
            }
        }
        assert forall|e: ExprV| #[trigger] no_literals(fs).contains(e) <==> fs.contains(e) && !(
        e is Lit) by {
            assert(no_literals(rest).contains(e) <==> rest.contains(e) && !(e is Lit));
            lemma_push_contains(rest, fs.last(), e);
            match fs.last() {
                ExprV::Lit(m) => {},
                _ => {
                    lemma_push_contains(no_literals(rest), fs.last(), e);
                },
            }
        }
    }
}

proof fn lemma_push_contains<A>(s: Seq<A>, x: A, y: A)
    ensures
        s.push(x).contains(y) <==> s.contains(y) || x == y,
{
    if s.contains(y) {
        let i = s.index_of(y);
        assert(s.push(x)[i] == y);
    }
    assert(s.push(x)[s.len() as int] == x);
    if s.push(x).contains(y) {
        let i = s.push(x).index_of(y);
        if i < s.len() {
            assert(s[i] == y);
        }
    }
}

/// A conjunction is true of an object exactly where all its parts are.
pub proof fn conjoined_keeps_meaning(parts: Seq<ExprV>, c: CtxV)
    ensures
        expr_holds(conjoined(parts), c) == exprs_all_hold(parts, c),
{
    let fs = conjuncts_of(parts, parts.len() as int);
    let ls = only_literals(fs);
    lemma_conjuncts_of(parts, parts.len() as int, c);
    assert(exprs_all_hold(parts, c) == (forall|i: int|
        0 <= i < parts.len() ==> expr_holds(#[trigger] parts[i], c)));
    lemma_members(fs);
    arranging_keeps_the_literals(ls);
    if has_false(fs) {
        let i = choose|i: int| 0 <= i < fs.len() && (#[trigger] fs[i]) is False;
        assert(!expr_holds(fs[i], c));
    } else if clash(ls) {
        let i = choose|i: int| 0 <= i < ls.len() && ls.contains((#[trigger] ls[i]).opposite());
        let a = ls[i];
        assert(ls.contains(a));
        assert(fs.contains(ExprV::Lit(a)));
        assert(fs.contains(ExprV::Lit(a.opposite())));
        let x = fs.index_of(ExprV::Lit(a));
        let y = fs.index_of(ExprV::Lit(a.opposite()));
        assert(expr_holds(fs[x], c) == !expr_holds(fs[y], c));
        assert(!exprs_all_hold(fs, c));
    } else {
        let d = arranged(ls);
        let all = lits(d) + no_literals(fs);
        if exprs_all_hold(fs, c) {
            assert forall|i: int| 0 <= i < all.len() implies expr_holds(#[trigger] all[i], c) by {
                if i < d.len() {
                    assert(d.contains(d[i]));
                    assert(ls.contains(d[i]));
                    assert(fs.contains(all[i]));
                    assert(expr_holds(fs[fs.index_of(all[i])], c));
                } else {
                    assert(no_literals(fs).contains(no_literals(fs)[i - d.len()]));
                    assert(fs.contains(all[i]));
                    assert(expr_holds(fs[fs.index_of(all[i])], c));
                }
            }
        }
        if exprs_all_hold(all, c) {
            assert forall|i: int| 0 <= i < fs.len() implies expr_holds(#[trigger] fs[i], c) by {
                assert(fs.contains(fs[i]));
                match fs[i] {
                    ExprV::Lit(l) => {
                        assert(ls.contains(l));
                        assert(d.contains(l));
                        let k = d.index_of(l);
                        assert(all[k] == ExprV::Lit(l));
                    },
                    _ => {
                        assert(no_literals(fs).contains(fs[i]));
                        let k = no_literals(fs).index_of(fs[i]);
                        assert(all[d.len() + k] == fs[i]);
                    },
                }
            }
        }
        if all.len() == 1 {
            assert(exprs_all_hold(all, c) == expr_holds(all[0], c));
        }
        assert(all.len() > 1 ==> expr_holds(ExprV::And(all), c) == exprs_all_hold(all, c));
    }
}

// ── Simplifying names no new texts ──────────────────────────────────────────────────────────

/// Whether every literal of `a` is one of `b`.
spec fn within_literals(a: Seq<LiteralV>, b: Seq<LiteralV>) -> bool {
    forall|i: int| 0 <= i < a.len() ==> b.contains(#[trigger] a[i])
}

proof fn lemma_concat_contains<A>(a: Seq<A>, b: Seq<A>, x: A)
    ensures
        (a + b).contains(x) <==> a.contains(x) || b.contains(x),
{
    if a.contains(x) {
        assert((a + b)[a.index_of(x)] == x);
    }
    if b.contains(x) {
        assert((a + b)[a.len() + b.index_of(x)] == x);
    }
    if (a + b).contains(x) {
        let i = (a + b).index_of(x);
        if i < a.len() {
            assert(a[i] == x);
        } else {
            assert(b[i - a.len()] == x);
        }
    }
}

proof fn lemma_within_concat(
    a: Seq<LiteralV>,
    b: Seq<LiteralV>,
    x: Seq<LiteralV>,
    y: Seq<LiteralV>,
)
    requires
        within_literals(a, x),
        within_literals(b, y),
    ensures
        within_literals(a + b, x + y),
{
    assert forall|i: int| 0 <= i < (a + b).len() implies (x + y).contains(
        #[trigger] (a + b)[i],
    ) by {
        lemma_concat_contains(x, y, (a + b)[i]);
        if i < a.len() {
            assert(x.contains(a[i]));
        } else {
            assert(y.contains(b[i - a.len()]));
        }
    }
}

proof fn lemma_literals_shrink(e: ExprV, f: FactV, r: ReadingsV)
    ensures
        within_literals(literals(simplified(e, f, r)), literals(e)),
    decreases e, 0int,
{
    match e {
        ExprV::Lit(l) => {
            assert(literals(e)[0] == l);
        },
        ExprV::Not(x) => {
            lemma_literals_shrink(*x, f, r);
        },
        ExprV::And(xs) => {
            lemma_list_shrinks(xs, true, f, r);
        },
        ExprV::Or(xs) => {
            lemma_list_shrinks(xs, false, f, r);
        },
        _ => {},
    }
}

proof fn lemma_list_shrinks(xs: Seq<ExprV>, and: bool, f: FactV, r: ReadingsV)
    ensures
        within_literals(
            literals(simplified_list(xs, and, f, r)),
            literals_in(xs, xs.len() as int),
        ),
    decreases xs, xs.len() + 1,
{
    let n = xs.len() as int;
    lemma_left_over_shrinks(xs, n, and, f, r);
    let k = left_over(xs, n, and, f, r);
    if k.len() == 1 {
        assert(literals_in(k, 0) =~= Seq::<LiteralV>::empty());
        assert(literals_in(k, 1) =~= literals(k[0]));
    }
}

proof fn lemma_literals_prefix(a: Seq<ExprV>, x: ExprV, n: int)
    requires
        0 <= n <= a.len(),
    ensures
        literals_in(a.push(x), n) == literals_in(a, n),
    decreases n,
{
    if n > 0 {
        lemma_literals_prefix(a, x, n - 1);
        assert(a.push(x)[n - 1] == a[n - 1]);
    }
}

proof fn lemma_left_over_shrinks(xs: Seq<ExprV>, n: int, and: bool, f: FactV, r: ReadingsV)
    requires
        0 <= n <= xs.len(),
    ensures
        within_literals(
            literals_in(left_over(xs, n, and, f, r), left_over(xs, n, and, f, r).len() as int),
            literals_in(xs, n),
        ),
    decreases xs, n,
{
    if n > 0 {
        lemma_left_over_shrinks(xs, n - 1, and, f, r);
        lemma_literals_shrink(xs[n - 1], f, r);
        let s = simplified(xs[n - 1], f, r);
        let rest = left_over(xs, n - 1, and, f, r);
        let old_lits = literals_in(rest, rest.len() as int);
        if is_unit(s, and) {
            assert forall|i: int| 0 <= i < old_lits.len() implies literals_in(xs, n).contains(
                #[trigger] old_lits[i],
            ) by {
                assert(literals_in(xs, n - 1).contains(old_lits[i]));
                lemma_concat_contains(
                    literals_in(xs, n - 1),
                    literals(xs[n - 1]),
                    old_lits[i],
                );
            }
        } else {
            let all = rest.push(s);
            lemma_literals_prefix(rest, s, rest.len() as int);
            assert(all[rest.len() as int] == s);
            assert(literals_in(all, all.len() as int) == old_lits + literals(s));
            lemma_within_concat(
                old_lits,
                literals(s),
                literals_in(xs, n - 1),
                literals(xs[n - 1]),
            );
        }
    }
}

proof fn lemma_values_shrink(e: ExprV, f: FactV, r: ReadingsV, key: BranchKeyV, v: Seq<char>)
    requires
        mentions_value(simplified(e, f, r), key, v),
    ensures
        mentions_value(e, key, v),
{
    lemma_literals_shrink(e, f, r);
    let ls = literals(simplified(e, f, r));
    let i = choose|i: int| 0 <= i < ls.len() && literal_values(#[trigger] ls[i], key).contains(v);
    assert(literals(e).contains(ls[i]));
    let j = literals(e).index_of(ls[i]);
    assert(literal_values(literals(e)[j], key).contains(v));
}

// ── Candidates that agree with the list they come from ──────────────────────────────────────

/// Whether `r` reads every text that the conditions name as the object does.
pub open spec fn reads_alike(cs: Seq<CandidateV>, c: CtxV, r: ReadingsV) -> bool {
    forall|key: BranchKeyV, v: Seq<char>| #[trigger]
        named_value(cs, key, v) ==> r.number(v) == c.readings.number(v)
}

/// Whether condition `n` is one that a walk must come to: it holds, and where the first one that
/// holds is final, none before it does.
pub open spec fn wins(es: Seq<ExprV>, n: int, c: CtxV, is_final: bool) -> bool {
    expr_holds(es[n], c) && (is_final ==> forall|m: int|
        0 <= m < n ==> !expr_holds(#[trigger] es[m], c))
}

/// Whether the candidates stand in order, say of the object what their conditions say, and lack
/// none that a walk must come to.
spec fn good(cs: Seq<CandidateV>, es: Seq<ExprV>, c: CtxV, is_final: bool) -> bool {
    &&& forall|i: int, j: int| 0 <= i < j < cs.len() ==> (#[trigger] cs[i]).index < (
    #[trigger] cs[j]).index
    &&& forall|i: int|
        0 <= i < cs.len() ==> (#[trigger] cs[i]).index < es.len() && expr_holds(cs[i].own, c)
            == expr_holds(es[cs[i].index as int], c)
    &&& forall|n: int|
        0 <= n < es.len() && #[trigger] wins(es, n, c, is_final) ==> stands_for(cs, n, c)
}

/// Whether some candidate for condition `n` still holds beyond those before it.
spec fn stands_for(cs: Seq<CandidateV>, n: int, c: CtxV) -> bool {
    exists|i: int|
        0 <= i < cs.len() && (#[trigger] cs[i]).index == n && expr_holds(cs[i].residual, c)
}

/// A candidate with a fact folded in.
spec fn fold_one(x: CandidateV, f: FactV, r: ReadingsV) -> CandidateV {
    CandidateV {
        index: x.index,
        residual: simplified(x.residual, f, r),
        own: simplified(x.own, f, r),
    }
}

/// The candidate that the one at `j` came from.
spec fn comes_from(
    cs: Seq<CandidateV>,
    d: Seq<CandidateV>,
    f: FactV,
    r: ReadingsV,
    j: int,
) -> bool {
    exists|i: int| 0 <= i < cs.len() && d[j] == fold_one(#[trigger] cs[i], f, r)
}

proof fn lemma_folded(cs: Seq<CandidateV>, f: FactV, r: ReadingsV, c: CtxV)
    requires
        fact_holds(f, c, r),
        side_known(c),
        forall|i: int, j: int| 0 <= i < j < cs.len() ==> (#[trigger] cs[i]).index < (
        #[trigger] cs[j]).index,
    ensures
        forall|i: int, j: int|
            0 <= i < j < folded(cs, f, r).len() ==> (#[trigger] folded(cs, f, r)[i]).index < (
            #[trigger] folded(cs, f, r)[j]).index,
        forall|j: int|
            0 <= j < folded(cs, f, r).len() ==> #[trigger] comes_from(
                cs,
                folded(cs, f, r),
                f,
                r,
                j,
            ),
        forall|i: int|
            0 <= i < cs.len() && expr_holds((#[trigger] cs[i]).residual, c) ==> folded(
                cs,
                f,
                r,
            ).contains(fold_one(cs[i], f, r)),
    decreases cs.len(),
{
    if cs.len() > 0 {
        let rest = cs.drop_last();
        let last = cs.last();
        assert forall|i: int, j: int| 0 <= i < j < rest.len() implies (#[trigger] rest[i]).index < (
        #[trigger] rest[j]).index by {
            assert(cs[i].index < cs[j].index);
        }
        lemma_folded(rest, f, r, c);
        let d0 = folded(rest, f, r);
        let d = folded(cs, f, r);
        simplified_keeps_meaning(last.residual, f, c, r);
        assert forall|j: int| 0 <= j < d0.len() implies (#[trigger] d0[j]).index < last.index by {
            assert(comes_from(rest, d0, f, r, j));
            let i = choose|i: int| 0 <= i < rest.len() && d0[j] == fold_one(#[trigger] rest[i], f, r);
            assert(cs[i] == rest[i]);
            assert(cs[i].index < cs[cs.len() - 1].index);
        }
        assert forall|j: int| 0 <= j < d.len() implies #[trigger] comes_from(cs, d, f, r, j) by {
            if j < d0.len() {
                assert(d[j] == d0[j]);
                assert(comes_from(rest, d0, f, r, j));
                let i = choose|i: int|
                    0 <= i < rest.len() && d0[j] == fold_one(#[trigger] rest[i], f, r);
                assert(d[j] == fold_one(cs[i], f, r));
            } else {
                assert(d[j] == fold_one(cs[cs.len() - 1], f, r));
            }
        }
        assert forall|i: int| 0 <= i < cs.len() && expr_holds(
            (#[trigger] cs[i]).residual,
            c,
        ) implies d.contains(fold_one(cs[i], f, r)) by {
            if i < rest.len() {
                assert(rest[i] == cs[i]);
                assert(d0.contains(fold_one(rest[i], f, r)));
                let k = d0.index_of(fold_one(rest[i], f, r));
                assert(d[k] == d0[k]);
            } else {
                assert(d[d0.len() as int] == fold_one(last, f, r));
            }
        }
    }
}

proof fn lemma_folded_good(
    cs: Seq<CandidateV>,
    es: Seq<ExprV>,
    c: CtxV,
    is_final: bool,
    f: FactV,
    r: ReadingsV,
)
    requires
        good(cs, es, c, is_final),
        fact_holds(f, c, r),
        side_known(c),
        reads_alike(cs, c, r),
    ensures
        good(folded(cs, f, r), es, c, is_final),
        reads_alike(folded(cs, f, r), c, r),
{
    let d = folded(cs, f, r);
    lemma_folded(cs, f, r, c);
    assert forall|j: int| 0 <= j < d.len() implies (#[trigger] d[j]).index < es.len()
        && expr_holds(d[j].own, c) == expr_holds(es[d[j].index as int], c) by {
        assert(comes_from(cs, d, f, r, j));
        let i = choose|i: int| 0 <= i < cs.len() && d[j] == fold_one(#[trigger] cs[i], f, r);
        simplified_keeps_meaning(cs[i].own, f, c, r);
    }
    assert forall|n: int| 0 <= n < es.len() && #[trigger] wins(es, n, c, is_final) implies stands_for(
        d,
        n,
        c,
    ) by {
        assert(stands_for(cs, n, c));
        let i = choose|i: int|
            0 <= i < cs.len() && (#[trigger] cs[i]).index == n && expr_holds(cs[i].residual, c);
        simplified_keeps_meaning(cs[i].residual, f, c, r);
        assert(d.contains(fold_one(cs[i], f, r)));
        let k = d.index_of(fold_one(cs[i], f, r));
        assert(d[k].index == n);
    }
    assert forall|key: BranchKeyV, v: Seq<char>| #[trigger] named_value(d, key, v) implies r.number(
        v,
    ) == c.readings.number(v) by {
        let j = choose|j: int| 0 <= j < d.len() && mentions_value((#[trigger] d[j]).residual, key, v);
        assert(comes_from(cs, d, f, r, j));
        let i = choose|i: int| 0 <= i < cs.len() && d[j] == fold_one(#[trigger] cs[i], f, r);
        lemma_values_shrink(cs[i].residual, f, r, key, v);
        assert(mentions_value(cs[i].residual, key, v));
        assert(named_value(cs, key, v));
    }
}

/// Whether the conditions of a leaf stand in order, say of the object what their conditions say,
/// and lack none that a walk must come to.
spec fn good_leaf(v: Seq<(usize, ExprV)>, es: Seq<ExprV>, c: CtxV, is_final: bool) -> bool {
    &&& forall|i: int, j: int| 0 <= i < j < v.len() ==> (#[trigger] v[i]).0 < (#[trigger] v[j]).0
    &&& forall|i: int|
        0 <= i < v.len() ==> (#[trigger] v[i]).0 < es.len() && expr_holds(v[i].1, c) == expr_holds(
            es[v[i].0 as int],
            c,
        )
    &&& forall|n: int|
        0 <= n < es.len() && #[trigger] wins(es, n, c, is_final) ==> has_place(v, n)
}

/// Whether condition `n` is in the leaf.
spec fn has_place(v: Seq<(usize, ExprV)>, n: int) -> bool {
    exists|i: int| 0 <= i < v.len() && (#[trigger] v[i]).0 == n
}

proof fn lemma_leaf_good(cs: Seq<CandidateV>, es: Seq<ExprV>, c: CtxV, is_final: bool)
    requires
        good(cs, es, c, is_final),
    ensures
        good_leaf(leaf_of(cs), es, c, is_final),
{
    let v = leaf_of(cs);
    assert forall|i: int, j: int| 0 <= i < j < v.len() implies (#[trigger] v[i]).0 < (
    #[trigger] v[j]).0 by {
        assert(cs[i].index < cs[j].index);
    }
    assert forall|n: int| 0 <= n < es.len() && #[trigger] wins(es, n, c, is_final) implies has_place(
        v,
        n,
    ) by {
        assert(stands_for(cs, n, c));
        let i = choose|i: int|
            0 <= i < cs.len() && (#[trigger] cs[i]).index == n && expr_holds(cs[i].residual, c);
        assert(v[i].0 == n);
    }
}

proof fn lemma_sides_cover()
    ensures
        sides().contains("left"@),
        sides().contains("right"@),
        sides().contains("self"@),
        truths().contains("true"@),
        truths().contains("false"@),
{
    assert(sides()[0] == "left"@);
    assert(sides()[1] == "right"@);
    assert(sides()[2] == "self"@);
    assert(truths()[0] == "false"@);
    assert(truths()[1] == "true"@);
}

proof fn lemma_net_good(
    t: TreeV,
    cs: Seq<CandidateV>,
    used: Seq<BranchKeyV>,
    used_atoms: Seq<PredicateV>,
    budget: int,
    r: ReadingsV,
    es: Seq<ExprV>,
    c: CtxV,
    is_final: bool,
)
    requires
        is_net(t, cs, used, used_atoms, budget, r),
        good(cs, es, c, is_final),
        side_known(c),
        reads_alike(cs, c, r),
    ensures
        good_leaf(leaf_for(t, c), es, c, is_final),
    decreases budget,
{
    if cs.len() <= LEAF_MAX || budget <= 0 {
        lemma_leaf_good(cs, es, c, is_final);
    } else {
        match t {
            TreeV::Leaf(_) => {
                lemma_leaf_good(cs, es, c, is_final);
            },
            TreeV::Branch(key, children, wildcard) => {
                let values = child_values(children);
                lemma_sides_cover();
                match branch_value(key, c) {
                    Some(v) => {
                        lemma_first_position(children, v);
                        let p = child_position(children, v);
                        if p < children.len() {
                            let f = FactV::Value(key, v);
                            assert(values[p] == v);
                            assert(values.contains(v));
                            assert(fact_holds(f, c, r)) by {
                                if key is Tag {
                                    assert(named_value(cs, key, v));
                                }
                            }
                            lemma_folded_good(cs, es, c, is_final, f, r);
                            assert(children[p].0 == v);
                            assert(are_nets(
                                children,
                                cs,
                                key,
                                used.push(key),
                                used_atoms,
                                budget - 1,
                                r,
                            ));
                            lemma_net_good(
                                children[p].1,
                                folded(cs, f, r),
                                used.push(key),
                                used_atoms,
                                budget - 1,
                                r,
                                es,
                                c,
                                is_final,
                            );
                        } else {
                            let f = FactV::Other(key, values);
                            assert(!values.contains(v)) by {
                                if values.contains(v) {
                                    let k = values.index_of(v);
                                    assert(children[k].0 == v);
                                }
                            }
                            lemma_folded_good(cs, es, c, is_final, f, r);
                            lemma_net_good(
                                *wildcard,
                                folded(cs, f, r),
                                used.push(key),
                                used_atoms,
                                budget - 1,
                                r,
                                es,
                                c,
                                is_final,
                            );
                        }
                    },
                    None => {
                        let f = FactV::Other(key, values);
                        lemma_folded_good(cs, es, c, is_final, f, r);
                        lemma_net_good(
                            *wildcard,
                            folded(cs, f, r),
                            used.push(key),
                            used_atoms,
                            budget - 1,
                            r,
                            es,
                            c,
                            is_final,
                        );
                    },
                }
            },
            TreeV::AtomBranch(p, a, b) => {
                let truth = crate::categorize::expr::decide(p, c);
                let f = FactV::Atom(p, truth);
                lemma_folded_good(cs, es, c, is_final, f, r);
                lemma_net_good(
                    if truth {
                        *a
                    } else {
                        *b
                    },
                    folded(cs, f, r),
                    used,
                    used_atoms.push(p),
                    budget - 1,
                    r,
                    es,
                    c,
                    is_final,
                );
            },
        }
    }
}

proof fn lemma_initial_good(es: Seq<ExprV>, c: CtxV, is_final: bool)
    requires
        es.len() <= usize::MAX,
    ensures
        good(initial(es, is_final), es, c, is_final),
{
    let cs = initial(es, is_final);
    assert forall|n: int| 0 <= n < es.len() && #[trigger] wins(es, n, c, is_final) implies stands_for(
        cs,
        n,
        c,
    ) by {
        if is_final {
            let parts = residual_parts(es, n);
            conjoined_keeps_meaning(parts, c);
            assert forall|i: int| 0 <= i < parts.len() implies expr_holds(
                #[trigger] parts[i],
                c,
            ) by {
                if i > 0 {
                    assert(parts[i] == nnf(es[i - 1], true));
                    nnf_keeps_meaning(es[i - 1], true, c);
                }
            }
            assert(exprs_all_hold(parts, c));
        }
        assert(cs[n].index == n);
        assert(expr_holds(cs[n].residual, c));
    }
}

// ── The walk over the whole list ────────────────────────────────────────────────────────────

/// The places of the conditions among the first `n` that are true of an object, in their order.
pub open spec fn linear_matches(es: Seq<ExprV>, n: int, c: CtxV) -> Seq<usize>
    decreases n,
{
    if n <= 0 || n > es.len() {
        Seq::empty()
    } else if expr_holds(es[n - 1], c) {
        linear_matches(es, n - 1, c).push((n - 1) as usize)
    } else {
        linear_matches(es, n - 1, c)
    }
}

spec fn ascending(v: Seq<usize>) -> bool {
    forall|i: int, j: int| 0 <= i < j < v.len() ==> (#[trigger] v[i]) < (#[trigger] v[j])
}

proof fn lemma_linear(es: Seq<ExprV>, n: int, c: CtxV)
    requires
        0 <= n <= es.len() <= usize::MAX,
    ensures
        ascending(linear_matches(es, n, c)),
        forall|i: int| 0 <= i < linear_matches(es, n, c).len() ==> #[trigger] linear_matches(
            es,
            n,
            c,
        )[i] < n,
        forall|m: usize| #[trigger]
            linear_matches(es, n, c).contains(m) <==> m < n && expr_holds(es[m as int], c),
    decreases n,
{
    if n > 0 {
        lemma_linear(es, n - 1, c);
        let v = linear_matches(es, n - 1, c);
        assert forall|m: usize| #[trigger] linear_matches(es, n, c).contains(m) <==> m < n
            && expr_holds(es[m as int], c) by {
            assert(v.contains(m) <==> m < n - 1 && expr_holds(es[m as int], c));
            lemma_push_contains(v, (n - 1) as usize, m);
        }
    }
}

proof fn lemma_true_places(v: Seq<(usize, ExprV)>, c: CtxV)
    requires
        forall|i: int, j: int| 0 <= i < j < v.len() ==> (#[trigger] v[i]).0 < (#[trigger] v[j]).0,
    ensures
        ascending(true_places(v, c)),
        forall|m: usize| #[trigger]
            true_places(v, c).contains(m) <==> exists|i: int|
                0 <= i < v.len() && (#[trigger] v[i]).0 == m && expr_holds(v[i].1, c),
    decreases v.len(),
{
    if v.len() > 0 {
        let rest = v.drop_last();
        let last = v.last();
        assert forall|i: int, j: int| 0 <= i < j < rest.len() implies (#[trigger] rest[i]).0 < (
        #[trigger] rest[j]).0 by {
            assert(v[i].0 < v[j].0);
        }
        lemma_true_places(rest, c);
        let p0 = true_places(rest, c);
        assert forall|k: int| 0 <= k < p0.len() implies (#[trigger] p0[k]) < last.0 by {
            assert(p0.contains(p0[k]));
            let i = choose|i: int|
                0 <= i < rest.len() && (#[trigger] rest[i]).0 == p0[k] && expr_holds(rest[i].1, c);
            assert(v[i].0 < v[v.len() - 1].0);
        }
        assert forall|m: usize| #[trigger]
            true_places(v, c).contains(m) <==> exists|i: int|
                0 <= i < v.len() && (#[trigger] v[i]).0 == m && expr_holds(v[i].1, c) by {
            lemma_push_contains(p0, last.0, m);
            if p0.contains(m) {
                let i = choose|i: int|
                    0 <= i < rest.len() && (#[trigger] rest[i]).0 == m && expr_holds(rest[i].1, c);
                assert(v[i].0 == m);
            }
            if expr_holds(last.1, c) && last.0 == m {
                assert(v[v.len() - 1].0 == m);
            }
            if exists|i: int| 0 <= i < v.len() && (#[trigger] v[i]).0 == m && expr_holds(v[i].1, c) {
                let i = choose|i: int|
                    0 <= i < v.len() && (#[trigger] v[i]).0 == m && expr_holds(v[i].1, c);
                if i < rest.len() {
                    assert(rest[i].0 == m);
                }
            }
        }
    }
}

proof fn lemma_ascending_unique(a: Seq<usize>, b: Seq<usize>)
    requires
        ascending(a),
        ascending(b),
        forall|m: usize| a.contains(m) <==> #[trigger] b.contains(m),
    ensures
        a == b,
    decreases a.len(),
{
    if a.len() == 0 {
        if b.len() > 0 {
            assert(b.contains(b[0]));
        }
        assert(a =~= b);
    } else {
        let x = a.last();
        assert(a[a.len() - 1] == x);
        assert(a.contains(x));
        assert(b.contains(x));
        let y = b.last();
        assert(b[b.len() - 1] == y);
        assert(b.contains(y));
        assert(a.contains(y));
        let k = b.index_of(x);
        let m = a.index_of(y);
        assert(x == y) by {
            if k < b.len() - 1 {
                assert(b[k] < b[b.len() - 1]);
            }
            if m < a.len() - 1 {
                assert(a[m] < a[a.len() - 1]);
            }
        }
        let a1 = a.drop_last();
        let b1 = b.drop_last();
        assert forall|z: usize| a1.contains(z) <==> #[trigger] b1.contains(z) by {
            if a1.contains(z) {
                let i = a1.index_of(z);
                assert(a[i] == z);
                assert(a[i] < a[a.len() - 1]);
                assert(a.contains(z));
                assert(b.contains(z));
                let j = b.index_of(z);
                assert(j < b.len() - 1);
                assert(b1[j] == z);
            }
            if b1.contains(z) {
                let i = b1.index_of(z);
                assert(b[i] == z);
                assert(b[i] < b[b.len() - 1]);
                assert(b.contains(z));
                assert(a.contains(z));
                let j = a.index_of(z);
                assert(j < a.len() - 1);
                assert(a1[j] == z);
            }
        }
        assert(ascending(a1)) by {
            assert forall|i: int, j: int| 0 <= i < j < a1.len() implies (#[trigger] a1[i]) < (
            #[trigger] a1[j]) by {
                assert(a[i] < a[j]);
            }
        }
        assert(ascending(b1)) by {
            assert forall|i: int, j: int| 0 <= i < j < b1.len() implies (#[trigger] b1[i]) < (
            #[trigger] b1[j]) by {
                assert(b[i] < b[j]);
            }
        }
        lemma_ascending_unique(a1, b1);
        assert(a =~= a1.push(x));
        assert(b =~= b1.push(y));
    }
}

/// A net over conditions of which any may turn out to count finds every condition that is true of
/// the object, in order.
pub proof fn net_finds_all_matches(
    t: TreeV,
    es: Seq<ExprV>,
    max_depth: int,
    r: ReadingsV,
    c: CtxV,
)
    requires
        es.len() <= usize::MAX,
        is_net(t, initial(es, false), Seq::empty(), Seq::empty(), max_depth, r),
        side_known(c),
        reads_alike(initial(es, false), c, r),
    ensures
        net_matches(t, c) == linear_matches(es, es.len() as int, c),
{
    lemma_initial_good(es, c, false);
    lemma_net_good(
        t,
        initial(es, false),
        Seq::empty(),
        Seq::empty(),
        max_depth,
        r,
        es,
        c,
        false,
    );
    let v = leaf_for(t, c);
    lemma_true_places(v, c);
    lemma_linear(es, es.len() as int, c);
    let a = net_matches(t, c);
    let b = linear_matches(es, es.len() as int, c);
    assert forall|m: usize| a.contains(m) <==> #[trigger] b.contains(m) by {
        if a.contains(m) {
            let i = choose|i: int|
                0 <= i < v.len() && (#[trigger] v[i]).0 == m && expr_holds(v[i].1, c);
            assert(expr_holds(es[m as int], c));
        }
        if b.contains(m) {
            assert(wins(es, m as int, c, false));
            assert(has_place(v, m as int));
            let i = choose|i: int| 0 <= i < v.len() && (#[trigger] v[i]).0 == m as int;
            assert(expr_holds(v[i].1, c));
        }
    }
    lemma_ascending_unique(a, b);
}

/// A net over conditions of which the first that holds is final finds the first condition that is
/// true of the object.
pub proof fn net_finds_first_match(
    t: TreeV,
    es: Seq<ExprV>,
    max_depth: int,
    r: ReadingsV,
    c: CtxV,
)
    requires
        es.len() <= usize::MAX,
        is_net(t, initial(es, true), Seq::empty(), Seq::empty(), max_depth, r),
        side_known(c),
        reads_alike(initial(es, true), c, r),
    ensures
        first_place(net_matches(t, c)) == first_place(linear_matches(es, es.len() as int, c)),
{
    lemma_initial_good(es, c, true);
    lemma_net_good(
        t,
        initial(es, true),
        Seq::empty(),
        Seq::empty(),
        max_depth,
        r,
        es,
        c,
        true,
    );
    let v = leaf_for(t, c);
    lemma_true_places(v, c);
    lemma_linear(es, es.len() as int, c);
    let a = net_matches(t, c);
    let b = linear_matches(es, es.len() as int, c);
    if b.len() > 0 {
        let w = b[0];
        assert(b.contains(w));
        assert forall|m: int| 0 <= m < w implies !expr_holds(#[trigger] es[m], c) by {
            if expr_holds(es[m], c) {
                assert(b.contains(m as usize));
                let k = b.index_of(m as usize);
                if k > 0 {
                    assert(b[0] < b[k]);
                }
            }
        }
        assert(wins(es, w as int, c, true));
        assert(has_place(v, w as int));
        let i = choose|i: int| 0 <= i < v.len() && (#[trigger] v[i]).0 == w as int;
        assert(expr_holds(v[i].1, c));
        assert(a.contains(w));
        let k = a.index_of(w);
        assert(a.contains(a[0]));
        let j = choose|j: int|
            0 <= j < v.len() && (#[trigger] v[j]).0 == a[0] && expr_holds(v[j].1, c);
        assert(expr_holds(es[a[0] as int], c));
        if k > 0 {
            assert(a[0] < a[k]);
            assert(false);
        }
    } else if a.len() > 0 {
        assert(a.contains(a[0]));
        let j = choose|j: int|
            0 <= j < v.len() && (#[trigger] v[j]).0 == a[0] && expr_holds(v[j].1, c);
        assert(expr_holds(es[a[0] as int], c));
        assert(b.contains(a[0]));
    }
}

/// The places of the filters among the first `n` that hold of an object, in their order.
pub open spec fn holding(fs: Seq<FilterV>, n: int, c: CtxV) -> Seq<usize>
    decreases n,
{
    if n <= 0 || n > fs.len() {
        Seq::empty()
    } else if holds(fs[n - 1], c) {
        holding(fs, n - 1, c).push((n - 1) as usize)
    } else {
        holding(fs, n - 1, c)
    }
}

/// The conditions that are true are those of the filters that hold.
pub proof fn linear_matches_are_holding(fs: Seq<FilterV>, n: int, c: CtxV)
    requires
        0 <= n <= fs.len(),
        forall|i: int| 0 <= i < fs.len() ==> expressible(#[trigger] fs[i]),
    ensures
        linear_matches(conditions(fs, c.value_sets), n, c) == holding(fs, n, c),
    decreases n,
{
    if n > 0 {
        linear_matches_are_holding(fs, n - 1, c);
        let e = expr_of(fs[n - 1], c.value_sets);
        assert(expressible(fs[n - 1]));
        nnf_keeps_meaning(e, false, c);
        expression_is_faithful(fs[n - 1], c);
        assert(conditions(fs, c.value_sets)[n - 1] == nnf(e, false));
    }
}

/// A net over filters of which the first that holds is final gives the answer of the plain walk.
pub proof fn net_agrees_with_walk(
    t: TreeV,
    fs: Seq<FilterV>,
    max_depth: int,
    r: ReadingsV,
    c: CtxV,
)
    requires
        fs.len() <= usize::MAX,
        is_net(
            t,
            initial(conditions(fs, c.value_sets), true),
            Seq::empty(),
            Seq::empty(),
            max_depth,
            r,
        ),
        side_known(c),
        reads_alike(initial(conditions(fs, c.value_sets), true), c, r),
        forall|i: int| 0 <= i < fs.len() ==> expressible(#[trigger] fs[i]),
    ensures
        first_place(net_matches(t, c)) == first_place(holding(fs, fs.len() as int, c)),
{
    net_finds_first_match(t, conditions(fs, c.value_sets), max_depth, r, c);
    linear_matches_are_holding(fs, fs.len() as int, c);
}

/// A net over filters of which any may turn out to count gives all answers of the plain walk.
pub proof fn net_agrees_with_full_walk(
    t: TreeV,
    fs: Seq<FilterV>,
    max_depth: int,
    r: ReadingsV,
    c: CtxV,
)
    requires
        fs.len() <= usize::MAX,
        is_net(
            t,
            initial(conditions(fs, c.value_sets), false),
            Seq::empty(),
            Seq::empty(),
            max_depth,
            r,
        ),
        side_known(c),
        reads_alike(initial(conditions(fs, c.value_sets), false), c, r),
        forall|i: int| 0 <= i < fs.len() ==> expressible(#[trigger] fs[i]),
    ensures
        net_matches(t, c) == holding(fs, fs.len() as int, c),
{
    net_finds_all_matches(t, conditions(fs, c.value_sets), max_depth, r, c);
    linear_matches_are_holding(fs, fs.len() as int, c);
}

} // verus!
