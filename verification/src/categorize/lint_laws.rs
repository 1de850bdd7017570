//! What the list of overlaps says of the categories: which pairs are in it, and what it warns of.
use vstd::prelude::*;

use crate::categorize::categories::{excludes, last_named, CategoryV};
use crate::categorize::expr::{expressible, LiteralV, PredicateV, Scope, TagReadV};
use crate::categorize::faithful::expression_is_faithful;
use crate::categorize::linter::{
    are_overlaps, consistent, divergence, diverging, incompatible, is_overlap, named_values,
    no_overlap_is_missed, overlap_pairs, overlapping, tag_warnings, term_warnings, value_warnings,
    warned, warnings_at, Overlap,
};
use crate::lang::context::CtxV;
use crate::lang::filter::holds;
use crate::text::{lowercase, occurs_in, quoted};

verus! {

// ── Contradictions ──────────────────────────────────────────────────────────────────────────

/// A term that says a thing and its opposite, two values of one read, two sides or two infixes, or a
/// value and that the same read gives none, is not consistent.
pub proof fn contradictions_are_seen(
    term: Seq<LiteralV>,
    a: int,
    b: int,
    p: PredicateV,
    e: TagReadV,
    v: Seq<char>,
    w: Seq<char>,
)
    requires
        0 <= a < term.len(),
        0 <= b < term.len(),
        v != w,
        ({
            ||| term[a] == LiteralV::Pos(p) && term[b] == LiteralV::Neg(p)
            ||| term[a] == LiteralV::Pos(PredicateV::Eq(e, v)) && term[b] == LiteralV::Pos(
                PredicateV::Eq(e, w),
            )
            ||| term[a] == LiteralV::Pos(PredicateV::Side(v)) && term[b] == LiteralV::Pos(
                PredicateV::Side(w),
            )
            ||| term[a] == LiteralV::Pos(PredicateV::Infix(v)) && term[b] == LiteralV::Pos(
                PredicateV::Infix(w),
            )
            ||| term[a] == LiteralV::Pos(PredicateV::Eq(e, v)) && term[b] == LiteralV::Neg(
                PredicateV::Exists(e),
            )
        }),
    ensures
        !consistent(term),
{
    assert(incompatible(term[a], term[b]));
}

/// Values of reads that differ are no contradiction, and neither are any two other things that a
/// term may say.
pub proof fn different_reads_do_not_contradict(
    e: TagReadV,
    f: TagReadV,
    v: Seq<char>,
    w: Seq<char>,
)
    requires
        e != f,
    ensures
        consistent(
            seq![LiteralV::Pos(PredicateV::Eq(e, v)), LiteralV::Pos(PredicateV::Eq(f, w))],
        ),
{
}

// ── The list ────────────────────────────────────────────────────────────────────────────────

proof fn lemma_listed(
    cats: Seq<CategoryV>,
    sets: Seq<(Seq<char>, Seq<Seq<char>>)>,
    i: int,
    j: int,
    m: int,
    n: int,
)
    requires
        0 <= i < j < cats.len(),
        0 <= m <= cats.len(),
        n <= cats.len(),
        i < m || (i == m && j < n),
        overlapping(cats, sets, i, j),
    ensures
        overlap_pairs(cats, sets, m, n).contains((i, j)),
    decreases m, n,
{
    let all = overlap_pairs(cats, sets, m, n);
    if n <= m + 1 {
        lemma_listed(cats, sets, i, j, m - 1, cats.len() as int);
    } else {
        let before = overlap_pairs(cats, sets, m, n - 1);
        if i == m && j == n - 1 {
            assert(all[before.len() as int] == (i, j));
        } else {
            lemma_listed(cats, sets, i, j, m, n - 1);
            let k = before.index_of((i, j));
            assert(all[k] == (i, j));
        }
    }
}

proof fn lemma_pairs(
    cats: Seq<CategoryV>,
    sets: Seq<(Seq<char>, Seq<Seq<char>>)>,
    m: int,
    n: int,
)
    requires
        n <= cats.len(),
    ensures
        forall|k: int|
            #![trigger overlap_pairs(cats, sets, m, n)[k]]
            0 <= k < overlap_pairs(cats, sets, m, n).len() ==> {
                let (i, j) = overlap_pairs(cats, sets, m, n)[k];
                &&& 0 <= i < j < cats.len()
                &&& overlapping(cats, sets, i, j)
                &&& i < m || (i == m && j < n)
            },
        forall|k: int, l: int|
            0 <= k < l < overlap_pairs(cats, sets, m, n).len() ==> #[trigger] overlap_pairs(
                cats,
                sets,
                m,
                n,
            )[k] != #[trigger] overlap_pairs(cats, sets, m, n)[l],
    decreases m, n,
{
    if m < 0 || m > cats.len() {
        assert(overlap_pairs(cats, sets, m, n).len() == 0);
    } else if n <= m + 1 {
        if m > 0 {
            lemma_pairs(cats, sets, m - 1, cats.len() as int);
            let now = overlap_pairs(cats, sets, m, n);
            let before = overlap_pairs(cats, sets, m - 1, cats.len() as int);
            assert(now == before);
            assert forall|k: int| 0 <= k < now.len() implies {
                let (i, j) = #[trigger] now[k];
                &&& 0 <= i < j < cats.len()
                &&& overlapping(cats, sets, i, j)
                &&& i < m || (i == m && j < n)
            } by {
                assert(now[k] == before[k]);
            }
            assert forall|k: int, l: int| 0 <= k < l < now.len() implies #[trigger] now[k]
                != #[trigger] now[l] by {
                assert(now[k] == before[k] && now[l] == before[l]);
            }
        } else {
            assert(overlap_pairs(cats, sets, m, n).len() == 0);
        }
    } else {
        lemma_pairs(cats, sets, m, n - 1);
        let before = overlap_pairs(cats, sets, m, n - 1);
        let now = overlap_pairs(cats, sets, m, n);
        assert forall|k: int| 0 <= k < now.len() implies {
            let (i, j) = #[trigger] now[k];
            &&& 0 <= i < j < cats.len()
            &&& overlapping(cats, sets, i, j)
            &&& i < m || (i == m && j < n)
        } by {
            if k < before.len() {
                assert(now[k] == before[k]);
            }
        }
        assert forall|k: int, l: int| 0 <= k < l < now.len() implies #[trigger] now[k]
            != #[trigger] now[l] by {
            assert(now[k] == before[k]);
            if l < before.len() {
                assert(now[l] == before[l]);
            }
        }
    }
}

/// Every pair of the list is a pair of categories of which neither excludes the other, and no pair
/// is listed twice.
pub proof fn listed_pairs_overlap(
    v: Seq<Overlap>,
    cats: Seq<CategoryV>,
    sets: Seq<(Seq<char>, Seq<Seq<char>>)>,
    k: int,
)
    requires
        are_overlaps(v, cats, sets),
        0 <= k < v.len(),
    ensures
        exists|i: int, j: int|
            {
                &&& 0 <= i < j < cats.len()
                &&& v[k].a@ == (#[trigger] cats[i]).id
                &&& v[k].b@ == (#[trigger] cats[j]).id
                &&& !excludes(cats[i], cats[j].id)
                &&& !excludes(cats[j], cats[i].id)
            },
        forall|l: int|
            0 <= l < v.len() && l != k ==> overlap_pairs(cats, sets, cats.len() as int, 0)[k]
                != #[trigger] overlap_pairs(cats, sets, cats.len() as int, 0)[l],
{
    let pairs = overlap_pairs(cats, sets, cats.len() as int, 0);
    lemma_pairs(cats, sets, cats.len() as int, 0);
    let (i, j) = pairs[k];
    assert(is_overlap(v[k], cats, sets, i, j));
    assert(overlapping(cats, sets, i, j));
    assert(v[k].a@ == cats[i].id && v[k].b@ == cats[j].id);
}

/// Two categories that an object matches both of, and of which neither excludes the other, are in
/// the list.
pub proof fn categories_that_meet_are_listed(
    v: Seq<Overlap>,
    cats: Seq<CategoryV>,
    i: int,
    j: int,
    c: CtxV,
)
    requires
        are_overlaps(v, cats, c.value_sets),
        0 <= i < j < cats.len(),
        last_named(cats, cats[i].id) == i,
        last_named(cats, cats[j].id) == j,
        expressible(cats[i].condition),
        expressible(cats[j].condition),
        holds(cats[i].condition, c),
        holds(cats[j].condition, c),
        !excludes(cats[i], cats[j].id),
        !excludes(cats[j], cats[i].id),
    ensures
        exists|k: int|
            0 <= k < v.len() && (#[trigger] v[k]).a@ == cats[i].id && v[k].b@ == cats[j].id,
{
    expression_is_faithful(cats[i].condition, c);
    expression_is_faithful(cats[j].condition, c);
    no_overlap_is_missed(cats, c.value_sets, i, j, c);
    lemma_listed(cats, c.value_sets, i, j, cats.len() as int, 0);
    let pairs = overlap_pairs(cats, c.value_sets, cats.len() as int, 0);
    let k = pairs.index_of((i, j));
    assert(is_overlap(v[k], cats, c.value_sets, i, j));
}

// ── Warnings ────────────────────────────────────────────────────────────────────────────────

/// Whether a term asks, with its literal `b`, for a shape of the tag `t` that the value `v` is not
/// of, and `m` says so.
pub open spec fn asks_for_another_shape(
    term: Seq<LiteralV>,
    b: int,
    t: Seq<char>,
    v: Seq<char>,
    m: Seq<char>,
) -> bool {
    let head = "Tag '"@ + t + "' Eq("@ + quoted(v) + ") diverges from "@;
    ||| (term[b] matches LiteralV::Pos(PredicateV::StartsWith(_, s)) && !s.is_prefix_of(v) && m
        == head + "StartsWith"@ + "("@ + quoted(s) + ")"@)
    ||| (term[b] matches LiteralV::Pos(PredicateV::Contains(_, s, false)) && !occurs_in(v, s) && m
        == head + "Contains"@ + "("@ + quoted(s) + ")"@)
    ||| (term[b] matches LiteralV::Pos(PredicateV::Contains(_, s, true)) && !occurs_in(
        lowercase(v),
        s,
    ) && m == head + "Contains"@ + "("@ + quoted(s) + ")"@)
}

/// Whether the `a`-th literal of a term names the value `v` for the tag `t`.
pub open spec fn names_value(
    term: Seq<LiteralV>,
    a: int,
    scope: Scope,
    t: Seq<char>,
    v: Seq<char>,
) -> bool {
    term[a] matches LiteralV::Pos(PredicateV::Eq(e, w)) && w == v && e.scope == scope
        && e.names().contains(t)
}

proof fn lemma_named(term: Seq<LiteralV>, n: int, scope: Scope, t: Seq<char>, v: Seq<char>)
    requires
        0 <= n <= term.len(),
    ensures
        named_values(term, n, scope, t).contains(v) <==> exists|a: int|
            0 <= a < n && #[trigger] names_value(term, a, scope, t, v),
    decreases n,
{
    if n > 0 {
        lemma_named(term, n - 1, scope, t, v);
        let before = named_values(term, n - 1, scope, t);
        let now = named_values(term, n, scope, t);
        if before.contains(v) {
            let k = before.index_of(v);
            assert(now[k] == v);
            let a = choose|a: int| 0 <= a < n - 1 && #[trigger] names_value(term, a, scope, t, v);
            assert(names_value(term, a, scope, t, v));
        }
        if names_value(term, n - 1, scope, t, v) && !before.contains(v) {
            assert(now[before.len() as int] == v);
        }
        if now.contains(v) && !before.contains(v) {
            let k = now.index_of(v);
            assert(k == before.len());
            assert(names_value(term, n - 1, scope, t, v));
        }
    }
}

proof fn lemma_values(
    term: Seq<LiteralV>,
    b: int,
    t: Seq<char>,
    vs: Seq<Seq<char>>,
    n: int,
    m: Seq<char>,
)
    requires
        0 <= b < term.len(),
        0 <= n <= vs.len(),
    ensures
        value_warnings(term[b], t, vs, n).contains(m) <==> exists|k: int|
            0 <= k < n && asks_for_another_shape(term, b, t, #[trigger] vs[k], m),
    decreases n,
{
    if n > 0 {
        lemma_values(term, b, t, vs, n - 1, m);
        let before = value_warnings(term[b], t, vs, n - 1);
        let now = value_warnings(term[b], t, vs, n);
        let v = vs[n - 1];
        assert(diverging(term[b], v) matches Some(d) ==> (asks_for_another_shape(term, b, t, v, m)
            <==> m == divergence(t, v, d.0, d.1)));
        assert(diverging(term[b], v) is None ==> !asks_for_another_shape(term, b, t, v, m));
        if before.contains(m) {
            let i = before.index_of(m);
            assert(now[i] == m);
        }
        if asks_for_another_shape(term, b, t, v, m) {
            assert(now[before.len() as int] == m);
        }
        if now.contains(m) && !before.contains(m) {
            let i = now.index_of(m);
            assert(i >= before.len());
            assert(asks_for_another_shape(term, b, t, vs[n - 1], m));
        }
    }
}

/// Whether the `b`-th literal of a term, of a tag `t`, gives the warning for a value that the term
/// names.
pub open spec fn warns_of(
    term: Seq<LiteralV>,
    a: int,
    b: int,
    t: Seq<char>,
    v: Seq<char>,
    m: Seq<char>,
) -> bool {
    &&& 0 <= a < term.len()
    &&& names_value(term, a, term[b].atom().scope(), t, v)
    &&& asks_for_another_shape(term, b, t, v, m)
}

proof fn lemma_at(term: Seq<LiteralV>, b: int, t: Seq<char>, m: Seq<char>)
    requires
        0 <= b < term.len(),
    ensures
        warnings_at(term, term[b], t).contains(m) <==> exists|a: int, v: Seq<char>| #[trigger]
            warns_of(term, a, b, t, v, m),
{
    let scope = term[b].atom().scope();
    let vs = named_values(term, term.len() as int, scope, t);
    lemma_values(term, b, t, vs, vs.len() as int, m);
    if warnings_at(term, term[b], t).contains(m) {
        let k = choose|k: int|
            0 <= k < vs.len() && asks_for_another_shape(term, b, t, #[trigger] vs[k], m);
        lemma_named(term, term.len() as int, scope, t, vs[k]);
        let a = choose|a: int|
            0 <= a < term.len() && #[trigger] names_value(term, a, scope, t, vs[k]);
        assert(warns_of(term, a, b, t, vs[k], m));
    }
    if exists|a: int, v: Seq<char>| #[trigger] warns_of(term, a, b, t, v, m) {
        let (a, v) = choose|a: int, v: Seq<char>| #[trigger] warns_of(term, a, b, t, v, m);
        lemma_named(term, term.len() as int, scope, t, v);
        let k = vs.index_of(v);
        assert(asks_for_another_shape(term, b, t, vs[k], m));
    }
}

proof fn lemma_tags(term: Seq<LiteralV>, b: int, n: int, m: Seq<char>)
    requires
        0 <= b < term.len(),
        0 <= n <= term[b].atom().tags().len(),
    ensures
        tag_warnings(term, term[b], n).contains(m) <==> exists|k: int|
            0 <= k < n && warnings_at(term, term[b], #[trigger] term[b].atom().tags()[k]).contains(
                m,
            ),
    decreases n,
{
    if n > 0 {
        lemma_tags(term, b, n - 1, m);
        let before = tag_warnings(term, term[b], n - 1);
        let added = warnings_at(term, term[b], term[b].atom().tags()[n - 1]);
        let now = tag_warnings(term, term[b], n);
        assert(now == before + added);
        if before.contains(m) {
            assert(now[before.index_of(m)] == m);
        }
        if added.contains(m) {
            assert(now[before.len() + added.index_of(m)] == m);
        }
        if now.contains(m) && !before.contains(m) {
            let i = now.index_of(m);
            assert(added[i - before.len()] == m);
        }
    }
}

/// Whether a literal of a term that asks for a shape of a tag gives the warning for a value that
/// another literal names for that tag.
pub open spec fn gives(term: Seq<LiteralV>, b: int, m: Seq<char>) -> bool {
    exists|a: int, t: Seq<char>, v: Seq<char>|
        term[b].atom().tags().contains(t) && #[trigger] warns_of(term, a, b, t, v, m)
}

proof fn lemma_gives(term: Seq<LiteralV>, b: int, m: Seq<char>)
    requires
        0 <= b < term.len(),
    ensures
        tag_warnings(term, term[b], term[b].atom().tags().len() as int).contains(m) <==> gives(
            term,
            b,
            m,
        ),
{
    let tags = term[b].atom().tags();
    lemma_tags(term, b, tags.len() as int, m);
    if tag_warnings(term, term[b], tags.len() as int).contains(m) {
        let k = choose|k: int|
            0 <= k < tags.len() && warnings_at(
                term,
                term[b],
                #[trigger] term[b].atom().tags()[k],
            ).contains(m);
        lemma_at(term, b, tags[k], m);
        let (a, v) = choose|a: int, v: Seq<char>| #[trigger] warns_of(term, a, b, tags[k], v, m);
        assert(tags.contains(tags[k]));
        assert(warns_of(term, a, b, tags[k], v, m));
    }
    if gives(term, b, m) {
        let (a, t, v) = choose|a: int, t: Seq<char>, v: Seq<char>|
            term[b].atom().tags().contains(t) && #[trigger] warns_of(term, a, b, t, v, m);
        lemma_at(term, b, t, m);
        let k = tags.index_of(t);
        assert(warnings_at(term, term[b], term[b].atom().tags()[k]).contains(m));
    }
}

proof fn lemma_term(term: Seq<LiteralV>, n: int, m: Seq<char>)
    requires
        0 <= n <= term.len(),
    ensures
        term_warnings(term, n).contains(m) <==> exists|b: int|
            0 <= b < n && #[trigger] gives(term, b, m),
    decreases n,
{
    if n > 0 {
        lemma_term(term, n - 1, m);
        let before = term_warnings(term, n - 1);
        let added = tag_warnings(term, term[n - 1], term[n - 1].atom().tags().len() as int);
        let now = term_warnings(term, n);
        lemma_gives(term, n - 1, m);
        assert(now == before + added);
        if before.contains(m) {
            assert(now[before.index_of(m)] == m);
        }
        if added.contains(m) {
            assert(now[before.len() + added.index_of(m)] == m);
        }
        if now.contains(m) && !before.contains(m) {
            let i = now.index_of(m);
            assert(added[i - before.len()] == m);
        }
    }
}

/// A term is warned of exactly where it names a value for a tag and asks for a shape of the same tag
/// that the value is not of: to begin with a text, or to contain one. The warning names the tag, the
/// value and the shape.
pub proof fn warnings_name_values_of_another_shape(term: Seq<LiteralV>, m: Seq<char>)
    ensures
        warned(term, m) <==> exists|b: int| 0 <= b < term.len() && #[trigger] gives(term, b, m),
{
    lemma_term(term, term.len() as int, m);
}

} // verus!
