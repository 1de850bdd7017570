//! Overlaps: two categories that neither excludes and that one object may match both of, so that
//! the order of the list would silently decide between them.
use vstd::prelude::*;

use crate::categorize::categories::{
    conditions_expressible, defs_view, excludes, last_named, place_of, CategoriesFile, CategoryV,
};
use crate::categorize::expr::{
    dnf, dnf_keeps_meaning, expr_holds, expr_of, expressible, filter_to_expr, has_text,
    literal_holds, nnf, nnf_has_no_negation, nnf_keeps_meaning, parent_prefix, scoped_tags,
    scoped_text, term_holds, text_contains, to_dnf, to_nnf, Literal, LiteralV, Predicate,
    PredicateV, Scope, TagRead, TagReadV,
};
use crate::lang::context::{CtxV, ValueSets};
use crate::lang::extract::first_set;
use crate::categorize::faithful::expression_is_faithful;
use crate::lang::filter::{holds, Filter, FilterV};
use crate::model::{copy_all, models, Model};
use crate::text::{
    contains_str, insert_sorted, quote, quoted, starts_with, str_eq, strictly_sorted,
};

verus! {

/// Two categories that overlap, with what may be wrong about them.
#[derive(Debug)]
pub struct Overlap {
    pub a: String,
    pub b: String,
    pub warnings: Vec<String>,
}

// ── Terms that nothing can satisfy ──────────────────────────────────────────────────────────

/// Whether a text that `e` reads shows that `f` reads one too: the reads are the same, or `f` takes
/// texts as they stand and tries every key that `e` tries.
pub open spec fn shows_presence(e: TagReadV, f: TagReadV) -> bool {
    ||| e == f
    ||| e.scope == f.scope && f.extract.chain().len() == 0 && forall|t: Seq<char>| #[trigger]
        e.names().contains(t) ==> f.names().contains(t)
}

/// Whether two literals of a term cannot both be true, as far as their form shows: opposites, such as
/// a value that is also denied; two values of one read; a value that shows the presence of what is
/// said not to be there; two sides; two infixes. Reads that differ in their sanitize chains may give
/// different texts for one tag, so their values are not held against each other.
pub open spec fn incompatible(a: LiteralV, b: LiteralV) -> bool {
    ||| b == a.opposite()
    ||| match (a, b) {
        (LiteralV::Pos(PredicateV::Eq(e, v)), LiteralV::Pos(PredicateV::Eq(f, w))) => v != w && e
            == f,
        (LiteralV::Pos(PredicateV::Eq(e, _)), LiteralV::Neg(PredicateV::Exists(f))) =>
            shows_presence(e, f),
        (LiteralV::Pos(PredicateV::Side(s)), LiteralV::Pos(PredicateV::Side(t))) => s != t,
        (LiteralV::Pos(PredicateV::Infix(s)), LiteralV::Pos(PredicateV::Infix(t))) => s != t,
        _ => false,
    }
}

/// Whether no two literals of a term are incompatible.
pub open spec fn consistent(term: Seq<LiteralV>) -> bool {
    forall|i: int, j: int|
        0 <= i < term.len() && 0 <= j < term.len() ==> !incompatible(
            #[trigger] term[i],
            #[trigger] term[j],
        )
}

/// The warning that a tag's value is not of the shape that is also asked for.
pub open spec fn divergence(
    tag: Seq<char>,
    value: Seq<char>,
    shape: Seq<char>,
    text: Seq<char>,
) -> Seq<char> {
    "Tag '"@ + tag + "' Eq("@ + quoted(value) + ") diverges from "@ + shape + "("@ + quoted(text)
        + ")"@
}

/// The values that the first `n` literals of a term name for a tag, each once.
pub open spec fn named_values(
    term: Seq<LiteralV>,
    n: int,
    scope: Scope,
    t: Seq<char>,
) -> Seq<Seq<char>>
    decreases n,
{
    if n <= 0 || n > term.len() {
        Seq::empty()
    } else {
        let vs = named_values(term, n - 1, scope, t);
        match term[n - 1] {
            LiteralV::Pos(PredicateV::Eq(e, v)) => if e.scope == scope && e.names().contains(t)
                && !vs.contains(v) {
                vs.push(v)
            } else {
                vs
            },
            _ => vs,
        }
    }
}

/// The shape that a literal asks for, where the value `v` is not of it: its name and its text.
pub open spec fn diverging(l: LiteralV, v: Seq<char>) -> Option<(Seq<char>, Seq<char>)> {
    match l {
        LiteralV::Pos(PredicateV::StartsWith(_, s)) => if s.is_prefix_of(v) {
            None
        } else {
            Some(("StartsWith"@, s))
        },
        LiteralV::Pos(PredicateV::Contains(_, s, ci)) => if text_contains(v, s, ci) {
            None
        } else {
            Some(("Contains"@, s))
        },
        _ => None,
    }
}

/// The warnings about a literal, the tag `t` that it looks at and the first `n` of some values of the
/// tag: one for each value that is not of the shape.
pub open spec fn value_warnings(
    l: LiteralV,
    t: Seq<char>,
    vs: Seq<Seq<char>>,
    n: int,
) -> Seq<Seq<char>>
    decreases n,
{
    if n <= 0 || n > vs.len() {
        Seq::empty()
    } else {
        value_warnings(l, t, vs, n - 1) + match diverging(l, vs[n - 1]) {
            Some((shape, text)) => seq![divergence(t, vs[n - 1], shape, text)],
            None => Seq::empty(),
        }
    }
}

/// The warnings about a literal and the tag `t` that it looks at.
pub open spec fn warnings_at(term: Seq<LiteralV>, l: LiteralV, t: Seq<char>) -> Seq<Seq<char>> {
    let vs = named_values(term, term.len() as int, l.atom().scope(), t);
    value_warnings(l, t, vs, vs.len() as int)
}

/// The warnings about a literal and the first `k` of its tags.
pub open spec fn tag_warnings(term: Seq<LiteralV>, l: LiteralV, k: int) -> Seq<Seq<char>>
    decreases k,
{
    if k <= 0 || k > l.atom().tags().len() {
        Seq::empty()
    } else {
        tag_warnings(term, l, k - 1) + warnings_at(term, l, l.atom().tags()[k - 1])
    }
}

/// The warnings about the first `n` literals of a term: one for each literal that asks for a shape,
/// each tag that it looks at and each value that the term names for that tag, where the value is not
/// of the shape.
pub open spec fn term_warnings(term: Seq<LiteralV>, n: int) -> Seq<Seq<char>>
    decreases n,
{
    if n <= 0 || n > term.len() {
        Seq::empty()
    } else {
        term_warnings(term, n - 1) + tag_warnings(
            term,
            term[n - 1],
            term[n - 1].atom().tags().len() as int,
        )
    }
}

/// Whether `m` is one of the warnings about a term.
pub open spec fn warned(term: Seq<LiteralV>, m: Seq<char>) -> bool {
    term_warnings(term, term.len() as int).contains(m)
}

fn is_presence_shown(e: &TagRead, f: &TagRead) -> (r: bool)
    ensures
        r == shows_presence(e@, f@),
{
    if e.same(f) {
        return true;
    }
    if e.scope != f.scope || f.extract.sanitize().len() > 0 {
        return false;
    }
    let a = e.tag_names();
    let b = f.tag_names();
    let ghost av = models(a@);
    let ghost bv = models(b@);
    for i in 0..a.len()
        invariant
            av == models(a@),
            bv == models(b@),
            forall|j: int| 0 <= j < i ==> bv.contains(#[trigger] av[j]),
            av == e@.names(),
            bv == f@.names(),
            e@ != f@,
    {
        proof {
            assert(av[i as int] == a@[i as int]@);
        }
        if !contains_str(&b, a[i].as_str()) {
            proof {
                assert(av.contains(av[i as int]));
            }
            return false;
        }
    }
    proof {
        assert forall|t: Seq<char>| #[trigger] av.contains(t) implies bv.contains(t) by {
            assert(av[av.index_of(t)] == t);
        }
    }
    true
}

fn are_incompatible(a: &Literal, b: &Literal) -> (r: bool)
    ensures
        r == incompatible(a@, b@),
{
    if b.same(&a.opposite()) {
        return true;
    }
    match (a, b) {
        (Literal::Pos(Predicate::Eq(e, v)), Literal::Pos(Predicate::Eq(f, w))) => !str_eq(
            v.as_str(),
            w.as_str(),
        ) && e.same(f),
        (Literal::Pos(Predicate::Eq(e, _)), Literal::Neg(Predicate::Exists(f))) =>
            is_presence_shown(e, f),
        (Literal::Pos(Predicate::Side(s)), Literal::Pos(Predicate::Side(t))) => !str_eq(
            s.as_str(),
            t.as_str(),
        ),
        (Literal::Pos(Predicate::Infix(s)), Literal::Pos(Predicate::Infix(t))) => !str_eq(
            s.as_str(),
            t.as_str(),
        ),
        _ => false,
    }
}

fn is_consistent(term: &Vec<Literal>) -> (r: bool)
    ensures
        r == consistent(models(term@)),
{
    let ghost t = models(term@);
    let mut i: usize = 0;
    while i < term.len()
        invariant
            0 <= i <= term@.len(),
            t == models(term@),
            forall|a: int, b: int|
                0 <= a < i && 0 <= b < t.len() ==> !incompatible(#[trigger] t[a], #[trigger] t[b]),
        decreases term.len() - i,
    {
        let mut j: usize = 0;
        while j < term.len()
            invariant
                0 <= j <= term@.len(),
                i < term@.len(),
                t == models(term@),
                forall|b: int| 0 <= b < j ==> !incompatible(t[i as int], #[trigger] t[b]),
            decreases term.len() - j,
        {
            if are_incompatible(&term[i], &term[j]) {
                proof {
                    assert(incompatible(t[i as int], t[j as int]));
                }
                return false;
            }
            j = j + 1;
        }
        i = i + 1;
    }
    true
}

fn divergence_text(tag: &str, value: &str, shape: &str, text: &str) -> (r: String)
    ensures
        r@ == divergence(tag@, value@, shape@, text@),
{
    let mut out = "Tag '".to_owned();
    out.append(tag);
    out.append("' Eq(");
    out.append(quote(value).as_str());
    out.append(") diverges from ");
    out.append(shape);
    out.append("(");
    out.append(quote(text).as_str());
    out.append(")");
    out
}

/// The values that a term names for a tag, each once.
fn values_named(term: &Vec<Literal>, scope: Scope, t: &str) -> (r: Vec<String>)
    ensures
        models(r@) == named_values(models(term@), term@.len() as int, scope, t@),
{
    let ghost all = models(term@);
    let mut out: Vec<String> = Vec::new();
    proof {
        assert(models(out@) =~= Seq::<Seq<char>>::empty());
    }
    for i in 0..term.len()
        invariant
            all == models(term@),
            models(out@) == named_values(all, i as int, scope, t@),
    {
        let ghost before = models(out@);
        proof {
            assert(all[i as int] == term@[i as int]@);
        }
        if let Literal::Pos(Predicate::Eq(e, v)) = &term[i] {
            if e.scope == scope && contains_str(&e.tag_names(), t) && !contains_str(
                &out,
                v.as_str(),
            ) {
                out.push(v.clone());
                proof {
                    assert(models(out@) =~= before.push(v@));
                }
            }
        }
    }
    out
}

/// The shape that a literal asks for, where the value is not of it: its name and its text.
fn shape_missed<'a>(l: &'a Literal, v: &str) -> (r: Option<(&'static str, &'a str)>)
    ensures
        match r {
            Some((shape, text)) => diverging(l@, v@) == Some((shape@, text@)),
            None => diverging(l@, v@) is None,
        },
{
    match l {
        Literal::Pos(Predicate::StartsWith(_, s)) => if starts_with(v, s.as_str()) {
            None
        } else {
            Some(("StartsWith", s.as_str()))
        },
        Literal::Pos(Predicate::Contains(_, s, ci)) => if has_text(v, s.as_str(), *ci) {
            None
        } else {
            Some(("Contains", s.as_str()))
        },
        _ => None,
    }
}

/// Appends the warnings about one literal of a term.
fn warn_literal(term: &Vec<Literal>, l: &Literal, out: &mut Vec<String>)
    ensures
        models(final(out)@) == models(old(out)@) + tag_warnings(
            models(term@),
            l@,
            l@.atom().tags().len() as int,
        ),
{
    let tags = l.atom().tags_involved();
    let scope = l.atom().scope();
    let ghost all = models(term@);
    let ghost ts = models(tags@);
    let ghost before = models(out@);
    proof {
        assert(before + tag_warnings(all, l@, 0) =~= before);
    }
    for k in 0..tags.len()
        invariant
            all == models(term@),
            ts == models(tags@),
            ts == l@.atom().tags(),
            scope == l@.atom().scope(),
            models(out@) == before + tag_warnings(all, l@, k as int),
    {
        let ghost o = models(out@);
        let ghost t = ts[k as int];
        proof {
            assert(t == tags@[k as int]@);
        }
        let named = values_named(term, scope, tags[k].as_str());
        let ghost vs = models(named@);
        proof {
            assert(o + value_warnings(l@, t, vs, 0) =~= o);
        }
        for j in 0..named.len()
            invariant
                k < tags@.len(),
                t == tags@[k as int]@,
                vs == models(named@),
                models(out@) == o + value_warnings(l@, t, vs, j as int),
        {
            let ghost w = models(out@);
            proof {
                assert(vs[j as int] == named@[j as int]@);
            }
            if let Some((shape, text)) = shape_missed(l, named[j].as_str()) {
                out.push(divergence_text(tags[k].as_str(), named[j].as_str(), shape, text));
                proof {
                    assert(models(out@) =~= w.push(divergence(t, vs[j as int], shape@, text@)));
                }
            }
            proof {
                assert(models(out@) =~= o + value_warnings(l@, t, vs, j + 1));
            }
        }
        proof {
            assert(models(out@) =~= before + tag_warnings(all, l@, k + 1));
        }
    }
}

/// Whether a term can be satisfied, as far as its form shows; where it can, the warnings about values
/// that are not of the shape that is also asked for.
pub fn check_term_consistency(term: &Vec<Literal>) -> (r: (bool, Vec<String>))
    ensures
        r.0 == consistent(models(term@)),
        !r.0 ==> r.1@.len() == 0,
        r.0 ==> models(r.1@) == term_warnings(models(term@), term@.len() as int),
{
    if !is_consistent(term) {
        return (false, Vec::new());
    }
    let ghost t = models(term@);
    let mut out: Vec<String> = Vec::new();
    proof {
        assert(models(out@) =~= Seq::<Seq<char>>::empty());
    }
    for i in 0..term.len()
        invariant
            t == models(term@),
            models(out@) == term_warnings(t, i as int),
    {
        proof {
            assert(t[i as int] == term@[i as int]@);
        }
        warn_literal(term, &term[i], &mut out);
    }
    (true, out)
}

// ── Overlapping categories ──────────────────────────────────────────────────────────────────

/// The terms of a list that can be satisfied, as far as their form shows.
pub open spec fn only_consistent(ts: Seq<Seq<LiteralV>>) -> Seq<Seq<LiteralV>>
    decreases ts.len(),
{
    if ts.len() == 0 {
        Seq::empty()
    } else if consistent(ts.last()) {
        only_consistent(ts.drop_last()).push(ts.last())
    } else {
        only_consistent(ts.drop_last())
    }
}

/// The condition of a category as terms that can be satisfied.
pub open spec fn terms_of(
    f: FilterV,
    sets: Seq<(Seq<char>, Seq<Seq<char>>)>,
) -> Seq<Seq<LiteralV>> {
    only_consistent(dnf(nnf(expr_of(f, sets), false)))
}

/// Whether a term of each can be satisfied together.
pub open spec fn compatible_terms(
    a: Seq<Seq<LiteralV>>,
    b: Seq<Seq<LiteralV>>,
) -> bool {
    exists|i: int, j: int|
        0 <= i < a.len() && 0 <= j < b.len() && #[trigger] consistent(a[i] + b[j])
}

/// Whether `m` warns of a term of each that can be satisfied together.
pub open spec fn pair_warned(
    a: Seq<Seq<LiteralV>>,
    b: Seq<Seq<LiteralV>>,
    m: Seq<char>,
) -> bool {
    exists|i: int, j: int|
        0 <= i < a.len() && 0 <= j < b.len() && consistent(a[i] + b[j]) && #[trigger] warned(
            a[i] + b[j],
            m,
        )
}

/// The terms that count for category `i`: those of the last category of its name.
pub open spec fn counted_terms(
    cats: Seq<CategoryV>,
    sets: Seq<(Seq<char>, Seq<Seq<char>>)>,
    i: int,
) -> Seq<Seq<LiteralV>> {
    terms_of(cats[last_named(cats, cats[i].id)].condition, sets)
}

/// Whether categories `i` and `j` overlap.
pub open spec fn overlapping(
    cats: Seq<CategoryV>,
    sets: Seq<(Seq<char>, Seq<Seq<char>>)>,
    i: int,
    j: int,
) -> bool {
    &&& !excludes(cats[i], cats[j].id)
    &&& !excludes(cats[j], cats[i].id)
    &&& compatible_terms(counted_terms(cats, sets, i), counted_terms(cats, sets, j))
}

/// The pairs of overlapping categories that come before the pair `i`, `j`, in order.
pub open spec fn overlap_pairs(
    cats: Seq<CategoryV>,
    sets: Seq<(Seq<char>, Seq<Seq<char>>)>,
    i: int,
    j: int,
) -> Seq<(int, int)>
    decreases i, j,
{
    if i < 0 || i > cats.len() {
        Seq::empty()
    } else if j <= i + 1 {
        if i == 0 {
            Seq::empty()
        } else {
            overlap_pairs(cats, sets, i - 1, cats.len() as int)
        }
    } else if overlapping(cats, sets, i, j - 1) {
        overlap_pairs(cats, sets, i, j - 1).push((i, j - 1))
    } else {
        overlap_pairs(cats, sets, i, j - 1)
    }
}

/// Whether the overlap is the one of categories `i` and `j`.
pub open spec fn is_overlap(
    o: Overlap,
    cats: Seq<CategoryV>,
    sets: Seq<(Seq<char>, Seq<Seq<char>>)>,
    i: int,
    j: int,
) -> bool {
    &&& o.a@ == cats[i].id
    &&& o.b@ == cats[j].id
    &&& strictly_sorted(models(o.warnings@))
    &&& forall|m: Seq<char>| #[trigger]
        models(o.warnings@).contains(m) <==> pair_warned(
            counted_terms(cats, sets, i),
            counted_terms(cats, sets, j),
            m,
        )
}

fn consistent_terms(condition: &Filter, sets: &ValueSets) -> (r: Vec<Vec<Literal>>)
    requires
        expressible(condition@),
    ensures
        models(r@) == terms_of(condition@, sets@),
{
    let all = to_dnf(&to_nnf(filter_to_expr(condition, sets)));
    let ghost ts = models(all@);
    let mut out: Vec<Vec<Literal>> = Vec::new();
    proof {
        assert(models(out@) =~= Seq::<Seq<LiteralV>>::empty());
    }
    for i in 0..all.len()
        invariant
            ts == models(all@),
            models(out@) == only_consistent(ts.take(i as int)),
    {
        proof {
            assert(ts.take(i + 1).drop_last() =~= ts.take(i as int));
            assert(ts.take(i + 1).last() == models(all@[i as int]@));
        }
        if check_term_consistency(&all[i]).0 {
            let ghost before = out@;
            out.push(copy_all(&all[i]));
            proof {
                assert(models(out@) =~= models(before).push(ts[i as int]));
            }
        }
    }
    proof {
        assert(ts.take(ts.len() as int) =~= ts);
    }
    out
}

fn lists(list: &Option<Vec<String>>, name: &str) -> (r: bool)
    ensures
        r == (list.model() is Some && list.model()->0.contains(name@)),
{
    match list {
        Some(v) => contains_str(v, name),
        None => false,
    }
}

/// What two categories' terms say of their overlap: whether there is one, and the warnings.
fn compare_terms(a: &Vec<Vec<Literal>>, b: &Vec<Vec<Literal>>) -> (r: (bool, Vec<String>))
    ensures
        r.0 == compatible_terms(models(a@), models(b@)),
        strictly_sorted(models(r.1@)),
        forall|m: Seq<char>| #[trigger]
            models(r.1@).contains(m) <==> pair_warned(models(a@), models(b@), m),
{
    let ghost av = models(a@);
    let ghost bv = models(b@);
    let mut here = false;
    let mut warnings: Vec<String> = Vec::new();
    let mut i: usize = 0;
    while i < a.len()
        invariant
            0 <= i <= a@.len(),
            av == models(a@),
            bv == models(b@),
            here == (exists|x: int, y: int|
                0 <= x < i && 0 <= y < bv.len() && #[trigger] consistent(av[x] + bv[y])),
            strictly_sorted(models(warnings@)),
            forall|m: Seq<char>| #[trigger]
                models(warnings@).contains(m) <==> exists|x: int, y: int|
                    0 <= x < i && 0 <= y < bv.len() && consistent(av[x] + bv[y])
                        && #[trigger] warned(av[x] + bv[y], m),
        decreases a.len() - i,
    {
        let ghost here0 = here;
        let ghost before = models(warnings@);
        let mut j: usize = 0;
        while j < b.len()
            invariant
                0 <= j <= b@.len(),
                i < a@.len(),
                av == models(a@),
                bv == models(b@),
                here == (here0 || exists|y: int|
                    0 <= y < j && #[trigger] consistent(av[i as int] + bv[y])),
                strictly_sorted(models(warnings@)),
                forall|m: Seq<char>| #[trigger]
                    models(warnings@).contains(m) <==> before.contains(m) || exists|y: int|
                        0 <= y < j && consistent(av[i as int] + bv[y]) && #[trigger] warned(
                            av[i as int] + bv[y],
                            m,
                        ),
            decreases b.len() - j,
        {
            let mut combined = copy_all(&a[i]);
            let mut tail = copy_all(&b[j]);
            let ghost l = combined@;
            let ghost r = tail@;
            combined.append(&mut tail);
            proof {
                assert(models(combined@) =~= models(l) + models(r));
                assert(models(l) == av[i as int]);
                assert(models(r) == bv[j as int]);
            }
            let (ok, found) = check_term_consistency(&combined);
            let ghost fv = models(found@);
            let ghost o = models(warnings@);
            let mut k: usize = 0;
            while k < found.len()
                invariant
                    0 <= k <= found@.len(),
                    fv == models(found@),
                    strictly_sorted(models(warnings@)),
                    forall|m: Seq<char>| #[trigger]
                        models(warnings@).contains(m) <==> o.contains(m) || exists|q: int|
                            0 <= q < k && #[trigger] fv[q] == m,
                decreases found.len() - k,
            {
                let ghost o2 = models(warnings@);
                insert_sorted(&mut warnings, found[k].as_str());
                proof {
                    assert forall|m: Seq<char>| #[trigger]
                        models(warnings@).contains(m) <==> o.contains(m) || exists|q: int|
                            0 <= q < k + 1 && #[trigger] fv[q] == m by {
                        assert(models(warnings@).to_set().contains(m) <==> o2.to_set().insert(
                            fv[k as int],
                        ).contains(m));
                        assert(o2.contains(m) <==> o2.to_set().contains(m));
                        assert(o2.contains(m) <==> o.contains(m) || exists|q: int|
                            0 <= q < k && #[trigger] fv[q] == m);
                    }
                }
                k = k + 1;
            }
            if ok {
                here = true;
            }
            proof {
                let c = av[i as int] + bv[j as int];
                assert forall|m: Seq<char>| #[trigger]
                    models(warnings@).contains(m) <==> before.contains(m) || exists|y: int|
                        0 <= y < j + 1 && consistent(av[i as int] + bv[y]) && #[trigger] warned(
                            av[i as int] + bv[y],
                            m,
                        ) by {
                    assert(fv.contains(m) <==> (ok && warned(c, m)));
                    if fv.contains(m) {
                        assert(fv[fv.index_of(m)] == m);
                    }
                    assert(o.contains(m) <==> before.contains(m) || exists|y: int|
                        0 <= y < j && consistent(av[i as int] + bv[y]) && #[trigger] warned(
                            av[i as int] + bv[y],
                            m,
                        ));
                }
            }
            j = j + 1;
        }
        proof {
            assert forall|m: Seq<char>| #[trigger]
                models(warnings@).contains(m) <==> exists|x: int, y: int|
                    0 <= x < i + 1 && 0 <= y < bv.len() && consistent(av[x] + bv[y])
                        && #[trigger] warned(av[x] + bv[y], m) by {
                assert(before.contains(m) <==> exists|x: int, y: int|
                    0 <= x < i && 0 <= y < bv.len() && consistent(av[x] + bv[y])
                        && #[trigger] warned(av[x] + bv[y], m));
            }
        }
        i = i + 1;
    }
    (here, warnings)
}

proof fn lemma_is_named(cats: Seq<CategoryV>, i: int)
    requires
        0 <= i < cats.len(),
    ensures
        last_named(cats, cats[i].id) >= 0,
    decreases cats.len(),
{
    if cats.last().id != cats[i].id {
        assert(cats.drop_last()[i] == cats[i]);
        lemma_is_named(cats.drop_last(), i);
    }
}

/// Whether the list holds the overlaps of the categories, in the order of the categories.
pub open spec fn are_overlaps(
    v: Seq<Overlap>,
    cats: Seq<CategoryV>,
    sets: Seq<(Seq<char>, Seq<Seq<char>>)>,
) -> bool {
    let pairs = overlap_pairs(cats, sets, cats.len() as int, 0);
    &&& v.len() == pairs.len()
    &&& forall|k: int|
        0 <= k < v.len() ==> is_overlap(#[trigger] v[k], cats, sets, pairs[k].0, pairs[k].1)
}

/// The overlapping pairs of categories, in the order of the list.
pub fn find_overlaps(file: &CategoriesFile, sets: &ValueSets) -> (r: Vec<Overlap>)
    requires
        conditions_expressible(file.defs()),
    ensures
        are_overlaps(r@, file.defs(), sets@),
{
    let cats = &file.categories;
    let ghost cv = defs_view(cats@);
    let mut terms: Vec<Vec<Vec<Literal>>> = Vec::new();
    for i in 0..cats.len()
        invariant
            cv == defs_view(cats@),
            conditions_expressible(cv),
            terms@.len() == i,
            forall|j: int|
                0 <= j < i ==> models((#[trigger] terms@[j])@) == counted_terms(cv, sets@, j),
    {
        proof {
            assert(cats@[i as int].id@ == cv[i as int].id);
        }
        let last: usize = match place_of(cats, cats[i].id.as_str()) {
            Some(k) => k,
            None => i,
        };
        proof {
            lemma_is_named(cv, i as int);
            assert(expressible(cv[last as int].condition));
        }
        terms.push(consistent_terms(&cats[last].condition, sets));
    }
    let mut out: Vec<Overlap> = Vec::new();
    let ghost mut pairs = overlap_pairs(cv, sets@, 0, 0);
    let mut i: usize = 0;
    while i < cats.len()
        invariant
            0 <= i <= cats@.len(),
            cv == defs_view(cats@),
            terms@.len() == cats@.len(),
            forall|j: int|
                0 <= j < cats@.len() ==> models((#[trigger] terms@[j])@) == counted_terms(
                    cv,
                    sets@,
                    j,
                ),
            pairs == overlap_pairs(cv, sets@, i as int, 0),
            out@.len() == pairs.len(),
            forall|k: int|
                0 <= k < out@.len() ==> is_overlap(
                    #[trigger] out@[k],
                    cv,
                    sets@,
                    pairs[k].0,
                    pairs[k].1,
                ),
        decreases cats.len() - i,
    {
        let mut j: usize = i + 1;
        proof {
            assert(overlap_pairs(cv, sets@, i as int, i + 1) == overlap_pairs(
                cv,
                sets@,
                i as int,
                0,
            ));
        }
        while j < cats.len()
            invariant
                i + 1 <= j <= cats@.len(),
                cv == defs_view(cats@),
                terms@.len() == cats@.len(),
                forall|j: int|
                    0 <= j < cats@.len() ==> models((#[trigger] terms@[j])@) == counted_terms(
                        cv,
                        sets@,
                        j,
                    ),
                pairs == overlap_pairs(cv, sets@, i as int, j as int),
                out@.len() == pairs.len(),
                forall|k: int|
                    0 <= k < out@.len() ==> is_overlap(
                        #[trigger] out@[k],
                        cv,
                        sets@,
                        pairs[k].0,
                        pairs[k].1,
                    ),
            decreases cats.len() - j,
        {
            let excluded = lists(&cats[i].excludes, cats[j].id.as_str()) || lists(
                &cats[j].excludes,
                cats[i].id.as_str(),
            );
            let (here, warnings) = compare_terms(&terms[i], &terms[j]);
            let overlap = !excluded && here;
            proof {
                assert(models(terms@[i as int]@) == counted_terms(cv, sets@, i as int));
                assert(models(terms@[j as int]@) == counted_terms(cv, sets@, j as int));
                assert(overlap == overlapping(cv, sets@, i as int, j as int));
            }
            if overlap {
                out.push(
                    Overlap { a: cats[i].id.clone(), b: cats[j].id.clone(), warnings },
                );
            }
            proof {
                let next = overlap_pairs(cv, sets@, i as int, j + 1);
                assert(next == (if overlap {
                    pairs.push((i as int, j as int))
                } else {
                    pairs
                }));
                pairs = next;
            }
            j = j + 1;
        }
        proof {
            assert(overlap_pairs(cv, sets@, i + 1, 0) == overlap_pairs(
                cv,
                sets@,
                i as int,
                cats@.len() as int,
            ));
        }
        i = i + 1;
    }
    out
}

/// The overlapping pairs of the categories of every topic, under the topic's name.
pub fn find_all_topic_overlaps(topics: &Vec<(String, CategoriesFile)>, sets: &ValueSets) -> (r: Vec<
    (String, Vec<Overlap>),
>)
    requires
        forall|i: int|
            0 <= i < topics@.len() ==> conditions_expressible((#[trigger] topics@[i]).1.defs()),
    ensures
        r@.len() == topics@.len(),
        forall|i: int|
            0 <= i < r@.len() ==> (#[trigger] r@[i]).0@ == topics@[i].0@ && are_overlaps(
                r@[i].1@,
                topics@[i].1.defs(),
                sets@,
            ),
{
    let mut out: Vec<(String, Vec<Overlap>)> = Vec::new();
    for i in 0..topics.len()
        invariant
            forall|i: int|
                0 <= i < topics@.len() ==> conditions_expressible((#[trigger] topics@[i]).1.defs()),
            out@.len() == i,
            forall|j: int|
                0 <= j < i ==> (#[trigger] out@[j]).0@ == topics@[j].0@ && are_overlaps(
                    out@[j].1@,
                    topics@[j].1.defs(),
                    sets@,
                ),
    {
        let found = find_overlaps(&topics[i].1, sets);
        out.push((topics[i].0.clone(), found));
    }
    out
}

// ── No overlap is missed ────────────────────────────────────────────────────────────────────

proof fn lemma_first_set_of_set(
    m: Map<Seq<char>, Seq<char>>,
    keys: Seq<Seq<char>>,
    t: Seq<char>,
)
    requires
        keys.contains(t),
        m.dom().contains(t),
    ensures
        first_set(m, keys) is Some,
    decreases keys.len(),
{
    if !m.dom().contains(keys[0]) {
        let i = keys.index_of(t);
        assert(keys.skip(1)[i - 1] == t);
        lemma_first_set_of_set(m, keys.skip(1), t);
    }
}

proof fn lemma_name_is_key(e: TagReadV, t: Seq<char>) -> (k: Seq<char>)
    requires
        e.names().contains(t),
    ensures
        e.extract.keys().contains(k),
        t == match e.scope {
            Scope::Own => k,
            Scope::Parent => parent_prefix() + k,
        },
{
    let i = e.names().index_of(t);
    assert(e.extract.keys()[i] == e.extract.keys()[i]);
    assert(e.extract.keys().contains(e.extract.keys()[i]));
    e.extract.keys()[i]
}

proof fn lemma_same_key(a: Seq<char>, b: Seq<char>)
    requires
        parent_prefix() + a == parent_prefix() + b,
    ensures
        a == b,
{
    let n = parent_prefix().len() as int;
    assert((parent_prefix() + a).skip(n) =~= a);
    assert((parent_prefix() + b).skip(n) =~= b);
}

proof fn lemma_first_set_is_set(m: Map<Seq<char>, Seq<char>>, keys: Seq<Seq<char>>) -> (k: Seq<
    char,
>)
    requires
        first_set(m, keys) is Some,
    ensures
        keys.contains(k),
        m.dom().contains(k),
    decreases keys.len(),
{
    if m.dom().contains(keys[0]) {
        keys[0]
    } else {
        let rest = keys.skip(1);
        let k = lemma_first_set_is_set(m, rest);
        assert(keys[rest.index_of(k) + 1] == k);
        k
    }
}

proof fn lemma_key_is_name(e: TagReadV, k: Seq<char>) -> (t: Seq<char>)
    requires
        e.extract.keys().contains(k),
    ensures
        e.names().contains(t),
        t == match e.scope {
            Scope::Own => k,
            Scope::Parent => parent_prefix() + k,
        },
{
    let i = e.extract.keys().index_of(k);
    assert(e.names().contains(e.names()[i]));
    e.names()[i]
}

/// Where the presence of a text is shown, there is one.
proof fn lemma_presence_is_shown(e: TagReadV, f: TagReadV, c: CtxV)
    requires
        shows_presence(e, f),
        scoped_text(e, c) is Some,
    ensures
        scoped_text(f, c) is Some,
{
    if e != f {
        let m = scoped_tags(e.scope, c)->0;
        let k = lemma_first_set_is_set(m, e.extract.keys());
        let t = lemma_key_is_name(e, k);
        assert(f.names().contains(t));
        let n = lemma_name_is_key(f, t);
        if e.scope is Parent {
            lemma_same_key(k, n);
        }
        lemma_first_set_of_set(m, f.extract.keys(), k);
    }
}

proof fn lemma_compatible(a: LiteralV, b: LiteralV, c: CtxV)
    requires
        literal_holds(a, c),
        literal_holds(b, c),
    ensures
        !incompatible(a, b),
{
    match (a, b) {
        (LiteralV::Pos(PredicateV::Eq(e, _)), LiteralV::Neg(PredicateV::Exists(f))) => {
            if shows_presence(e, f) {
                lemma_presence_is_shown(e, f, c);
            }
        },
        _ => {},
    }
}

/// A term that is true of some object is consistent.
pub proof fn satisfied_term_is_consistent(term: Seq<LiteralV>, c: CtxV)
    requires
        term_holds(term, c),
    ensures
        consistent(term),
{
    assert forall|i: int, j: int|
        0 <= i < term.len() && 0 <= j < term.len() implies !incompatible(
        #[trigger] term[i],
        #[trigger] term[j],
    ) by {
        lemma_compatible(term[i], term[j], c);
    }
}

proof fn lemma_keeps_consistent(ts: Seq<Seq<LiteralV>>, i: int)
    requires
        0 <= i < ts.len(),
        consistent(ts[i]),
    ensures
        only_consistent(ts).contains(ts[i]),
    decreases ts.len(),
{
    let rest = ts.drop_last();
    if i == ts.len() - 1 {
        let k = only_consistent(rest);
        assert(k.push(ts.last())[k.len() as int] == ts[i]);
    } else {
        assert(rest[i] == ts[i]);
        lemma_keeps_consistent(rest, i);
        let k = only_consistent(rest);
        let j = k.index_of(ts[i]);
        assert(only_consistent(ts)[j] == ts[i]);
    }
}

proof fn lemma_true_term(f: FilterV, sets: Seq<(Seq<char>, Seq<Seq<char>>)>, c: CtxV) -> (t: Seq<
    LiteralV,
>)
    requires
        expr_holds(expr_of(f, sets), c),
    ensures
        terms_of(f, sets).contains(t),
        term_holds(t, c),
{
    let e = nnf(expr_of(f, sets), false);
    nnf_has_no_negation(expr_of(f, sets), false);
    nnf_keeps_meaning(expr_of(f, sets), false, c);
    dnf_keeps_meaning(e, c);
    let ts = dnf(e);
    let i = choose|i: int| 0 <= i < ts.len() && term_holds(#[trigger] ts[i], c);
    satisfied_term_is_consistent(ts[i], c);
    lemma_keeps_consistent(ts, i);
    ts[i]
}

/// Two categories, neither of which excludes the other, overlap wherever one object makes both of
/// their conditions true.
pub proof fn no_overlap_is_missed(
    cats: Seq<CategoryV>,
    sets: Seq<(Seq<char>, Seq<Seq<char>>)>,
    i: int,
    j: int,
    c: CtxV,
)
    requires
        0 <= i < cats.len(),
        0 <= j < cats.len(),
        last_named(cats, cats[i].id) == i,
        last_named(cats, cats[j].id) == j,
        !excludes(cats[i], cats[j].id),
        !excludes(cats[j], cats[i].id),
        expr_holds(expr_of(cats[i].condition, sets), c),
        expr_holds(expr_of(cats[j].condition, sets), c),
    ensures
        overlapping(cats, sets, i, j),
{
    let a = lemma_true_term(cats[i].condition, sets, c);
    let b = lemma_true_term(cats[j].condition, sets, c);
    assert(term_holds(a + b, c)) by {
        assert forall|k: int| 0 <= k < (a + b).len() implies literal_holds(
            #[trigger] (a + b)[k],
            c,
        ) by {
            if k < a.len() {
                assert((a + b)[k] == a[k]);
            } else {
                assert((a + b)[k] == b[k - a.len()]);
            }
        }
    }
    satisfied_term_is_consistent(a + b, c);
    let x = terms_of(cats[i].condition, sets).index_of(a);
    let y = terms_of(cats[j].condition, sets).index_of(b);
    assert(consistent(terms_of(cats[i].condition, sets)[x] + terms_of(cats[j].condition, sets)[y]));
}

proof fn lemma_overlap_is_listed(
    cats: Seq<CategoryV>,
    sets: Seq<(Seq<char>, Seq<Seq<char>>)>,
    i: int,
    j: int,
    m: int,
    n: int,
)
    requires
        0 <= i < j < cats.len(),
        0 <= m <= cats.len(),
        i < m || (i == m && j < n),
        overlapping(cats, sets, i, j),
    ensures
        overlap_pairs(cats, sets, m, n).len() > 0,
    decreases m, n,
{
    if n <= m + 1 {
        lemma_overlap_is_listed(cats, sets, i, j, m - 1, cats.len() as int);
    } else if !(i == m && j == n - 1) {
        lemma_overlap_is_listed(cats, sets, i, j, m, n - 1);
    }
}

/// Where no overlap is found, no object falls under two categories of which neither excludes the
/// other.
pub proof fn categories_without_overlaps_are_disjoint(cats: Seq<CategoryV>, i: int, j: int, c: CtxV)
    requires
        overlap_pairs(cats, c.value_sets, cats.len() as int, 0).len() == 0,
        0 <= i < j < cats.len(),
        last_named(cats, cats[i].id) == i,
        last_named(cats, cats[j].id) == j,
        expressible(cats[i].condition),
        expressible(cats[j].condition),
        holds(cats[i].condition, c),
        holds(cats[j].condition, c),
    ensures
        excludes(cats[i], cats[j].id) || excludes(cats[j], cats[i].id),
{
    expression_is_faithful(cats[i].condition, c);
    expression_is_faithful(cats[j].condition, c);
    if !excludes(cats[i], cats[j].id) && !excludes(cats[j], cats[i].id) {
        no_overlap_is_missed(cats, c.value_sets, i, j, c);
        lemma_overlap_is_listed(cats, c.value_sets, i, j, cats.len() as int, 0);
    }
}

} // verus!
