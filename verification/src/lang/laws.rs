//! What filters, reads, sanitizers and producers say of each other.
use vstd::prelude::*;

use crate::assoc::lookup;
use crate::lang::context::CtxV;
use crate::lang::extract::{lemma_first_set, text_read, value_read, ExtractV};
use crate::lang::filter::{all_hold, any_holds, holds, FilterV};
use crate::lang::producer::{produced, scan, ProducedV, ProducerV, RuleV};
use crate::lang::sanitize::{
    rewritten_all, sanitized, spelled_texts, step_result, AtomicV, Builtin, ReplaceAt, ReplaceV,
    SanitizerV, StrOrVec,
};
use crate::lang::table::{case_of, last_entry, maps, text_entry};
use crate::number::{is_finite, num_eq, num_lt, Bound, ReadingsV};
use crate::text::{lowercase, occurs_at, occurs_in, replace_all, replace_from};
use crate::value::{Number, ValueV};

verus! {

// ── Reads ───────────────────────────────────────────────────────────────────────────────────

/// A read of several keys is a read of the first of them that is set. A read of keys of which none
/// is set gives nothing.
pub proof fn first_set_key_is_read(
    keys: Seq<Seq<char>>,
    chain: Seq<SanitizerV>,
    i: int,
    m: Map<Seq<char>, Seq<char>>,
    readings: ReadingsV,
)
    requires
        0 <= i <= keys.len(),
        forall|j: int| 0 <= j < i ==> !m.dom().contains(#[trigger] keys[j]),
        i < keys.len() ==> m.dom().contains(keys[i]),
    ensures
        value_read(ExtractV::Candidates { keys, sanitize: chain }, m, readings) == (if i
            < keys.len() {
            value_read(ExtractV::Value { key: keys[i], sanitize: chain }, m, readings)
        } else {
            None
        }),
{
    lemma_first_set(m, keys, i);
    if i < keys.len() {
        lemma_first_set(m, seq![keys[i]], 0);
    }
}

/// A read without a chain gives the value of the key as it is; one with a chain gives what the chain
/// makes of the value.
pub proof fn reads_give_the_value_of_the_key(
    key: Seq<char>,
    chain: Seq<SanitizerV>,
    m: Map<Seq<char>, Seq<char>>,
    readings: ReadingsV,
)
    ensures
        !m.dom().contains(key) ==> value_read(
            ExtractV::Value { key, sanitize: chain },
            m,
            readings,
        ) is None,
        m.dom().contains(key) ==> value_read(
            ExtractV::Value { key, sanitize: Seq::empty() },
            m,
            readings,
        ) == Some(ValueV::String(m[key])),
        m.dom().contains(key) ==> value_read(
            ExtractV::Value { key, sanitize: chain },
            m,
            readings,
        ) == sanitized(chain, m[key], readings),
{
    if m.dom().contains(key) {
        lemma_first_set(m, seq![key], 0);
    } else {
        lemma_first_set(m, seq![key], 1);
    }
}

// ── Filters ─────────────────────────────────────────────────────────────────────────────────

/// All of several filters hold exactly where each does, any of them where one does, and the opposite
/// of a filter where it does not.
pub proof fn filters_are_joined(fs: Seq<FilterV>, g: FilterV, c: CtxV)
    ensures
        holds(FilterV::And(fs), c) <==> forall|i: int|
            0 <= i < fs.len() ==> holds(#[trigger] fs[i], c),
        holds(FilterV::Or(fs), c) <==> exists|i: int|
            0 <= i < fs.len() && holds(#[trigger] fs[i], c),
        holds(FilterV::Not(Box::new(g)), c) <==> !holds(g, c),
        holds(FilterV::Bool(true), c),
        !holds(FilterV::Bool(false), c),
{
    assert(holds(FilterV::And(fs), c) == all_hold(fs, c));
    assert(holds(FilterV::Or(fs), c) == any_holds(fs, c));
}

/// A filter on a text asks what is read: a text is one of several where it equals one of them, is in
/// a named set where it is one of the texts that the set lists, and exists where it equals any text
/// at all.
pub proof fn texts_are_compared(
    e: ExtractV,
    key: Seq<char>,
    eq: Seq<char>,
    list: Seq<Seq<char>>,
    set: Seq<char>,
    c: CtxV,
)
    ensures
        holds(FilterV::Eq(ExtractV::Value { key, sanitize: Seq::empty() }, eq), c)
            <==> c.obj.dom().contains(key) && c.obj[key] == eq,
        holds(FilterV::In(e, list), c) <==> exists|i: int|
            0 <= i < list.len() && holds(FilterV::Eq(e, #[trigger] list[i]), c),
        lookup(c.value_sets, set) is Some ==> holds(FilterV::InSet(e, set), c) == holds(
            FilterV::In(e, lookup(c.value_sets, set)->0),
            c,
        ),
        lookup(c.value_sets, set) is None ==> !holds(FilterV::InSet(e, set), c),
        holds(FilterV::Exists(e, true), c) <==> exists|w: Seq<char>| #[trigger]
            holds(FilterV::Eq(e, w), c),
        holds(FilterV::Exists(e, false), c) <==> !holds(FilterV::Exists(e, true), c),
{
    reads_give_the_value_of_the_key(key, Seq::empty(), c.obj, c.readings);
    if text_read(e, c.obj, c.readings) is Some {
        let v = text_read(e, c.obj, c.readings)->0;
        assert(holds(FilterV::Eq(e, v), c));
        if list.contains(v) {
            let i = list.index_of(v);
            assert(holds(FilterV::Eq(e, list[i]), c));
        }
    }
}

/// A text contains another where it stands somewhere in it, starts with it where it stands at the
/// front, and ends with it where it stands at the back; without regard to case it is the lower-case
/// form that must contain it.
pub proof fn parts_of_texts_are_found(
    e: ExtractV,
    v: Seq<char>,
    part: Seq<char>,
    before: Seq<char>,
    behind: Seq<char>,
    c: CtxV,
)
    requires
        holds(FilterV::Eq(e, v), c),
    ensures
        v == before + part + behind ==> holds(FilterV::Contains(e, part, false), c),
        lowercase(v) == before + part + behind ==> holds(FilterV::Contains(e, part, true), c),
        v == part + behind ==> holds(FilterV::StartsWith(e, part), c),
        v == before + part ==> holds(FilterV::EndsWith(e, part), c),
        holds(FilterV::Contains(e, part, false), c) ==> exists|i: int|
            0 <= i <= v.len() - part.len() && #[trigger] v.subrange(i, i + part.len()) == part,
        holds(FilterV::Contains(e, part, true), c) ==> exists|i: int|
            0 <= i <= lowercase(v).len() - part.len() && #[trigger] lowercase(v).subrange(
                i,
                i + part.len(),
            ) == part,
        holds(FilterV::StartsWith(e, part), c) ==> v.len() >= part.len() && v.take(
            part.len() as int,
        ) == part,
        holds(FilterV::EndsWith(e, part), c) ==> v.len() >= part.len() && v.skip(
            v.len() - part.len(),
        ) == part,
{
    lemma_inside(v, part, before, behind);
    lemma_inside(lowercase(v), part, before, behind);
    if v == part + behind {
        assert(v.subrange(0, part.len() as int) =~= part);
    }
    if v == before + part {
        assert(v.subrange(v.len() - part.len(), v.len() as int) =~= part);
    }
    if part.is_prefix_of(v) {
        assert(v.take(part.len() as int) =~= part);
    }
    if part.is_suffix_of(v) {
        assert(v.skip(v.len() - part.len()) =~= part);
    }
}

proof fn lemma_inside(v: Seq<char>, part: Seq<char>, before: Seq<char>, behind: Seq<char>)
    ensures
        v == before + part + behind ==> occurs_in(v, part),
        occurs_in(v, part) ==> exists|i: int|
            0 <= i <= v.len() - part.len() && #[trigger] v.subrange(i, i + part.len()) == part,
{
    if v == before + part + behind {
        assert(v.subrange(before.len() as int, (before.len() + part.len()) as int) =~= part);
        assert(occurs_at(v, part, before.len() as int));
    }
    if occurs_in(v, part) {
        let i = choose|i: int| #[trigger] occurs_at(v, part, i);
        assert(v.subrange(i, i + part.len()) =~= part);
    }
}

/// No filter on a text or a number holds of what is not read, except that it does not exist.
pub proof fn what_is_not_read_meets_no_filter(
    e: ExtractV,
    text: Seq<char>,
    list: Seq<Seq<char>>,
    any: bool,
    min: Bound,
    max: Bound,
    c: CtxV,
)
    requires
        value_read(e, c.obj, c.readings) is None,
    ensures
        !holds(FilterV::Eq(e, text), c),
        !holds(FilterV::In(e, list), c),
        !holds(FilterV::InSet(e, text), c),
        !holds(FilterV::Contains(e, text, any), c),
        !holds(FilterV::StartsWith(e, text), c),
        !holds(FilterV::EndsWith(e, text), c),
        !holds(FilterV::NumRange(e, min, max), c),
        holds(FilterV::Exists(e, false), c),
{
}

/// A filter on the parent holds exactly where there is a parent and the filter holds of its tags.
pub proof fn parent_filters_read_the_parent(g: FilterV, c: CtxV)
    ensures
        holds(FilterV::Parent(Box::new(g)), c) <==> c.parent is Some && holds(
            g,
            CtxV { obj: c.parent->0, ..c },
        ),
        holds(FilterV::HasParent(true), c) <==> c.parent is Some,
        holds(FilterV::HasParent(false), c) <==> c.parent is None,
{
}

/// What is noted of an object is asked by its key; where no side is noted, the side is `self`.
pub proof fn notes_are_asked_by_key(key: Seq<char>, text: Seq<char>, c: CtxV)
    ensures
        c.annotations.dom().contains(key) && c.annotations[key] == ValueV::String(text) ==> holds(
            FilterV::AnnotationEq(key, text),
            c,
        ),
        !c.annotations.dom().contains(key) ==> (holds(FilterV::AnnotationEq(key, text), c) <==> key
            == "_side"@ && text == "self"@),
        c.annotations.dom().contains(key) && c.annotations[key] is String ==> (holds(
            FilterV::AnnotationEq(key, text),
            c,
        ) <==> c.annotations[key] == ValueV::String(text)),
{
}

/// An object has no tags where no key is set, and has a key that begins with a text where some key
/// is the text with more behind.
pub proof fn keys_are_asked(text: Seq<char>, c: CtxV)
    ensures
        holds(FilterV::TagsEmpty(true), c) <==> forall|k: Seq<char>| !#[trigger]
            c.obj.dom().contains(k),
        holds(FilterV::TagsEmpty(false), c) <==> !holds(FilterV::TagsEmpty(true), c),
        holds(FilterV::HasKeyPrefix(text), c) <==> exists|rest: Seq<char>| #[trigger]
            c.obj.dom().contains(text + rest),
{
    if forall|k: Seq<char>| !#[trigger] c.obj.dom().contains(k) {
        assert(c.obj =~= Map::<Seq<char>, Seq<char>>::empty());
    }
    if holds(FilterV::HasKeyPrefix(text), c) {
        let k = choose|k: Seq<char>| #[trigger] c.obj.dom().contains(k) && text.is_prefix_of(k);
        let rest = k.subrange(text.len() as int, k.len() as int);
        assert(text + rest =~= k);
    }
    if exists|rest: Seq<char>| #[trigger] c.obj.dom().contains(text + rest) {
        let rest = choose|rest: Seq<char>| #[trigger] c.obj.dom().contains(text + rest);
        assert((text + rest).subrange(0, text.len() as int) =~= text);
    }
}

/// A number lies in an interval where it lies on the right side of both ends. An open end leaves the
/// bound itself out, a closed one takes it in, and no end is no bound.
pub proof fn intervals_have_two_ends(
    key: Seq<char>,
    n: u64,
    a: u64,
    min: Bound,
    max: Bound,
    c: CtxV,
)
    requires
        c.obj.dom().contains(key),
        c.readings.number(c.obj[key]) == Some(n),
    ensures
        ({
            let e = ExtractV::Value { key, sanitize: Seq::empty() };
            &&& holds(FilterV::NumRange(e, min, max), c) == (holds(
                FilterV::NumRange(e, min, Bound::Unbounded),
                c,
            ) && holds(FilterV::NumRange(e, Bound::Unbounded, max), c))
            &&& holds(FilterV::NumRange(e, Bound::Unbounded, Bound::Unbounded), c)
            &&& holds(FilterV::NumRange(e, Bound::Excluded(a), Bound::Unbounded), c) == num_lt(a, n)
            &&& holds(FilterV::NumRange(e, Bound::Included(a), Bound::Unbounded), c) == (num_lt(
                a,
                n,
            ) || num_eq(a, n))
            &&& holds(FilterV::NumRange(e, Bound::Unbounded, Bound::Excluded(a)), c) == num_lt(n, a)
            &&& holds(FilterV::NumRange(e, Bound::Unbounded, Bound::Included(a)), c) == (num_lt(
                n,
                a,
            ) || num_eq(a, n))
        }),
{
    reads_give_the_value_of_the_key(key, Seq::empty(), c.obj, c.readings);
}

// ── Sanitizers ──────────────────────────────────────────────────────────────────────────────

/// A text with an entry gives what stands in it, or is dropped where nothing stands in it. A text
/// without one is dropped, unless the table says that it is kept or what it becomes.
pub proof fn entries_give_what_stands_in_them(
    mapping: Seq<(Seq<char>, Option<AtomicV>)>,
    on_miss: Option<Seq<char>>,
    text: Seq<char>,
    readings: ReadingsV,
)
    ensures
        ({
            let r = sanitized(seq![SanitizerV::Mapping { mapping, on_miss }], text, readings);
            &&& lookup(mapping, text) == Some(None::<AtomicV>) ==> r is None
            &&& lookup(mapping, text) matches Some(Some(a)) ==> {
                &&& a matches AtomicV::Str(s) ==> r == Some(ValueV::String(s))
                &&& a matches AtomicV::Bool(b) ==> r == Some(ValueV::Bool(b))
                &&& a matches AtomicV::Num(n) ==> (is_finite(n) ==> r == Some(
                    ValueV::Number(Number::Float { bits: n }),
                ))
                &&& r is Some
            }
            &&& lookup(mapping, text) is None ==> {
                &&& on_miss is None || on_miss == Some("drop"@) ==> r is None
                &&& on_miss == Some("keep"@) ==> r == Some(ValueV::String(text))
                &&& on_miss is Some && on_miss != Some("drop"@) && on_miss != Some("keep"@) ==> r
                    == Some(ValueV::String(on_miss->0))
            }
        }),
{
    lemma_one_step(SanitizerV::Mapping { mapping, on_miss }, text, readings);
    reveal_strlit("keep");
    reveal_strlit("drop");
    assert("keep"@[0] == 'k' && "drop"@[0] == 'd');
}

proof fn lemma_one_step(s: SanitizerV, text: Seq<char>, readings: ReadingsV)
    ensures
        sanitized(seq![s], text, readings) == step_result(s, text, readings),
{
    reveal_with_fuel(sanitized, 3);
    assert(seq![s].drop_last() =~= Seq::<SanitizerV>::empty());
}

proof fn lemma_last_entry<T>(entries: Seq<(Seq<char>, T)>, i: int, q: Seq<char>)
    requires
        -1 <= i < entries.len(),
        i >= 0 ==> entries[i].0 == q,
        forall|j: int| i < j < entries.len() ==> (#[trigger] entries[j]).0 != q,
    ensures
        last_entry(entries, q) == (if i >= 0 {
            Some(entries[i].1)
        } else {
            None
        }),
    decreases entries.len(),
{
    if entries.len() > 0 && i < entries.len() - 1 {
        let rest = entries.drop_last();
        assert(entries[entries.len() - 1].0 != q);
        assert forall|j: int| i < j < rest.len() implies (#[trigger] rest[j]).0 != q by {
            assert(rest[j] == entries[j]);
        }
        lemma_last_entry(rest, i, q);
    }
}

/// A table made of entries gives what the last entry for a text says.
pub proof fn later_entries_count(
    s: SanitizerV,
    entries: Seq<(Seq<char>, Option<AtomicV>)>,
    on_miss: Option<Seq<char>>,
    i: int,
    readings: ReadingsV,
)
    requires
        maps(s, |q: Seq<char>| last_entry(entries, q), on_miss),
        0 <= i < entries.len(),
        forall|j: int| i < j < entries.len() ==> (#[trigger] entries[j]).0 != entries[i].0,
    ensures
        ({
            let r = sanitized(seq![s], entries[i].0, readings);
            &&& entries[i].1 is None ==> r is None
            &&& entries[i].1 matches Some(AtomicV::Str(x)) ==> r == Some(ValueV::String(x))
            &&& entries[i].1 matches Some(AtomicV::Bool(b)) ==> r == Some(ValueV::Bool(b))
        }),
{
    lemma_one_step(s, entries[i].0, readings);
    lemma_last_entry(entries, i, entries[i].0);
    assert(lookup(s->mapping, entries[i].0) == Some(entries[i].1));
}

proof fn lemma_case_of(cases: Seq<(String, StrOrVec)>, i: int, q: Seq<char>)
    requires
        0 <= i < cases.len(),
        spelled_texts(cases[i].1).contains(q),
        forall|j: int| i < j < cases.len() ==> !spelled_texts((#[trigger] cases[j]).1).contains(q),
    ensures
        case_of(cases, q) == Some(cases[i].0@),
    decreases cases.len(),
{
    if i < cases.len() - 1 {
        let rest = cases.drop_last();
        assert(!spelled_texts(cases[cases.len() - 1].1).contains(q));
        assert forall|j: int| i < j < rest.len() implies !spelled_texts(
            (#[trigger] rest[j]).1,
        ).contains(q) by {
            assert(rest[j] == cases[j]);
        }
        lemma_case_of(rest, i, q);
    }
}

/// A table made of cases gives the name of the last case that lists a text.
pub proof fn last_case_that_lists_a_text_counts(
    s: SanitizerV,
    cases: Seq<(String, StrOrVec)>,
    on_miss: Option<Seq<char>>,
    i: int,
    text: Seq<char>,
    readings: ReadingsV,
)
    requires
        maps(s, |q: Seq<char>| text_entry(case_of(cases, q)), on_miss),
        0 <= i < cases.len(),
        spelled_texts(cases[i].1).contains(text),
        forall|j: int|
            i < j < cases.len() ==> !spelled_texts((#[trigger] cases[j]).1).contains(text),
    ensures
        sanitized(seq![s], text, readings) == Some(ValueV::String(cases[i].0@)),
{
    lemma_one_step(s, text, readings);
    lemma_case_of(cases, i, text);
    assert(lookup(s->mapping, text) == text_entry(case_of(cases, text)));
}

/// A length is what the text reads as; a text that reads as none is dropped.
pub proof fn lengths_are_read(text: Seq<char>, readings: ReadingsV)
    ensures
        ({
            let r = sanitized(seq![SanitizerV::Builtin(Builtin::ParseLength)], text, readings);
            &&& r is Some <==> readings.length(text) is Some
            &&& r is Some && is_finite(readings.length(text)->0) ==> r->0 == ValueV::Number(
                Number::Float { bits: readings.length(text)->0 },
            )
        }),
{
    lemma_one_step(SanitizerV::Builtin(Builtin::ParseLength), text, readings);
}

/// A rewrite at the front puts one text for another there, and leaves a text that begins otherwise
/// as it is.
pub proof fn fronts_are_rewritten(
    from: Seq<char>,
    to: Seq<char>,
    text: Seq<char>,
    rest: Seq<char>,
    readings: ReadingsV,
)
    ensures
        ({
            let rule = ReplaceV { from, to, at: ReplaceAt::Prefix };
            let r = sanitized(seq![SanitizerV::Replace { replace: seq![rule] }], text, readings);
            &&& text == from + rest ==> r == Some(ValueV::String(to + rest))
            &&& !from.is_prefix_of(text) ==> r == Some(ValueV::String(text))
        }),
{
    let rule = ReplaceV { from, to, at: ReplaceAt::Prefix };
    lemma_one_step(SanitizerV::Replace { replace: seq![rule] }, text, readings);
    reveal_with_fuel(rewritten_all, 3);
    assert(seq![rule].drop_last() =~= Seq::<ReplaceV>::empty());
    if text == from + rest {
        assert(text.subrange(0, from.len() as int) =~= from);
        assert(text.subrange(from.len() as int, text.len() as int) =~= rest);
    }
}

proof fn lemma_replace_shift(x: Seq<char>, b: Seq<char>, from: Seq<char>, to: Seq<char>, i: int)
    requires
        0 <= i <= b.len(),
    ensures
        replace_from(x + b, from, to, x.len() + i) == replace_from(b, from, to, i),
    decreases b.len() - i,
{
    if i < b.len() {
        let s = x + b;
        let at = x.len() + i;
        assert(s[at] == b[i]);
        assert(occurs_at(s, from, at) <==> occurs_at(b, from, i)) by {
            if i + from.len() <= b.len() {
                assert(s.subrange(at, at + from.len()) =~= b.subrange(i, i + from.len()));
            }
        }
        if from.len() > 0 && occurs_at(b, from, i) {
            lemma_replace_shift(x, b, from, to, i + from.len());
        } else {
            lemma_replace_shift(x, b, from, to, i + 1);
        }
    }
}

proof fn lemma_replace_front(s: Seq<char>, from: Seq<char>, to: Seq<char>, i: int, n: int)
    requires
        0 <= i <= n <= s.len(),
        forall|j: int| i <= j < n ==> !#[trigger] occurs_at(s, from, j),
    ensures
        replace_from(s, from, to, i) == s.subrange(i, n) + replace_from(s, from, to, n),
    decreases n - i,
{
    if i < n {
        assert(!occurs_at(s, from, i));
        lemma_replace_front(s, from, to, i + 1, n);
        assert(seq![s[i]] + (s.subrange(i + 1, n) + replace_from(s, from, to, n)) =~= s.subrange(
            i,
            n,
        ) + replace_from(s, from, to, n));
    } else {
        assert(s.subrange(i, n) + replace_from(s, from, to, n) =~= replace_from(s, from, to, n));
    }
}

/// A rewrite anywhere puts one text for another at its first place, and goes on behind it; a text in
/// which it does not occur stays as it is.
pub proof fn every_occurrence_is_rewritten(
    from: Seq<char>,
    to: Seq<char>,
    text: Seq<char>,
    before: Seq<char>,
    behind: Seq<char>,
    readings: ReadingsV,
)
    requires
        from.len() > 0,
    ensures
        ({
            let rule = ReplaceV { from, to, at: ReplaceAt::Anywhere };
            let chain = seq![SanitizerV::Replace { replace: seq![rule] }];
            let r = sanitized(chain, text, readings);
            &&& !occurs_in(text, from) ==> r == Some(ValueV::String(text))
            &&& text == before + from + behind && (forall|j: int|
                0 <= j < before.len() ==> !#[trigger] occurs_at(text, from, j)) ==> {
                let rest = sanitized(chain, behind, readings);
                rest is Some && rest->0 is String && r == Some(
                    ValueV::String(before + to + rest->0->String_0),
                )
            }
        }),
{
    let rule = ReplaceV { from, to, at: ReplaceAt::Anywhere };
    lemma_one_step(SanitizerV::Replace { replace: seq![rule] }, text, readings);
    lemma_one_step(SanitizerV::Replace { replace: seq![rule] }, behind, readings);
    reveal_with_fuel(rewritten_all, 3);
    assert(seq![rule].drop_last() =~= Seq::<ReplaceV>::empty());
    if text == before + from + behind && (forall|j: int|
        0 <= j < before.len() ==> !#[trigger] occurs_at(text, from, j)) {
        let n = before.len() as int;
        assert(text.subrange(n, n + from.len()) =~= from);
        assert(occurs_at(text, from, n));
        lemma_replace_front(text, from, to, 0, n);
        assert(text.subrange(0, n) =~= before);
        lemma_replace_shift(before + from, behind, from, to, 0);
        assert((before + from).len() + 0 == n + from.len());
        assert(replace_all(text, from, to) == before + (to + replace_from(behind, from, to, 0)));
        if !occurs_in(behind, from) {
            assert forall|j: int| 0 <= j < behind.len() implies !#[trigger] occurs_at(
                behind,
                from,
                j,
            ) by {}
            lemma_replace_front(behind, from, to, 0, behind.len() as int);
            assert(behind.subrange(0, behind.len() as int) =~= behind);
            assert(replace_from(behind, from, to, behind.len() as int) =~= Seq::<char>::empty());
            assert(behind + Seq::<char>::empty() =~= behind);
        }
        assert(before + (to + replace_from(behind, from, to, 0)) =~= before + to + replace_from(
            behind,
            from,
            to,
            0,
        ));
    }
}

/// Several rewrites run one after the other, each on what the one before gave.
pub proof fn rewrites_run_in_turn(a: Seq<ReplaceV>, b: Seq<ReplaceV>, text: Seq<char>)
    ensures
        rewritten_all(a + b, text) == rewritten_all(b, rewritten_all(a, text)),
    decreases b.len(),
{
    if b.len() == 0 {
        assert(a + b =~= a);
    } else {
        rewrites_run_in_turn(a, b.drop_last(), text);
        assert((a + b).drop_last() =~= a + b.drop_last());
        assert((a + b).last() == b.last());
    }
}

// ── Producers ───────────────────────────────────────────────────────────────────────────────

/// A constant gives its value, a read what it reads, and a producer for the parent what it gives of
/// the parent's tags. Each notes what it says it notes.
pub proof fn producers_give_what_they_name(
    value: ValueV,
    e: ExtractV,
    annotate: Map<Seq<char>, ValueV>,
    inner: ProducerV,
    c: CtxV,
)
    ensures
        produced(ProducerV::Const { value, annotate }, c) == Some(ProducedV { value, annotate }),
        produced(ProducerV::Extract { extract: e, annotate }, c) is Some <==> value_read(
            e,
            c.obj,
            c.readings,
        ) is Some,
        value_read(e, c.obj, c.readings) matches Some(v) ==> produced(
            ProducerV::Extract { extract: e, annotate },
            c,
        ) == Some(ProducedV { value: v, annotate }),
        c.parent is None ==> produced(ProducerV::Parent(Box::new(inner)), c) is None,
        c.parent matches Some(m) ==> produced(ProducerV::Parent(Box::new(inner)), c) == produced(
            inner,
            CtxV { obj: m, ..c },
        ),
{
}

proof fn lemma_scan(rules: Seq<RuleV>, k: int, i: int, own: Map<Seq<char>, ValueV>, c: CtxV)
    requires
        0 <= k <= i <= rules.len(),
        forall|j: int|
            k <= j < i ==> !holds((#[trigger] rules[j]).when, c) || produced(
                rules[j].value,
                c,
            ) is None,
        i < rules.len() ==> holds(rules[i].when, c) && produced(rules[i].value, c) is Some,
    ensures
        scan(rules, k, own, c) == scan(rules, i, own, c),
    decreases i - k,
{
    if k < i {
        assert(!holds(rules[k].when, c) || produced(rules[k].value, c) is None);
        lemma_scan(rules, k + 1, i, own, c);
    }
}

/// A rule table gives what its first rule gives that holds and gives something; where there is none,
/// its default. What the table notes is noted with it, unless the rule notes something itself.
pub proof fn first_rule_that_gives_counts(
    p: ProducerV,
    i: int,
    c: CtxV,
)
    requires
        p is Match,
        p->tree is None,
        0 <= i <= p->rules.len(),
        forall|j: int|
            0 <= j < i ==> !holds((#[trigger] p->rules[j]).when, c) || produced(
                p->rules[j].value,
                c,
            ) is None,
        i < p->rules.len() ==> holds(p->rules[i].when, c) && produced(p->rules[i].value, c) is Some,
    ensures
        i < p->rules.len() ==> {
            let given = produced(p->rules[i].value, c)->0;
            &&& produced(p, c) is Some
            &&& produced(p, c)->0.value == given.value
            &&& given.annotate.dom() == Set::<Seq<char>>::empty() ==> produced(p, c)->0.annotate
                == p->Match_annotate
            &&& given.annotate.dom() != Set::<Seq<char>>::empty() ==> produced(p, c)->0.annotate
                == given.annotate
        },
        i == p->rules.len() && p->default is Some ==> produced(p, c) == Some(
            ProducedV { value: p->default->0, annotate: p->Match_annotate },
        ),
        i == p->rules.len() && p->default is None ==> produced(p, c) is None,
{
    lemma_scan(p->rules, 0, i, p->Match_annotate, c);
    assert(produced(p, c) == (match scan(p->rules, 0, p->Match_annotate, c) {
        Some(x) => Some(x),
        None => match p->default {
            Some(value) => Some(ProducedV { value, annotate: p->Match_annotate }),
            None => None,
        },
    }));
    if i < p->rules.len() {
        let given = produced(p->rules[i].value, c)->0;
        if given.annotate.dom() == Set::<Seq<char>>::empty() {
            assert(given.annotate =~= Map::<Seq<char>, ValueV>::empty());
        }
    }
}

} // verus!
