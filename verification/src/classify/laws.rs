//! What conditions, sanitizers and rule tables say of each other.
use vstd::prelude::*;

use crate::assoc::lookup;
use crate::classify::categories::{category_of, condition_at, first_match, CategoryDef, OrderedNode};
use crate::classify::classifier::{classified, given, no_macros, or_default, RuleV, SpecV};
use crate::classify::derive::traffic_mode;
use crate::classify::filter::{
    all_expand, all_hold, any_holds, depth_does_not_matter, depth_of, expands, holds, holds_within,
    is_finite, read_as, value_at, CategoryCtxV, FilterV, Side,
};
use crate::classify::sanitize::{
    chained, def_result, sanitized_by, sided, table_of, with_inputs, DefV, StepV,
};
use crate::lang::extract::{first_set, lemma_first_set};
use crate::number::{is_nan, num_eq, num_lt, ReadingsV};
use crate::text::{occurs_at, occurs_in};
use crate::value::ValueV;

verus! {

// ── Conditions made of conditions ───────────────────────────────────────────────────────────

proof fn lemma_deeper(f: FilterV, c: CategoryCtxV, macros: Seq<(Seq<char>, FilterV)>, n: nat)
    requires
        expands(f, macros, n),
    ensures
        is_finite(f, macros),
        holds(f, c, macros) == holds_within(f, c, macros, n),
{
    depth_does_not_matter(f, c, macros, n, depth_of(f, macros));
}

/// All of several conditions hold exactly where each does, any of them where one does, and the
/// opposite of a condition where it does not.
pub proof fn conditions_are_joined(
    fs: Seq<FilterV>,
    g: FilterV,
    c: CategoryCtxV,
    macros: Seq<(Seq<char>, FilterV)>,
)
    ensures
        is_finite(FilterV::And(fs), macros) ==> (holds(FilterV::And(fs), c, macros) <==> forall|
            i: int,
        |
            0 <= i < fs.len() ==> holds(#[trigger] fs[i], c, macros)),
        is_finite(FilterV::Or(fs), macros) ==> (holds(FilterV::Or(fs), c, macros) <==> exists|
            i: int,
        |
            0 <= i < fs.len() && holds(#[trigger] fs[i], c, macros)),
        is_finite(FilterV::Not(Box::new(g)), macros) ==> holds(
            FilterV::Not(Box::new(g)),
            c,
            macros,
        ) == !holds(g, c, macros),
{
    let and = FilterV::And(fs);
    let or = FilterV::Or(fs);
    let not = FilterV::Not(Box::new(g));
    if is_finite(and, macros) {
        let n = depth_of(and, macros);
        assert(expands(and, macros, n));
        assert(all_expand(fs, macros, n));
        assert(holds(and, c, macros) == all_hold(fs, c, macros, n));
        assert forall|i: int| 0 <= i < fs.len() implies holds(#[trigger] fs[i], c, macros)
            == holds_within(fs[i], c, macros, n) by {
            assert(expands(fs[i], macros, n));
            lemma_deeper(fs[i], c, macros, n);
        }
        assert(holds(and, c, macros) <==> forall|i: int|
            0 <= i < fs.len() ==> holds_within(#[trigger] fs[i], c, macros, n));
    }
    if is_finite(or, macros) {
        let n = depth_of(or, macros);
        assert(expands(or, macros, n));
        assert(all_expand(fs, macros, n));
        assert(holds(or, c, macros) == any_holds(fs, c, macros, n));
        assert forall|i: int| 0 <= i < fs.len() implies holds(#[trigger] fs[i], c, macros)
            == holds_within(fs[i], c, macros, n) by {
            assert(expands(fs[i], macros, n));
            lemma_deeper(fs[i], c, macros, n);
        }
        assert(holds(or, c, macros) <==> exists|i: int|
            0 <= i < fs.len() && holds_within(#[trigger] fs[i], c, macros, n));
    }
    if is_finite(not, macros) {
        let n = depth_of(not, macros);
        assert(expands(not, macros, n));
        lemma_deeper(g, c, macros, n);
    }
}

/// A macro holds where the condition that it stands for does; one that stands for nothing never
/// holds.
pub proof fn macros_stand_for_conditions(
    name: Seq<char>,
    c: CategoryCtxV,
    macros: Seq<(Seq<char>, FilterV)>,
)
    requires
        is_finite(FilterV::Macro(name), macros),
    ensures
        match lookup(macros, name) {
            Some(g) => holds(FilterV::Macro(name), c, macros) == holds(g, c, macros),
            None => !holds(FilterV::Macro(name), c, macros),
        },
{
    let f = FilterV::Macro(name);
    let n = depth_of(f, macros);
    assert(expands(f, macros, n));
    if let Some(g) = lookup(macros, name) {
        lemma_deeper(g, c, macros, (n - 1) as nat);
    }
}

// ── Conditions on tags ──────────────────────────────────────────────────────────────────────

/// A tag equals a text where it is set to it, and is one of several texts where it equals one of
/// them. A tag exists or does not, never both.
pub proof fn tags_equal_what_they_are_set_to(
    tag: Seq<char>,
    eq: Seq<char>,
    list: Seq<Seq<char>>,
    sanitize: Option<Seq<char>>,
    c: CategoryCtxV,
    macros: Seq<(Seq<char>, FilterV)>,
)
    ensures
        holds(FilterV::TagEq { tag, eq, sanitize: None }, c, macros) <==> c.tags.dom().contains(tag)
            && c.tags[tag] == eq,
        holds(FilterV::TagIn { tag, within: list, sanitize }, c, macros) <==> exists|i: int|
            0 <= i < list.len() && holds(
                FilterV::TagEq { tag, eq: #[trigger] list[i], sanitize },
                c,
                macros,
            ),
        holds(FilterV::TagExists { tag, exists: true }, c, macros) <==> c.tags.dom().contains(tag),
        holds(FilterV::TagExists { tag, exists: false }, c, macros) <==> !holds(
            FilterV::TagExists { tag, exists: true },
            c,
            macros,
        ),
{
    if holds(FilterV::TagIn { tag, within: list, sanitize }, c, macros) {
        let v = read_as(value_at(c.tags, tag), sanitize, c)->0;
        let i = list.index_of(v);
        assert(holds(FilterV::TagEq { tag, eq: list[i], sanitize }, c, macros));
    }
}

/// A tag that runs through a sanitizer equals what the sanitizer makes of it; where the sanitizer
/// drops it, it equals nothing.
pub proof fn sanitized_tags_equal_what_is_made_of_them(
    tag: Seq<char>,
    eq: Seq<char>,
    name: Seq<char>,
    c: CategoryCtxV,
    macros: Seq<(Seq<char>, FilterV)>,
)
    ensures
        holds(FilterV::TagEq { tag, eq, sanitize: Some(name) }, c, macros)
            <==> c.tags.dom().contains(tag) && sanitized_by(
            c.sanitizers,
            name,
            c.tags[tag],
            c.readings,
        ) == Some(ValueV::String(eq)),
{
}

/// A named set means the texts that it lists; an unknown one means none.
pub proof fn sets_mean_their_texts(
    tag: Seq<char>,
    keys: Seq<Seq<char>>,
    set: Seq<char>,
    sanitize: Option<Seq<char>>,
    c: CategoryCtxV,
    macros: Seq<(Seq<char>, FilterV)>,
)
    ensures
        match lookup(c.value_sets, set) {
            Some(list) => {
                &&& holds(FilterV::TagInSet { tag, in_set: set }, c, macros) == holds(
                    FilterV::TagIn { tag, within: list, sanitize: None },
                    c,
                    macros,
                )
                &&& holds(
                    FilterV::FirstTagInSet { first_tag: keys, in_set: set, sanitize },
                    c,
                    macros,
                ) == holds(
                    FilterV::FirstTagIn { first_tag: keys, within: list, sanitize },
                    c,
                    macros,
                )
            },
            None => {
                &&& !holds(FilterV::TagInSet { tag, in_set: set }, c, macros)
                &&& !holds(
                    FilterV::FirstTagInSet { first_tag: keys, in_set: set, sanitize },
                    c,
                    macros,
                )
            },
        },
{
}

/// Of several keys the first that is set counts, and no other; one of them exists where any is set.
pub proof fn first_set_tag_counts(
    keys: Seq<Seq<char>>,
    i: int,
    list: Seq<Seq<char>>,
    sanitize: Option<Seq<char>>,
    c: CategoryCtxV,
    macros: Seq<(Seq<char>, FilterV)>,
)
    requires
        0 <= i <= keys.len(),
        forall|j: int| 0 <= j < i ==> !c.tags.dom().contains(#[trigger] keys[j]),
        i < keys.len() ==> c.tags.dom().contains(keys[i]),
    ensures
        holds(FilterV::FirstTagIn { first_tag: keys, within: list, sanitize }, c, macros) <==> i
            < keys.len() && holds(
            FilterV::TagIn { tag: keys[i], within: list, sanitize },
            c,
            macros,
        ),
        holds(FilterV::FirstTagExists { first_tag: keys, exists: true }, c, macros) <==> i
            < keys.len(),
        holds(FilterV::FirstTagExists { first_tag: keys, exists: false }, c, macros) <==> i
            == keys.len(),
{
    lemma_first_set(c.tags, keys, i);
}

/// A text contains another where it stands somewhere in it, starts with it where it stands at the
/// front, and ends with it where it stands at the back.
pub proof fn parts_of_texts_are_found(
    tag: Seq<char>,
    part: Seq<char>,
    before: Seq<char>,
    behind: Seq<char>,
    c: CategoryCtxV,
    macros: Seq<(Seq<char>, FilterV)>,
)
    requires
        c.tags.dom().contains(tag),
    ensures
        c.tags[tag] == before + part + behind ==> holds(
            FilterV::TagContains { tag, contains: part },
            c,
            macros,
        ),
        c.tags[tag] == part + behind ==> holds(
            FilterV::TagStartsWith { tag, starts_with: part },
            c,
            macros,
        ),
        c.tags[tag] == before + part ==> holds(
            FilterV::TagEndsWith { tag, ends_with: part },
            c,
            macros,
        ),
        holds(FilterV::TagContains { tag, contains: part }, c, macros) ==> exists|i: int|
            0 <= i <= c.tags[tag].len() - part.len() && #[trigger] c.tags[tag].subrange(
                i,
                i + part.len(),
            ) == part,
        holds(FilterV::TagStartsWith { tag, starts_with: part }, c, macros) ==> c.tags[tag].len()
            >= part.len() && c.tags[tag].take(part.len() as int) == part,
        holds(FilterV::TagEndsWith { tag, ends_with: part }, c, macros) ==> c.tags[tag].len()
            >= part.len() && c.tags[tag].skip(c.tags[tag].len() - part.len()) == part,
{
    let v = c.tags[tag];
    if v == before + part + behind {
        assert(v.subrange(before.len() as int, (before.len() + part.len()) as int) =~= part);
        assert(occurs_at(v, part, before.len() as int));
    }
    if v == part + behind {
        assert(v.subrange(0, part.len() as int) =~= part);
    }
    if v == before + part {
        assert(v.subrange(v.len() - part.len(), v.len() as int) =~= part);
    }
    if occurs_in(v, part) {
        let i = choose|i: int| #[trigger] occurs_at(v, part, i);
        assert(v.subrange(i, i + part.len()) =~= part);
    }
    if part.is_prefix_of(v) {
        assert(v.take(part.len() as int) =~= part);
    }
    if part.is_suffix_of(v) {
        assert(v.skip(v.len() - part.len()) =~= part);
    }
}

/// No condition on a text holds of a tag that is not set.
pub proof fn unset_tags_meet_no_condition(
    tag: Seq<char>,
    text: Seq<char>,
    list: Seq<Seq<char>>,
    sanitize: Option<Seq<char>>,
    bits: u64,
    c: CategoryCtxV,
    macros: Seq<(Seq<char>, FilterV)>,
)
    requires
        !c.tags.dom().contains(tag),
    ensures
        !holds(FilterV::TagEq { tag, eq: text, sanitize }, c, macros),
        !holds(FilterV::TagIn { tag, within: list, sanitize }, c, macros),
        !holds(FilterV::TagInSet { tag, in_set: text }, c, macros),
        !holds(FilterV::TagContains { tag, contains: text }, c, macros),
        !holds(FilterV::TagStartsWith { tag, starts_with: text }, c, macros),
        !holds(FilterV::TagEndsWith { tag, ends_with: text }, c, macros),
        !holds(FilterV::NumLt { num: tag, sanitize, lt: bits }, c, macros),
        !holds(FilterV::NumLte { num: tag, sanitize, lte: bits }, c, macros),
        !holds(FilterV::NumGt { num: tag, sanitize, gt: bits }, c, macros),
        !holds(FilterV::NumGte { num: tag, sanitize, gte: bits }, c, macros),
{
}

/// A condition on the parent way holds exactly where there is a parent and the condition holds of
/// the parent's tags.
pub proof fn parent_conditions_read_the_parent(
    tag: Seq<char>,
    text: Seq<char>,
    list: Seq<Seq<char>>,
    sanitize: Option<Seq<char>>,
    c: CategoryCtxV,
    macros: Seq<(Seq<char>, FilterV)>,
)
    ensures
        match c.parent_tags {
            Some(m) => {
                let p = CategoryCtxV { tags: m, ..c };
                &&& holds(FilterV::ParentTagEq { parent_tag: tag, eq: text, sanitize }, c, macros)
                    == holds(FilterV::TagEq { tag, eq: text, sanitize }, p, macros)
                &&& holds(
                    FilterV::ParentTagIn { parent_tag: tag, within: list, sanitize },
                    c,
                    macros,
                ) == holds(FilterV::TagIn { tag, within: list, sanitize }, p, macros)
                &&& holds(
                    FilterV::ParentTagContains { parent_tag: tag, contains: text },
                    c,
                    macros,
                ) == holds(FilterV::TagContains { tag, contains: text }, p, macros)
                &&& holds(
                    FilterV::ParentTagStartsWith { parent_tag: tag, starts_with: text },
                    c,
                    macros,
                ) == holds(FilterV::TagStartsWith { tag, starts_with: text }, p, macros)
                &&& holds(
                    FilterV::ParentTagEndsWith { parent_tag: tag, ends_with: text },
                    c,
                    macros,
                ) == holds(FilterV::TagEndsWith { tag, ends_with: text }, p, macros)
            },
            None => {
                &&& !holds(FilterV::ParentTagEq { parent_tag: tag, eq: text, sanitize }, c, macros)
                &&& !holds(
                    FilterV::ParentTagIn { parent_tag: tag, within: list, sanitize },
                    c,
                    macros,
                )
                &&& !holds(
                    FilterV::ParentTagContains { parent_tag: tag, contains: text },
                    c,
                    macros,
                )
                &&& !holds(
                    FilterV::ParentTagStartsWith { parent_tag: tag, starts_with: text },
                    c,
                    macros,
                )
                &&& !holds(
                    FilterV::ParentTagEndsWith { parent_tag: tag, ends_with: text },
                    c,
                    macros,
                )
            },
        },
{
}

/// What an object stands for: its side by name, the prefix and the infix that were noted, whether it
/// has a parent way, and whether a key begins with a text.
pub proof fn objects_are_told_by_what_is_noted(
    text: Seq<char>,
    c: CategoryCtxV,
    macros: Seq<(Seq<char>, FilterV)>,
)
    ensures
        holds(FilterV::Side { side: "left"@ }, c, macros) <==> c.side == Side::Left,
        holds(FilterV::Side { side: "right"@ }, c, macros) <==> c.side == Side::Right,
        holds(FilterV::Side { side: "self"@ }, c, macros) <==> c.side == Side::Self_,
        holds(FilterV::Prefix { prefix: text }, c, macros) <==> c.prefix == Some(text),
        holds(FilterV::Infix { infix: text }, c, macros) <==> c.infix == Some(text),
        holds(FilterV::HasParent { has_parent: true }, c, macros) <==> c.parent_highway is Some,
        holds(FilterV::HasParent { has_parent: false }, c, macros) <==> c.parent_highway is None,
        holds(FilterV::HasKeyPrefix { has_key_prefix: text }, c, macros) <==> exists|
            rest: Seq<char>,
        | #[trigger]
            c.tags.dom().contains(text + rest),
        holds(FilterV::Bool(true), c, macros),
        !holds(FilterV::Bool(false), c, macros),
{
    reveal_strlit("left");
    reveal_strlit("right");
    reveal_strlit("self");
    assert("left"@[0] == 'l' && "right"@[0] == 'r' && "self"@[0] == 's');
    if holds(FilterV::HasKeyPrefix { has_key_prefix: text }, c, macros) {
        let k = choose|k: Seq<char>| #[trigger] c.tags.dom().contains(k) && text.is_prefix_of(k);
        let rest = k.subrange(text.len() as int, k.len() as int);
        assert(text + rest =~= k);
    }
    if exists|rest: Seq<char>| #[trigger] c.tags.dom().contains(text + rest) {
        let rest = choose|rest: Seq<char>| #[trigger] c.tags.dom().contains(text + rest);
        assert((text + rest).subrange(0, text.len() as int) =~= text);
    }
}

/// Numbers are compared as numbers: a tag that reads as one is below a bound, equal to it or above
/// it, and the four conditions are told from these three.
pub proof fn numbers_are_compared(
    tag: Seq<char>,
    n: u64,
    bound: u64,
    c: CategoryCtxV,
    macros: Seq<(Seq<char>, FilterV)>,
)
    requires
        c.tags.dom().contains(tag),
        c.readings.number(c.tags[tag]) == Some(n),
    ensures
        holds(FilterV::NumLt { num: tag, sanitize: None, lt: bound }, c, macros) == num_lt(
            n,
            bound,
        ),
        holds(FilterV::NumGt { num: tag, sanitize: None, gt: bound }, c, macros) == num_lt(
            bound,
            n,
        ),
        holds(FilterV::NumLte { num: tag, sanitize: None, lte: bound }, c, macros) == (num_lt(
            n,
            bound,
        ) || num_eq(n, bound)),
        holds(FilterV::NumGte { num: tag, sanitize: None, gte: bound }, c, macros) == (num_lt(
            bound,
            n,
        ) || num_eq(n, bound)),
        !is_nan(n) && !is_nan(bound) ==> holds(
            FilterV::NumGte { num: tag, sanitize: None, gte: bound },
            c,
            macros,
        ) == !holds(FilterV::NumLt { num: tag, sanitize: None, lt: bound }, c, macros),
        is_nan(n) ==> !holds(FilterV::NumLte { num: tag, sanitize: None, lte: bound }, c, macros)
            && !holds(FilterV::NumGte { num: tag, sanitize: None, gte: bound }, c, macros),
{
}

// ── Sanitizers ──────────────────────────────────────────────────────────────────────────────

/// A text of a table gives what stands for it. Any other text is dropped, unless the table says that
/// it is kept or what it becomes.
pub proof fn tables_give_what_stands_for_a_text(
    mapping: Map<Seq<char>, ValueV>,
    on_miss: Option<Seq<char>>,
    text: Seq<char>,
    readings: ReadingsV,
)
    ensures
        ({
            let r = def_result(DefV::One(StepV::Mapping { mapping, on_miss }), text, readings);
            &&& mapping.dom().contains(text) ==> r == Some(mapping[text])
            &&& !mapping.dom().contains(text) ==> {
                &&& on_miss is None || on_miss == Some("drop"@) ==> r is None
                &&& on_miss == Some("keep"@) ==> r == Some(ValueV::String(text))
                &&& on_miss is Some && on_miss != Some("drop"@) && on_miss != Some("keep"@) ==> r
                    == Some(ValueV::String(on_miss->0))
            }
        }),
{
    reveal_strlit("keep");
    reveal_strlit("drop");
    assert("keep"@[0] == 'k' && "drop"@[0] == 'd');
}

/// What a filter keeps, a drop with the same texts drops, and the other way round; both leave a text
/// that they keep as it is.
pub proof fn drops_are_filters_turned_round(
    list: Seq<Seq<char>>,
    text: Seq<char>,
    readings: ReadingsV,
)
    ensures
        ({
            let kept = def_result(DefV::One(StepV::Filter { filter: list }), text, readings);
            let left = def_result(DefV::One(StepV::Drop { drop: list }), text, readings);
            &&& kept is Some <==> left is None
            &&& kept is Some <==> list.contains(text)
            &&& kept is Some ==> kept->0 == ValueV::String(text)
            &&& left is Some ==> left->0 == ValueV::String(text)
        }),
{
}

proof fn lemma_with_inputs(
    m: Map<Seq<char>, ValueV>,
    inputs: Seq<Seq<char>>,
    output: Seq<char>,
    k: Seq<char>,
)
    ensures
        inputs.contains(k) ==> with_inputs(m, inputs, output).dom().contains(k) && with_inputs(
            m,
            inputs,
            output,
        )[k] == ValueV::String(output),
        !inputs.contains(k) ==> with_inputs(m, inputs, output).dom().contains(k)
            == m.dom().contains(k) && (m.dom().contains(k) ==> with_inputs(m, inputs, output)[k]
            == m[k]),
    decreases inputs.len(),
{
    if inputs.len() > 0 {
        let rest = inputs.drop_last();
        lemma_with_inputs(m, rest, output, k);
        assert(inputs[inputs.len() - 1] == inputs.last());
        if inputs.contains(k) && k != inputs.last() {
            let i = inputs.index_of(k);
            assert(rest[i] == k);
        }
        if rest.contains(k) {
            let i = rest.index_of(k);
            assert(inputs[i] == k);
        }
    }
}

/// Cases give the name of the last case that lists the text; a text that no case lists is missed.
pub proof fn cases_give_the_case_that_lists_a_text(
    cases: Seq<(Seq<char>, Seq<Seq<char>>)>,
    on_miss: Option<Seq<char>>,
    text: Seq<char>,
    i: int,
    readings: ReadingsV,
)
    requires
        -1 <= i < cases.len(),
        i >= 0 ==> cases[i].1.contains(text),
        forall|j: int| i < j < cases.len() ==> !(#[trigger] cases[j]).1.contains(text),
    ensures
        ({
            let r = def_result(DefV::One(StepV::Cases { cases, on_miss }), text, readings);
            &&& i >= 0 ==> r == Some(ValueV::String(cases[i].0))
            &&& i < 0 ==> r == def_result(
                DefV::One(StepV::Mapping { mapping: Map::empty(), on_miss }),
                text,
                readings,
            )
        }),
    decreases cases.len(),
{
    if cases.len() > 0 {
        let rest = cases.drop_last();
        let last = cases.last();
        lemma_with_inputs(table_of(rest), last.1, last.0, text);
        assert(cases[cases.len() - 1] == last);
        if i < cases.len() - 1 {
            assert(!last.1.contains(text));
            assert forall|j: int| i < j < rest.len() implies !(#[trigger] rest[j]).1.contains(
                text,
            ) by {
                assert(rest[j] == cases[j]);
            }
            cases_give_the_case_that_lists_a_text(rest, on_miss, text, i, readings);
            lemma_absent(rest, text, i);
        }
    }
}

proof fn lemma_absent(cases: Seq<(Seq<char>, Seq<Seq<char>>)>, text: Seq<char>, i: int)
    requires
        -1 <= i < cases.len(),
        i >= 0 ==> cases[i].1.contains(text),
        forall|j: int| i < j < cases.len() ==> !(#[trigger] cases[j]).1.contains(text),
    ensures
        table_of(cases).dom().contains(text) <==> i >= 0,
        i >= 0 ==> table_of(cases)[text] == ValueV::String(cases[i].0),
    decreases cases.len(),
{
    if cases.len() > 0 {
        let rest = cases.drop_last();
        let last = cases.last();
        lemma_with_inputs(table_of(rest), last.1, last.0, text);
        assert(cases[cases.len() - 1] == last);
        if i < cases.len() - 1 {
            assert(!last.1.contains(text));
            assert forall|j: int| i < j < rest.len() implies !(#[trigger] rest[j]).1.contains(
                text,
            ) by {
                assert(rest[j] == cases[j]);
            }
            lemma_absent(rest, text, i);
        }
    }
}

/// A chain runs its steps in turn: what the front of it makes of a text runs through the rest, unless
/// it is dropped or is no text any more.
pub proof fn chains_can_be_split(
    a: Seq<StepV>,
    b: Seq<StepV>,
    text: Seq<char>,
    readings: ReadingsV,
)
    requires
        b.len() > 0,
    ensures
        def_result(DefV::Chain(a + b), text, readings) == (match def_result(
            DefV::Chain(a),
            text,
            readings,
        ) {
            Some(ValueV::String(s)) => def_result(DefV::Chain(b), s, readings),
            _ => None,
        }),
    decreases b.len(),
{
    assert((a + b).drop_last() =~= a + b.drop_last());
    assert((a + b).last() == b.last());
    if b.len() == 1 {
        assert(a + b.drop_last() =~= a);
        assert(b.drop_last() =~= Seq::<StepV>::empty());
        if let Some(ValueV::String(s)) = chained(a, text, readings) {
            assert(chained(b.drop_last(), s, readings) == Some(ValueV::String(s)));
        }
    } else {
        chains_can_be_split(a, b.drop_last(), text, readings);
    }
}

/// A chain of one step is the step, and a chain of none leaves the text as it is.
pub proof fn short_chains(s: StepV, text: Seq<char>, readings: ReadingsV)
    ensures
        def_result(DefV::Chain(seq![s]), text, readings) == def_result(
            DefV::One(s),
            text,
            readings,
        ),
        def_result(DefV::Chain(Seq::empty()), text, readings) == Some(ValueV::String(text)),
{
    reveal_with_fuel(chained, 3);
    assert(seq![s].drop_last() =~= Seq::<StepV>::empty());
}

/// A sanitizer of the configuration stands before a built-in one of the same name; a name that is
/// neither drops every text.
pub proof fn own_sanitizers_stand_before_built_in_ones(
    reg: Seq<(Seq<char>, DefV)>,
    name: Seq<char>,
    text: Seq<char>,
    readings: ReadingsV,
)
    ensures
        lookup(reg, name) is Some ==> sanitized_by(reg, name, text, readings) == def_result(
            lookup(reg, name)->0,
            text,
            readings,
        ),
        lookup(reg, name) is None && name != "parse_length"@ ==> sanitized_by(
            reg,
            name,
            text,
            readings,
        ) is None,
        lookup(reg, name) is None && name == "parse_length"@ ==> (sanitized_by(
            reg,
            name,
            text,
            readings,
        ) is Some <==> readings.length(text) is Some),
{
}

/// Keys of a side are tried from the side itself to both sides. The key without a side counts for
/// the left one, where the read says so, and for no other.
pub proof fn sides_are_tried_before_both(
    m: Map<Seq<char>, Seq<char>>,
    key: Seq<char>,
    side: Seq<char>,
    bare_left: bool,
)
    ensures
        ({
            let here = key + ":"@ + side;
            let both = key + ":both"@;
            let r = first_set(m, sided(key, side, bare_left));
            &&& m.dom().contains(here) ==> r == Some(m[here])
            &&& !m.dom().contains(here) && m.dom().contains(both) ==> r == Some(m[both])
            &&& !m.dom().contains(here) && !m.dom().contains(both) ==> r == (if bare_left && side
                == "left"@ && m.dom().contains(key) {
                Some(m[key])
            } else {
                None
            })
        }),
{
    let here = key + ":"@ + side;
    let both = key + ":both"@;
    let keys = sided(key, side, bare_left);
    if m.dom().contains(here) {
        lemma_first_set(m, keys, 0);
    } else if m.dom().contains(both) {
        lemma_first_set(m, keys, 1);
    } else if bare_left && side == "left"@ && m.dom().contains(key) {
        lemma_first_set(m, keys, 2);
    } else {
        lemma_first_set(m, keys, keys.len() as int);
    }
}

// ── Rule tables ─────────────────────────────────────────────────────────────────────────────

/// A rule table gives what its first rule gives whose condition holds; where none holds, its
/// default.
pub proof fn first_rule_that_holds_counts(
    rules: Seq<RuleV>,
    i: int,
    default: Option<ValueV>,
    c: CategoryCtxV,
)
    requires
        0 <= i <= rules.len(),
        forall|j: int| 0 <= j < i ==> !holds((#[trigger] rules[j]).when, c, no_macros()),
        i < rules.len() ==> holds(rules[i].when, c, no_macros()),
    ensures
        i == rules.len() ==> or_default(classified(rules, 0, c), default) == default,
        i < rules.len() ==> {
            let r = or_default(classified(rules, 0, c), default);
            &&& rules[i].value matches SpecV::Const(x) ==> r == Some(x)
            &&& rules[i].value matches SpecV::TagOr { tag_or, or } ==> r == Some(
                ValueV::String(
                    if c.tags.dom().contains(tag_or) {
                        c.tags[tag_or]
                    } else {
                        or
                    },
                ),
            )
        },
{
    lemma_classified(rules, 0, i, c);
}

proof fn lemma_classified(rules: Seq<RuleV>, k: int, i: int, c: CategoryCtxV)
    requires
        0 <= k <= i <= rules.len(),
        forall|j: int| k <= j < i ==> !holds((#[trigger] rules[j]).when, c, no_macros()),
        i < rules.len() ==> holds(rules[i].when, c, no_macros()),
    ensures
        classified(rules, k, c) == (if i < rules.len() {
            Some(given(rules[i].value, c.tags))
        } else {
            None
        }),
    decreases i - k,
{
    if k < i {
        assert(!holds(rules[k].when, c, no_macros()));
        lemma_classified(rules, k + 1, i, c);
    }
}

// ── Categories ──────────────────────────────────────────────────────────────────────────────

/// An object falls into the category of the first place whose condition holds. Where that place is
/// none of a category, or no condition holds, it falls into none.
pub proof fn first_place_that_holds_decides(
    order: Seq<OrderedNode>,
    i: int,
    cats: Seq<CategoryDef>,
    c: CategoryCtxV,
    macros: Seq<(Seq<char>, FilterV)>,
)
    requires
        0 <= i <= order.len(),
        forall|j: int|
            0 <= j < i ==> match #[trigger] order[j] {
                OrderedNode::Category { idx } => !holds(
                    cats[idx as int].condition@,
                    c,
                    macros,
                ),
                OrderedNode::Skip { condition } => !holds(condition@, c, macros),
            },
        i < order.len() ==> match order[i] {
            OrderedNode::Category { idx } => holds(cats[idx as int].condition@, c, macros),
            OrderedNode::Skip { condition } => holds(condition@, c, macros),
        },
    ensures
        category_of(order, cats, c, macros) == (if i < order.len() {
            match order[i] {
                OrderedNode::Category { idx } => Some(idx as int),
                OrderedNode::Skip { .. } => None,
            }
        } else {
            None
        }),
{
    lemma_first_place(order, 0, i, cats, c, macros);
}

proof fn lemma_first_place(
    order: Seq<OrderedNode>,
    k: int,
    i: int,
    cats: Seq<CategoryDef>,
    c: CategoryCtxV,
    macros: Seq<(Seq<char>, FilterV)>,
)
    requires
        0 <= k <= i <= order.len(),
        forall|j: int|
            k <= j < i ==> match #[trigger] order[j] {
                OrderedNode::Category { idx } => !holds(
                    cats[idx as int].condition@,
                    c,
                    macros,
                ),
                OrderedNode::Skip { condition } => !holds(condition@, c, macros),
            },
        i < order.len() ==> holds(condition_at(order[i], cats), c, macros),
    ensures
        first_match(order, k, cats, c, macros) == i,
    decreases i - k,
{
    if k < i {
        assert(!holds(condition_at(order[k], cats), c, macros));
        lemma_first_place(order, k + 1, i, cats, c, macros);
    }
}

// ── The traffic mode ────────────────────────────────────────────────────────────────────────

/// Whether the traffic mode is tagged for a side: the tag of the side, of both sides or, on the
/// left, of none reads as a traffic mode.
pub open spec fn is_tagged_for(
    tags: Map<Seq<char>, Seq<char>>,
    side: Seq<char>,
    reg: Seq<(Seq<char>, DefV)>,
    readings: ReadingsV,
) -> bool {
    let raw = first_set(tags, sided("traffic_mode"@, side, true));
    raw is Some && sanitized_by(reg, "traffic_mode"@, raw->0, readings) is Some && sanitized_by(
        reg,
        "traffic_mode"@,
        raw->0,
        readings,
    )->0 is String
}

/// Where the traffic mode is tagged for the left or the right side, parking does not matter. Each
/// side has what is tagged for it, and nothing where nothing is.
pub proof fn tagged_traffic_modes_stand(
    obj: Map<Seq<char>, Seq<char>>,
    parking: Map<Seq<char>, Seq<char>>,
    scope: Option<Seq<char>>,
    obj_side: Seq<char>,
    out_side: Seq<char>,
    reg: Seq<(Seq<char>, DefV)>,
    readings: ReadingsV,
)
    requires
        is_tagged_for(obj, "left"@, reg, readings) || is_tagged_for(obj, "right"@, reg, readings),
    ensures
        ({
            let r = traffic_mode(obj, parking, scope, obj_side, out_side, reg, readings);
            &&& r is Some <==> is_tagged_for(obj, out_side, reg, readings)
            &&& r is Some ==> sanitized_by(
                reg,
                "traffic_mode"@,
                first_set(obj, sided("traffic_mode"@, out_side, true))->0,
                readings,
            ) == Some(ValueV::String(r->0))
        }),
{
}

/// Where no traffic mode is tagged, parking tells it for the side asked for: always where it counts
/// for both sides, only for the object's own side where it counts by direction, never where it does
/// not count. What it tells is read from the parking of the side, or of both sides.
pub proof fn parking_tells_untagged_traffic_modes(
    obj: Map<Seq<char>, Seq<char>>,
    parking: Map<Seq<char>, Seq<char>>,
    scope: Option<Seq<char>>,
    obj_side: Seq<char>,
    out_side: Seq<char>,
    reg: Seq<(Seq<char>, DefV)>,
    readings: ReadingsV,
)
    requires
        !is_tagged_for(obj, "left"@, reg, readings),
        !is_tagged_for(obj, "right"@, reg, readings),
    ensures
        ({
            let r = traffic_mode(obj, parking, scope, obj_side, out_side, reg, readings);
            let counts = scope == Some("both"@) || (scope == Some("directional"@) && obj_side
                == out_side);
            let here = "parking"@ + ":"@ + out_side;
            let both = "parking"@ + ":both"@;
            &&& !counts ==> r is None
            &&& !parking.dom().contains(here) && !parking.dom().contains(both) ==> r is None
            &&& counts && parking.dom().contains(here) ==> r == text_made(
                sanitized_by(reg, "parking"@, parking[here], readings),
            )
            &&& counts && !parking.dom().contains(here) && parking.dom().contains(both) ==> r
                == text_made(sanitized_by(reg, "parking"@, parking[both], readings))
        }),
{
    sides_are_tried_before_both(parking, "parking"@, out_side, false);
}

/// The text of a result that is one.
pub open spec fn text_made(v: Option<ValueV>) -> Option<Seq<char>> {
    match v {
        Some(ValueV::String(s)) => Some(s),
        _ => None,
    }
}

} // verus!
