//! Conditions as a configuration spells them, with references to macros and sanitizers by name.
use vstd::prelude::*;

use crate::assoc::{lemma_lookup, lookup, position_of};
use crate::classify::sanitize::{sanitized_by, DefV, SanitizerRegistry};
use crate::lang::context::{parent_map, value_set, ValueSets};
use crate::lang::extract::{first_present, first_set};
use crate::lang::filter::number_of;
use crate::model::{models, Model};
use crate::number::{le, lt, num_le, num_lt, Readings, ReadingsV};
use crate::tags::{
    get, has_key_prefix, some_key_starts_with, tag_map, RawTags,
};
use crate::text::{contains, contains_str, ends_with, occurs_in, starts_with, str_eq};
use crate::value::{opt_text, text_of, Value};

verus! {

/// Which part of a way an object stands for: the way itself, or one of its sides.
#[derive(Debug, Clone, Copy, PartialEq, Eq, Structural)]
pub enum Side {
    Self_,
    Left,
    Right,
}

impl Side {
    /// The name of the side.
    pub open spec fn spec_name(self) -> Seq<char> {
        match self {
            Side::Self_ => "self"@,
            Side::Left => "left"@,
            Side::Right => "right"@,
        }
    }

    /// The name of the side.
    pub fn name(self) -> (r: &'static str)
        ensures
            r@ == self.spec_name(),
    {
        match self {
            Side::Self_ => "self",
            Side::Left => "left",
            Side::Right => "right",
        }
    }
}

/// What a condition sees of an object.
#[derive(Clone, Copy)]
pub struct CategoryContext<'a> {
    pub tags: &'a RawTags,
    pub side: Side,
    pub prefix: Option<&'a str>,
    /// The parent way's `highway`, for an object that was split from it.
    pub parent_highway: Option<&'a str>,
    pub parent_tags: Option<&'a RawTags>,
    pub infix: Option<&'a str>,
    pub sanitizers: &'a SanitizerRegistry,
    pub value_sets: &'a ValueSets,
    pub readings: &'a Readings,
}

/// What a condition sees of an object.
pub struct CategoryCtxV {
    pub tags: Map<Seq<char>, Seq<char>>,
    pub side: Side,
    pub prefix: Option<Seq<char>>,
    pub parent_highway: Option<Seq<char>>,
    pub parent_tags: Option<Map<Seq<char>, Seq<char>>>,
    pub infix: Option<Seq<char>>,
    pub sanitizers: Seq<(Seq<char>, DefV)>,
    pub value_sets: Seq<(Seq<char>, Seq<Seq<char>>)>,
    pub readings: ReadingsV,
}

impl<'a> CategoryContext<'a> {
    pub open spec fn view(&self) -> CategoryCtxV {
        CategoryCtxV {
            tags: tag_map(*self.tags),
            side: self.side,
            prefix: opt_text(self.prefix),
            parent_highway: opt_text(self.parent_highway),
            parent_tags: parent_map(self.parent_tags),
            infix: opt_text(self.infix),
            sanitizers: self.sanitizers@,
            value_sets: self.value_sets@,
            readings: self.readings@,
        }
    }
}

/// A condition on an object. A `sanitize` names a sanitizer that the text runs through first; a
/// text that it drops counts as not set. Numbers are bit patterns of doubles.
#[derive(Debug)]
pub enum Filter {
    Bool(bool),
    And { and: Vec<Filter> },
    Or { or: Vec<Filter> },
    Not { not: Box<Filter> },
    /// The condition that the macro stands for; false where there is none of that name.
    Macro { name: String },
    /// The tag is set, to a text of the named value set.
    TagInSet { tag: String, in_set: String },
    /// The tag reads as one of the texts.
    TagIn { tag: String, within: Vec<String>, sanitize: Option<String> },
    TagContains { tag: String, contains: String },
    TagStartsWith { tag: String, starts_with: String },
    TagEndsWith { tag: String, ends_with: String },
    /// The tag is set, or is not.
    TagExists { tag: String, exists: bool },
    /// The tag reads as the text.
    TagEq { tag: String, eq: String, sanitize: Option<String> },
    /// The first of the tags that is set reads as a text of the named value set.
    FirstTagInSet { first_tag: Vec<String>, in_set: String, sanitize: Option<String> },
    /// The first of the tags that is set reads as one of the texts.
    FirstTagIn { first_tag: Vec<String>, within: Vec<String>, sanitize: Option<String> },
    /// One of the tags is set, or none is.
    FirstTagExists { first_tag: Vec<String>, exists: bool },
    /// The parent way's tag reads as one of the texts.
    ParentTagIn { parent_tag: String, within: Vec<String>, sanitize: Option<String> },
    ParentTagContains { parent_tag: String, contains: String },
    ParentTagStartsWith { parent_tag: String, starts_with: String },
    ParentTagEndsWith { parent_tag: String, ends_with: String },
    ParentTagEq { parent_tag: String, eq: String, sanitize: Option<String> },
    /// The object stands for the side `self`, `left` or `right`.
    Side { side: String },
    Prefix { prefix: String },
    Infix { infix: String },
    /// Some key of the object starts with the text.
    HasKeyPrefix { has_key_prefix: String },
    /// The object was split from a parent way, or was not.
    HasParent { has_parent: bool },
    /// The tag reads as a number below the bound.
    NumLt { num: String, sanitize: Option<String>, lt: u64 },
    NumLte { num: String, sanitize: Option<String>, lte: u64 },
    NumGt { num: String, sanitize: Option<String>, gt: u64 },
    NumGte { num: String, sanitize: Option<String>, gte: u64 },
}

/// A condition on an object.
pub enum FilterV {
    Bool(bool),
    And(Seq<FilterV>),
    Or(Seq<FilterV>),
    Not(Box<FilterV>),
    Macro(Seq<char>),
    TagInSet { tag: Seq<char>, in_set: Seq<char> },
    TagIn { tag: Seq<char>, within: Seq<Seq<char>>, sanitize: Option<Seq<char>> },
    TagContains { tag: Seq<char>, contains: Seq<char> },
    TagStartsWith { tag: Seq<char>, starts_with: Seq<char> },
    TagEndsWith { tag: Seq<char>, ends_with: Seq<char> },
    TagExists { tag: Seq<char>, exists: bool },
    TagEq { tag: Seq<char>, eq: Seq<char>, sanitize: Option<Seq<char>> },
    FirstTagInSet { first_tag: Seq<Seq<char>>, in_set: Seq<char>, sanitize: Option<Seq<char>> },
    FirstTagIn { first_tag: Seq<Seq<char>>, within: Seq<Seq<char>>, sanitize: Option<Seq<char>> },
    FirstTagExists { first_tag: Seq<Seq<char>>, exists: bool },
    ParentTagIn { parent_tag: Seq<char>, within: Seq<Seq<char>>, sanitize: Option<Seq<char>> },
    ParentTagContains { parent_tag: Seq<char>, contains: Seq<char> },
    ParentTagStartsWith { parent_tag: Seq<char>, starts_with: Seq<char> },
    ParentTagEndsWith { parent_tag: Seq<char>, ends_with: Seq<char> },
    ParentTagEq { parent_tag: Seq<char>, eq: Seq<char>, sanitize: Option<Seq<char>> },
    Side { side: Seq<char> },
    Prefix { prefix: Seq<char> },
    Infix { infix: Seq<char> },
    HasKeyPrefix { has_key_prefix: Seq<char> },
    HasParent { has_parent: bool },
    NumLt { num: Seq<char>, sanitize: Option<Seq<char>>, lt: u64 },
    NumLte { num: Seq<char>, sanitize: Option<Seq<char>>, lte: u64 },
    NumGt { num: Seq<char>, sanitize: Option<Seq<char>>, gt: u64 },
    NumGte { num: Seq<char>, sanitize: Option<Seq<char>>, gte: u64 },
}

impl Filter {
    pub open spec fn view(&self) -> FilterV
        decreases self,
    {
        match self {
            Filter::Bool(b) => FilterV::Bool(*b),
            Filter::And { and } => FilterV::And(filters(and@)),
            Filter::Or { or } => FilterV::Or(filters(or@)),
            Filter::Not { not } => FilterV::Not(Box::new((**not).view())),
            Filter::Macro { name } => FilterV::Macro(name@),
            Filter::TagInSet { tag, in_set } => FilterV::TagInSet {
                tag: tag@,
                in_set: in_set@,
            },
            Filter::TagIn { tag, within, sanitize } => FilterV::TagIn {
                tag: tag@,
                within: models(within@),
                sanitize: sanitize.model(),
            },
            Filter::TagContains { tag, contains } => FilterV::TagContains {
                tag: tag@,
                contains: contains@,
            },
            Filter::TagStartsWith { tag, starts_with } => FilterV::TagStartsWith {
                tag: tag@,
                starts_with: starts_with@,
            },
            Filter::TagEndsWith { tag, ends_with } => FilterV::TagEndsWith {
                tag: tag@,
                ends_with: ends_with@,
            },
            Filter::TagExists { tag, exists } => FilterV::TagExists {
                tag: tag@,
                exists: *exists,
            },
            Filter::TagEq { tag, eq, sanitize } => FilterV::TagEq {
                tag: tag@,
                eq: eq@,
                sanitize: sanitize.model(),
            },
            Filter::FirstTagInSet { first_tag, in_set, sanitize } => FilterV::FirstTagInSet {
                first_tag: models(first_tag@),
                in_set: in_set@,
                sanitize: sanitize.model(),
            },
            Filter::FirstTagIn { first_tag, within, sanitize } => FilterV::FirstTagIn {
                first_tag: models(first_tag@),
                within: models(within@),
                sanitize: sanitize.model(),
            },
            Filter::FirstTagExists { first_tag, exists } => FilterV::FirstTagExists {
                first_tag: models(first_tag@),
                exists: *exists,
            },
            Filter::ParentTagIn { parent_tag, within, sanitize } => FilterV::ParentTagIn {
                parent_tag: parent_tag@,
                within: models(within@),
                sanitize: sanitize.model(),
            },
            Filter::ParentTagContains { parent_tag, contains } => FilterV::ParentTagContains {
                parent_tag: parent_tag@,
                contains: contains@,
            },
            Filter::ParentTagStartsWith { parent_tag, starts_with } => FilterV::ParentTagStartsWith {
                parent_tag: parent_tag@,
                starts_with: starts_with@,
            },
            Filter::ParentTagEndsWith { parent_tag, ends_with } => FilterV::ParentTagEndsWith {
                parent_tag: parent_tag@,
                ends_with: ends_with@,
            },
            Filter::ParentTagEq { parent_tag, eq, sanitize } => FilterV::ParentTagEq {
                parent_tag: parent_tag@,
                eq: eq@,
                sanitize: sanitize.model(),
            },
            Filter::Side { side } => FilterV::Side {
                side: side@,
            },
            Filter::Prefix { prefix } => FilterV::Prefix {
                prefix: prefix@,
            },
            Filter::Infix { infix } => FilterV::Infix {
                infix: infix@,
            },
            Filter::HasKeyPrefix { has_key_prefix } => FilterV::HasKeyPrefix {
                has_key_prefix: has_key_prefix@,
            },
            Filter::HasParent { has_parent } => FilterV::HasParent {
                has_parent: *has_parent,
            },
            Filter::NumLt { num, sanitize, lt } => FilterV::NumLt {
                num: num@,
                sanitize: sanitize.model(),
                lt: *lt,
            },
            Filter::NumLte { num, sanitize, lte } => FilterV::NumLte {
                num: num@,
                sanitize: sanitize.model(),
                lte: *lte,
            },
            Filter::NumGt { num, sanitize, gt } => FilterV::NumGt {
                num: num@,
                sanitize: sanitize.model(),
                gt: *gt,
            },
            Filter::NumGte { num, sanitize, gte } => FilterV::NumGte {
                num: num@,
                sanitize: sanitize.model(),
                gte: *gte,
            },
        }
    }
}

/// The conditions of a list.
pub open spec fn filters(v: Seq<Filter>) -> Seq<FilterV>
    decreases v,
{
    Seq::new(
        v.len(),
        |i: int|
            if 0 <= i < v.len() {
                v[i].view()
            } else {
                arbitrary()
            },
    )
}

pub broadcast proof fn filters_len(v: Seq<Filter>)
    ensures
        #[trigger] filters(v).len() == v.len(),
{
}

pub broadcast proof fn filters_index(v: Seq<Filter>, i: int)
    requires
        0 <= i < v.len(),
    ensures
        #[trigger] filters(v)[i] == v[i].view(),
{
}

pub broadcast group group_filters {
    filters_len,
    filters_index,
}

/// A copy of a condition.
pub fn clone_filter(f: &Filter) -> (r: Filter)
    ensures
        r@ == f@,
    decreases f,
{
    match f {
        Filter::Bool(b) => Filter::Bool(*b),
        Filter::And { and } => Filter::And { and: clone_filters(and) },
        Filter::Or { or } => Filter::Or { or: clone_filters(or) },
        Filter::Not { not } => Filter::Not { not: Box::new(clone_filter(not)) },
        Filter::Macro { name } => Filter::Macro { name: name.clone() },
        Filter::TagInSet { tag, in_set } => Filter::TagInSet {
            tag: tag.clone(),
            in_set: in_set.clone(),
        },
        Filter::TagIn { tag, within, sanitize } => Filter::TagIn {
            tag: tag.clone(),
            within: within.copy(),
            sanitize: sanitize.copy(),
        },
        Filter::TagContains { tag, contains } => Filter::TagContains {
            tag: tag.clone(),
            contains: contains.clone(),
        },
        Filter::TagStartsWith { tag, starts_with } => Filter::TagStartsWith {
            tag: tag.clone(),
            starts_with: starts_with.clone(),
        },
        Filter::TagEndsWith { tag, ends_with } => Filter::TagEndsWith {
            tag: tag.clone(),
            ends_with: ends_with.clone(),
        },
        Filter::TagExists { tag, exists } => Filter::TagExists {
            tag: tag.clone(),
            exists: *exists,
        },
        Filter::TagEq { tag, eq, sanitize } => Filter::TagEq {
            tag: tag.clone(),
            eq: eq.clone(),
            sanitize: sanitize.copy(),
        },
        Filter::FirstTagInSet { first_tag, in_set, sanitize } => Filter::FirstTagInSet {
            first_tag: first_tag.copy(),
            in_set: in_set.clone(),
            sanitize: sanitize.copy(),
        },
        Filter::FirstTagIn { first_tag, within, sanitize } => Filter::FirstTagIn {
            first_tag: first_tag.copy(),
            within: within.copy(),
            sanitize: sanitize.copy(),
        },
        Filter::FirstTagExists { first_tag, exists } => Filter::FirstTagExists {
            first_tag: first_tag.copy(),
            exists: *exists,
        },
        Filter::ParentTagIn { parent_tag, within, sanitize } => Filter::ParentTagIn {
            parent_tag: parent_tag.clone(),
            within: within.copy(),
            sanitize: sanitize.copy(),
        },
        Filter::ParentTagContains { parent_tag, contains } => Filter::ParentTagContains {
            parent_tag: parent_tag.clone(),
            contains: contains.clone(),
        },
        Filter::ParentTagStartsWith { parent_tag, starts_with } => Filter::ParentTagStartsWith {
            parent_tag: parent_tag.clone(),
            starts_with: starts_with.clone(),
        },
        Filter::ParentTagEndsWith { parent_tag, ends_with } => Filter::ParentTagEndsWith {
            parent_tag: parent_tag.clone(),
            ends_with: ends_with.clone(),
        },
        Filter::ParentTagEq { parent_tag, eq, sanitize } => Filter::ParentTagEq {
            parent_tag: parent_tag.clone(),
            eq: eq.clone(),
            sanitize: sanitize.copy(),
        },
        Filter::Side { side } => Filter::Side {
            side: side.clone(),
        },
        Filter::Prefix { prefix } => Filter::Prefix {
            prefix: prefix.clone(),
        },
        Filter::Infix { infix } => Filter::Infix {
            infix: infix.clone(),
        },
        Filter::HasKeyPrefix { has_key_prefix } => Filter::HasKeyPrefix {
            has_key_prefix: has_key_prefix.clone(),
        },
        Filter::HasParent { has_parent } => Filter::HasParent {
            has_parent: *has_parent,
        },
        Filter::NumLt { num, sanitize, lt } => Filter::NumLt {
            num: num.clone(),
            sanitize: sanitize.copy(),
            lt: *lt,
        },
        Filter::NumLte { num, sanitize, lte } => Filter::NumLte {
            num: num.clone(),
            sanitize: sanitize.copy(),
            lte: *lte,
        },
        Filter::NumGt { num, sanitize, gt } => Filter::NumGt {
            num: num.clone(),
            sanitize: sanitize.copy(),
            gt: *gt,
        },
        Filter::NumGte { num, sanitize, gte } => Filter::NumGte {
            num: num.clone(),
            sanitize: sanitize.copy(),
            gte: *gte,
        },
    }
}

/// A copy of a list of conditions.
pub fn clone_filters(v: &Vec<Filter>) -> (r: Vec<Filter>)
    ensures
        filters(r@) == filters(v@),
    decreases v,
{
    broadcast use group_filters;

    let mut out: Vec<Filter> = Vec::new();
    for i in 0..v.len()
        invariant
            out@.len() == i,
            forall|j: int| 0 <= j < i ==> (#[trigger] out@[j])@ == v@[j]@,
    {
        proof {
            assert(decreases_to!(v@ => v@[i as int]));
        }
        let c = clone_filter(&v[i]);
        out.push(c);
    }
    proof {
        assert(filters(out@) =~= filters(v@));
    }
    out
}

/// The named conditions of a list.
pub open spec fn macros_view(v: Seq<(String, Filter)>) -> Seq<(Seq<char>, FilterV)> {
    v.map_values(|p: (String, Filter)| (p.0@, p.1@))
}

/// The condition of the macro with the name.
pub fn find_macro<'a>(macros: &'a Vec<(String, Filter)>, name: &str) -> (r: Option<&'a Filter>)
    ensures
        match r {
            Some(x) => lookup(macros_view(macros@), name@) == Some(x@),
            None => lookup(macros_view(macros@), name@) is None,
        },
{
    let ghost all = macros_view(macros@);
    match position_of(macros, name) {
        Some(i) => {
            proof {
                assert forall|j: int| 0 <= j < i implies (#[trigger] all[j]).0 != name@ by {
                    assert(macros@[j].0@ != name@);
                }
                lemma_lookup(all, name@, i as int);
            }
            Some(&macros[i].1)
        },
        None => {
            proof {
                assert forall|j: int| 0 <= j < all.len() implies (#[trigger] all[j]).0 != name@ by {
                    assert(macros@[j].0@ != name@);
                }
                lemma_lookup(all, name@, all.len() as int);
            }
            None
        },
    }
}

// ── Macros that end ─────────────────────────────────────────────────────────────────────────

/// Whether the macros in a condition, and those in them, go at most `n` deep.
pub open spec fn expands(f: FilterV, macros: Seq<(Seq<char>, FilterV)>, n: nat) -> bool
    decreases n, f,
{
    match f {
        FilterV::And(fs) => all_expand(fs, macros, n),
        FilterV::Or(fs) => all_expand(fs, macros, n),
        FilterV::Not(g) => expands(*g, macros, n),
        FilterV::Macro(name) => match lookup(macros, name) {
            Some(g) => n > 0 && expands(g, macros, (n - 1) as nat),
            None => true,
        },
        _ => true,
    }
}

/// Whether the macros in every condition of a list go at most `n` deep.
pub open spec fn all_expand(fs: Seq<FilterV>, macros: Seq<(Seq<char>, FilterV)>, n: nat) -> bool
    decreases n, fs,
{
    forall|i: int| 0 <= i < fs.len() ==> expands(#[trigger] fs[i], macros, n)
}

/// Whether no macro in the condition comes back to itself.
pub open spec fn is_finite(f: FilterV, macros: Seq<(Seq<char>, FilterV)>) -> bool {
    exists|n: nat| #[trigger] expands(f, macros, n)
}

/// Whether the macros in the condition, and those in them, go at most `depth` deep.
pub fn expands_within(f: &Filter, macros: &Vec<(String, Filter)>, depth: usize) -> (r: bool)
    ensures
        r == expands(f@, macros_view(macros@), depth as nat),
    decreases depth, f,
{
    match f {
        Filter::And { and } => all_expand_within(and, macros, depth),
        Filter::Or { or } => all_expand_within(or, macros, depth),
        Filter::Not { not } => expands_within(not, macros, depth),
        Filter::Macro { name } => match find_macro(macros, name.as_str()) {
            Some(g) => depth > 0 && expands_within(g, macros, depth - 1),
            None => true,
        },
        _ => true,
    }
}

fn all_expand_within(v: &Vec<Filter>, macros: &Vec<(String, Filter)>, depth: usize) -> (r: bool)
    ensures
        r == all_expand(filters(v@), macros_view(macros@), depth as nat),
    decreases depth, v,
{
    broadcast use group_filters;

    let ghost fv = filters(v@);
    let mut i: usize = 0;
    while i < v.len()
        invariant
            0 <= i <= v@.len(),
            fv == filters(v@),
            forall|j: int|
                0 <= j < i ==> expands(#[trigger] fv[j], macros_view(macros@), depth as nat),
        decreases v.len() - i,
    {
        proof {
            assert(decreases_to!(v@ => v@[i as int]));
            assert(fv[i as int] == v@[i as int]@);
        }
        if !expands_within(&v[i], macros, depth) {
            return false;
        }
        i = i + 1;
    }
    proof {
        assert(all_expand(fv, macros_view(macros@), depth as nat));
    }
    true
}

// ── What a condition says ───────────────────────────────────────────────────────────────────

/// What a text reads as behind the sanitizer that is named, where one is.
pub open spec fn read_as(raw: Option<Seq<char>>, sanitize: Option<Seq<char>>, c: CategoryCtxV) -> Option<
    Seq<char>,
> {
    match raw {
        None => None,
        Some(text) => match sanitize {
            None => Some(text),
            Some(name) => match sanitized_by(c.sanitizers, name, text, c.readings) {
                Some(v) => text_of(v),
                None => None,
            },
        },
    }
}

/// The value of a key.
pub open spec fn value_at(m: Map<Seq<char>, Seq<char>>, key: Seq<char>) -> Option<Seq<char>> {
    if m.dom().contains(key) {
        Some(m[key])
    } else {
        None
    }
}

/// The value of a key of the parent way.
pub open spec fn parent_at(c: CategoryCtxV, key: Seq<char>) -> Option<Seq<char>> {
    match c.parent_tags {
        Some(m) => value_at(m, key),
        None => None,
    }
}

/// The number that a tag reads as.
pub open spec fn number_at(c: CategoryCtxV, key: Seq<char>, sanitize: Option<Seq<char>>) -> Option<
    u64,
> {
    match value_at(c.tags, key) {
        None => None,
        Some(text) => match sanitize {
            None => c.readings.number(text),
            Some(name) => match sanitized_by(c.sanitizers, name, text, c.readings) {
                Some(v) => number_of(v, c.readings),
                None => None,
            },
        },
    }
}

/// Whether a text is there and is one of a list.
pub open spec fn is_one_of(v: Option<Seq<char>>, list: Seq<Seq<char>>) -> bool {
    v is Some && list.contains(v->0)
}

/// Whether the condition holds of an object, macros being followed `n` deep.
pub open spec fn holds_within(
    f: FilterV,
    c: CategoryCtxV,
    macros: Seq<(Seq<char>, FilterV)>,
    n: nat,
) -> bool
    decreases n, f,
{
    match f {
        FilterV::Bool(b) => b,
        FilterV::And(fs) => all_hold(fs, c, macros, n),
        FilterV::Or(fs) => any_holds(fs, c, macros, n),
        FilterV::Not(g) => !holds_within(*g, c, macros, n),
        FilterV::Macro(name) => match lookup(macros, name) {
            Some(g) => n > 0 && holds_within(g, c, macros, (n - 1) as nat),
            None => false,
        },
        FilterV::TagInSet { tag, in_set } => is_one_of(
            value_at(c.tags, tag),
            value_set(c.value_sets, in_set),
        ),
        FilterV::TagIn { tag, within, sanitize } => is_one_of(
            read_as(value_at(c.tags, tag), sanitize, c),
            within,
        ),
        FilterV::TagContains { tag, contains } => c.tags.dom().contains(tag) && occurs_in(
            c.tags[tag],
            contains,
        ),
        FilterV::TagStartsWith { tag, starts_with } => c.tags.dom().contains(tag)
            && starts_with.is_prefix_of(c.tags[tag]),
        FilterV::TagEndsWith { tag, ends_with } => c.tags.dom().contains(tag)
            && ends_with.is_suffix_of(c.tags[tag]),
        FilterV::TagExists { tag, exists } => c.tags.dom().contains(tag) == exists,
        FilterV::TagEq { tag, eq, sanitize } => read_as(value_at(c.tags, tag), sanitize, c) == Some(
            eq,
        ),
        FilterV::FirstTagInSet { first_tag, in_set, sanitize } => is_one_of(
            read_as(first_set(c.tags, first_tag), sanitize, c),
            value_set(c.value_sets, in_set),
        ),
        FilterV::FirstTagIn { first_tag, within, sanitize } => is_one_of(
            read_as(first_set(c.tags, first_tag), sanitize, c),
            within,
        ),
        FilterV::FirstTagExists { first_tag, exists } => (first_set(c.tags, first_tag) is Some)
            == exists,
        FilterV::ParentTagIn { parent_tag, within, sanitize } => is_one_of(
            read_as(parent_at(c, parent_tag), sanitize, c),
            within,
        ),
        FilterV::ParentTagContains { parent_tag, contains } => parent_at(c, parent_tag) is Some
            && occurs_in(parent_at(c, parent_tag)->0, contains),
        FilterV::ParentTagStartsWith { parent_tag, starts_with } => parent_at(
            c,
            parent_tag,
        ) is Some && starts_with.is_prefix_of(parent_at(c, parent_tag)->0),
        FilterV::ParentTagEndsWith { parent_tag, ends_with } => parent_at(c, parent_tag) is Some
            && ends_with.is_suffix_of(parent_at(c, parent_tag)->0),
        FilterV::ParentTagEq { parent_tag, eq, sanitize } => read_as(
            parent_at(c, parent_tag),
            sanitize,
            c,
        ) == Some(eq),
        FilterV::Side { side } => c.side.spec_name() == side,
        FilterV::Prefix { prefix } => c.prefix == Some(prefix),
        FilterV::Infix { infix } => c.infix == Some(infix),
        FilterV::HasKeyPrefix { has_key_prefix } => some_key_starts_with(c.tags, has_key_prefix),
        FilterV::HasParent { has_parent } => (c.parent_highway is Some) == has_parent,
        FilterV::NumLt { num, sanitize, lt } => number_at(c, num, sanitize) is Some && num_lt(
            number_at(c, num, sanitize)->0,
            lt,
        ),
        FilterV::NumLte { num, sanitize, lte } => number_at(c, num, sanitize) is Some && num_le(
            number_at(c, num, sanitize)->0,
            lte,
        ),
        FilterV::NumGt { num, sanitize, gt } => number_at(c, num, sanitize) is Some && num_lt(
            gt,
            number_at(c, num, sanitize)->0,
        ),
        FilterV::NumGte { num, sanitize, gte } => number_at(c, num, sanitize) is Some && num_le(
            gte,
            number_at(c, num, sanitize)->0,
        ),
    }
}

/// Whether every condition of a list holds.
pub open spec fn all_hold(
    fs: Seq<FilterV>,
    c: CategoryCtxV,
    macros: Seq<(Seq<char>, FilterV)>,
    n: nat,
) -> bool
    decreases n, fs,
{
    forall|i: int| 0 <= i < fs.len() ==> holds_within(#[trigger] fs[i], c, macros, n)
}

/// Whether some condition of a list holds.
pub open spec fn any_holds(
    fs: Seq<FilterV>,
    c: CategoryCtxV,
    macros: Seq<(Seq<char>, FilterV)>,
    n: nat,
) -> bool
    decreases n, fs,
{
    exists|i: int| 0 <= i < fs.len() && holds_within(#[trigger] fs[i], c, macros, n)
}

/// How deep the macros of a condition are followed.
pub open spec fn depth_of(f: FilterV, macros: Seq<(Seq<char>, FilterV)>) -> nat {
    choose|n: nat| #[trigger] expands(f, macros, n)
}

/// Whether the condition holds of an object.
pub open spec fn holds(f: FilterV, c: CategoryCtxV, macros: Seq<(Seq<char>, FilterV)>) -> bool {
    holds_within(f, c, macros, depth_of(f, macros))
}

/// How deep macros are followed makes no difference, as long as it is deep enough.
pub proof fn depth_does_not_matter(
    f: FilterV,
    c: CategoryCtxV,
    macros: Seq<(Seq<char>, FilterV)>,
    n: nat,
    m: nat,
)
    requires
        expands(f, macros, n),
        expands(f, macros, m),
    ensures
        holds_within(f, c, macros, n) == holds_within(f, c, macros, m),
    decreases n, f,
{
    match f {
        FilterV::And(fs) => {
            lemma_list_depth(fs, c, macros, n, m);
        },
        FilterV::Or(fs) => {
            lemma_list_depth(fs, c, macros, n, m);
        },
        FilterV::Not(g) => {
            depth_does_not_matter(*g, c, macros, n, m);
        },
        FilterV::Macro(name) => {
            if lookup(macros, name) is Some {
                depth_does_not_matter(
                    lookup(macros, name)->0,
                    c,
                    macros,
                    (n - 1) as nat,
                    (m - 1) as nat,
                );
            }
        },
        _ => {},
    }
}

proof fn lemma_list_depth(
    fs: Seq<FilterV>,
    c: CategoryCtxV,
    macros: Seq<(Seq<char>, FilterV)>,
    n: nat,
    m: nat,
)
    requires
        all_expand(fs, macros, n),
        all_expand(fs, macros, m),
    ensures
        all_hold(fs, c, macros, n) == all_hold(fs, c, macros, m),
        any_holds(fs, c, macros, n) == any_holds(fs, c, macros, m),
    decreases n, fs,
{
    assert forall|i: int| 0 <= i < fs.len() implies holds_within(#[trigger] fs[i], c, macros, n)
        == holds_within(fs[i], c, macros, m) by {
        depth_does_not_matter(fs[i], c, macros, n, m);
    }
    if any_holds(fs, c, macros, n) {
        let i = choose|i: int| 0 <= i < fs.len() && holds_within(#[trigger] fs[i], c, macros, n);
        assert(holds_within(fs[i], c, macros, m));
    }
    if any_holds(fs, c, macros, m) {
        let i = choose|i: int| 0 <= i < fs.len() && holds_within(#[trigger] fs[i], c, macros, m);
        assert(holds_within(fs[i], c, macros, n));
    }
}

fn read_str(raw: Option<&str>, sanitize: &Option<String>, ctx: &CategoryContext) -> (r: Option<
    String,
>)
    ensures
        r.model() == read_as(opt_text(raw), sanitize.model(), ctx@),
{
    match raw {
        None => None,
        Some(text) => match sanitize {
            None => Some(text.to_owned()),
            Some(name) => match ctx.sanitizers.apply(name.as_str(), text, ctx.readings) {
                Some(v) => match v {
                    Value::String(s) => Some(s),
                    _ => None,
                },
                None => None,
            },
        },
    }
}

fn read_num(ctx: &CategoryContext, key: &str, sanitize: &Option<String>) -> (r: Option<u64>)
    ensures
        r == number_at(ctx@, key@, sanitize.model()),
{
    match get(ctx.tags, key) {
        None => None,
        Some(text) => match sanitize {
            None => ctx.readings.number(text),
            Some(name) => match ctx.sanitizers.apply(name.as_str(), text, ctx.readings) {
                Some(v) => match v {
                    Value::Number(n) => Some(n.bits()),
                    Value::String(s) => ctx.readings.number(s.as_str()),
                    _ => None,
                },
                None => None,
            },
        },
    }
}

fn is_in(v: &Option<String>, list: &Vec<String>) -> (r: bool)
    ensures
        r == is_one_of(v.model(), models(list@)),
{
    match v {
        Some(s) => contains_str(list, s.as_str()),
        None => false,
    }
}

fn is_in_set(v: &Option<String>, name: &str, sets: &ValueSets) -> (r: bool)
    ensures
        r == is_one_of(v.model(), value_set(sets@, name@)),
{
    match v {
        Some(s) => sets.has(name, s.as_str()),
        None => false,
    }
}

fn is_text(v: &Option<String>, text: &str) -> (r: bool)
    ensures
        r == (v.model() == Some(text@)),
{
    match v {
        Some(s) => str_eq(s.as_str(), text),
        None => false,
    }
}

fn is_str(v: Option<&str>, text: &str) -> (r: bool)
    ensures
        r == (opt_text(v) == Some(text@)),
{
    match v {
        Some(s) => str_eq(s, text),
        None => false,
    }
}

fn parent_value<'a>(ctx: &CategoryContext<'a>, key: &str) -> (r: Option<&'a str>)
    ensures
        opt_text(r) == parent_at(ctx@, key@),
{
    match ctx.parent_tags {
        Some(tags) => get(tags, key),
        None => None,
    }
}

fn own_value<'a>(ctx: &CategoryContext<'a>, key: &str) -> (r: Option<&'a str>)
    ensures
        opt_text(r) == value_at(ctx@.tags, key@),
{
    get(ctx.tags, key)
}

fn eval_within(
    f: &Filter,
    ctx: &CategoryContext,
    macros: &Vec<(String, Filter)>,
    Ghost(n): Ghost<nat>,
) -> (r: bool)
    requires
        expands(f@, macros_view(macros@), n),
    ensures
        r == holds_within(f@, ctx@, macros_view(macros@), n),
    decreases n, f,
{
    match f {
        Filter::Bool(b) => *b,
        Filter::And { and } => eval_all(and, ctx, macros, Ghost(n)),
        Filter::Or { or } => eval_any(or, ctx, macros, Ghost(n)),
        Filter::Not { not } => !eval_within(not, ctx, macros, Ghost(n)),
        Filter::Macro { name } => match find_macro(macros, name.as_str()) {
            Some(g) => eval_within(g, ctx, macros, Ghost((n - 1) as nat)),
            None => false,
        },
        Filter::TagInSet { tag, in_set } => match own_value(ctx, tag.as_str()) {
            Some(v) => ctx.value_sets.has(in_set.as_str(), v),
            None => false,
        },
        Filter::TagIn { tag, within, sanitize } => is_in(
            &read_str(own_value(ctx, tag.as_str()), sanitize, ctx),
            within,
        ),
        Filter::TagContains { tag, contains: text } => match own_value(ctx, tag.as_str()) {
            Some(v) => contains(v, text.as_str()),
            None => false,
        },
        Filter::TagStartsWith { tag, starts_with: text } => match own_value(ctx, tag.as_str()) {
            Some(v) => starts_with(v, text.as_str()),
            None => false,
        },
        Filter::TagEndsWith { tag, ends_with: text } => match own_value(ctx, tag.as_str()) {
            Some(v) => ends_with(v, text.as_str()),
            None => false,
        },
        Filter::TagExists { tag, exists } => own_value(ctx, tag.as_str()).is_some() == *exists,
        Filter::TagEq { tag, eq, sanitize } => is_text(
            &read_str(own_value(ctx, tag.as_str()), sanitize, ctx),
            eq.as_str(),
        ),
        Filter::FirstTagInSet { first_tag, in_set, sanitize } => is_in_set(
            &read_str(first_present(ctx.tags, first_tag), sanitize, ctx),
            in_set.as_str(),
            ctx.value_sets,
        ),
        Filter::FirstTagIn { first_tag, within, sanitize } => is_in(
            &read_str(first_present(ctx.tags, first_tag), sanitize, ctx),
            within,
        ),
        Filter::FirstTagExists { first_tag, exists } => first_present(
            ctx.tags,
            first_tag,
        ).is_some() == *exists,
        Filter::ParentTagIn { parent_tag, within, sanitize } => is_in(
            &read_str(parent_value(ctx, parent_tag.as_str()), sanitize, ctx),
            within,
        ),
        Filter::ParentTagContains { parent_tag, contains: text } => match parent_value(
            ctx,
            parent_tag.as_str(),
        ) {
            Some(v) => contains(v, text.as_str()),
            None => false,
        },
        Filter::ParentTagStartsWith { parent_tag, starts_with: text } => match parent_value(
            ctx,
            parent_tag.as_str(),
        ) {
            Some(v) => starts_with(v, text.as_str()),
            None => false,
        },
        Filter::ParentTagEndsWith { parent_tag, ends_with: text } => match parent_value(
            ctx,
            parent_tag.as_str(),
        ) {
            Some(v) => ends_with(v, text.as_str()),
            None => false,
        },
        Filter::ParentTagEq { parent_tag, eq, sanitize } => is_text(
            &read_str(parent_value(ctx, parent_tag.as_str()), sanitize, ctx),
            eq.as_str(),
        ),
        Filter::Side { side } => str_eq(ctx.side.name(), side.as_str()),
        Filter::Prefix { prefix } => is_str(ctx.prefix, prefix.as_str()),
        Filter::Infix { infix } => is_str(ctx.infix, infix.as_str()),
        Filter::HasKeyPrefix { has_key_prefix: text } => has_key_prefix(ctx.tags, text.as_str()),
        Filter::HasParent { has_parent } => ctx.parent_highway.is_some() == *has_parent,
        Filter::NumLt { num, sanitize, lt: bound } => match read_num(ctx, num.as_str(), sanitize) {
            Some(n) => lt(n, *bound),
            None => false,
        },
        Filter::NumLte { num, sanitize, lte } => match read_num(ctx, num.as_str(), sanitize) {
            Some(n) => le(n, *lte),
            None => false,
        },
        Filter::NumGt { num, sanitize, gt } => match read_num(ctx, num.as_str(), sanitize) {
            Some(n) => lt(*gt, n),
            None => false,
        },
        Filter::NumGte { num, sanitize, gte } => match read_num(ctx, num.as_str(), sanitize) {
            Some(n) => le(*gte, n),
            None => false,
        },
    }
}

fn eval_all(
    v: &Vec<Filter>,
    ctx: &CategoryContext,
    macros: &Vec<(String, Filter)>,
    Ghost(n): Ghost<nat>,
) -> (r: bool)
    requires
        all_expand(filters(v@), macros_view(macros@), n),
    ensures
        r == all_hold(filters(v@), ctx@, macros_view(macros@), n),
    decreases n, v,
{
    broadcast use group_filters;

    let ghost fv = filters(v@);
    let ghost mv = macros_view(macros@);
    let mut i: usize = 0;
    while i < v.len()
        invariant
            0 <= i <= v@.len(),
            fv == filters(v@),
            mv == macros_view(macros@),
            all_expand(fv, mv, n),
            forall|j: int| 0 <= j < i ==> holds_within(#[trigger] fv[j], ctx@, mv, n),
        decreases v.len() - i,
    {
        proof {
            assert(decreases_to!(v@ => v@[i as int]));
            assert(fv[i as int] == v@[i as int]@);
            assert(expands(fv[i as int], mv, n));
        }
        if !eval_within(&v[i], ctx, macros, Ghost(n)) {
            return false;
        }
        i = i + 1;
    }
    proof {
        assert(all_hold(fv, ctx@, mv, n));
    }
    true
}

fn eval_any(
    v: &Vec<Filter>,
    ctx: &CategoryContext,
    macros: &Vec<(String, Filter)>,
    Ghost(n): Ghost<nat>,
) -> (r: bool)
    requires
        all_expand(filters(v@), macros_view(macros@), n),
    ensures
        r == any_holds(filters(v@), ctx@, macros_view(macros@), n),
    decreases n, v,
{
    broadcast use group_filters;

    let ghost fv = filters(v@);
    let ghost mv = macros_view(macros@);
    let mut i: usize = 0;
    while i < v.len()
        invariant
            0 <= i <= v@.len(),
            fv == filters(v@),
            mv == macros_view(macros@),
            all_expand(fv, mv, n),
            forall|j: int| 0 <= j < i ==> !holds_within(#[trigger] fv[j], ctx@, mv, n),
        decreases v.len() - i,
    {
        proof {
            assert(decreases_to!(v@ => v@[i as int]));
            assert(fv[i as int] == v@[i as int]@);
            assert(expands(fv[i as int], mv, n));
        }
        if eval_within(&v[i], ctx, macros, Ghost(n)) {
            proof {
                assert(any_holds(fv, ctx@, mv, n));
            }
            return true;
        }
        i = i + 1;
    }
    proof {
        assert(!any_holds(fv, ctx@, mv, n));
    }
    false
}

/// Whether the condition holds of an object.
pub fn eval(filter: &Filter, ctx: &CategoryContext, macros: &Vec<(String, Filter)>) -> (r: bool)
    requires
        is_finite(filter@, macros_view(macros@)),
    ensures
        r == holds(filter@, ctx@, macros_view(macros@)),
{
    eval_within(filter, ctx, macros, Ghost(depth_of(filter@, macros_view(macros@))))
}

/// An object that was not split, as far as its tags go.
pub open spec fn neutral(
    tags: Map<Seq<char>, Seq<char>>,
    sanitizers: Seq<(Seq<char>, DefV)>,
    value_sets: Seq<(Seq<char>, Seq<Seq<char>>)>,
    readings: ReadingsV,
) -> CategoryCtxV {
    CategoryCtxV {
        tags,
        side: Side::Self_,
        prefix: None,
        parent_highway: None,
        parent_tags: None,
        infix: None,
        sanitizers,
        value_sets,
        readings,
    }
}

/// Whether the condition holds of an object that was not split.
pub fn eval_filter(
    filter: &Filter,
    tags: &RawTags,
    macros: &Vec<(String, Filter)>,
    sanitizers: &SanitizerRegistry,
    value_sets: &ValueSets,
    readings: &Readings,
) -> (r: bool)
    requires
        is_finite(filter@, macros_view(macros@)),
    ensures
        r == holds(
            filter@,
            neutral(tag_map(*tags), sanitizers@, value_sets@, readings@),
            macros_view(macros@),
        ),
{
    let ctx = CategoryContext {
        tags,
        side: Side::Self_,
        prefix: None,
        parent_highway: None,
        parent_tags: None,
        infix: None,
        sanitizers,
        value_sets,
        readings,
    };
    eval(filter, &ctx, macros)
}

} // verus!
