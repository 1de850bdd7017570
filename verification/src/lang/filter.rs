//! Boolean filters over an object, and their evaluation.
use vstd::prelude::*;

use crate::lang::context::{side_of, value_set, CtxV, ExtractCtx, ValueSets};
use crate::lang::extract::{text_read, value_read, Extract, ExtractV};
use crate::model::{copy_all, models, Model};
use crate::number::{in_bounds, within, Bound, Readings, ReadingsV};
use crate::tags::{has_key_prefix, is_empty, some_key_starts_with, tag_map, untagged, RawTags};
use crate::text::{
    concat2, concat3, contains, contains_str, ends_with, join, joined, lowercase, occurs_in, quote,
    quoted, starts_with, str_eq, to_lowercase,
};
use crate::value::{Fields, Value, ValueV};

verus! {

/// A filter. Every tag predicate reads one text of the object; an absent or dropped text makes it
/// false, except for `Exists`, which asks for exactly that.
#[derive(Debug)]
pub enum Filter {
    /// True or false, whatever the object.
    Bool(bool),
    And { and: Vec<Filter> },
    Or { or: Vec<Filter> },
    Not { not: Box<Filter> },
    /// The text is in the named value set.
    InSet { extract: Extract, in_set: String },
    /// The text is in the list.
    In { extract: Extract, within: Vec<String> },
    /// The text, or its lower-case form, contains another.
    Contains { extract: Extract, contains: String, case_insensitive: bool },
    StartsWith { extract: Extract, starts_with: String },
    EndsWith { extract: Extract, ends_with: String },
    Exists { extract: Extract, exists: bool },
    Eq { extract: Extract, eq: String },
    /// The inner filter holds of the parent way's tags; false without a parent.
    Parent { parent: Box<Filter> },
    /// The engine has noted `eq` under `key`.
    AnnotationEq { key: String, eq: String },
    /// Some key of the object starts with the text.
    HasKeyPrefix { has_key_prefix: String },
    /// The object was split from a parent way, or was not.
    HasParent { has_parent: bool },
    /// The object has no tags, or has some.
    TagsEmpty { tags_empty: bool },
    /// The number that is read lies in an interval.
    NumRange { extract: Extract, min: Bound, max: Bound },
}

/// What a filter says.
pub enum FilterV {
    Bool(bool),
    And(Seq<FilterV>),
    Or(Seq<FilterV>),
    Not(Box<FilterV>),
    InSet(ExtractV, Seq<char>),
    In(ExtractV, Seq<Seq<char>>),
    Contains(ExtractV, Seq<char>, bool),
    StartsWith(ExtractV, Seq<char>),
    EndsWith(ExtractV, Seq<char>),
    Exists(ExtractV, bool),
    Eq(ExtractV, Seq<char>),
    Parent(Box<FilterV>),
    AnnotationEq(Seq<char>, Seq<char>),
    HasKeyPrefix(Seq<char>),
    HasParent(bool),
    TagsEmpty(bool),
    NumRange(ExtractV, Bound, Bound),
}

impl Filter {
    pub open spec fn view(&self) -> FilterV
        decreases self,
    {
        match self {
            Filter::Bool(b) => FilterV::Bool(*b),
            Filter::And { and } => FilterV::And(filters(and@)),
            Filter::Or { or } => FilterV::Or(filters(or@)),
            Filter::Not { not } => FilterV::Not(Box::new((**not).view())),
            Filter::InSet { extract, in_set } => FilterV::InSet(extract@, in_set@),
            Filter::In { extract, within } => FilterV::In(extract@, models(within@)),
            Filter::Contains { extract, contains, case_insensitive } => FilterV::Contains(
                extract@,
                contains@,
                *case_insensitive,
            ),
            Filter::StartsWith { extract, starts_with } => FilterV::StartsWith(
                extract@,
                starts_with@,
            ),
            Filter::EndsWith { extract, ends_with } => FilterV::EndsWith(extract@, ends_with@),
            Filter::Exists { extract, exists } => FilterV::Exists(extract@, *exists),
            Filter::Eq { extract, eq } => FilterV::Eq(extract@, eq@),
            Filter::Parent { parent } => FilterV::Parent(Box::new((**parent).view())),
            Filter::AnnotationEq { key, eq } => FilterV::AnnotationEq(key@, eq@),
            Filter::HasKeyPrefix { has_key_prefix } => FilterV::HasKeyPrefix(has_key_prefix@),
            Filter::HasParent { has_parent } => FilterV::HasParent(*has_parent),
            Filter::TagsEmpty { tags_empty } => FilterV::TagsEmpty(*tags_empty),
            Filter::NumRange { extract, min, max } => FilterV::NumRange(extract@, *min, *max),
        }
    }
}

pub open spec fn filters(v: Seq<Filter>) -> Seq<FilterV>
    decreases v,
{
    Seq::new(
        v.len(),
        |i: int|
            if 0 <= i < v.len() {
                v[i].view()
            } else {
                arbitrary()
            },
    )
}

pub broadcast proof fn filters_len(v: Seq<Filter>)
    ensures
        #[trigger] filters(v).len() == v.len(),
{
}

pub broadcast proof fn filters_index(v: Seq<Filter>, i: int)
    requires
        0 <= i < v.len(),
    ensures
        #[trigger] filters(v)[i] == v[i].view(),
{
}

pub broadcast group group_filters {
    filters_len,
    filters_index,
}

/// A copy of a filter.
pub fn clone_filter(f: &Filter) -> (r: Filter)
    ensures
        r@ == f@,
    decreases f,
{
    match f {
        Filter::Bool(b) => Filter::Bool(*b),
        Filter::And { and } => Filter::And { and: clone_filters(and) },
        Filter::Or { or } => Filter::Or { or: clone_filters(or) },
        Filter::Not { not } => Filter::Not { not: Box::new(clone_filter(not)) },
        Filter::InSet { extract, in_set } => Filter::InSet {
            extract: extract.copy(),
            in_set: in_set.clone(),
        },
        Filter::In { extract, within } => Filter::In {
            extract: extract.copy(),
            within: copy_all(within),
        },
        Filter::Contains { extract, contains, case_insensitive } => Filter::Contains {
            extract: extract.copy(),
            contains: contains.clone(),
            case_insensitive: *case_insensitive,
        },
        Filter::StartsWith { extract, starts_with } => Filter::StartsWith {
            extract: extract.copy(),
            starts_with: starts_with.clone(),
        },
        Filter::EndsWith { extract, ends_with } => Filter::EndsWith {
            extract: extract.copy(),
            ends_with: ends_with.clone(),
        },
        Filter::Exists { extract, exists } => Filter::Exists {
            extract: extract.copy(),
            exists: *exists,
        },
        Filter::Eq { extract, eq } => Filter::Eq { extract: extract.copy(), eq: eq.clone() },
        Filter::Parent { parent } => Filter::Parent { parent: Box::new(clone_filter(parent)) },
        Filter::AnnotationEq { key, eq } => Filter::AnnotationEq {
            key: key.clone(),
            eq: eq.clone(),
        },
        Filter::HasKeyPrefix { has_key_prefix } => Filter::HasKeyPrefix {
            has_key_prefix: has_key_prefix.clone(),
        },
        Filter::HasParent { has_parent } => Filter::HasParent { has_parent: *has_parent },
        Filter::TagsEmpty { tags_empty } => Filter::TagsEmpty { tags_empty: *tags_empty },
        Filter::NumRange { extract, min, max } => Filter::NumRange {
            extract: extract.copy(),
            min: *min,
            max: *max,
        },
    }
}

/// A copy of a list of filters.
pub fn clone_filters(v: &Vec<Filter>) -> (r: Vec<Filter>)
    ensures
        filters(r@) == filters(v@),
    decreases v,
{
    broadcast use group_filters;

    let mut out: Vec<Filter> = Vec::new();
    for i in 0..v.len()
        invariant
            out@.len() == i,
            forall|j: int| 0 <= j < i ==> (#[trigger] out@[j])@ == v@[j]@,
    {
        let c = clone_filter(&v[i]);
        out.push(c);
    }
    proof {
        assert(filters(out@) =~= filters(v@));
    }
    out
}

// ── Evaluation ──────────────────────────────────────────────────────────────────────────────

/// The number that a JSON value is or spells.
pub open spec fn number_of(v: ValueV, readings: ReadingsV) -> Option<u64> {
    match v {
        ValueV::Number(n) => Some(n.spec_bits()),
        ValueV::String(s) => readings.number(s),
        _ => None,
    }
}

/// The number that a read gives.
pub open spec fn number_read(
    e: ExtractV,
    m: Map<Seq<char>, Seq<char>>,
    readings: ReadingsV,
) -> Option<u64> {
    match value_read(e, m, readings) {
        Some(v) => number_of(v, readings),
        None => None,
    }
}

/// Whether a filter holds of an object.
pub open spec fn holds(f: FilterV, c: CtxV) -> bool
    decreases f,
{
    match f {
        FilterV::Bool(b) => b,
        FilterV::And(fs) => all_hold(fs, c),
        FilterV::Or(fs) => any_holds(fs, c),
        FilterV::Not(g) => !holds(*g, c),
        FilterV::InSet(e, name) => match text_read(e, c.obj, c.readings) {
            Some(v) => value_set(c.value_sets, name).contains(v),
            None => false,
        },
        FilterV::In(e, list) => match text_read(e, c.obj, c.readings) {
            Some(v) => list.contains(v),
            None => false,
        },
        FilterV::Contains(e, p, ci) => match text_read(e, c.obj, c.readings) {
            Some(v) => occurs_in(
                if ci {
                    lowercase(v)
                } else {
                    v
                },
                p,
            ),
            None => false,
        },
        FilterV::StartsWith(e, p) => match text_read(e, c.obj, c.readings) {
            Some(v) => p.is_prefix_of(v),
            None => false,
        },
        FilterV::EndsWith(e, p) => match text_read(e, c.obj, c.readings) {
            Some(v) => p.is_suffix_of(v),
            None => false,
        },
        FilterV::Exists(e, wanted) => (text_read(e, c.obj, c.readings) is Some) == wanted,
        FilterV::Eq(e, w) => text_read(e, c.obj, c.readings) == Some(w),
        FilterV::Parent(g) => match c.parent {
            Some(p) => holds(*g, c.with_obj(p)),
            None => false,
        },
        FilterV::AnnotationEq(key, eq) => if key == "_side"@ {
            c.side() == eq
        } else {
            c.annotation(key) == Some(eq)
        },
        FilterV::HasKeyPrefix(p) => some_key_starts_with(c.obj, p),
        FilterV::HasParent(wanted) => (c.parent is Some) == wanted,
        FilterV::TagsEmpty(wanted) => (c.obj == untagged()) == wanted,
        FilterV::NumRange(e, min, max) => match number_read(e, c.obj, c.readings) {
            Some(n) => within(min, max, n),
            None => false,
        },
    }
}

/// Whether every filter of a list holds of an object.
pub open spec fn all_hold(fs: Seq<FilterV>, c: CtxV) -> bool
    decreases fs,
{
    forall|i: int| 0 <= i < fs.len() ==> holds(#[trigger] fs[i], c)
}

/// Whether some filter of a list holds of an object.
pub open spec fn any_holds(fs: Seq<FilterV>, c: CtxV) -> bool
    decreases fs,
{
    exists|i: int| 0 <= i < fs.len() && holds(#[trigger] fs[i], c)
}

/// A comparison of a tag that is not set, or that spells no number, does not hold.
pub proof fn no_number_is_in_no_range(e: ExtractV, min: Bound, max: Bound, c: CtxV)
    requires
        number_read(e, c.obj, c.readings) is None,
    ensures
        !holds(FilterV::NumRange(e, min, max), c),
{
}

/// A condition on the parent does not hold of an object that has none, nor does its negation
/// inside.
pub proof fn no_parent_meets_no_condition(f: FilterV, c: CtxV)
    requires
        c.parent is None,
    ensures
        !holds(FilterV::Parent(Box::new(f)), c),
        !holds(FilterV::Parent(Box::new(FilterV::Not(Box::new(f)))), c),
{
}

fn num_from_value(v: &Value, readings: &Readings) -> (r: Option<u64>)
    ensures
        r == number_of(v@, readings@),
{
    match v {
        Value::Number(n) => Some(n.bits()),
        Value::String(s) => readings.number(s.as_str()),
        _ => None,
    }
}

/// The number that a read gives: the chain's own number, or the one that its text spells.
pub fn read_num(extract: &Extract, ctx: &ExtractCtx) -> (r: Option<u64>)
    ensures
        r == number_read(extract@, ctx@.obj, ctx@.readings),
{
    match extract.read(ctx) {
        Some(v) => num_from_value(&v, ctx.readings),
        None => None,
    }
}

/// Whether `filter` holds of the object in `ctx`.
pub fn eval(filter: &Filter, ctx: &ExtractCtx) -> (r: bool)
    ensures
        r == holds(filter@, ctx@),
    decreases filter,
{
    match filter {
        Filter::Bool(b) => *b,
        Filter::And { and } => eval_all(and, ctx),
        Filter::Or { or } => eval_any(or, ctx),
        Filter::Not { not } => !eval(not, ctx),
        Filter::Eq { extract, eq } => match extract.read_str(ctx) {
            Some(v) => str_eq(v.as_str(), eq.as_str()),
            None => false,
        },
        Filter::InSet { extract, in_set } => match extract.read_str(ctx) {
            Some(v) => ctx.value_sets.has(in_set.as_str(), v.as_str()),
            None => false,
        },
        Filter::In { extract, within } => match extract.read_str(ctx) {
            Some(v) => contains_str(within, v.as_str()),
            None => false,
        },
        Filter::Contains { extract, contains: p, case_insensitive } => match extract.read_str(ctx) {
            Some(v) => if *case_insensitive {
                contains(to_lowercase(v.as_str()).as_str(), p.as_str())
            } else {
                contains(v.as_str(), p.as_str())
            },
            None => false,
        },
        Filter::StartsWith { extract, starts_with: p } => match extract.read_str(ctx) {
            Some(v) => starts_with(v.as_str(), p.as_str()),
            None => false,
        },
        Filter::EndsWith { extract, ends_with: p } => match extract.read_str(ctx) {
            Some(v) => ends_with(v.as_str(), p.as_str()),
            None => false,
        },
        Filter::Exists { extract, exists } => extract.read_str(ctx).is_some() == *exists,
        Filter::Parent { parent } => match ctx.parent_tags {
            None => false,
            Some(tags) => eval(parent, &ctx.with_obj_tags(tags)),
        },
        Filter::AnnotationEq { key, eq } => if str_eq(key.as_str(), "_side") {
            str_eq(side_of(ctx), eq.as_str())
        } else {
            match ctx.annotation(key.as_str()) {
                Some(v) => str_eq(v, eq.as_str()),
                None => false,
            }
        },
        Filter::HasKeyPrefix { has_key_prefix: p } => has_key_prefix(ctx.obj_tags, p.as_str()),
        Filter::HasParent { has_parent } => ctx.parent_tags.is_some() == *has_parent,
        Filter::TagsEmpty { tags_empty } => is_empty(ctx.obj_tags) == *tags_empty,
        Filter::NumRange { extract, min, max } => match read_num(extract, ctx) {
            Some(n) => in_bounds(*min, *max, n),
            None => false,
        },
    }
}

fn eval_all(v: &Vec<Filter>, ctx: &ExtractCtx) -> (r: bool)
    ensures
        r == all_hold(filters(v@), ctx@),
    decreases v,
{
    broadcast use group_filters;

    for i in 0..v.len()
        invariant
            forall|j: int| 0 <= j < i ==> holds(#[trigger] filters(v@)[j], ctx@),
    {
        if !eval(&v[i], ctx) {
            proof {
                assert(!holds(filters(v@)[i as int], ctx@));
            }
            return false;
        }
    }
    true
}

fn eval_any(v: &Vec<Filter>, ctx: &ExtractCtx) -> (r: bool)
    ensures
        r == any_holds(filters(v@), ctx@),
    decreases v,
{
    broadcast use group_filters;

    for i in 0..v.len()
        invariant
            forall|j: int| 0 <= j < i ==> !holds(#[trigger] filters(v@)[j], ctx@),
    {
        if eval(&v[i], ctx) {
            proof {
                assert(holds(filters(v@)[i as int], ctx@));
            }
            return true;
        }
    }
    false
}

/// The object that `eval_filter` looks at: an unsplit one of which nothing is noted.
pub open spec fn neutral(
    tags: Map<Seq<char>, Seq<char>>,
    value_sets: Seq<(Seq<char>, Seq<Seq<char>>)>,
    readings: ReadingsV,
) -> CtxV {
    CtxV {
        obj: tags,
        parent: None,
        id: ""@,
        annotations: Map::empty(),
        value_sets,
        readings,
    }
}

/// Whether `filter` holds of an unsplit object with these tags, of which nothing is noted.
pub fn eval_filter(
    filter: &Filter,
    tags: &RawTags,
    value_sets: &ValueSets,
    readings: &Readings,
) -> (r: bool)
    ensures
        r == holds(filter@, neutral(tag_map(*tags), value_sets@, readings@)),
{
    let none = Fields::new();
    let ctx = ExtractCtx {
        obj_tags: tags,
        parent_tags: None,
        id: "",
        annotations: &none,
        value_sets,
        readings,
    };
    eval(filter, &ctx)
}

// ── Rendering ───────────────────────────────────────────────────────────────────────────────

/// How a double is written: plainly, with its fraction always shown, and in JSON.
#[derive(Debug)]
pub struct Spelling {
    pub bits: u64,
    pub plain: String,
    pub exact: String,
    pub json: String,
}

/// The spellings of the double `bits`; empty where the list has none.
pub open spec fn spelled(list: Seq<Spelling>, bits: u64) -> (Seq<char>, Seq<char>, Seq<char>)
    decreases list.len(),
{
    if list.len() == 0 {
        (Seq::empty(), Seq::empty(), Seq::empty())
    } else if list[0].bits == bits {
        (list[0].plain@, list[0].exact@, list[0].json@)
    } else {
        spelled(list.skip(1), bits)
    }
}

/// The spellings of the double `bits`; empty where the list has none.
pub fn spell(list: &Vec<Spelling>, bits: u64) -> (r: (String, String, String))
    ensures
        (r.0@, r.1@, r.2@) == spelled(list@, bits),
{
    let mut i: usize = 0;
    proof {
        assert(list@.skip(0) =~= list@);
    }
    while i < list.len()
        invariant
            0 <= i <= list.len(),
            spelled(list@, bits) == spelled(list@.skip(i as int), bits),
        decreases list.len() - i,
    {
        proof {
            assert(list@.skip(i as int).skip(1) =~= list@.skip(i + 1));
            assert(list@.skip(i as int)[0] == list@[i as int]);
        }
        if list[i].bits == bits {
            return (list[i].plain.clone(), list[i].exact.clone(), list[i].json.clone());
        }
        i = i + 1;
    }
    (String::new(), String::new(), String::new())
}

/// The keys of a read, as they are shown.
pub open spec fn shown_key(e: ExtractV) -> Seq<char> {
    match e {
        ExtractV::Value { key, .. } => key,
        ExtractV::Candidates { keys, .. } => "["@ + joined(keys, "|"@) + "]"@,
    }
}

/// The keys of a read, marked where its chain may change what is compared.
pub open spec fn shown_read(e: ExtractV) -> Seq<char> {
    if e.chain().len() > 0 {
        shown_key(e) + " (sanitized)"@
    } else {
        shown_key(e)
    }
}

/// A bound, as it is shown beside another.
pub open spec fn shown_bound(b: Bound, list: Seq<Spelling>) -> Seq<char> {
    match b {
        Bound::Unbounded => "Unbounded"@,
        Bound::Included(n) => "Included("@ + spelled(list, n).1 + ")"@,
        Bound::Excluded(n) => "Excluded("@ + spelled(list, n).1 + ")"@,
    }
}

/// A numeric comparison, as it is shown.
pub open spec fn shown_range(k: Seq<char>, min: Bound, max: Bound, list: Seq<Spelling>) -> Seq<
    char,
> {
    match (min, max) {
        (Bound::Unbounded, Bound::Unbounded) => k,
        (Bound::Included(a), Bound::Unbounded) => k + " >= "@ + spelled(list, a).0,
        (Bound::Excluded(a), Bound::Unbounded) => k + " > "@ + spelled(list, a).0,
        (Bound::Unbounded, Bound::Included(b)) => k + " <= "@ + spelled(list, b).0,
        (Bound::Unbounded, Bound::Excluded(b)) => k + " < "@ + spelled(list, b).0,
        _ => k + " in "@ + shown_bound(min, list) + ".."@ + shown_bound(max, list),
    }
}

/// A filter, as it is shown to a reader.
pub open spec fn described(f: FilterV, list: Seq<Spelling>) -> Seq<char>
    decreases f,
{
    match f {
        FilterV::Bool(b) => if b {
            "true"@
        } else {
            "false"@
        },
        FilterV::And(fs) => joined(described_all(fs, list), "\nand\n"@),
        FilterV::Or(fs) => "("@ + joined(described_all(fs, list), "\nor\n"@) + ")"@,
        FilterV::Not(g) => "not ("@ + described(*g, list) + ")"@,
        FilterV::InSet(e, name) => shown_read(e) + " in "@ + name,
        FilterV::In(e, vs) => shown_read(e) + " in ["@ + joined(vs, ", "@) + "]"@,
        FilterV::Contains(e, p, ci) => shown_read(e) + " contains "@ + quoted(p) + (if ci {
            " (ci)"@
        } else {
            ""@
        }),
        FilterV::StartsWith(e, p) => shown_read(e) + " starts_with "@ + quoted(p),
        FilterV::EndsWith(e, p) => shown_read(e) + " ends_with "@ + quoted(p),
        FilterV::Exists(e, wanted) => shown_read(e) + (if wanted {
            " exists"@
        } else {
            " !exists"@
        }),
        FilterV::Eq(e, w) => shown_read(e) + " == "@ + quoted(w),
        FilterV::Parent(g) => "parent("@ + described(*g, list) + ")"@,
        FilterV::AnnotationEq(key, eq) => key + " == "@ + quoted(eq),
        FilterV::HasKeyPrefix(p) => "has_key_prefix("@ + quoted(p) + ")"@,
        FilterV::HasParent(wanted) => if wanted {
            "has_parent"@
        } else {
            "!has_parent"@
        },
        FilterV::TagsEmpty(wanted) => if wanted {
            "tags_empty"@
        } else {
            "!tags_empty"@
        },
        FilterV::NumRange(e, min, max) => shown_range(shown_key(e), min, max, list),
    }
}

/// The filters of a list, as they are shown.
pub open spec fn described_all(fs: Seq<FilterV>, list: Seq<Spelling>) -> Seq<Seq<char>>
    decreases fs,
{
    Seq::new(
        fs.len(),
        |i: int|
            if 0 <= i < fs.len() {
                described(fs[i], list)
            } else {
                arbitrary()
            },
    )
}

fn show_key(e: &Extract) -> (r: String)
    ensures
        r@ == shown_key(e@),
{
    match e {
        Extract::Value { key, .. } => key.clone(),
        Extract::Candidates { keys, .. } => concat3("[", join(keys, "|").as_str(), "]"),
    }
}

fn show_read(e: &Extract) -> (r: String)
    ensures
        r@ == shown_read(e@),
{
    let k = show_key(e);
    let chain = e.sanitize();
    proof {
        assert(chain@.len() == e@.chain().len());
    }
    if chain.len() > 0 {
        concat2(k.as_str(), " (sanitized)")
    } else {
        k
    }
}

fn show_bound(b: Bound, list: &Vec<Spelling>) -> (r: String)
    ensures
        r@ == shown_bound(b, list@),
{
    match b {
        Bound::Unbounded => "Unbounded".to_owned(),
        Bound::Included(n) => concat3("Included(", spell(list, n).1.as_str(), ")"),
        Bound::Excluded(n) => concat3("Excluded(", spell(list, n).1.as_str(), ")"),
    }
}

fn show_range(k: &str, min: Bound, max: Bound, list: &Vec<Spelling>) -> (r: String)
    ensures
        r@ == shown_range(k@, min, max, list@),
{
    match (min, max) {
        (Bound::Unbounded, Bound::Unbounded) => k.to_owned(),
        (Bound::Included(a), Bound::Unbounded) => concat3(k, " >= ", spell(list, a).0.as_str()),
        (Bound::Excluded(a), Bound::Unbounded) => concat3(k, " > ", spell(list, a).0.as_str()),
        (Bound::Unbounded, Bound::Included(b)) => concat3(k, " <= ", spell(list, b).0.as_str()),
        (Bound::Unbounded, Bound::Excluded(b)) => concat3(k, " < ", spell(list, b).0.as_str()),
        _ => {
            let mut out = concat3(k, " in ", show_bound(min, list).as_str());
            out.append("..");
            out.append(show_bound(max, list).as_str());
            out
        },
    }
}

fn describe_all(v: &Vec<Filter>, list: &Vec<Spelling>) -> (r: Vec<String>)
    ensures
        models(r@) == described_all(filters(v@), list@),
    decreases v,
{
    broadcast use group_filters;

    let mut out: Vec<String> = Vec::new();
    for i in 0..v.len()
        invariant
            out@.len() == i,
            forall|j: int|
                0 <= j < i ==> (#[trigger] out@[j])@ == described(filters(v@)[j], list@),
    {
        let d = v[i].describe(list);
        out.push(d);
    }
    proof {
        assert(models(out@) =~= described_all(filters(v@), list@));
    }
    out
}

impl Filter {
    /// The filter as it is shown to a reader; `list` says how its numbers are written.
    pub fn describe(&self, list: &Vec<Spelling>) -> (r: String)
        ensures
            r@ == described(self@, list@),
        decreases self,
    {
        match self {
            Filter::Bool(b) => if *b {
                "true".to_owned()
            } else {
                "false".to_owned()
            },
            Filter::And { and } => join(&describe_all(and, list), "\nand\n"),
            Filter::Or { or } => concat3(
                "(",
                join(&describe_all(or, list), "\nor\n").as_str(),
                ")",
            ),
            Filter::Not { not } => concat3("not (", not.describe(list).as_str(), ")"),
            Filter::InSet { extract, in_set } => concat3(
                show_read(extract).as_str(),
                " in ",
                in_set.as_str(),
            ),
            Filter::In { extract, within } => {
                let mut out = concat2(show_read(extract).as_str(), " in [");
                out.append(join(within, ", ").as_str());
                out.append("]");
                out
            },
            Filter::Contains { extract, contains: p, case_insensitive } => {
                let mut out = concat3(
                    show_read(extract).as_str(),
                    " contains ",
                    quote(p.as_str()).as_str(),
                );
                out.append(
                    if *case_insensitive {
                        " (ci)"
                    } else {
                        ""
                    },
                );
                out
            },
            Filter::StartsWith { extract, starts_with: p } => concat3(
                show_read(extract).as_str(),
                " starts_with ",
                quote(p.as_str()).as_str(),
            ),
            Filter::EndsWith { extract, ends_with: p } => concat3(
                show_read(extract).as_str(),
                " ends_with ",
                quote(p.as_str()).as_str(),
            ),
            Filter::Exists { extract, exists } => concat2(
                show_read(extract).as_str(),
                if *exists {
                    " exists"
                } else {
                    " !exists"
                },
            ),
            Filter::Eq { extract, eq } => concat3(
                show_read(extract).as_str(),
                " == ",
                quote(eq.as_str()).as_str(),
            ),
            Filter::Parent { parent } => concat3("parent(", parent.describe(list).as_str(), ")"),
            Filter::AnnotationEq { key, eq } => concat3(
                key.as_str(),
                " == ",
                quote(eq.as_str()).as_str(),
            ),
            Filter::HasKeyPrefix { has_key_prefix: p } => concat3(
                "has_key_prefix(",
                quote(p.as_str()).as_str(),
                ")",
            ),
            Filter::HasParent { has_parent } => if *has_parent {
                "has_parent".to_owned()
            } else {
                "!has_parent".to_owned()
            },
            Filter::TagsEmpty { tags_empty } => if *tags_empty {
                "tags_empty".to_owned()
            } else {
                "!tags_empty".to_owned()
            },
            Filter::NumRange { extract, min, max } => show_range(
                show_key(extract).as_str(),
                *min,
                *max,
                list,
            ),
        }
    }
}

} // verus!
