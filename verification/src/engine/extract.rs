//! Field producers: how an output's value comes from the tags of an object and of its parent way.
use vstd::prelude::*;

use crate::assoc::{lemma_lookup, lookup, position_of};
use crate::categorize::transform::direction;
use crate::classify::classifier::{
    classified, classify_rules, clone_rules, or_default, rules_view, Classifier, ClassifierV, Rule,
    RuleV,
};
use crate::classify::derive::{traffic_mode, traffic_mode_side};
use crate::classify::filter::{neutral, value_at, CategoryCtxV};
use crate::classify::sanitize::{sanitized_by, sided, sided_keys, DefV, SanitizerRegistry};
use crate::lang::context::{parent_map, ValueSets};
use crate::lang::extract::{first_present, first_set};
use crate::lang::sanitize::opt_value;
use crate::model::{models, Model};
use crate::number::{Readings, ReadingsV};
use crate::tags::{get, tag_map, RawTags};
use crate::text::{concat2, str_eq};
use crate::value::{clone_value, opt_text, text_of, Fields, Value, ValueV};

verus! {

/// Which tags a producer reads.
#[derive(Debug, Clone, Copy, PartialEq, Eq, Structural)]
pub enum TagSet {
    /// The object's own.
    Obj,
    /// The parent way's; nothing without a parent.
    Parent,
    /// The parent way's, or without a parent the object's own.
    ParentOrObj,
}

impl Default for TagSet {
    fn default() -> (r: Self)
        ensures
            r == TagSet::Obj,
    {
        TagSet::Obj
    }
}

/// A producer of a field's value.
#[derive(Debug)]
pub enum Producer {
    /// What the first of several gives that gives something.
    Fallback { fallback: Vec<Producer> },
    /// A value that takes more than one tag, by name.
    Derive { derive: String, out_side: Option<String> },
    /// A rule table.
    Classify { rules: Vec<Rule>, default: Option<Value>, from: TagSet, consts: Fields },
    /// A rule table that topics share, by name.
    SharedClassify { shared: String, from: TagSet, consts: Fields },
    /// A tag read: one key, the first of several that is set, a sided key, or a directed one.
    Extract {
        key: Option<String>,
        keys: Option<Vec<String>>,
        from: TagSet,
        side: Option<String>,
        sanitize: Option<String>,
        consts: Fields,
        directed: bool,
    },
}

/// A produced value, and what comes with it under `<output>_<key>`.
#[derive(Debug)]
pub struct Produced {
    pub value: Value,
    pub consts: Fields,
}

/// A producer of a field's value.
pub enum ProducerV {
    Fallback(Seq<ProducerV>),
    Derive { derive: Seq<char>, out_side: Option<Seq<char>> },
    Classify {
        rules: Seq<RuleV>,
        default: Option<ValueV>,
        from: TagSet,
        consts: Map<Seq<char>, ValueV>,
    },
    SharedClassify { shared: Seq<char>, from: TagSet, consts: Map<Seq<char>, ValueV> },
    Extract {
        key: Option<Seq<char>>,
        keys: Option<Seq<Seq<char>>>,
        from: TagSet,
        side: Option<Seq<char>>,
        sanitize: Option<Seq<char>>,
        consts: Map<Seq<char>, ValueV>,
        directed: bool,
    },
}

/// A produced value.
pub struct ProducedV {
    pub value: ValueV,
    pub consts: Map<Seq<char>, ValueV>,
}

impl Produced {
    pub open spec fn view(&self) -> ProducedV {
        ProducedV { value: self.value@, consts: self.consts@ }
    }
}

/// What an optional result holds.
pub open spec fn opt_produced(p: Option<Produced>) -> Option<ProducedV> {
    match p {
        Some(x) => Some(x@),
        None => None,
    }
}

impl Producer {
    pub open spec fn view(&self) -> ProducerV
        decreases self,
    {
        match self {
            Producer::Fallback { fallback } => ProducerV::Fallback(producers(fallback@)),
            Producer::Derive { derive, out_side } => ProducerV::Derive {
                derive: derive@,
                out_side: out_side.model(),
            },
            Producer::Classify { rules, default, from, consts } => ProducerV::Classify {
                rules: rules_view(rules@),
                default: opt_value(*default),
                from: *from,
                consts: consts@,
            },
            Producer::SharedClassify { shared, from, consts } => ProducerV::SharedClassify {
                shared: shared@,
                from: *from,
                consts: consts@,
            },
            Producer::Extract { key, keys, from, side, sanitize, consts, directed } => {
                ProducerV::Extract {
                    key: key.model(),
                    keys: keys.model(),
                    from: *from,
                    side: side.model(),
                    sanitize: sanitize.model(),
                    consts: consts@,
                    directed: *directed,
                }
            },
        }
    }
}

/// The producers of a list.
pub open spec fn producers(v: Seq<Producer>) -> Seq<ProducerV>
    decreases v,
{
    Seq::new(
        v.len(),
        |i: int|
            if 0 <= i < v.len() {
                v[i].view()
            } else {
                arbitrary()
            },
    )
}

pub broadcast proof fn producers_len(v: Seq<Producer>)
    ensures
        #[trigger] producers(v).len() == v.len(),
{
}

pub broadcast proof fn producers_index(v: Seq<Producer>, i: int)
    requires
        0 <= i < v.len(),
    ensures
        #[trigger] producers(v)[i] == v[i].view(),
{
}

pub broadcast group group_producers {
    producers_len,
    producers_index,
}

/// The named producers of a library.
pub open spec fn library_view(v: Seq<(String, Producer)>) -> Seq<(Seq<char>, ProducerV)> {
    v.map_values(|p: (String, Producer)| (p.0@, p.1@))
}

/// The named tables that topics share.
pub open spec fn classifiers_view(v: Seq<(String, Classifier)>) -> Seq<(Seq<char>, ClassifierV)> {
    v.map_values(|p: (String, Classifier)| (p.0@, p.1@))
}

/// What a producer sees.
#[derive(Clone, Copy)]
pub struct ExtractCtx<'a> {
    pub obj_tags: &'a RawTags,
    pub parent_tags: Option<&'a RawTags>,
    /// Where parking tells the traffic mode, for the category of the object.
    pub parking_inference: Option<&'a str>,
    pub obj_side: &'a str,
    pub sanitizers: &'a SanitizerRegistry,
    pub derivers: &'a Vec<(String, Producer)>,
    pub classifiers: &'a Vec<(String, Classifier)>,
    pub value_sets: &'a ValueSets,
    pub readings: &'a Readings,
    pub left_hand_traffic: bool,
}

/// What a producer sees.
pub struct CtxV {
    pub obj: Map<Seq<char>, Seq<char>>,
    pub parent: Option<Map<Seq<char>, Seq<char>>>,
    pub parking_inference: Option<Seq<char>>,
    pub obj_side: Seq<char>,
    pub sanitizers: Seq<(Seq<char>, DefV)>,
    pub derivers: Seq<(Seq<char>, ProducerV)>,
    pub classifiers: Seq<(Seq<char>, ClassifierV)>,
    pub value_sets: Seq<(Seq<char>, Seq<Seq<char>>)>,
    pub readings: ReadingsV,
    pub left_hand_traffic: bool,
}

impl CtxV {
    /// The same with the tags of the parent way for the object's own.
    pub open spec fn at_parent(self, tags: Map<Seq<char>, Seq<char>>) -> CtxV {
        CtxV { obj: tags, ..self }
    }
}

impl<'a> ExtractCtx<'a> {
    pub open spec fn view(&self) -> CtxV {
        CtxV {
            obj: tag_map(*self.obj_tags),
            parent: parent_map(self.parent_tags),
            parking_inference: opt_text(self.parking_inference),
            obj_side: self.obj_side@,
            sanitizers: self.sanitizers@,
            derivers: library_view(self.derivers@),
            classifiers: classifiers_view(self.classifiers@),
            value_sets: self.value_sets@,
            readings: self.readings@,
            left_hand_traffic: self.left_hand_traffic,
        }
    }
}

/// The tags that a producer reads.
pub open spec fn resolved(from: TagSet, c: CtxV) -> Option<Map<Seq<char>, Seq<char>>> {
    match from {
        TagSet::Obj => Some(c.obj),
        TagSet::Parent => c.parent,
        TagSet::ParentOrObj => match c.parent {
            Some(p) => Some(p),
            None => Some(c.obj),
        },
    }
}

impl TagSet {
    /// The tags that a producer reads.
    pub fn resolve<'a>(&self, ctx: &ExtractCtx<'a>) -> (r: Option<&'a RawTags>)
        ensures
            parent_map(r) == resolved(*self, ctx@),
    {
        match self {
            TagSet::Obj => Some(ctx.obj_tags),
            TagSet::Parent => ctx.parent_tags,
            TagSet::ParentOrObj => match ctx.parent_tags {
                Some(p) => Some(p),
                None => Some(ctx.obj_tags),
            },
        }
    }
}

// ── Producers that name what they need ───────────────────────────────────────────────────────────────

/// Whether a producer names what it needs, and the producers it leads to, at most `n` deep, do.
pub open spec fn is_complete(
    p: ProducerV,
    lib: Seq<(Seq<char>, ProducerV)>,
    tables: Seq<(Seq<char>, ClassifierV)>,
    n: nat,
) -> bool
    decreases n, p,
{
    match p {
        ProducerV::Fallback(ps) => all_complete(ps, lib, tables, n),
        ProducerV::Derive { derive, out_side } => {
            &&& derive == "traffic_mode"@ ==> out_side is Some
            &&& derive == "smoothness_parent"@ ==> (match lookup(lib, "smoothness"@) {
                Some(q) => n > 0 && is_complete(q, lib, tables, (n - 1) as nat),
                None => true,
            })
        },
        ProducerV::Classify { .. } => true,
        ProducerV::SharedClassify { shared, .. } => lookup(tables, shared) is Some,
        ProducerV::Extract { key, side, directed, .. } => (directed || side is Some)
            ==> key is Some,
    }
}

/// Whether every producer of a list names what it needs.
pub open spec fn all_complete(
    ps: Seq<ProducerV>,
    lib: Seq<(Seq<char>, ProducerV)>,
    tables: Seq<(Seq<char>, ClassifierV)>,
    n: nat,
) -> bool
    decreases n, ps,
{
    forall|i: int| 0 <= i < ps.len() ==> is_complete(#[trigger] ps[i], lib, tables, n)
}

/// Whether a producer names what it needs, and the producers it leads to, at most `depth` deep, do.
pub fn ready_within(
    p: &Producer,
    lib: &Vec<(String, Producer)>,
    tables: &Vec<(String, Classifier)>,
    depth: usize,
) -> (r: bool)
    ensures
        r == is_complete(p@, library_view(lib@), classifiers_view(tables@), depth as nat),
        r ==> forall|c: CtxV|
            c.derivers == library_view(lib@) && c.classifiers == classifiers_view(tables@)
                ==> #[trigger] can_run(p@, c),
    decreases depth, p,
{
    let r: bool = match p {
        Producer::Fallback { fallback } => all_complete_within(fallback, lib, tables, depth),
        Producer::Derive { derive, out_side } => {
            if str_eq(derive.as_str(), "traffic_mode") && out_side.is_none() {
                false
            } else if str_eq(derive.as_str(), "smoothness_parent") {
                match find_producer(lib, "smoothness") {
                    Some(q) => depth > 0 && ready_within(q, lib, tables, depth - 1),
                    None => true,
                }
            } else {
                true
            }
        },
        Producer::Classify { .. } => true,
        Producer::SharedClassify { shared, .. } => find_classifier(
            tables,
            shared.as_str(),
        ).is_some(),
        Producer::Extract { key, side, directed, .. } => key.is_some() || !(*directed
            || side.is_some()),
    };
    proof {
        if r {
            assert forall|c: CtxV|
                c.derivers == library_view(lib@) && c.classifiers == classifiers_view(
                    tables@,
                ) implies #[trigger] can_run(p@, c) by {
                complete_producers_are_ready(p@, c, depth as nat);
            }
        }
    }
    r
}

fn all_complete_within(
    v: &Vec<Producer>,
    lib: &Vec<(String, Producer)>,
    tables: &Vec<(String, Classifier)>,
    depth: usize,
) -> (r: bool)
    ensures
        r == all_complete(
            producers(v@),
            library_view(lib@),
            classifiers_view(tables@),
            depth as nat,
        ),
    decreases depth, v,
{
    broadcast use group_producers;

    let ghost pv = producers(v@);
    let ghost lv = library_view(lib@);
    let ghost tv = classifiers_view(tables@);
    let mut i: usize = 0;
    while i < v.len()
        invariant
            0 <= i <= v@.len(),
            pv == producers(v@),
            lv == library_view(lib@),
            tv == classifiers_view(tables@),
            forall|j: int| 0 <= j < i ==> is_complete(#[trigger] pv[j], lv, tv, depth as nat),
        decreases v.len() - i,
    {
        proof {
            assert(decreases_to!(v@ => v@[i as int]));
            assert(pv[i as int] == v@[i as int]@);
        }
        if !ready_within(&v[i], lib, tables, depth) {
            return false;
        }
        i = i + 1;
    }
    proof {
        assert(all_complete(pv, lv, tv, depth as nat));
    }
    true
}

// ── What a producer gives ───────────────────────────────────────────────────────────────────

/// A text behind the sanitizer that is named, where one is.
pub open spec fn cleaned(raw: Seq<char>, sanitize: Option<Seq<char>>, c: CtxV) -> Option<ValueV> {
    match sanitize {
        Some(name) => sanitized_by(c.sanitizers, name, raw, c.readings),
        None => Some(ValueV::String(raw)),
    }
}

/// The keys of a read, in the order they are tried.
pub open spec fn read_keys(
    key: Option<Seq<char>>,
    keys: Option<Seq<Seq<char>>>,
    side: Option<Seq<char>>,
) -> Seq<Seq<char>> {
    match side {
        Some(s) => sided(key->0, s, true),
        None => match key {
            Some(k) => seq![k],
            None => match keys {
                Some(ks) => ks,
                None => Seq::empty(),
            },
        },
    }
}

/// What a directed read finds: nothing where the key is set already or the object has no side.
pub open spec fn directed_raw(key: Seq<char>, from: TagSet, c: CtxV) -> Option<Seq<char>> {
    if c.obj.dom().contains(key) {
        None
    } else {
        match direction(c.obj_side, c.left_hand_traffic) {
            None => None,
            Some(suffix) => match from {
                TagSet::Parent => match c.parent {
                    Some(p) => first_set(p, seq![key, key + suffix]),
                    None => None,
                },
                _ => first_set(c.obj, seq![key + suffix]),
            },
        }
    }
}

/// What a read finds before its sanitizer.
pub open spec fn found(
    key: Option<Seq<char>>,
    keys: Option<Seq<Seq<char>>>,
    from: TagSet,
    side: Option<Seq<char>>,
    directed: bool,
    c: CtxV,
) -> Option<Seq<char>> {
    if directed {
        directed_raw(key->0, from, c)
    } else {
        match resolved(from, c) {
            Some(tags) => first_set(tags, read_keys(key, keys, side)),
            None => None,
        }
    }
}

/// The value with what comes with it.
pub open spec fn with_consts(v: Option<ValueV>, consts: Map<Seq<char>, ValueV>) -> Option<
    ProducedV,
> {
    match v {
        Some(value) => Some(ProducedV { value, consts }),
        None => None,
    }
}

/// What rule tables see of the tags.
pub open spec fn table_view(tags: Map<Seq<char>, Seq<char>>, c: CtxV) -> CategoryCtxV {
    neutral(tags, c.sanitizers, c.value_sets, c.readings)
}

/// The text noted under `source`.
pub open spec fn source_of(p: ProducedV) -> Option<Seq<char>> {
    if p.consts.dom().contains("source"@) {
        text_of(p.consts["source"@])
    } else {
        None
    }
}

/// A value taken from the parent way, with its source marked.
pub open spec fn from_parent(p: ProducedV) -> ProducedV {
    match source_of(p) {
        Some(s) => ProducedV {
            value: p.value,
            consts: p.consts.insert("source"@, ValueV::String("parent_highway_"@ + s)),
        },
        None => p,
    }
}

/// Whether the object's smoothness comes from a tag.
pub open spec fn is_tagged(own: Option<ProducedV>) -> bool {
    own is Some && (source_of(own->0) == Some("tag"@) || source_of(own->0) == Some(
        "tag_normalized"@,
    ))
}

/// The smoothness of an object: its own, or its parent way's where the surfaces let it be taken
/// over.
pub open spec fn smoothness(own: Option<ProducedV>, par: Option<ProducedV>, c: CtxV) -> Option<
    ProducedV,
> {
    match c.parent {
        None => own,
        Some(parent) => match par {
            None => own,
            Some(p) => {
                let surface = value_at(c.obj, "surface"@);
                let same = surface == value_at(parent, "surface"@);
                if (own is None && (surface is None || same)) || (!is_tagged(own)
                    && surface is Some && same) {
                    Some(from_parent(p))
                } else {
                    own
                }
            },
        },
    }
}

/// What a producer gives of an object, the producers it leads to being followed `n` deep.
pub open spec fn produced_within(p: ProducerV, c: CtxV, n: nat) -> Option<ProducedV>
    decreases n, p, 0int,
{
    match p {
        ProducerV::Fallback(ps) => first_produced(ps, 0, c, n),
        ProducerV::Derive { derive, out_side } => {
            if derive == "traffic_mode"@ {
                match traffic_mode(
                    c.obj,
                    match c.parent {
                        Some(m) => m,
                        None => c.obj,
                    },
                    c.parking_inference,
                    c.obj_side,
                    out_side->0,
                    c.sanitizers,
                    c.readings,
                ) {
                    Some(v) => Some(ProducedV { value: ValueV::String(v), consts: Map::empty() }),
                    None => None,
                }
            } else if derive == "smoothness_parent"@ {
                match lookup(c.derivers, "smoothness"@) {
                    None => None,
                    Some(q) => if n == 0 {
                        None
                    } else {
                        smoothness(
                            produced_within(q, c, (n - 1) as nat),
                            match c.parent {
                                Some(m) => produced_within(q, c.at_parent(m), (n - 1) as nat),
                                None => None,
                            },
                            c,
                        )
                    },
                }
            } else {
                None
            }
        },
        ProducerV::Classify { rules, default, from, consts } => match resolved(from, c) {
            Some(tags) => with_consts(
                or_default(classified(rules, 0, table_view(tags, c)), default),
                consts,
            ),
            None => None,
        },
        ProducerV::SharedClassify { shared, from, consts } => match resolved(from, c) {
            Some(tags) => with_consts(
                or_default(
                    classified(lookup(c.classifiers, shared)->0.rules, 0, table_view(tags, c)),
                    lookup(c.classifiers, shared)->0.default,
                ),
                consts,
            ),
            None => None,
        },
        ProducerV::Extract { key, keys, from, side, sanitize, consts, directed } => match found(
            key,
            keys,
            from,
            side,
            directed,
            c,
        ) {
            Some(raw) => with_consts(cleaned(raw, sanitize, c), consts),
            None => None,
        },
    }
}

/// What the first producer from `k` on gives that gives something.
pub open spec fn first_produced(ps: Seq<ProducerV>, k: int, c: CtxV, n: nat) -> Option<ProducedV>
    decreases n, ps, ps.len() - k,
{
    if k < 0 || k >= ps.len() {
        None
    } else {
        match produced_within(ps[k], c, n) {
            Some(x) => Some(x),
            None => first_produced(ps, k + 1, c, n),
        }
    }
}

/// Whether a producer can be run on an object, the producers it leads to being followed `n` deep:
/// whatever it comes to names what it needs.
pub open spec fn is_ready(p: ProducerV, c: CtxV, n: nat) -> bool
    decreases n, p, 0int,
{
    match p {
        ProducerV::Fallback(ps) => list_ready(ps, 0, c, n),
        ProducerV::Derive { derive, out_side } => {
            &&& derive == "traffic_mode"@ ==> out_side is Some
            &&& derive == "smoothness_parent"@ ==> (match lookup(c.derivers, "smoothness"@) {
                Some(q) => n > 0 && is_ready(q, c, (n - 1) as nat) && (match c.parent {
                    Some(m) => is_ready(q, c.at_parent(m), (n - 1) as nat),
                    None => true,
                }),
                None => true,
            })
        },
        ProducerV::Classify { .. } => true,
        ProducerV::SharedClassify { shared, from, .. } => resolved(from, c) is Some ==> lookup(
            c.classifiers,
            shared,
        ) is Some,
        ProducerV::Extract { key, side, from, directed, .. } => if directed {
            key is Some
        } else {
            side is Some && resolved(from, c) is Some ==> key is Some
        },
    }
}

/// Whether the producers from `k` on can be run on an object up to the first that gives something.
pub open spec fn list_ready(ps: Seq<ProducerV>, k: int, c: CtxV, n: nat) -> bool
    decreases n, ps, ps.len() - k,
{
    if k < 0 || k >= ps.len() {
        true
    } else {
        is_ready(ps[k], c, n) && (produced_within(ps[k], c, n) is None ==> list_ready(
            ps,
            k + 1,
            c,
            n,
        ))
    }
}

/// Whether a producer can be run on an object.
pub open spec fn can_run(p: ProducerV, c: CtxV) -> bool {
    exists|n: nat| #[trigger] is_ready(p, c, n)
}

/// A producer that names what it needs can be run on every object.
pub proof fn complete_producers_are_ready(p: ProducerV, c: CtxV, n: nat)
    requires
        is_complete(p, c.derivers, c.classifiers, n),
    ensures
        is_ready(p, c, n),
    decreases n, p, 0int,
{
    match p {
        ProducerV::Fallback(ps) => {
            lemma_complete_list(ps, 0, c, n);
        },
        ProducerV::Derive { derive, .. } => {
            if derive == "smoothness_parent"@ && lookup(c.derivers, "smoothness"@) is Some {
                let q = lookup(c.derivers, "smoothness"@)->0;
                complete_producers_are_ready(q, c, (n - 1) as nat);
                if c.parent is Some {
                    complete_producers_are_ready(q, c.at_parent(c.parent->0), (n - 1) as nat);
                }
            }
        },
        _ => {},
    }
}

proof fn lemma_complete_list(ps: Seq<ProducerV>, k: int, c: CtxV, n: nat)
    requires
        0 <= k <= ps.len(),
        all_complete(ps, c.derivers, c.classifiers, n),
    ensures
        list_ready(ps, k, c, n),
    decreases n, ps, ps.len() - k,
{
    if k < ps.len() {
        assert(is_complete(ps[k], c.derivers, c.classifiers, n));
        complete_producers_are_ready(ps[k], c, n);
        lemma_complete_list(ps, k + 1, c, n);
    }
}

/// How deep the producers that a producer leads to are followed.
pub open spec fn depth_of(p: ProducerV, c: CtxV) -> nat {
    choose|n: nat| #[trigger] is_ready(p, c, n)
}

/// What a producer gives of an object.
pub open spec fn produced(p: ProducerV, c: CtxV) -> Option<ProducedV> {
    produced_within(p, c, depth_of(p, c))
}

/// How deep producers are followed makes no difference, as long as it is deep enough.
pub proof fn depth_does_not_matter(p: ProducerV, c: CtxV, n: nat, m: nat)
    requires
        is_ready(p, c, n),
        is_ready(p, c, m),
    ensures
        produced_within(p, c, n) == produced_within(p, c, m),
    decreases n, p, 0int,
{
    match p {
        ProducerV::Fallback(ps) => {
            lemma_list_depth(ps, 0, c, n, m);
        },
        ProducerV::Derive { derive, .. } => {
            if derive == "smoothness_parent"@ && derive != "traffic_mode"@ && lookup(
                c.derivers,
                "smoothness"@,
            ) is Some {
                let q = lookup(c.derivers, "smoothness"@)->0;
                depth_does_not_matter(q, c, (n - 1) as nat, (m - 1) as nat);
                if c.parent is Some {
                    depth_does_not_matter(
                        q,
                        c.at_parent(c.parent->0),
                        (n - 1) as nat,
                        (m - 1) as nat,
                    );
                }
            }
        },
        _ => {},
    }
}

proof fn lemma_list_depth(ps: Seq<ProducerV>, k: int, c: CtxV, n: nat, m: nat)
    requires
        0 <= k <= ps.len(),
        list_ready(ps, k, c, n),
        list_ready(ps, k, c, m),
    ensures
        first_produced(ps, k, c, n) == first_produced(ps, k, c, m),
    decreases n, ps, ps.len() - k,
{
    if k < ps.len() {
        depth_does_not_matter(ps[k], c, n, m);
        if produced_within(ps[k], c, n) is None {
            lemma_list_depth(ps, k + 1, c, n, m);
        }
    }
}

/// The producer of the library with the name.
pub fn find_producer<'a>(lib: &'a Vec<(String, Producer)>, name: &str) -> (r: Option<&'a Producer>)
    ensures
        match r {
            Some(x) => lookup(library_view(lib@), name@) == Some(x@),
            None => lookup(library_view(lib@), name@) is None,
        },
{
    let ghost all = library_view(lib@);
    match position_of(lib, name) {
        Some(i) => {
            proof {
                assert forall|j: int| 0 <= j < i implies (#[trigger] all[j]).0 != name@ by {
                    assert(lib@[j].0@ != name@);
                }
                lemma_lookup(all, name@, i as int);
            }
            Some(&lib[i].1)
        },
        None => {
            proof {
                assert forall|j: int| 0 <= j < all.len() implies (#[trigger] all[j]).0 != name@ by {
                    assert(lib@[j].0@ != name@);
                }
                lemma_lookup(all, name@, all.len() as int);
            }
            None
        },
    }
}

fn find_classifier<'a>(tables: &'a Vec<(String, Classifier)>, name: &str) -> (r: Option<&'a Classifier>)
    ensures
        match r {
            Some(x) => lookup(classifiers_view(tables@), name@) == Some(x@),
            None => lookup(classifiers_view(tables@), name@) is None,
        },
{
    let ghost all = classifiers_view(tables@);
    match position_of(tables, name) {
        Some(i) => {
            proof {
                assert forall|j: int| 0 <= j < i implies (#[trigger] all[j]).0 != name@ by {
                    assert(tables@[j].0@ != name@);
                }
                lemma_lookup(all, name@, i as int);
            }
            Some(&tables[i].1)
        },
        None => {
            proof {
                assert forall|j: int| 0 <= j < all.len() implies (#[trigger] all[j]).0 != name@ by {
                    assert(tables@[j].0@ != name@);
                }
                lemma_lookup(all, name@, all.len() as int);
            }
            None
        },
    }
}

fn clean(raw: Option<&str>, sanitize: &Option<String>, ctx: &ExtractCtx) -> (r: Option<Value>)
    ensures
        opt_value(r) == (match opt_text(raw) {
            Some(text) => cleaned(text, sanitize.model(), ctx@),
            None => None,
        }),
{
    match raw {
        None => None,
        Some(text) => match sanitize {
            Some(name) => ctx.sanitizers.apply(name.as_str(), text, ctx.readings),
            None => Some(Value::String(text.to_owned())),
        },
    }
}

fn attach(v: Option<Value>, consts: &Fields) -> (r: Option<Produced>)
    ensures
        opt_produced(r) == with_consts(opt_value(v), consts@),
{
    match v {
        Some(value) => Some(Produced { value, consts: consts.copy() }),
        None => None,
    }
}

/// What a read finds before its sanitizer.
pub fn read_raw<'a>(
    tags: &'a RawTags,
    key: &Option<String>,
    keys: &Option<Vec<String>>,
    side: &Option<String>,
) -> (r: Option<&'a str>)
    requires
        side is Some ==> key is Some,
    ensures
        opt_text(r) == first_set(
            tag_map(*tags),
            read_keys(key.model(), keys.model(), side.model()),
        ),
{
    match side {
        Some(s) => match key {
            Some(k) => first_present(tags, &sided_keys(k.as_str(), s.as_str(), true)),
            None => None,
        },
        None => match key {
            Some(k) => {
                let mut one: Vec<String> = Vec::new();
                one.push(k.clone());
                proof {
                    assert(models(one@) =~= seq![k@]);
                }
                first_present(tags, &one)
            },
            None => match keys {
                Some(ks) => first_present(tags, ks),
                None => None,
            },
        },
    }
}

fn read_directed<'a>(ctx: &ExtractCtx<'a>, key: &str, from: TagSet) -> (r: Option<&'a str>)
    ensures
        opt_text(r) == directed_raw(key@, from, ctx@),
{
    if get(ctx.obj_tags, key).is_some() {
        return None;
    }
    let suffix = if str_eq(ctx.obj_side, "left") {
        if ctx.left_hand_traffic {
            ":forward"
        } else {
            ":backward"
        }
    } else if str_eq(ctx.obj_side, "right") {
        if ctx.left_hand_traffic {
            ":backward"
        } else {
            ":forward"
        }
    } else {
        return None;
    };
    let with_direction = concat2(key, suffix);
    let ghost full = with_direction@;
    let mut keys: Vec<String> = Vec::new();
    match from {
        TagSet::Parent => match ctx.parent_tags {
            Some(parent) => {
                keys.push(key.to_owned());
                keys.push(with_direction);
                proof {
                    assert(models(keys@) =~= seq![key@, full]);
                }
                first_present(parent, &keys)
            },
            None => None,
        },
        _ => {
            keys.push(with_direction);
            proof {
                assert(models(keys@) =~= seq![full]);
            }
            first_present(ctx.obj_tags, &keys)
        },
    }
}

fn source_text(p: &Produced) -> (r: Option<String>)
    ensures
        r.model() == source_of(p@),
{
    match p.consts.get("source") {
        Some(v) => match v.as_str() {
            Some(s) => Some(s.to_owned()),
            None => None,
        },
        None => None,
    }
}

fn mark_parent(p: Produced) -> (r: Produced)
    ensures
        r@ == from_parent(p@),
{
    match source_text(&p) {
        Some(s) => {
            let mut consts = p.consts;
            consts.insert("source".to_owned(), Value::String(concat2("parent_highway_", s.as_str())));
            Produced { value: p.value, consts }
        },
        None => p,
    }
}

fn comes_from_tag(own: &Option<Produced>) -> (r: bool)
    ensures
        r == is_tagged(opt_produced(*own)),
{
    match own {
        Some(p) => match source_text(p) {
            Some(s) => str_eq(s.as_str(), "tag") || str_eq(s.as_str(), "tag_normalized"),
            None => false,
        },
        None => false,
    }
}

fn same_value(a: Option<&str>, b: Option<&str>) -> (r: bool)
    ensures
        r == (opt_text(a) == opt_text(b)),
{
    match (a, b) {
        (Some(x), Some(y)) => str_eq(x, y),
        (None, None) => true,
        _ => false,
    }
}

/// The smoothness of an object out of its own and its parent way's.
pub fn smoothness_parent(own: Option<Produced>, par: Option<Produced>, ctx: &ExtractCtx) -> (r:
    Option<Produced>)
    ensures
        opt_produced(r) == smoothness(opt_produced(own), opt_produced(par), ctx@),
{
    let parent = match ctx.parent_tags {
        Some(p) => p,
        None => {
            return own;
        },
    };
    match par {
        None => own,
        Some(p) => {
            let surface = get(ctx.obj_tags, "surface");
            let same = same_value(surface, get(parent, "surface"));
            let take_over = (own.is_none() && (surface.is_none() || same)) || (!comes_from_tag(&own)
                && surface.is_some() && same);
            if take_over {
                Some(mark_parent(p))
            } else {
                own
            }
        },
    }
}

impl Producer {
    fn eval_within(&self, ctx: &ExtractCtx, Ghost(n): Ghost<nat>) -> (r: Option<Produced>)
        requires
            is_ready(self@, ctx@, n),
        ensures
            opt_produced(r) == produced_within(self@, ctx@, n),
        decreases n, self,
    {
        match self {
            Producer::Fallback { fallback } => eval_first(fallback, ctx, Ghost(n)),
            Producer::Derive { derive, out_side } => {
                if str_eq(derive.as_str(), "traffic_mode") {
                    match out_side {
                        Some(side) => {
                            let parking = match ctx.parent_tags {
                                Some(p) => p,
                                None => ctx.obj_tags,
                            };
                            match traffic_mode_side(
                                ctx.obj_tags,
                                parking,
                                ctx.parking_inference,
                                ctx.obj_side,
                                side.as_str(),
                                ctx.sanitizers,
                                ctx.readings,
                            ) {
                                Some(v) => Some(
                                    Produced { value: Value::String(v), consts: Fields::new() },
                                ),
                                None => None,
                            }
                        },
                        None => None,
                    }
                } else if str_eq(derive.as_str(), "smoothness_parent") {
                    match find_producer(ctx.derivers, "smoothness") {
                        None => None,
                        Some(base) => {
                            let own = base.eval_within(ctx, Ghost((n - 1) as nat));
                            let par = match ctx.parent_tags {
                                Some(parent) => {
                                    let at_parent = ExtractCtx {
                                        obj_tags: parent,
                                        parent_tags: ctx.parent_tags,
                                        parking_inference: ctx.parking_inference,
                                        obj_side: ctx.obj_side,
                                        sanitizers: ctx.sanitizers,
                                        derivers: ctx.derivers,
                                        classifiers: ctx.classifiers,
                                        value_sets: ctx.value_sets,
                                        readings: ctx.readings,
                                        left_hand_traffic: ctx.left_hand_traffic,
                                    };
                                    proof {
                                        assert(at_parent@ == ctx@.at_parent(tag_map(*parent)));
                                    }
                                    base.eval_within(&at_parent, Ghost((n - 1) as nat))
                                },
                                None => None,
                            };
                            smoothness_parent(own, par, ctx)
                        },
                    }
                } else {
                    None
                }
            },
            Producer::Classify { rules, default, from, consts } => match from.resolve(ctx) {
                Some(tags) => {
                    let v = match classify_rules(
                        rules,
                        tags,
                        ctx.sanitizers,
                        ctx.value_sets,
                        ctx.readings,
                    ) {
                        Some(v) => Some(v),
                        None => copy_opt(default),
                    };
                    attach(v, consts)
                },
                None => None,
            },
            Producer::SharedClassify { shared, from, consts } => match from.resolve(ctx) {
                Some(tags) => match find_classifier(ctx.classifiers, shared.as_str()) {
                    Some(table) => {
                        let v = match classify_rules(
                            &table.rules,
                            tags,
                            ctx.sanitizers,
                            ctx.value_sets,
                            ctx.readings,
                        ) {
                            Some(v) => Some(v),
                            None => copy_opt(&table.default),
                        };
                        attach(v, consts)
                    },
                    None => None,
                },
                None => None,
            },
            Producer::Extract { key, keys, from, side, sanitize, consts, directed } => {
                let raw = if *directed {
                    match key {
                        Some(k) => read_directed(ctx, k.as_str(), *from),
                        None => None,
                    }
                } else {
                    match from.resolve(ctx) {
                        Some(tags) => read_raw(tags, key, keys, side),
                        None => None,
                    }
                };
                attach(clean(raw, sanitize, ctx), consts)
            },
        }
    }

    /// What the producer gives of an object.
    pub fn eval(&self, ctx: &ExtractCtx) -> (r: Option<Produced>)
        requires
            can_run(self@, ctx@),
        ensures
            opt_produced(r) == produced(self@, ctx@),
    {
        self.eval_within(ctx, Ghost(depth_of(self@, ctx@)))
    }
}

fn copy_opt(v: &Option<Value>) -> (r: Option<Value>)
    ensures
        opt_value(r) == opt_value(*v),
{
    match v {
        Some(x) => Some(clone_value(x)),
        None => None,
    }
}

fn eval_first(v: &Vec<Producer>, ctx: &ExtractCtx, Ghost(n): Ghost<nat>) -> (r: Option<Produced>)
    requires
        list_ready(producers(v@), 0, ctx@, n),
    ensures
        opt_produced(r) == first_produced(producers(v@), 0, ctx@, n),
    decreases n, v,
{
    broadcast use group_producers;

    let ghost pv = producers(v@);
    let ghost c = ctx@;
    let mut k: usize = 0;
    while k < v.len()
        invariant
            0 <= k <= v@.len(),
            pv == producers(v@),
            c == ctx@,
            list_ready(pv, k as int, c, n),
            first_produced(pv, 0, c, n) == first_produced(pv, k as int, c, n),
        decreases v.len() - k,
    {
        proof {
            assert(decreases_to!(v@ => v@[k as int]));
            assert(pv[k as int] == v@[k as int]@);
            assert(is_ready(pv[k as int], c, n));
        }
        match v[k].eval_within(ctx, Ghost(n)) {
            Some(p) => {
                return Some(p);
            },
            None => {},
        }
        k = k + 1;
    }
    None
}

/// A copy of a producer.
pub fn clone_producer(p: &Producer) -> (r: Producer)
    ensures
        r@ == p@,
    decreases p,
{
    broadcast use group_producers;

    match p {
        Producer::Fallback { fallback } => {
            let mut out: Vec<Producer> = Vec::new();
            for i in 0..fallback.len()
                invariant
                    *p is Fallback,
                    p->fallback == *fallback,
                    out@.len() == i,
                    forall|j: int| 0 <= j < i ==> (#[trigger] out@[j])@ == fallback@[j]@,
            {
                proof {
                    assert(decreases_to!(fallback@ => fallback@[i as int]));
                }
                let c = clone_producer(&fallback[i]);
                out.push(c);
            }
            proof {
                assert(producers(out@) =~= producers(fallback@));
            }
            Producer::Fallback { fallback: out }
        },
        Producer::Derive { derive, out_side } => Producer::Derive {
            derive: derive.clone(),
            out_side: out_side.copy(),
        },
        Producer::Classify { rules, default, from, consts } => Producer::Classify {
            rules: clone_rules(rules),
            default: copy_opt(default),
            from: *from,
            consts: consts.copy(),
        },
        Producer::SharedClassify { shared, from, consts } => Producer::SharedClassify {
            shared: shared.clone(),
            from: *from,
            consts: consts.copy(),
        },
        Producer::Extract { key, keys, from, side, sanitize, consts, directed } => {
            Producer::Extract {
                key: key.copy(),
                keys: keys.copy(),
                from: *from,
                side: side.copy(),
                sanitize: sanitize.copy(),
                consts: consts.copy(),
                directed: *directed,
            }
        },
    }
}

} // verus!
