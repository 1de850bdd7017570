//! The transform pipeline: steps that rewrite an object's tags before it is categorized, and steps
//! that make further objects out of it.
use vstd::prelude::*;

use crate::lang::context::{parent_map, CtxV, ExtractCtx, ValueSets};
use crate::lang::extract::{first_present, first_set};
use crate::lang::filter::{eval, holds, Filter};
use crate::lang::producer::{produced, sound, Producer};
use crate::lang::sanitize::{eval_sanitize, sanitized, Sanitizer};
use crate::model::{models, Model};
use crate::number::Readings;
use crate::tags::{entries, get, lists, no_tags, pairs, put, tag_map, unset, RawTags};
use crate::text::{concat2, concat3, starts_with, str_eq, strip_prefix as text_behind, trim_end,
    without_trailing};
use crate::value::{Fields, Value, ValueV};

verus! {

/// Which tags a directed read looks at.
#[derive(Debug, Clone, Copy, PartialEq, Eq, Structural)]
pub enum DirectedFrom {
    Obj,
    Parent,
}

impl Default for DirectedFrom {
    fn default() -> (r: Self)
        ensures
            r == DirectedFrom::Obj,
    {
        DirectedFrom::Obj
    }
}

/// One rewrite of an object's tags.
#[derive(Debug)]
pub enum InputTransform {
    /// Writes what the producer gives to `output`; a produced null takes the tag away, and where
    /// nothing is produced the tag stays.
    TagRule { output: String, source: Producer },
    /// Unnests tags under `prefix`, or under `prefix:infix`, with the tags that document them. With
    /// a parent they come from the parent's tags, else from the object's own. Only where the guard
    /// holds; `record_infix_as` notes the infix where there was something to unnest.
    UnnestTags {
        prefix: String,
        infix: String,
        meta_prefixes: Vec<String>,
        guard: Option<Filter>,
        record_infix_as: Option<String>,
    },
    /// Takes a prefix off every key that has it, and stamps a marker.
    StripPrefix {
        prefix: String,
        stamp_key: String,
        stamp_value: String,
        stamp_nested_under: Vec<String>,
    },
    /// Writes the value of a key, or of its variant for the direction of the object's side, to
    /// `output`, unless the key is set.
    DirectedExtract {
        output: String,
        key: String,
        from: DirectedFrom,
        sanitize: Vec<Sanitizer>,
    },
    /// Drops the object where the filter holds.
    Drop { when: Filter },
}

/// A step of the pipeline: a rewrite, or a further object.
#[derive(Debug)]
pub enum TransformStep {
    Transform(InputTransform),
    Clone(CloneStep),
}

/// A further object: it starts without tags, sees the current object as its parent, and is built by
/// its own steps.
#[derive(Debug)]
pub struct CloneStep {
    /// Only where this holds of the current object.
    pub when: Option<Filter>,
    /// What is noted of the new object before its steps run.
    pub annotate: Vec<(String, String)>,
    /// What its id has behind the id of the current object.
    pub id_suffix: String,
    pub steps: Vec<InputTransform>,
}

/// What every step reads beside the object: the named value sets, what texts read as, and which
/// side of the road traffic keeps to.
#[derive(Clone, Copy)]
pub struct Setting<'a> {
    pub value_sets: &'a ValueSets,
    pub readings: &'a Readings,
    pub left_hand_traffic: bool,
}

/// An object between two steps.
#[verifier::ext_equal]
pub struct StateV {
    pub tags: Map<Seq<char>, Seq<char>>,
    pub annotations: Map<Seq<char>, ValueV>,
}

/// An object that a step made.
#[derive(Debug)]
pub struct Spawned {
    pub tags: RawTags,
    pub annotations: Fields,
    pub id: String,
}

/// An object that a step made.
#[verifier::ext_equal]
pub struct SpawnedV {
    pub state: StateV,
    pub id: Seq<char>,
}

impl Spawned {
    pub open spec fn view(&self) -> SpawnedV {
        SpawnedV {
            state: StateV { tags: tag_map(self.tags), annotations: self.annotations@ },
            id: self.id@,
        }
    }
}

/// The objects that steps made.
pub open spec fn spawned_view(v: Seq<Spawned>) -> Seq<SpawnedV> {
    v.map_values(|c: Spawned| c@)
}

/// What a filter sees of an object between two steps.
pub open spec fn seen(
    s: StateV,
    parent: Option<Map<Seq<char>, Seq<char>>>,
    w: Setting,
) -> CtxV {
    CtxV {
        obj: s.tags,
        parent,
        id: ""@,
        annotations: s.annotations,
        value_sets: w.value_sets@,
        readings: w.readings@,
    }
}

// ── Unnesting ───────────────────────────────────────────────────────────────────────────────

/// The text that unnested keys start with.
pub open spec fn full_prefix(prefix: Seq<char>, infix: Seq<char>) -> Seq<char> {
    if infix.len() == 0 {
        prefix
    } else {
        prefix + ":"@ + infix
    }
}

/// Whether the first part of a key, up to a colon, names a side of the road.
pub open spec fn names_side(s: Seq<char>) -> bool {
    ||| s == "left"@ || ("left"@ + ":"@).is_prefix_of(s)
    ||| s == "right"@ || ("right"@ + ":"@).is_prefix_of(s)
    ||| s == "both"@ || ("both"@ + ":"@).is_prefix_of(s)
}

/// Where a key is to be unnested, what stands behind the prefix: nothing where it is the prefix
/// itself.
pub open spec fn behind_prefix(
    key: Seq<char>,
    prefix: Seq<char>,
    infix: Seq<char>,
) -> Option<Option<Seq<char>>> {
    let full = full_prefix(prefix, infix);
    let nested = full + ":"@;
    if key == full {
        Some(None)
    } else if nested.is_prefix_of(key) {
        let rest = key.subrange(nested.len() as int, key.len() as int);
        if infix.len() == 0 && names_side(rest) {
            None
        } else {
            Some(Some(rest))
        }
    } else {
        None
    }
}

/// The key that the documentation of an unnested tag gets.
pub open spec fn companion_key(meta: Seq<char>, rest: Option<Seq<char>>) -> Seq<char> {
    match rest {
        Some(s) => without_trailing(meta, ':') + ":"@ + s,
        None => without_trailing(meta, ':'),
    }
}

/// The tags that document `key`, under their new keys, for the first `n` kinds of documentation.
pub open spec fn companions(
    key: Seq<char>,
    rest: Option<Seq<char>>,
    metas: Seq<Seq<char>>,
    n: int,
    src: Map<Seq<char>, Seq<char>>,
) -> Seq<(Seq<char>, Seq<char>)>
    decreases n,
{
    if n <= 0 {
        Seq::empty()
    } else {
        let before = companions(key, rest, metas, n - 1, src);
        let meta = metas[n - 1];
        if src.dom().contains(meta + key) {
            before.push((companion_key(meta, rest), src[meta + key]))
        } else {
            before
        }
    }
}

/// What unnesting one tag writes.
pub open spec fn tag_writes(
    tag: (Seq<char>, Seq<char>),
    prefix: Seq<char>,
    infix: Seq<char>,
    metas: Seq<Seq<char>>,
    src: Map<Seq<char>, Seq<char>>,
) -> Seq<(Seq<char>, Seq<char>)> {
    match behind_prefix(tag.0, prefix, infix) {
        None => Seq::empty(),
        Some(rest) => seq![
            (
                match rest {
                    Some(s) => s,
                    None => prefix,
                },
                tag.1,
            ),
        ] + companions(tag.0, rest, metas, metas.len() as int, src),
    }
}

/// What unnesting a list of tags writes, in order.
pub open spec fn list_writes(
    list: Seq<(Seq<char>, Seq<char>)>,
    prefix: Seq<char>,
    infix: Seq<char>,
    metas: Seq<Seq<char>>,
    src: Map<Seq<char>, Seq<char>>,
) -> Seq<(Seq<char>, Seq<char>)>
    decreases list.len(),
{
    if list.len() == 0 {
        Seq::empty()
    } else {
        list_writes(list.drop_last(), prefix, infix, metas, src) + tag_writes(
            list.last(),
            prefix,
            infix,
            metas,
            src,
        )
    }
}

/// The tags after a list of writes.
pub open spec fn written(
    m: Map<Seq<char>, Seq<char>>,
    ws: Seq<(Seq<char>, Seq<char>)>,
) -> Map<Seq<char>, Seq<char>>
    decreases ws.len(),
{
    if ws.len() == 0 {
        m
    } else {
        written(m, ws.drop_last()).insert(ws.last().0, ws.last().1)
    }
}

/// Whether `after` is what unnesting the tags `src` makes of `before`, in some order of the tags.
pub open spec fn may_unnest(
    src: Map<Seq<char>, Seq<char>>,
    prefix: Seq<char>,
    infix: Seq<char>,
    metas: Seq<Seq<char>>,
    before: Map<Seq<char>, Seq<char>>,
    after: Map<Seq<char>, Seq<char>>,
) -> bool {
    exists|list: Seq<(Seq<char>, Seq<char>)>| #[trigger]
        lists(list, src) && after == written(before, list_writes(list, prefix, infix, metas, src))
}

proof fn lemma_written_push(
    m: Map<Seq<char>, Seq<char>>,
    a: Seq<(Seq<char>, Seq<char>)>,
    w: (Seq<char>, Seq<char>),
)
    ensures
        written(m, a.push(w)) == written(m, a).insert(w.0, w.1),
{
    assert(a.push(w).drop_last() =~= a);
}

fn starts_with_side(s: &str) -> (r: bool)
    ensures
        r == names_side(s@),
{
    str_eq(s, "left") || starts_with(s, concat2("left", ":").as_str()) || str_eq(s, "right")
        || starts_with(s, concat2("right", ":").as_str()) || str_eq(s, "both") || starts_with(
        s,
        concat2("both", ":").as_str(),
    )
}

fn rest_of(key: &str, prefix: &str, infix: &str) -> (r: Option<Option<String>>)
    ensures
        match r {
            Some(rest) => behind_prefix(key@, prefix@, infix@) == Some(rest.model()),
            None => behind_prefix(key@, prefix@, infix@) is None,
        },
{
    let bare = str_eq(infix, "");
    proof {
        reveal_strlit("");
        assert(bare == (infix@.len() == 0)) by {
            if infix@.len() == 0 {
                assert(infix@ =~= ""@);
            }
        }
    }
    let full = if bare {
        prefix.to_owned()
    } else {
        concat3(prefix, ":", infix)
    };
    if str_eq(key, full.as_str()) {
        return Some(None);
    }
    match text_behind(key, concat2(full.as_str(), ":").as_str()) {
        Some(rest) => {
            if bare && starts_with_side(rest) {
                None
            } else {
                Some(Some(rest.to_owned()))
            }
        },
        None => None,
    }
}

fn companion_name(meta: &str, rest: &Option<String>) -> (r: String)
    ensures
        r@ == companion_key(meta@, rest.model()),
{
    let name = trim_end(meta, ':');
    match rest {
        Some(s) => concat3(name, ":", s.as_str()),
        None => name.to_owned(),
    }
}

/// Unnests the tags of a list, in order, onto `dest`; `tags` holds what documents them.
pub fn unnest_listed(
    list: &Vec<(String, String)>,
    tags: &RawTags,
    prefix: &str,
    infix: &str,
    meta_prefixes: &Vec<String>,
    dest: &mut RawTags,
)
    ensures
        tag_map(*final(dest)) == written(
            tag_map(*old(dest)),
            list_writes(pairs(list@), prefix@, infix@, models(meta_prefixes@), tag_map(*tags)),
        ),
{
    let ghost before = tag_map(*dest);
    let ghost lv = pairs(list@);
    let ghost metas = models(meta_prefixes@);
    let ghost src = tag_map(*tags);
    for i in 0..list.len()
        invariant
            lv == pairs(list@),
            metas == models(meta_prefixes@),
            src == tag_map(*tags),
            tag_map(*dest) == written(
                before,
                list_writes(lv.take(i as int), prefix@, infix@, metas, src),
            ),
    {
        let key = list[i].0.as_str();
        let val = list[i].1.as_str();
        let ghost ws = list_writes(lv.take(i as int), prefix@, infix@, metas, src);
        proof {
            assert(lv.take(i + 1).drop_last() =~= lv.take(i as int));
            assert(lv.take(i + 1).last() == (key@, val@));
        }
        match rest_of(key, prefix, infix) {
            None => {
                proof {
                    assert(ws + Seq::<(Seq<char>, Seq<char>)>::empty() =~= ws);
                }
            },
            Some(rest) => {
                let target = match &rest {
                    Some(s) => s.clone(),
                    None => prefix.to_owned(),
                };
                let ghost first = (target@, val@);
                put(dest, target, val.to_owned());
                proof {
                    lemma_written_push(before, ws, first);
                    assert(companions(key@, rest.model(), metas, 0, src)
                        =~= Seq::<(Seq<char>, Seq<char>)>::empty());
                    assert(ws + (seq![first] + companions(key@, rest.model(), metas, 0, src))
                        =~= ws.push(first));
                }
                for k in 0..meta_prefixes.len()
                    invariant
                        metas == models(meta_prefixes@),
                        src == tag_map(*tags),
                        tag_map(*dest) == written(
                            before,
                            ws + (seq![first] + companions(
                                key@,
                                rest.model(),
                                metas,
                                k as int,
                                src,
                            )),
                        ),
                {
                    let meta = meta_prefixes[k].as_str();
                    let ghost cs = companions(key@, rest.model(), metas, k as int, src);
                    match get(tags, concat2(meta, key).as_str()) {
                        Some(v) => {
                            let name = companion_name(meta, &rest);
                            let ghost w = (name@, v@);
                            put(dest, name, v.to_owned());
                            proof {
                                lemma_written_push(before, ws + (seq![first] + cs), w);
                                assert((ws + (seq![first] + cs)).push(w) =~= ws + (seq![first]
                                    + cs.push(w)));
                            }
                        },
                        None => {},
                    }
                }
            },
        }
    }
    proof {
        assert(lv.take(lv.len() as int) =~= lv);
    }
}

/// Unnests tags under `prefix`, or under `prefix:infix`, onto `dest`, with the tags that document
/// them. Where two tags come to stand under one key, the map's own order decides.
pub fn unnest_prefixed_tags(
    tags: &RawTags,
    prefix: &str,
    infix: &str,
    meta_prefixes: &Vec<String>,
    dest: &mut RawTags,
)
    ensures
        may_unnest(
            tag_map(*tags),
            prefix@,
            infix@,
            models(meta_prefixes@),
            tag_map(*old(dest)),
            tag_map(*final(dest)),
        ),
{
    let list = entries(tags);
    unnest_listed(&list, tags, prefix, infix, meta_prefixes, dest);
}

/// Whether some tag stands behind the prefix, so that there is something to unnest.
pub open spec fn has_nested(
    src: Map<Seq<char>, Seq<char>>,
    prefix: Seq<char>,
    infix: Seq<char>,
) -> bool {
    exists|k: Seq<char>| #[trigger]
        src.dom().contains(k) && behind_prefix(k, prefix, infix) is Some
}

/// Unnesting writes tags exactly where there is something to unnest.
pub proof fn unnesting_writes_what_is_nested(
    list: Seq<(Seq<char>, Seq<char>)>,
    src: Map<Seq<char>, Seq<char>>,
    prefix: Seq<char>,
    infix: Seq<char>,
    metas: Seq<Seq<char>>,
)
    requires
        lists(list, src),
    ensures
        has_nested(src, prefix, infix) <==> list_writes(list, prefix, infix, metas, src).len() > 0,
{
    lemma_some_write(list, list.len() as int, prefix, infix, metas, src);
    assert(list.take(list.len() as int) =~= list);
    if has_nested(src, prefix, infix) {
        let k = choose|k: Seq<char>| #[trigger]
            src.dom().contains(k) && behind_prefix(k, prefix, infix) is Some;
        let i = choose|i: int| 0 <= i < list.len() && (#[trigger] list[i]).0 == k;
        assert(behind_prefix(list[i].0, prefix, infix) is Some);
    }
}

proof fn lemma_some_write(
    list: Seq<(Seq<char>, Seq<char>)>,
    n: int,
    prefix: Seq<char>,
    infix: Seq<char>,
    metas: Seq<Seq<char>>,
    src: Map<Seq<char>, Seq<char>>,
)
    requires
        0 <= n <= list.len(),
    ensures
        list_writes(list.take(n), prefix, infix, metas, src).len() > 0 <==> exists|i: int|
            0 <= i < n && behind_prefix((#[trigger] list[i]).0, prefix, infix) is Some,
    decreases n,
{
    if n > 0 {
        lemma_some_write(list, n - 1, prefix, infix, metas, src);
        assert(list.take(n).drop_last() =~= list.take(n - 1));
        assert(list.take(n).last() == list[n - 1]);
    }
}

/// Whether there is something to unnest.
fn has_nested_tags(tags: &RawTags, prefix: &str, infix: &str) -> (r: bool)
    ensures
        r == has_nested(tag_map(*tags), prefix@, infix@),
{
    let list = entries(tags);
    let ghost lv = pairs(list@);
    let ghost src = tag_map(*tags);
    for i in 0..list.len()
        invariant
            lv == pairs(list@),
            src == tag_map(*tags),
            lists(lv, src),
            forall|j: int|
                0 <= j < i ==> behind_prefix((#[trigger] lv[j]).0, prefix@, infix@) is None,
    {
        proof {
            assert(lv[i as int].0 == list@[i as int].0@);
        }
        if rest_of(list[i].0.as_str(), prefix, infix).is_some() {
            proof {
                assert(src.dom().contains(lv[i as int].0));
            }
            return true;
        }
    }
    proof {
        if has_nested(src, prefix@, infix@) {
            let k = choose|k: Seq<char>| #[trigger]
                src.dom().contains(k) && behind_prefix(k, prefix@, infix@) is Some;
            let i = choose|i: int| 0 <= i < lv.len() && (#[trigger] lv[i]).0 == k;
            assert(behind_prefix(lv[i].0, prefix@, infix@) is None);
        }
    }
    false
}

/// Whether unnesting could look at a key.
pub open spec fn touches(key: Seq<char>, prefix: Seq<char>, metas: Seq<Seq<char>>) -> bool {
    prefix.is_prefix_of(key) || exists|i: int|
        0 <= i < metas.len() && (#[trigger] metas[i]).is_prefix_of(key)
}

/// The tags that unnesting could look at.
pub open spec fn touched(
    m: Map<Seq<char>, Seq<char>>,
    prefix: Seq<char>,
    metas: Seq<Seq<char>>,
) -> Map<Seq<char>, Seq<char>> {
    m.restrict(Set::new(|k: Seq<char>| touches(k, prefix, metas)))
}

fn is_touched(key: &str, prefix: &str, metas: &Vec<String>) -> (r: bool)
    ensures
        r == touches(key@, prefix@, models(metas@)),
{
    if starts_with(key, prefix) {
        return true;
    }
    for i in 0..metas.len()
        invariant
            forall|j: int| 0 <= j < i ==> !(#[trigger] models(metas@)[j]).is_prefix_of(key@),
    {
        if starts_with(key, metas[i].as_str()) {
            proof {
                assert(models(metas@)[i as int].is_prefix_of(key@));
            }
            return true;
        }
    }
    false
}

fn touched_tags(tags: &RawTags, prefix: &str, metas: &Vec<String>) -> (r: RawTags)
    ensures
        tag_map(r) == touched(tag_map(*tags), prefix@, models(metas@)),
{
    let list = entries(tags);
    let ghost m = tag_map(*tags);
    let ghost lv = pairs(list@);
    let ghost mv = models(metas@);
    let mut out = no_tags();
    let mut i: usize = 0;
    while i < list.len()
        invariant
            0 <= i <= list@.len(),
            lv == pairs(list@),
            m == tag_map(*tags),
            mv == models(metas@),
            lists(lv, m),
            forall|k: Seq<char>| #[trigger]
                tag_map(out).dom().contains(k) <==> touches(k, prefix@, mv) && exists|j: int|
                    0 <= j < i && (#[trigger] lv[j]).0 == k,
            forall|k: Seq<char>| #[trigger]
                tag_map(out).dom().contains(k) ==> tag_map(out)[k] == m[k],
        decreases list.len() - i,
    {
        let ghost before = tag_map(out);
        let hit = is_touched(list[i].0.as_str(), prefix, metas);
        if hit {
            put(&mut out, list[i].0.clone(), list[i].1.clone());
        }
        proof {
            assert(lv[i as int].0 == list@[i as int].0@);
            assert(m[lv[i as int].0] == list@[i as int].1@);
            assert forall|k: Seq<char>| #[trigger]
                tag_map(out).dom().contains(k) <==> touches(k, prefix@, mv) && exists|j: int|
                    0 <= j < i + 1 && (#[trigger] lv[j]).0 == k by {
                assert(before.dom().contains(k) <==> touches(k, prefix@, mv) && exists|j: int|
                    0 <= j < i && (#[trigger] lv[j]).0 == k);
            }
        }
        i = i + 1;
    }
    proof {
        assert(tag_map(out) =~= touched(m, prefix@, mv)) by {
            assert forall|k: Seq<char>| #[trigger]
                touched(m, prefix@, mv).dom().contains(k) <==> tag_map(out).dom().contains(k) by {
                if m.dom().contains(k) {
                    let j = choose|j: int| 0 <= j < lv.len() && (#[trigger] lv[j]).0 == k;
                    assert(lv[j].0 == k);
                }
            }
        }
    }
    out
}

// ── Stripping a prefix ──────────────────────────────────────────────────────────────────────

/// The marker that a stripped key gets: its own where the key stands under one of the listed ones.
pub open spec fn marker(
    base: Seq<char>,
    stamp_key: Seq<char>,
    nested_under: Seq<Seq<char>>,
) -> Seq<char> {
    if exists|i: int| 0 <= i < nested_under.len() && (#[trigger] nested_under[i]).is_prefix_of(base) {
        base + ":"@ + stamp_key
    } else {
        stamp_key
    }
}

/// The tags with the prefix taken off one key, and its marker.
pub open spec fn stripped_key(
    m: Map<Seq<char>, Seq<char>>,
    key: Seq<char>,
    prefix: Seq<char>,
    stamp_key: Seq<char>,
    stamp_value: Seq<char>,
    nested_under: Seq<Seq<char>>,
) -> Map<Seq<char>, Seq<char>> {
    let base = key.subrange(prefix.len() as int, key.len() as int);
    m.remove(key).insert(base, m[key]).insert(marker(base, stamp_key, nested_under), stamp_value)
}

/// The tags with the prefix taken off every key of a list that has it, in order.
pub open spec fn stripped_list(
    m: Map<Seq<char>, Seq<char>>,
    list: Seq<(Seq<char>, Seq<char>)>,
    prefix: Seq<char>,
    stamp_key: Seq<char>,
    stamp_value: Seq<char>,
    nested_under: Seq<Seq<char>>,
) -> Map<Seq<char>, Seq<char>>
    decreases list.len(),
{
    if list.len() == 0 {
        m
    } else {
        let before = stripped_list(
            m,
            list.drop_last(),
            prefix,
            stamp_key,
            stamp_value,
            nested_under,
        );
        if prefix.is_prefix_of(list.last().0) {
            stripped_key(before, list.last().0, prefix, stamp_key, stamp_value, nested_under)
        } else {
            before
        }
    }
}

/// Whether `after` is what stripping makes of `before`, in some order of the tags.
pub open spec fn may_strip(
    before: Map<Seq<char>, Seq<char>>,
    prefix: Seq<char>,
    stamp_key: Seq<char>,
    stamp_value: Seq<char>,
    nested_under: Seq<Seq<char>>,
    after: Map<Seq<char>, Seq<char>>,
) -> bool {
    exists|list: Seq<(Seq<char>, Seq<char>)>| #[trigger]
        lists(list, before) && after == stripped_list(
            before,
            list,
            prefix,
            stamp_key,
            stamp_value,
            nested_under,
        )
}

proof fn lemma_other_keys_stay(
    m: Map<Seq<char>, Seq<char>>,
    list: Seq<(Seq<char>, Seq<char>)>,
    prefix: Seq<char>,
    stamp_key: Seq<char>,
    stamp_value: Seq<char>,
    nested_under: Seq<Seq<char>>,
    key: Seq<char>,
)
    requires
        m.dom().contains(key),
        forall|i: int| 0 <= i < list.len() ==> (#[trigger] list[i]).0 != key,
    ensures
        stripped_list(m, list, prefix, stamp_key, stamp_value, nested_under).dom().contains(key),
    decreases list.len(),
{
    if list.len() > 0 {
        let rest = list.drop_last();
        assert forall|i: int| 0 <= i < rest.len() implies (#[trigger] rest[i]).0 != key by {
            assert(rest[i] == list[i]);
        }
        lemma_other_keys_stay(m, rest, prefix, stamp_key, stamp_value, nested_under, key);
        assert(list[list.len() - 1].0 != key);
    }
}

fn stands_under(base: &str, list: &Vec<String>) -> (r: bool)
    ensures
        r == (exists|i: int|
            0 <= i < list@.len() && (#[trigger] models(list@)[i]).is_prefix_of(base@)),
{
    for i in 0..list.len()
        invariant
            forall|j: int| 0 <= j < i ==> !(#[trigger] models(list@)[j]).is_prefix_of(base@),
    {
        if starts_with(base, list[i].as_str()) {
            proof {
                assert(models(list@)[i as int].is_prefix_of(base@));
            }
            return true;
        }
    }
    false
}

fn strip_one(
    tags: &mut RawTags,
    key: &str,
    base: &str,
    stamp_key: &str,
    stamp_value: &str,
    stamp_nested_under: &Vec<String>,
    Ghost(prefix): Ghost<Seq<char>>,
)
    requires
        tag_map(*old(tags)).dom().contains(key@),
        base@ == key@.subrange(prefix.len() as int, key@.len() as int),
    ensures
        tag_map(*final(tags)) == stripped_key(
            tag_map(*old(tags)),
            key@,
            prefix,
            stamp_key@,
            stamp_value@,
            models(stamp_nested_under@),
        ),
{
    let value = match get(tags, key) {
        Some(v) => v.to_owned(),
        None => String::new(),
    };
    unset(tags, key);
    put(tags, base.to_owned(), value);
    let mark = if stands_under(base, stamp_nested_under) {
        concat3(base, ":", stamp_key)
    } else {
        stamp_key.to_owned()
    };
    put(tags, mark, stamp_value.to_owned());
}

/// Takes `prefix` off every key that has it and stamps a marker for each: `<base>:<stamp_key>`
/// under the listed keys, else `stamp_key`. Where two tags come to stand under one key, the map's
/// own order decides.
pub fn strip_prefix(
    tags: &mut RawTags,
    prefix: &str,
    stamp_key: &str,
    stamp_value: &str,
    stamp_nested_under: &Vec<String>,
)
    ensures
        may_strip(
            tag_map(*old(tags)),
            prefix@,
            stamp_key@,
            stamp_value@,
            models(stamp_nested_under@),
            tag_map(*final(tags)),
        ),
{
    let list = entries(tags);
    let ghost before = tag_map(*tags);
    let ghost lv = pairs(list@);
    let ghost nested = models(stamp_nested_under@);
    for i in 0..list.len()
        invariant
            lv == pairs(list@),
            nested == models(stamp_nested_under@),
            lists(lv, before),
            tag_map(*tags) == stripped_list(
                before,
                lv.take(i as int),
                prefix@,
                stamp_key@,
                stamp_value@,
                nested,
            ),
    {
        let key = list[i].0.as_str();
        proof {
            assert(lv.take(i + 1).drop_last() =~= lv.take(i as int));
            assert(lv.take(i + 1).last() == lv[i as int]);
            assert(lv[i as int].0 == key@);
            assert forall|j: int| 0 <= j < lv.take(i as int).len() implies (#[trigger] lv.take(
                i as int,
            )[j]).0 != key@ by {
                assert(lv[j].0 != lv[i as int].0);
            }
            lemma_other_keys_stay(
                before,
                lv.take(i as int),
                prefix@,
                stamp_key@,
                stamp_value@,
                nested,
                key@,
            );
        }
        match text_behind(key, prefix) {
            Some(base) => {
                strip_one(
                    tags,
                    key,
                    base,
                    stamp_key,
                    stamp_value,
                    stamp_nested_under,
                    Ghost(prefix@),
                );
            },
            None => {},
        }
    }
    proof {
        assert(lv.take(lv.len() as int) =~= lv);
    }
}

// ── Directed reads ──────────────────────────────────────────────────────────────────────────

/// What a key has behind it for the direction that a side of the road is travelled in.
pub open spec fn direction(side: Seq<char>, left_hand: bool) -> Option<Seq<char>> {
    if side == "left"@ {
        Some(
            if left_hand {
                ":forward"@
            } else {
                ":backward"@
            },
        )
    } else if side == "right"@ {
        Some(
            if left_hand {
                ":backward"@
            } else {
                ":forward"@
            },
        )
    } else {
        None
    }
}

/// What a directed read finds: nothing where the key is set already or the object has no side.
pub open spec fn directed(c: CtxV, key: Seq<char>, from: DirectedFrom, left_hand: bool) -> Option<
    Seq<char>,
> {
    if c.obj.dom().contains(key) {
        None
    } else {
        match direction(c.side(), left_hand) {
            None => None,
            Some(suffix) => match from {
                DirectedFrom::Parent => match c.parent {
                    Some(p) => first_set(p, seq![key, key + suffix]),
                    None => None,
                },
                DirectedFrom::Obj => first_set(c.obj, seq![key + suffix]),
            },
        }
    }
}

/// The value of a directed read behind its sanitize chain.
pub open spec fn directed_value(
    c: CtxV,
    key: Seq<char>,
    from: DirectedFrom,
    sanitize: Vec<Sanitizer>,
    left_hand: bool,
) -> Option<ValueV> {
    match directed(c, key, from, left_hand) {
        Some(raw) => sanitized(models(sanitize@), raw, c.readings),
        None => None,
    }
}

fn direction_suffix(side: &str, left_hand: bool) -> (r: Option<&'static str>)
    ensures
        crate::value::opt_text(r) == direction(side@, left_hand),
{
    if str_eq(side, "left") {
        if left_hand {
            Some(":forward")
        } else {
            Some(":backward")
        }
    } else if str_eq(side, "right") {
        if left_hand {
            Some(":backward")
        } else {
            Some(":forward")
        }
    } else {
        None
    }
}

fn read_directed<'a>(ctx: &ExtractCtx<'a>, key: &str, from: DirectedFrom, left_hand: bool) -> (r:
    Option<&'a str>)
    ensures
        crate::value::opt_text(r) == directed(ctx@, key@, from, left_hand),
{
    if get(ctx.obj_tags, key).is_some() {
        return None;
    }
    let suffix = match direction_suffix(crate::lang::context::side_of(ctx), left_hand) {
        Some(s) => s,
        None => {
            return None;
        },
    };
    let with_direction = concat2(key, suffix);
    let mut keys: Vec<String> = Vec::new();
    match from {
        DirectedFrom::Parent => match ctx.parent_tags {
            Some(parent) => {
                let ghost full = with_direction@;
                keys.push(key.to_owned());
                keys.push(with_direction);
                proof {
                    assert(models(keys@) =~= seq![key@, full]);
                }
                first_present(parent, &keys)
            },
            None => None,
        },
        DirectedFrom::Obj => {
            let ghost full = with_direction@;
            keys.push(with_direction);
            proof {
                assert(models(keys@) =~= seq![full]);
            }
            first_present(ctx.obj_tags, &keys)
        },
    }
}

// ── One step ────────────────────────────────────────────────────────────────────────────────

/// Whether a value can be written to a tag: a text, or null for none.
pub open spec fn writable(v: Option<ValueV>) -> bool {
    match v {
        Some(x) => x is Null || x is String,
        None => true,
    }
}

/// What a tag rule gives of an object.
pub open spec fn rule_value(source: Producer, c: CtxV) -> Option<ValueV> {
    match produced(source@, c) {
        Some(p) => Some(p.value),
        None => None,
    }
}

/// Whether a step can be applied: what it writes is a text or null.
pub open spec fn applicable(
    step: InputTransform,
    s: StateV,
    parent: Option<Map<Seq<char>, Seq<char>>>,
    w: Setting,
) -> bool {
    match step {
        InputTransform::TagRule { source, .. } => sound(source@) && writable(
            rule_value(source, seen(s, parent, w)),
        ),
        InputTransform::DirectedExtract { key, from, sanitize, .. } => writable(
            directed_value(seen(s, parent, w), key@, from, sanitize, w.left_hand_traffic),
        ),
        _ => true,
    }
}

/// The tags with what a rule gives written to `output`.
pub open spec fn ruled(
    m: Map<Seq<char>, Seq<char>>,
    output: Seq<char>,
    v: Option<ValueV>,
) -> Map<Seq<char>, Seq<char>> {
    match v {
        Some(ValueV::Null) => m.remove(output),
        Some(ValueV::String(s)) => m.insert(output, s),
        _ => m,
    }
}

/// The tags that unnesting looks at.
pub open spec fn unnest_source(
    m: Map<Seq<char>, Seq<char>>,
    parent: Option<Map<Seq<char>, Seq<char>>>,
    prefix: Seq<char>,
    metas: Seq<Seq<char>>,
) -> Map<Seq<char>, Seq<char>> {
    match parent {
        Some(p) => p,
        None => touched(m, prefix, metas),
    }
}

/// What is noted after unnesting: the infix, where something was unnested.
pub open spec fn infix_noted(
    annotations: Map<Seq<char>, ValueV>,
    key: Option<Seq<char>>,
    infix: Seq<char>,
    unnested: bool,
) -> Map<Seq<char>, ValueV> {
    match key {
        Some(k) => if unnested {
            annotations.insert(k, ValueV::String(infix))
        } else {
            annotations
        },
        None => annotations,
    }
}

/// Whether a step may make `t` of the object `s`.
pub open spec fn may_become(
    step: InputTransform,
    s: StateV,
    parent: Option<Map<Seq<char>, Seq<char>>>,
    w: Setting,
    t: StateV,
) -> bool {
    match step {
        InputTransform::TagRule { output, source } => {
            &&& t.tags == ruled(s.tags, output@, rule_value(source, seen(s, parent, w)))
            &&& t.annotations == s.annotations
        },
        InputTransform::UnnestTags { prefix, infix, meta_prefixes, guard, record_infix_as } => {
            if guard is Some && !holds(guard->0@, seen(s, parent, w)) {
                t == s
            } else {
                &&& may_unnest(
                    unnest_source(s.tags, parent, prefix@, models(meta_prefixes@)),
                    prefix@,
                    infix@,
                    models(meta_prefixes@),
                    s.tags,
                    t.tags,
                )
                &&& t.annotations == infix_noted(
                    s.annotations,
                    record_infix_as.model(),
                    infix@,
                    has_nested(
                        unnest_source(s.tags, parent, prefix@, models(meta_prefixes@)),
                        prefix@,
                        infix@,
                    ),
                )
            }
        },
        InputTransform::StripPrefix { prefix, stamp_key, stamp_value, stamp_nested_under } => {
            &&& may_strip(
                s.tags,
                prefix@,
                stamp_key@,
                stamp_value@,
                models(stamp_nested_under@),
                t.tags,
            )
            &&& t.annotations == s.annotations
        },
        InputTransform::DirectedExtract { output, key, from, sanitize } => {
            let v = directed_value(seen(s, parent, w), key@, from, sanitize, w.left_hand_traffic);
            &&& t.tags == (match v {
                Some(ValueV::String(x)) => s.tags.insert(output@, x),
                _ => s.tags,
            })
            &&& t.annotations == s.annotations
        },
        InputTransform::Drop { .. } => t == s,
    }
}

/// Whether a step keeps the object.
pub open spec fn keeps(
    step: InputTransform,
    s: StateV,
    parent: Option<Map<Seq<char>, Seq<char>>>,
    w: Setting,
) -> bool {
    match step {
        InputTransform::Drop { when } => !holds(when@, seen(s, parent, w)),
        _ => true,
    }
}

/// The object that tags and annotations are.
pub open spec fn state(tags: RawTags, annotations: Fields) -> StateV {
    StateV { tags: tag_map(tags), annotations: annotations@ }
}

fn context<'a>(
    tags: &'a RawTags,
    annotations: &'a Fields,
    parent_tags: Option<&'a RawTags>,
    setting: &Setting<'a>,
) -> (r: ExtractCtx<'a>)
    ensures
        r@ == seen(state(*tags, *annotations), parent_map(parent_tags), *setting),
{
    ExtractCtx {
        obj_tags: tags,
        parent_tags,
        id: "",
        annotations,
        value_sets: setting.value_sets,
        readings: setting.readings,
    }
}

impl InputTransform {
    /// Applies the step; whether the object stays.
    pub fn apply(
        &self,
        tags: &mut RawTags,
        annotations: &mut Fields,
        parent_tags: Option<&RawTags>,
        setting: &Setting,
    ) -> (r: bool)
        requires
            applicable(
                *self,
                state(*old(tags), *old(annotations)),
                parent_map(parent_tags),
                *setting,
            ),
        ensures
            may_become(
                *self,
                state(*old(tags), *old(annotations)),
                parent_map(parent_tags),
                *setting,
                state(*final(tags), *final(annotations)),
            ),
            r == keeps(
                *self,
                state(*old(tags), *old(annotations)),
                parent_map(parent_tags),
                *setting,
            ),
    {
        match self {
            InputTransform::TagRule { output, source } => {
                let given = source.eval(&context(tags, annotations, parent_tags, setting));
                match given {
                    Some(p) => match p.value {
                        Value::Null => {
                            unset(tags, output.as_str());
                        },
                        Value::String(s) => {
                            put(tags, output.clone(), s);
                        },
                        _ => {},
                    },
                    None => {},
                }
                true
            },
            InputTransform::UnnestTags { prefix, infix, meta_prefixes, guard, record_infix_as } => {
                let ghost s = state(*tags, *annotations);
                let open = match guard {
                    Some(g) => eval(g, &context(tags, annotations, parent_tags, setting)),
                    None => true,
                };
                if open {
                    let unnested: bool = match parent_tags {
                        Some(source) => {
                            unnest_prefixed_tags(
                                source,
                                prefix.as_str(),
                                infix.as_str(),
                                meta_prefixes,
                                tags,
                            );
                            has_nested_tags(source, prefix.as_str(), infix.as_str())
                        },
                        None => {
                            let source = touched_tags(tags, prefix.as_str(), meta_prefixes);
                            unnest_prefixed_tags(
                                &source,
                                prefix.as_str(),
                                infix.as_str(),
                                meta_prefixes,
                                tags,
                            );
                            has_nested_tags(&source, prefix.as_str(), infix.as_str())
                        },
                    };
                    match record_infix_as {
                        Some(key) => {
                            if unnested {
                                annotations.insert(key.clone(), Value::String(infix.clone()));
                            }
                        },
                        None => {},
                    }
                }
                true
            },
            InputTransform::DirectedExtract { output, key, from, sanitize } => {
                let found = {
                    let ctx = context(tags, annotations, parent_tags, setting);
                    match read_directed(&ctx, key.as_str(), *from, setting.left_hand_traffic) {
                        Some(raw) => eval_sanitize(sanitize, raw, setting.readings),
                        None => None,
                    }
                };
                match found {
                    Some(Value::String(s)) => {
                        put(tags, output.clone(), s);
                    },
                    _ => {},
                }
                true
            },
            InputTransform::StripPrefix { prefix, stamp_key, stamp_value, stamp_nested_under } => {
                strip_prefix(
                    tags,
                    prefix.as_str(),
                    stamp_key.as_str(),
                    stamp_value.as_str(),
                    stamp_nested_under,
                );
                true
            },
            InputTransform::Drop { when } => !eval(
                when,
                &context(tags, annotations, parent_tags, setting),
            ),
        }
    }
}

} // verus!
