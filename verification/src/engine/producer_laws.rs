//! What producers give of an object: which tags they read, in which order, and what they fall back
//! to.
use vstd::prelude::*;

use crate::assoc::lookup;
use crate::categorize::transform::direction;
use crate::classify::classifier::{no_macros, RuleV, SpecV};
use crate::classify::derive::traffic_mode;
use crate::classify::filter::{holds, CategoryCtxV, Side};
use crate::classify::laws::{first_rule_that_holds_counts, sides_are_tried_before_both};
use crate::classify::sanitize::sanitized_by;
use crate::engine::extract::{
    can_run, depth_does_not_matter, depth_of, first_produced, is_ready, list_ready, produced,
    produced_within, smoothness, CtxV, ProducedV, ProducerV, TagSet,
};
use crate::lang::extract::{first_set, lemma_first_set};
use crate::value::ValueV;

verus! {

// ── Reads ───────────────────────────────────────────────────────────────────────────────────

/// Whether these are the tags that a producer reads: the object's own, the parent's where there is a
/// parent, or the parent's where there is one and else the object's own.
pub open spec fn are_read(from: TagSet, c: CtxV, tags: Map<Seq<char>, Seq<char>>) -> bool {
    ||| from is Obj && tags == c.obj
    ||| from is Parent && c.parent == Some(tags)
    ||| from is ParentOrObj && (c.parent == Some(tags) || (c.parent is None && tags == c.obj))
}

/// A read of one key gives its value, and nothing where the key is not set. What comes with the
/// value is given with it.
pub proof fn one_key_is_read(
    key: Seq<char>,
    keys: Option<Seq<Seq<char>>>,
    from: TagSet,
    consts: Map<Seq<char>, ValueV>,
    c: CtxV,
    tags: Map<Seq<char>, Seq<char>>,
)
    requires
        are_read(from, c, tags),
    ensures
        produced(
            ProducerV::Extract {
                key: Some(key),
                keys,
                from,
                side: None,
                sanitize: None,
                consts,
                directed: false,
            },
            c,
        ) == (if tags.dom().contains(key) {
            Some(ProducedV { value: ValueV::String(tags[key]), consts })
        } else {
            None
        }),
{
    reveal_with_fuel(first_set, 3);
    assert(seq![key].skip(1) =~= Seq::<Seq<char>>::empty());
}

/// A read of several keys gives the value of the first that is set.
pub proof fn first_set_key_is_read(
    keys: Seq<Seq<char>>,
    i: int,
    from: TagSet,
    consts: Map<Seq<char>, ValueV>,
    c: CtxV,
    tags: Map<Seq<char>, Seq<char>>,
)
    requires
        are_read(from, c, tags),
        0 <= i <= keys.len(),
        forall|j: int| 0 <= j < i ==> !tags.dom().contains(#[trigger] keys[j]),
        i < keys.len() ==> tags.dom().contains(keys[i]),
    ensures
        produced(
            ProducerV::Extract {
                key: None,
                keys: Some(keys),
                from,
                side: None,
                sanitize: None,
                consts,
                directed: false,
            },
            c,
        ) == (if i < keys.len() {
            Some(ProducedV { value: ValueV::String(tags[keys[i]]), consts })
        } else {
            None
        }),
{
    lemma_first_set(tags, keys, i);
}

/// A read for a side gives the value of the side's own key, else that of both sides, else, on the
/// left only, that of the key without a side.
pub proof fn sided_keys_are_read(
    key: Seq<char>,
    side: Seq<char>,
    keys: Option<Seq<Seq<char>>>,
    from: TagSet,
    consts: Map<Seq<char>, ValueV>,
    c: CtxV,
    tags: Map<Seq<char>, Seq<char>>,
)
    requires
        are_read(from, c, tags),
    ensures
        ({
            let here = key + ":"@ + side;
            let both = key + ":both"@;
            produced(
                ProducerV::Extract {
                    key: Some(key),
                    keys,
                    from,
                    side: Some(side),
                    sanitize: None,
                    consts,
                    directed: false,
                },
                c,
            ) == (if tags.dom().contains(here) {
                Some(ProducedV { value: ValueV::String(tags[here]), consts })
            } else if tags.dom().contains(both) {
                Some(ProducedV { value: ValueV::String(tags[both]), consts })
            } else if side == "left"@ && tags.dom().contains(key) {
                Some(ProducedV { value: ValueV::String(tags[key]), consts })
            } else {
                None
            })
        }),
{
    sides_are_tried_before_both(tags, key, side, true);
}

/// A directed read gives the value of the key for the direction of the object's side, unless the
/// object has the key itself or stands for no side. One that reads the parent gives the parent's
/// value of the key itself first.
pub proof fn directed_keys_are_read(
    key: Seq<char>,
    keys: Option<Seq<Seq<char>>>,
    from: TagSet,
    side: Option<Seq<char>>,
    consts: Map<Seq<char>, ValueV>,
    c: CtxV,
)
    ensures
        ({
            let p = ProducerV::Extract {
                key: Some(key),
                keys,
                from,
                side,
                sanitize: None,
                consts,
                directed: true,
            };
            let way = direction(c.obj_side, c.left_hand_traffic);
            &&& c.obj.dom().contains(key) || way is None ==> produced(p, c) is None
            &&& !c.obj.dom().contains(key) && way is Some && !(from is Parent) ==> produced(p, c)
                == (if c.obj.dom().contains(key + way->0) {
                Some(ProducedV { value: ValueV::String(c.obj[key + way->0]), consts })
            } else {
                None
            })
            &&& from is Parent && c.parent is None ==> produced(p, c) is None
            &&& !c.obj.dom().contains(key) && way is Some && from is Parent && c.parent is Some
                ==> {
                let m = c.parent->0;
                produced(p, c) == (if m.dom().contains(key) {
                    Some(ProducedV { value: ValueV::String(m[key]), consts })
                } else if m.dom().contains(key + way->0) {
                    Some(ProducedV { value: ValueV::String(m[key + way->0]), consts })
                } else {
                    None
                })
            }
        }),
{
    let way = direction(c.obj_side, c.left_hand_traffic);
    if let Some(suffix) = way {
        let at = key + suffix;
        reveal_with_fuel(first_set, 4);
        assert(seq![at].skip(1) =~= Seq::<Seq<char>>::empty());
        assert(seq![key, at].skip(1) =~= seq![at]);
    }
}

/// Nothing is read of the parent where there is none.
pub proof fn no_parent_is_not_read(
    key: Option<Seq<char>>,
    keys: Option<Seq<Seq<char>>>,
    side: Option<Seq<char>>,
    sanitize: Option<Seq<char>>,
    consts: Map<Seq<char>, ValueV>,
    directed: bool,
    rules: Seq<RuleV>,
    default: Option<ValueV>,
    c: CtxV,
)
    requires
        c.parent is None,
    ensures
        produced(
            ProducerV::Extract {
                key,
                keys,
                from: TagSet::Parent,
                side,
                sanitize,
                consts,
                directed,
            },
            c,
        ) is None,
        produced(
            ProducerV::Classify { rules, default, from: TagSet::Parent, consts },
            c,
        ) is None,
{
}

/// A read through a sanitizer gives what the sanitizer makes of what is read without it, and nothing
/// where it drops it.
pub proof fn read_texts_are_sanitized(
    key: Option<Seq<char>>,
    keys: Option<Seq<Seq<char>>>,
    from: TagSet,
    side: Option<Seq<char>>,
    name: Seq<char>,
    consts: Map<Seq<char>, ValueV>,
    directed: bool,
    c: CtxV,
)
    ensures
        ({
            let plain = produced(
                ProducerV::Extract { key, keys, from, side, sanitize: None, consts, directed },
                c,
            );
            let clean = produced(
                ProducerV::Extract {
                    key,
                    keys,
                    from,
                    side,
                    sanitize: Some(name),
                    consts,
                    directed,
                },
                c,
            );
            match plain {
                None => clean is None,
                Some(p) => p.value matches ValueV::String(text) && clean == (match sanitized_by(
                    c.sanitizers,
                    name,
                    text,
                    c.readings,
                ) {
                    Some(value) => Some(ProducedV { value, consts }),
                    None => None,
                }),
            }
        }),
{
}

// ── Falling back ────────────────────────────────────────────────────────────────────────────

proof fn lemma_same_depth(p: ProducerV, c: CtxV, n: nat)
    requires
        is_ready(p, c, n),
    ensures
        can_run(p, c),
        produced(p, c) == produced_within(p, c, n),
{
    depth_does_not_matter(p, c, n, depth_of(p, c));
}

proof fn lemma_fallback(ps: Seq<ProducerV>, k: int, i: int, c: CtxV, n: nat)
    requires
        0 <= k <= i <= ps.len(),
        list_ready(ps, k, c, n),
        forall|j: int| 0 <= j < i ==> produced(#[trigger] ps[j], c) is None,
        i < ps.len() ==> produced(ps[i], c) is Some,
    ensures
        first_produced(ps, k, c, n) == (if i < ps.len() {
            produced(ps[i], c)
        } else {
            None
        }),
    decreases i - k,
{
    if k < ps.len() {
        lemma_same_depth(ps[k], c, n);
        if k < i {
            assert(produced(ps[k], c) is None);
            lemma_fallback(ps, k + 1, i, c, n);
        }
    }
}

/// A producer that falls back gives what the first of its producers gives that gives something.
pub proof fn first_that_gives_counts(ps: Seq<ProducerV>, i: int, c: CtxV)
    requires
        can_run(ProducerV::Fallback(ps), c),
        0 <= i <= ps.len(),
        forall|j: int| 0 <= j < i ==> produced(#[trigger] ps[j], c) is None,
        i < ps.len() ==> produced(ps[i], c) is Some,
    ensures
        produced(ProducerV::Fallback(ps), c) == (if i < ps.len() {
            produced(ps[i], c)
        } else {
            None
        }),
{
    let p = ProducerV::Fallback(ps);
    let n = depth_of(p, c);
    assert(is_ready(p, c, n));
    assert(list_ready(ps, 0, c, n));
    lemma_fallback(ps, 0, i, c, n);
}

// ── Rule tables ─────────────────────────────────────────────────────────────────────────────

/// What a rule table sees of an object: the tags that it reads, and nothing of sides or parents.
pub open spec fn plain_view(tags: Map<Seq<char>, Seq<char>>, c: CtxV) -> CategoryCtxV {
    CategoryCtxV {
        tags,
        side: Side::Self_,
        prefix: None,
        parent_highway: None,
        parent_tags: None,
        infix: None,
        sanitizers: c.sanitizers,
        value_sets: c.value_sets,
        readings: c.readings,
    }
}

/// A rule table gives what its first rule gives whose condition holds of the tags, or its default,
/// with what comes along. A shared table gives what the table of that name would give.
pub proof fn tables_give_the_first_rule(
    rules: Seq<RuleV>,
    i: int,
    default: Option<ValueV>,
    from: TagSet,
    consts: Map<Seq<char>, ValueV>,
    shared: Seq<char>,
    c: CtxV,
    tags: Map<Seq<char>, Seq<char>>,
)
    requires
        are_read(from, c, tags),
        0 <= i <= rules.len(),
        forall|j: int|
            0 <= j < i ==> !holds((#[trigger] rules[j]).when, plain_view(tags, c), no_macros()),
        i < rules.len() ==> holds(rules[i].when, plain_view(tags, c), no_macros()),
    ensures
        ({
            let r = produced(ProducerV::Classify { rules, default, from, consts }, c);
            &&& i == rules.len() ==> r == (match default {
                Some(value) => Some(ProducedV { value, consts }),
                None => None,
            })
            &&& i < rules.len() ==> {
                &&& rules[i].value matches SpecV::Const(value) ==> r == Some(
                    ProducedV { value, consts },
                )
                &&& rules[i].value matches SpecV::TagOr { tag_or, or } ==> r == Some(
                    ProducedV {
                        value: ValueV::String(
                            if tags.dom().contains(tag_or) {
                                tags[tag_or]
                            } else {
                                or
                            },
                        ),
                        consts,
                    },
                )
            }
            &&& lookup(c.classifiers, shared) matches Some(t) ==> (t.rules == rules && t.default
                == default ==> produced(ProducerV::SharedClassify { shared, from, consts }, c)
                == r)
        }),
{
    first_rule_that_holds_counts(rules, i, default, plain_view(tags, c));
}

// ── The traffic mode and the smoothness ─────────────────────────────────────────────────────

/// The traffic mode is told from the object's own tags, and from the parking of the way where the
/// object was split from one.
pub proof fn traffic_modes_read_the_parking_of_the_way(out_side: Seq<char>, c: CtxV)
    ensures
        ({
            let p = ProducerV::Derive { derive: "traffic_mode"@, out_side: Some(out_side) };
            let parking = match c.parent {
                Some(m) => m,
                None => c.obj,
            };
            let told = traffic_mode(
                c.obj,
                parking,
                c.parking_inference,
                c.obj_side,
                out_side,
                c.sanitizers,
                c.readings,
            );
            &&& told is None ==> produced(p, c) is None
            &&& told matches Some(text) ==> produced(p, c) == Some(
                ProducedV { value: ValueV::String(text), consts: Map::empty() },
            )
        }),
{
}

/// Whether a value says that it comes from a source.
pub open spec fn comes_from(p: ProducedV, source: Seq<char>) -> bool {
    p.consts.dom().contains("source"@) && p.consts["source"@] == ValueV::String(source)
}

/// The smoothness of an object is its own where that comes from a tag, where the object's surface is
/// another than the way's, and where there is no way.
pub proof fn own_smoothness_stands(q: ProducerV, c: CtxV)
    requires
        lookup(c.derivers, "smoothness"@) == Some(q),
        can_run(ProducerV::Derive { derive: "smoothness_parent"@, out_side: None }, c),
        ({
            let own = produced(q, c);
            ||| c.parent is None
            ||| own is Some && (comes_from(own->0, "tag"@) || comes_from(
                own->0,
                "tag_normalized"@,
            ))
            ||| c.obj.dom().contains("surface"@) && !(c.parent->0.dom().contains("surface"@)
                && c.parent->0["surface"@] == c.obj["surface"@])
            ||| own is Some && !c.obj.dom().contains("surface"@)
        }),
    ensures
        produced(ProducerV::Derive { derive: "smoothness_parent"@, out_side: None }, c) == produced(
            q,
            c,
        ),
{
    lemma_smoothness(q, c);
}

/// The smoothness of an object that has none is that of its way, where the object has no surface of
/// its own or the same one; so is one that does not come from a tag, where the surface is the same.
/// Its source is marked as the way's.
pub proof fn smoothness_is_taken_from_the_way(q: ProducerV, c: CtxV, m: Map<Seq<char>, Seq<char>>)
    requires
        lookup(c.derivers, "smoothness"@) == Some(q),
        can_run(ProducerV::Derive { derive: "smoothness_parent"@, out_side: None }, c),
        c.parent == Some(m),
        produced(q, CtxV { obj: m, ..c }) is Some,
        ({
            let own = produced(q, c);
            let same = c.obj.dom().contains("surface"@) && m.dom().contains("surface"@)
                && c.obj["surface"@] == m["surface"@];
            ||| own is None && (!c.obj.dom().contains("surface"@) || same)
            ||| own is Some && !comes_from(own->0, "tag"@) && !comes_from(
                own->0,
                "tag_normalized"@,
            ) && same
        }),
    ensures
        ({
            let r = produced(
                ProducerV::Derive { derive: "smoothness_parent"@, out_side: None },
                c,
            );
            let par = produced(q, CtxV { obj: m, ..c })->0;
            &&& r is Some
            &&& r->0.value == par.value
            &&& forall|s: Seq<char>| #[trigger]
                comes_from(par, s) ==> comes_from(r->0, "parent_highway_"@ + s)
            &&& forall|k: Seq<char>|
                k != "source"@ ==> #[trigger] r->0.consts.dom().contains(k)
                    == par.consts.dom().contains(k) && r->0.consts[k] == par.consts[k]
        }),
{
    lemma_smoothness(q, c);
}

proof fn lemma_smoothness(q: ProducerV, c: CtxV)
    requires
        lookup(c.derivers, "smoothness"@) == Some(q),
        can_run(ProducerV::Derive { derive: "smoothness_parent"@, out_side: None }, c),
    ensures
        produced(ProducerV::Derive { derive: "smoothness_parent"@, out_side: None }, c)
            == smoothness(
            produced(q, c),
            match c.parent {
                Some(m) => produced(q, c.at_parent(m)),
                None => None,
            },
            c,
        ),
{
    reveal_strlit("traffic_mode");
    reveal_strlit("smoothness_parent");
    assert("traffic_mode"@[0] == 't' && "smoothness_parent"@[0] == 's');
    let p = ProducerV::Derive { derive: "smoothness_parent"@, out_side: None };
    let n = depth_of(p, c);
    assert(is_ready(p, c, n));
    lemma_same_depth(q, c, (n - 1) as nat);
    if let Some(m) = c.parent {
        lemma_same_depth(q, c.at_parent(m), (n - 1) as nat);
    }
}

} // verus!
