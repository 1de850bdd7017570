//! What the rows of an element say: which objects have one, what conditions and producers see of
//! them, and which values stand in their columns.
use vstd::prelude::*;

use crate::assoc::lookup;
use crate::classify::categories::{
    category_of, first_match, first_zoom, zoom_of, CategoriesFile, CategoryDef, MinzoomCase,
    MinzoomRule,
};
use crate::classify::filter::{holds, macros_view, CategoryCtxV, FilterV, Side};
use crate::engine::extract::{produced, CtxV, ProducerV, TagSet};
use crate::engine::runner::{
    are_rows, categories_for, categorized, const_companions, derived_fields, derived_row,
    derivers_of, fields_into, fields_or_none, first_of_kind, is_left_out, is_row, object_category,
    outputs, read, rewrites_for, row_id, seeded, seen, splits_for, with_companions, written_outputs,
    MetaV, TopicRow, TransformedObject, World,
};
use crate::engine::topic::{fields_view, FieldV};
use crate::engine::topic_runner::{named_fields, named_lists, ElementKind, TopicRunner};
use crate::json::{in_order, key_order, keys_have_an_order};
use crate::lang::extract::first_set;
use crate::model::Model;
use crate::tags::tag_map;
use crate::text::{lex_lt, lex_lt_trichotomy, spelled};
use crate::value::{is_under, ValueV};

verus! {

// ── What is seen of an object ───────────────────────────────────────────────────────────────

/// Conditions and producers see an object's own tags, and as those of its parent the tags of the
/// element itself, which is the first object; an object that was not split off has no parent.
pub proof fn split_objects_see_the_way(
    objs: Seq<TransformedObject>,
    i: int,
    cat: CategoryDef,
    t: TopicRunner,
    w: World,
)
    ensures
        seen(objs, i, t, w).tags == tag_map(objs[i].tags),
        read(objs, i, cat, t, w).obj == tag_map(objs[i].tags),
        objs[i].parent_highway is Some ==> seen(objs, i, t, w).parent_tags == Some(
            tag_map(objs[0].tags),
        ),
        objs[i].parent_highway is Some ==> read(objs, i, cat, t, w).parent == Some(
            tag_map(objs[0].tags),
        ),
        objs[i].parent_highway is None ==> seen(objs, i, t, w).parent_tags is None,
        objs[i].parent_highway is None ==> read(objs, i, cat, t, w).parent is None,
        seen(objs, i, t, w).side == objs[i].side,
        seen(objs, i, t, w).prefix == objs[i].prefix.model(),
        seen(objs, i, t, w).infix == objs[i].infix.model(),
        objs[i].side == Side::Self_ ==> read(objs, i, cat, t, w).obj_side == "self"@,
        objs[i].side == Side::Left ==> read(objs, i, cat, t, w).obj_side == "left"@,
        objs[i].side == Side::Right ==> read(objs, i, cat, t, w).obj_side == "right"@,
        read(objs, i, cat, t, w).left_hand_traffic == w.left_hand_traffic,
        cat.parking_inference is None ==> read(objs, i, cat, t, w).parking_inference is None,
        cat.parking_inference matches Some(s) ==> read(objs, i, cat, t, w).parking_inference
            == Some(s@),
        seen(objs, i, t, w).sanitizers == t.sanitizers@,
        read(objs, i, cat, t, w).sanitizers == t.sanitizers@,
{
}

/// Two runs whose split objects differ only in their own tags see the same parent tags.
pub proof fn own_tags_do_not_change_the_parent(
    a: Seq<TransformedObject>,
    b: Seq<TransformedObject>,
    i: int,
    cat: CategoryDef,
    t: TopicRunner,
    w: World,
)
    requires
        tag_map(a[0].tags) == tag_map(b[0].tags),
        a[i].parent_highway.model() == b[i].parent_highway.model(),
    ensures
        seen(a, i, t, w).parent_tags == seen(b, i, t, w).parent_tags,
        read(a, i, cat, t, w).parent == read(b, i, cat, t, w).parent,
{
}

/// The topic has one category for a kind of element, with this condition, and leaves the element
/// in.
pub open spec fn asks_only(
    t: TopicRunner,
    kind: ElementKind,
    tags: Map<Seq<char>, Seq<char>>,
    w: World,
    f: FilterV,
) -> bool {
    match categories_for(t, kind) {
        Some(cats) => {
            &&& !is_left_out(t, cats, tags, w)
            &&& cats.order@.len() == 1
            &&& cats.order@[0] is Category
            &&& cats.categories@[cats.order@[0]->idx as int].condition@ == f
        },
        None => false,
    }
}

/// How many of the first `n` objects were split off.
pub open spec fn split_count(objs: Seq<TransformedObject>, n: int) -> nat
    decreases n,
{
    if n <= 0 {
        0
    } else {
        split_count(objs, n - 1) + if objs[n - 1].parent_highway is Some {
            1nat
        } else {
            0nat
        }
    }
}

/// How many of the first `n` objects have a tag with a value.
pub open spec fn tagged_count(objs: Seq<TransformedObject>, n: int, k: Seq<char>, v: Seq<char>) -> nat
    decreases n,
{
    if n <= 0 {
        0
    } else {
        tagged_count(objs, n - 1, k, v) + if tag_map(objs[n - 1].tags).dom().contains(k) && tag_map(
            objs[n - 1].tags,
        )[k] == v {
            1nat
        } else {
            0nat
        }
    }
}

proof fn lemma_only_category(
    t: TopicRunner,
    cats: CategoriesFile,
    objs: Seq<TransformedObject>,
    i: int,
    w: World,
)
    requires
        cats.order@.len() == 1,
        cats.order@[0] is Category,
    ensures
        object_category(t, cats, objs, i, w) == (if holds(
            cats.categories@[cats.order@[0]->idx as int].condition@,
            seen(objs, i, t, w),
            macros_view(cats.macros@),
        ) {
            Some(cats.order@[0]->idx as int)
        } else {
            None
        }),
{
    reveal_with_fuel(first_match, 3);
}

/// A condition on a tag of the parent holds of a split object exactly where the way itself has that
/// tag with that value: then every split object has a row, else none has.
pub proof fn parent_conditions_ask_the_way(
    rows: Seq<TopicRow>,
    t: TopicRunner,
    kind: ElementKind,
    osm_id: i64,
    tags: Map<Seq<char>, Seq<char>>,
    objs: Seq<TransformedObject>,
    meta: MetaV,
    w: World,
    k: Seq<char>,
    v: Seq<char>,
)
    requires
        are_rows(rows, t, kind, osm_id, tags, objs, meta, w),
        asks_only(
            t,
            kind,
            tags,
            w,
            FilterV::ParentTagEq { parent_tag: k, eq: v, sanitize: None },
        ),
    ensures
        rows.len() == (if tag_map(objs[0].tags).dom().contains(k) && tag_map(objs[0].tags)[k]
            == v {
            split_count(objs, objs.len() as int)
        } else {
            0
        }),
{
    let cats = categories_for(t, kind)->0;
    lemma_parent_count(t, cats, objs, objs.len() as int, w, k, v);
}

proof fn lemma_parent_count(
    t: TopicRunner,
    cats: CategoriesFile,
    objs: Seq<TransformedObject>,
    n: int,
    w: World,
    k: Seq<char>,
    v: Seq<char>,
)
    requires
        0 <= n <= objs.len(),
        cats.order@.len() == 1,
        cats.order@[0] is Category,
        cats.categories@[cats.order@[0]->idx as int].condition@ == (FilterV::ParentTagEq {
            parent_tag: k,
            eq: v,
            sanitize: None,
        }),
    ensures
        categorized(t, cats, objs, n, w).len() == (if tag_map(objs[0].tags).dom().contains(k)
            && tag_map(objs[0].tags)[k] == v {
            split_count(objs, n)
        } else {
            0
        }),
    decreases n,
{
    if n > 0 {
        lemma_parent_count(t, cats, objs, n - 1, w, k, v);
        lemma_only_category(t, cats, objs, n - 1, w);
    }
}

/// A condition on a tag holds of an object exactly where the object itself has that tag with that
/// value: every such object has a row, and no other.
pub proof fn own_conditions_ask_the_object(
    rows: Seq<TopicRow>,
    t: TopicRunner,
    kind: ElementKind,
    osm_id: i64,
    tags: Map<Seq<char>, Seq<char>>,
    objs: Seq<TransformedObject>,
    meta: MetaV,
    w: World,
    k: Seq<char>,
    v: Seq<char>,
)
    requires
        are_rows(rows, t, kind, osm_id, tags, objs, meta, w),
        asks_only(t, kind, tags, w, FilterV::TagEq { tag: k, eq: v, sanitize: None }),
    ensures
        rows.len() == tagged_count(objs, objs.len() as int, k, v),
{
    let cats = categories_for(t, kind)->0;
    lemma_own_count(t, cats, objs, objs.len() as int, w, k, v);
}

proof fn lemma_own_count(
    t: TopicRunner,
    cats: CategoriesFile,
    objs: Seq<TransformedObject>,
    n: int,
    w: World,
    k: Seq<char>,
    v: Seq<char>,
)
    requires
        0 <= n <= objs.len(),
        cats.order@.len() == 1,
        cats.order@[0] is Category,
        cats.categories@[cats.order@[0]->idx as int].condition@ == (FilterV::TagEq {
            tag: k,
            eq: v,
            sanitize: None,
        }),
    ensures
        categorized(t, cats, objs, n, w).len() == tagged_count(objs, n, k, v),
    decreases n,
{
    if n > 0 {
        lemma_own_count(t, cats, objs, n - 1, w, k, v);
        lemma_only_category(t, cats, objs, n - 1, w);
    }
}

// ── Which objects have a row ────────────────────────────────────────────────────────────────

/// An element whose own tags meet the exclude condition has no row, whatever its objects are; so has
/// one of a kind that the topic has no categories for.
pub proof fn excluded_elements_have_no_rows(
    rows: Seq<TopicRow>,
    t: TopicRunner,
    kind: ElementKind,
    osm_id: i64,
    tags: Map<Seq<char>, Seq<char>>,
    objs: Seq<TransformedObject>,
    meta: MetaV,
    w: World,
    k: Seq<char>,
    v: Seq<char>,
)
    requires
        are_rows(rows, t, kind, osm_id, tags, objs, meta, w),
        (t.spec.exclude_condition is Some && t.spec.exclude_condition->0@ == (FilterV::TagEq {
            tag: k,
            eq: v,
            sanitize: None,
        }) && tags.dom().contains(k) && tags[k] == v) || (forall|i: int|
            0 <= i < t.categories@.len() ==> (#[trigger] t.categories@[i]).0 != kind),
    ensures
        rows.len() == 0,
{
    if forall|i: int| 0 <= i < t.categories@.len() ==> (#[trigger] t.categories@[i]).0 != kind {
        lemma_no_kind(t, kind, 0);
    }
}

proof fn lemma_no_kind(t: TopicRunner, kind: ElementKind, k: int)
    requires
        0 <= k <= t.categories@.len(),
        forall|i: int| 0 <= i < t.categories@.len() ==> (#[trigger] t.categories@[i]).0 != kind,
    ensures
        first_of_kind(t.categories@, k, kind) is None,
    decreases t.categories@.len() - k,
{
    if k < t.categories@.len() {
        lemma_no_kind(t, kind, k + 1);
    }
}

/// An element has no row where the exclude condition holds of its own tags alone, seen without a side
/// and without a parent.
pub proof fn exclude_condition_asks_the_own_tags(
    rows: Seq<TopicRow>,
    t: TopicRunner,
    kind: ElementKind,
    osm_id: i64,
    tags: Map<Seq<char>, Seq<char>>,
    objs: Seq<TransformedObject>,
    meta: MetaV,
    w: World,
    cats: CategoriesFile,
)
    requires
        are_rows(rows, t, kind, osm_id, tags, objs, meta, w),
        categories_for(t, kind) == Some(cats),
        t.spec.exclude_condition is Some,
        holds(
            t.spec.exclude_condition->0@,
            CategoryCtxV {
                tags,
                side: Side::Self_,
                prefix: None,
                parent_highway: None,
                parent_tags: None,
                infix: None,
                sanitizers: t.sanitizers@,
                value_sets: w.value_sets@,
                readings: w.readings@,
            },
            macros_view(cats.macros@),
        ),
    ensures
        rows.len() == 0,
{
}

/// The categories of a kind are those of the first entry for it.
pub proof fn first_entry_of_a_kind_counts(t: TopicRunner, i: int)
    requires
        0 <= i < t.categories@.len(),
        forall|j: int| 0 <= j < i ==> (#[trigger] t.categories@[j]).0 != t.categories@[i].0,
    ensures
        categories_for(t, t.categories@[i].0) == Some(t.categories@[i].1),
{
    lemma_first_kind(t, 0, i);
}

proof fn lemma_first_kind(t: TopicRunner, k: int, i: int)
    requires
        0 <= k <= i < t.categories@.len(),
        forall|j: int| 0 <= j < i ==> (#[trigger] t.categories@[j]).0 != t.categories@[i].0,
    ensures
        first_of_kind(t.categories@, k, t.categories@[i].0) == Some(t.categories@[i].1),
    decreases i - k,
{
    if k < i {
        assert(t.categories@[k].0 != t.categories@[i].0);
        lemma_first_kind(t, k + 1, i);
    }
}

/// The exclude condition sees the element without sides and parents: a condition on a parent's tag or
/// on a side never leaves an element out.
pub proof fn exclude_condition_sees_no_parent(
    t: TopicRunner,
    cats: CategoriesFile,
    tags: Map<Seq<char>, Seq<char>>,
    w: World,
    k: Seq<char>,
    v: Seq<char>,
)
    requires
        t.spec.exclude_condition is Some,
        t.spec.exclude_condition->0@ == (FilterV::ParentTagEq {
            parent_tag: k,
            eq: v,
            sanitize: None,
        }) || t.spec.exclude_condition->0@ == (FilterV::Prefix { prefix: v }),
    ensures
        !is_left_out(t, cats, tags, w),
{
}

proof fn lemma_categorized(
    t: TopicRunner,
    cats: CategoriesFile,
    objs: Seq<TransformedObject>,
    n: int,
    w: World,
)
    requires
        0 <= n <= objs.len(),
    ensures
        ({
            let kept = categorized(t, cats, objs, n, w);
            &&& forall|k: int|
                0 <= k < kept.len() ==> 0 <= #[trigger] kept[k] < n && object_category(
                    t,
                    cats,
                    objs,
                    kept[k],
                    w,
                ) is Some
            &&& forall|k: int, l: int|
                0 <= k < l < kept.len() ==> #[trigger] kept[k] < #[trigger] kept[l]
            &&& forall|i: int|
                0 <= i < n && (#[trigger] object_category(t, cats, objs, i, w)) is Some
                    ==> kept.contains(i)
        }),
    decreases n,
{
    if n > 0 {
        lemma_categorized(t, cats, objs, n - 1, w);
        let before = categorized(t, cats, objs, n - 1, w);
        let kept = categorized(t, cats, objs, n, w);
        assert forall|i: int|
            0 <= i < n && (#[trigger] object_category(t, cats, objs, i, w)) is Some implies kept.contains(
            i,
        ) by {
            if i < n - 1 {
                let k = before.index_of(i);
                assert(kept[k] == i);
            } else {
                assert(kept[before.len() as int] == i);
            }
        }
    }
}

/// Where the topic does not leave the element out, the rows are those of the objects that fall into a
/// category: one each, in the order of the objects, under the object's id, with the category's name.
pub proof fn every_categorized_object_has_a_row(
    rows: Seq<TopicRow>,
    t: TopicRunner,
    kind: ElementKind,
    osm_id: i64,
    tags: Map<Seq<char>, Seq<char>>,
    objs: Seq<TransformedObject>,
    meta: MetaV,
    w: World,
    cats: CategoriesFile,
) -> (at: Seq<int>)
    requires
        are_rows(rows, t, kind, osm_id, tags, objs, meta, w),
        categories_for(t, kind) == Some(cats),
        !is_left_out(t, cats, tags, w),
    ensures
        at.len() == rows.len(),
        forall|k: int, l: int| 0 <= k < l < at.len() ==> #[trigger] at[k] < #[trigger] at[l],
        forall|i: int|
            0 <= i < objs.len() ==> (#[trigger] at.contains(i) <==> category_of(
                cats.order@,
                cats.categories@,
                seen(objs, i, t, w),
                macros_view(cats.macros@),
            ) is Some),
        forall|k: int|
            #![trigger rows[k]]
            0 <= k < rows.len() ==> {
                let cat = cats.categories@[category_of(
                    cats.order@,
                    cats.categories@,
                    seen(objs, at[k], t, w),
                    macros_view(cats.macros@),
                )->0];
                &&& 0 <= at[k] < objs.len()
                &&& rows[k].osm_id == osm_id
                &&& rows[k].meta@ == meta
                &&& rows[k].id@ == row_id(kind, osm_id, objs[at[k]])
                &&& rows[k].derived@["category"@] == ValueV::String(cat.id@)
                &&& rows[k].derived@["id"@] == ValueV::String(rows[k].id@)
                &&& is_row(rows[k], t, kind, osm_id, cats, cat, objs, at[k], meta, w)
            },
{
    let kept = categorized(t, cats, objs, objs.len() as int, w);
    lemma_categorized(t, cats, objs, objs.len() as int, w);
    assert forall|i: int| 0 <= i < objs.len() implies (#[trigger] kept.contains(i)
        <==> category_of(
        cats.order@,
        cats.categories@,
        seen(objs, i, t, w),
        macros_view(cats.macros@),
    ) is Some) by {
        assert(object_category(t, cats, objs, i, w) == category_of(
            cats.order@,
            cats.categories@,
            seen(objs, i, t, w),
            macros_view(cats.macros@),
        ));
        if kept.contains(i) {
            let k = kept.index_of(i);
            assert(kept[k] == i);
        }
    }
    reveal_strlit("category");
    reveal_strlit("id");
    assert("category"@.len() != "id"@.len());
    kept
}

/// A row of the element itself is named after its kind and number; a row of a side also after the
/// prefix that the side was split by and the side.
pub proof fn row_ids_name_kind_number_and_side(osm_id: i64, obj: TransformedObject)
    ensures
        obj.side == Side::Self_ ==> {
            &&& row_id(ElementKind::Way, osm_id, obj) == "way"@ + "/"@ + spelled(osm_id as int)
            &&& row_id(ElementKind::Node, osm_id, obj) == "node"@ + "/"@ + spelled(osm_id as int)
            &&& row_id(ElementKind::Relation, osm_id, obj) == "relation"@ + "/"@ + spelled(
                osm_id as int,
            )
        },
        obj.side == Side::Left && obj.prefix is Some ==> row_id(ElementKind::Way, osm_id, obj)
            == "way"@ + "/"@ + spelled(osm_id as int) + "/"@ + obj.prefix->0@ + "/left"@,
        obj.side == Side::Right && obj.prefix is Some ==> row_id(ElementKind::Way, osm_id, obj)
            == "way"@ + "/"@ + spelled(osm_id as int) + "/"@ + obj.prefix->0@ + "/right"@,
        obj.side == Side::Left && obj.prefix is None ==> row_id(ElementKind::Way, osm_id, obj)
            == "way"@ + "/"@ + spelled(osm_id as int) + "/"@ + "cycleway"@ + "/left"@,
{
}

/// Tag rewrites and splits into sides are for ways: all of a topic's apply to a way, none to a node or
/// a relation.
pub proof fn only_ways_are_rewritten_and_split(t: TopicRunner)
    ensures
        rewrites_for(t, ElementKind::Way) == t.pipeline@.tag_transforms,
        splits_for(t, ElementKind::Way) == t.pipeline@.transformations,
        rewrites_for(t, ElementKind::Node).len() == 0,
        rewrites_for(t, ElementKind::Relation).len() == 0,
        splits_for(t, ElementKind::Node).len() == 0,
        splits_for(t, ElementKind::Relation).len() == 0,
{
}

// ── What stands in the columns ──────────────────────────────────────────────────────────────

/// Whether a field writes under a key: its value under its output, or what comes with the value under
/// the output, an underscore and the name.
pub open spec fn writes(f: FieldV, c: CtxV, q: Seq<char>) -> bool {
    match produced(f.source, c) {
        Some(p) => q == f.output || is_under(q, f.output + "_"@, p.consts),
        None => false,
    }
}

proof fn lemma_not_written(m: Map<Seq<char>, ValueV>, fs: Seq<FieldV>, n: int, c: CtxV, q: Seq<char>)
    requires
        0 <= n <= fs.len(),
        forall|i: int| 0 <= i < n ==> !writes(#[trigger] fs[i], c, q),
    ensures
        fields_into(m, fs, n, c).dom().contains(q) == m.dom().contains(q),
        m.dom().contains(q) ==> fields_into(m, fs, n, c)[q] == m[q],
    decreases n,
{
    if n > 0 {
        lemma_not_written(m, fs, n - 1, c, q);
        assert(!writes(fs[n - 1], c, q));
    }
}

proof fn lemma_written_last(
    m: Map<Seq<char>, ValueV>,
    fs: Seq<FieldV>,
    n: int,
    c: CtxV,
    j: int,
    q: Seq<char>,
)
    requires
        0 <= j < n <= fs.len(),
        writes(fs[j], c, q),
        forall|i: int| j < i < n ==> !writes(#[trigger] fs[i], c, q),
    ensures
        fields_into(m, fs, n, c).dom().contains(q),
        fields_into(m, fs, n, c)[q] == written_by(fs[j], c, q),
    decreases n,
{
    if n - 1 > j {
        lemma_written_last(m, fs, n - 1, c, j, q);
        assert(!writes(fs[n - 1], c, q));
    }
}

/// What a field writes under a key.
pub open spec fn written_by(f: FieldV, c: CtxV, q: Seq<char>) -> ValueV {
    let p = produced(f.source, c)->0;
    let under = f.output + "_"@;
    if is_under(q, under, p.consts) {
        p.consts[q.subrange(under.len() as int, q.len() as int)]
    } else {
        p.value
    }
}

proof fn lemma_no_companion(
    m: Map<Seq<char>, ValueV>,
    list: Seq<(Seq<char>, ValueV)>,
    written: Seq<Seq<char>>,
    q: Seq<char>,
)
    requires
        forall|i: int|
            0 <= i < list.len() && !written.contains((#[trigger] list[i]).0) && const_companions(
                list[i].1,
            ) is Some ==> !is_under(q, list[i].0 + "_"@, const_companions(list[i].1)->0),
    ensures
        with_companions(m, list, written).dom().contains(q) == m.dom().contains(q),
        m.dom().contains(q) ==> with_companions(m, list, written)[q] == m[q],
    decreases list.len(),
{
    if list.len() > 0 {
        let rest = list.drop_last();
        assert forall|i: int|
            0 <= i < rest.len() && !written.contains((#[trigger] rest[i]).0) && const_companions(
                rest[i].1,
            ) is Some implies !is_under(q, rest[i].0 + "_"@, const_companions(rest[i].1)->0) by {
            assert(rest[i] == list[i]);
        }
        lemma_no_companion(m, rest, written, q);
        assert(list[list.len() - 1] == list.last());
    }
}

/// The fields that fill the derived columns of a category: the sanitizers, then the derivers.
pub open spec fn column_fields(t: TopicRunner, cat: CategoryDef) -> Seq<FieldV> {
    fields_view(t.sanitizer_fields@) + derivers_of(t, cat.id@)
}

/// The constants of a category.
pub open spec fn constants(t: TopicRunner, cat: CategoryDef) -> Map<Seq<char>, ValueV> {
    fields_or_none(named_fields(t.category_consts@), cat.id@)
}

proof fn lemma_in_two_steps(
    m: Map<Seq<char>, ValueV>,
    a: Seq<FieldV>,
    b: Seq<FieldV>,
    n: int,
    c: CtxV,
)
    requires
        0 <= n <= b.len(),
    ensures
        fields_into(m, a + b, a.len() + n, c) == fields_into(
            fields_into(m, a, a.len() as int, c),
            b,
            n,
            c,
        ),
        outputs(a + b, a.len() + n, c) == outputs(a, a.len() as int, c) + outputs(b, n, c),
    decreases n,
{
    if n == 0 {
        lemma_front(m, a, b, a.len() as int, c);
        assert(outputs(a, a.len() as int, c) + outputs(b, 0, c) =~= outputs(a, a.len() as int, c));
    } else {
        lemma_in_two_steps(m, a, b, n - 1, c);
        assert((a + b)[a.len() + n - 1] == b[n - 1]);
        assert(outputs(a + b, a.len() + n, c) =~= outputs(a, a.len() as int, c) + outputs(
            b,
            n,
            c,
        ));
    }
}

proof fn lemma_front(m: Map<Seq<char>, ValueV>, a: Seq<FieldV>, b: Seq<FieldV>, n: int, c: CtxV)
    requires
        0 <= n <= a.len(),
    ensures
        fields_into(m, a + b, n, c) == fields_into(m, a, n, c),
        outputs(a + b, n, c) == outputs(a, n, c),
    decreases n,
{
    if n > 0 {
        lemma_front(m, a, b, n - 1, c);
        assert((a + b)[n - 1] == a[n - 1]);
    }
}

proof fn lemma_outputs(fs: Seq<FieldV>, n: int, c: CtxV, k: Seq<char>)
    requires
        0 <= n <= fs.len(),
    ensures
        outputs(fs, n, c).contains(k) <==> exists|j: int|
            0 <= j < n && (#[trigger] fs[j]).output == k && produced(fs[j].source, c) is Some,
    decreases n,
{
    if n > 0 {
        lemma_outputs(fs, n - 1, c, k);
        let before = outputs(fs, n - 1, c);
        if before.contains(k) {
            let i = before.index_of(k);
            assert(outputs(fs, n, c)[i] == k);
        }
        if produced(fs[n - 1].source, c) is Some {
            assert(outputs(fs, n, c)[before.len() as int] == fs[n - 1].output);
            if outputs(fs, n, c).contains(k) && fs[n - 1].output != k {
                let i = outputs(fs, n, c).index_of(k);
                assert(before[i] == k);
            }
        }
    }
}

/// Whether a constant stands alone: no field of the category gives a value for it.
pub open spec fn stands_alone(t: TopicRunner, cat: CategoryDef, c: CtxV, k: Seq<char>) -> bool {
    forall|j: int|
        0 <= j < column_fields(t, cat).len() && (#[trigger] column_fields(t, cat)[j]).output == k
            ==> produced(column_fields(t, cat)[j].source, c) is None
}

/// Whether what comes with a constant that stands alone is put under a key.
pub open spec fn accompanies(t: TopicRunner, cat: CategoryDef, c: CtxV, q: Seq<char>) -> bool {
    exists|k: Seq<char>| #[trigger]
        constants(t, cat).dom().contains(k) && stands_alone(t, cat, c, k) && const_companions(
            constants(t, cat)[k],
        ) is Some && is_under(q, k + "_"@, const_companions(constants(t, cat)[k])->0)
}

proof fn lemma_columns(t: TopicRunner, cat: CategoryDef, c: CtxV, id: Seq<char>, q: Seq<char>)
    requires
        constants(t, cat).dom().finite(),
        !accompanies(t, cat, c, q),
        q != "category"@,
        q != "id"@,
    ensures
        ({
            let fs = column_fields(t, cat);
            let all = fields_into(seeded(constants(t, cat)), fs, fs.len() as int, c);
            &&& derived_row(t, cat, c, id).dom().contains(q) == all.dom().contains(q)
            &&& all.dom().contains(q) ==> derived_row(t, cat, c, id)[q] == all[q]
        }),
{
    let consts = constants(t, cat);
    let sf = fields_view(t.sanitizer_fields@);
    let df = derivers_of(t, cat.id@);
    lemma_in_two_steps(seeded(consts), sf, df, df.len() as int, c);
    let list = in_order(consts);
    let ks = key_order(consts);
    keys_have_an_order(consts);
    let written = written_outputs(t, cat, c);
    assert forall|i: int|
        0 <= i < list.len() && !written.contains((#[trigger] list[i]).0) && const_companions(
            list[i].1,
        ) is Some implies !is_under(q, list[i].0 + "_"@, const_companions(list[i].1)->0) by {
        assert(list[i] == (ks[i], consts[ks[i]]));
        assert(ks.to_set().contains(ks[i]));
        lemma_outputs(sf + df, (sf + df).len() as int, c, ks[i]);
        assert(consts.dom().contains(ks[i]));
        assert(stands_alone(t, cat, c, ks[i]));
    }
    lemma_no_companion(derived_fields(t, cat, c), list, written, q);
}

/// What a sanitizer or a deriver gives for an output stands in the row, over every constant and over
/// what earlier fields gave, where no later field writes that key: a constant is only a default.
pub proof fn produced_values_stand_over_constants(
    row: TopicRow,
    t: TopicRunner,
    kind: ElementKind,
    osm_id: i64,
    cats: CategoriesFile,
    cat: CategoryDef,
    objs: Seq<TransformedObject>,
    i: int,
    meta: MetaV,
    w: World,
    j: int,
)
    requires
        is_row(row, t, kind, osm_id, cats, cat, objs, i, meta, w),
        constants(t, cat).dom().finite(),
        0 <= j < column_fields(t, cat).len(),
        ({
            let c = read(objs, i, cat, t, w);
            let fs = column_fields(t, cat);
            let q = fs[j].output;
            &&& produced(fs[j].source, c) is Some
            &&& !is_under(q, q + "_"@, produced(fs[j].source, c)->0.consts)
            &&& forall|l: int| j < l < fs.len() ==> !writes(#[trigger] fs[l], c, q)
            &&& !accompanies(t, cat, c, q)
            &&& q != "category"@
            &&& q != "id"@
        }),
    ensures
        row.derived@.dom().contains(column_fields(t, cat)[j].output),
        row.derived@[column_fields(t, cat)[j].output] == produced(
            column_fields(t, cat)[j].source,
            read(objs, i, cat, t, w),
        )->0.value,
{
    let c = read(objs, i, cat, t, w);
    let fs = column_fields(t, cat);
    let q = fs[j].output;
    lemma_columns(t, cat, c, row_id(kind, osm_id, objs[i]), q);
    lemma_written_last(seeded(constants(t, cat)), fs, fs.len() as int, c, j, q);
}

/// What comes with a produced value stands under the output, an underscore and the name, where no
/// later field writes that key.
pub proof fn companions_stand_under_the_output(
    row: TopicRow,
    t: TopicRunner,
    kind: ElementKind,
    osm_id: i64,
    cats: CategoriesFile,
    cat: CategoryDef,
    objs: Seq<TransformedObject>,
    i: int,
    meta: MetaV,
    w: World,
    j: int,
    name: Seq<char>,
)
    requires
        is_row(row, t, kind, osm_id, cats, cat, objs, i, meta, w),
        constants(t, cat).dom().finite(),
        0 <= j < column_fields(t, cat).len(),
        ({
            let c = read(objs, i, cat, t, w);
            let fs = column_fields(t, cat);
            let q = fs[j].output + "_"@ + name;
            &&& produced(fs[j].source, c) is Some
            &&& produced(fs[j].source, c)->0.consts.dom().contains(name)
            &&& forall|l: int| j < l < fs.len() ==> !writes(#[trigger] fs[l], c, q)
            &&& !accompanies(t, cat, c, q)
            &&& q != "category"@
            &&& q != "id"@
        }),
    ensures
        ({
            let f = column_fields(t, cat)[j];
            let q = f.output + "_"@ + name;
            &&& row.derived@.dom().contains(q)
            &&& row.derived@[q] == produced(
                f.source,
                read(objs, i, cat, t, w),
            )->0.consts[name]
        }),
{
    let c = read(objs, i, cat, t, w);
    let fs = column_fields(t, cat);
    let under = fs[j].output + "_"@;
    let q = under + name;
    assert(q.subrange(under.len() as int, q.len() as int) =~= name);
    assert(is_under(q, under, produced(fs[j].source, c)->0.consts));
    lemma_columns(t, cat, c, row_id(kind, osm_id, objs[i]), q);
    lemma_written_last(seeded(constants(t, cat)), fs, fs.len() as int, c, j, q);
}

/// A constant stands in the row under its key exactly where no field writes that key: it has its own
/// value, or the `value` of an object that has one. A key that no constant and no field gives is
/// not there.
pub proof fn constants_stand_where_nothing_is_produced(
    row: TopicRow,
    t: TopicRunner,
    kind: ElementKind,
    osm_id: i64,
    cats: CategoriesFile,
    cat: CategoryDef,
    objs: Seq<TransformedObject>,
    i: int,
    meta: MetaV,
    w: World,
    q: Seq<char>,
)
    requires
        is_row(row, t, kind, osm_id, cats, cat, objs, i, meta, w),
        constants(t, cat).dom().finite(),
        forall|l: int|
            0 <= l < column_fields(t, cat).len() ==> !writes(
                #[trigger] column_fields(t, cat)[l],
                read(objs, i, cat, t, w),
                q,
            ),
        !accompanies(t, cat, read(objs, i, cat, t, w), q),
        q != "category"@,
        q != "id"@,
    ensures
        row.derived@.dom().contains(q) <==> constants(t, cat).dom().contains(q),
        constants(t, cat).dom().contains(q) ==> match constants(t, cat)[q] {
            ValueV::Object(fs) => row.derived@[q] == (match lookup(fs, "value"@) {
                Some(x) => x,
                None => constants(t, cat)[q],
            }),
            _ => row.derived@[q] == constants(t, cat)[q],
        },
{
    let c = read(objs, i, cat, t, w);
    let fs = column_fields(t, cat);
    lemma_columns(t, cat, c, row_id(kind, osm_id, objs[i]), q);
    lemma_not_written(seeded(constants(t, cat)), fs, fs.len() as int, c, q);
}

proof fn lemma_companion_put(
    m: Map<Seq<char>, ValueV>,
    list: Seq<(Seq<char>, ValueV)>,
    written: Seq<Seq<char>>,
    i: int,
    name: Seq<char>,
)
    requires
        0 <= i < list.len(),
        !written.contains(list[i].0),
        const_companions(list[i].1) is Some,
        const_companions(list[i].1)->0.dom().contains(name),
        forall|j: int|
            i < j < list.len() && !written.contains((#[trigger] list[j]).0) && const_companions(
                list[j].1,
            ) is Some ==> !is_under(
                list[i].0 + "_"@ + name,
                list[j].0 + "_"@,
                const_companions(list[j].1)->0,
            ),
    ensures
        with_companions(m, list, written).dom().contains(list[i].0 + "_"@ + name),
        with_companions(m, list, written)[list[i].0 + "_"@ + name] == const_companions(
            list[i].1,
        )->0[name],
    decreases list.len(),
{
    let rest = list.drop_last();
    let under = list[i].0 + "_"@;
    let q = under + name;
    if i < list.len() - 1 {
        assert forall|j: int|
            i < j < rest.len() && !written.contains((#[trigger] rest[j]).0) && const_companions(
                rest[j].1,
            ) is Some implies !is_under(q, rest[j].0 + "_"@, const_companions(rest[j].1)->0) by {
            assert(rest[j] == list[j]);
        }
        assert(rest[i] == list[i]);
        lemma_companion_put(m, rest, written, i, name);
        assert(list[list.len() - 1] == list.last());
    } else {
        assert(q.subrange(under.len() as int, q.len() as int) =~= name);
    }
}

/// What comes with a constant, the `consts` of an object that has a `value`, stands under the
/// constant's key, an underscore and the name, where no field gives a value for the constant.
pub proof fn constants_bring_their_companions(
    row: TopicRow,
    t: TopicRunner,
    kind: ElementKind,
    osm_id: i64,
    cats: CategoriesFile,
    cat: CategoryDef,
    objs: Seq<TransformedObject>,
    i: int,
    meta: MetaV,
    w: World,
    k: Seq<char>,
    name: Seq<char>,
    fs: Seq<(Seq<char>, ValueV)>,
    gs: Seq<(Seq<char>, ValueV)>,
)
    requires
        is_row(row, t, kind, osm_id, cats, cat, objs, i, meta, w),
        constants(t, cat).dom().finite(),
        constants(t, cat).dom().contains(k),
        constants(t, cat)[k] == ValueV::Object(fs),
        lookup(fs, "value"@) is Some,
        lookup(fs, "consts"@) == Some(ValueV::Object(gs)),
        lookup(gs, name) is Some,
        stands_alone(t, cat, read(objs, i, cat, t, w), k),
        forall|l: Seq<char>| #[trigger]
            constants(t, cat).dom().contains(l) && l != k && const_companions(
                constants(t, cat)[l],
            ) is Some ==> !is_under(
                k + "_"@ + name,
                l + "_"@,
                const_companions(constants(t, cat)[l])->0,
            ),
        k + "_"@ + name != "category"@,
        k + "_"@ + name != "id"@,
    ensures
        row.derived@.dom().contains(k + "_"@ + name),
        row.derived@[k + "_"@ + name] == lookup(gs, name)->0,
{
    let c = read(objs, i, cat, t, w);
    let consts = constants(t, cat);
    let sf = fields_view(t.sanitizer_fields@);
    let df = derivers_of(t, cat.id@);
    lemma_in_two_steps(seeded(consts), sf, df, df.len() as int, c);
    let list = in_order(consts);
    let ks = key_order(consts);
    keys_have_an_order(consts);
    let written = written_outputs(t, cat, c);
    assert(ks.to_set().contains(k));
    let p = ks.index_of(k);
    assert(list[p] == (k, consts[k]));
    lemma_outputs(sf + df, (sf + df).len() as int, c, k);
    if written.contains(k) {
        let j = choose|j: int|
            0 <= j < (sf + df).len() && (#[trigger] (sf + df)[j]).output == k && produced(
                (sf + df)[j].source,
                c,
            ) is Some;
        assert(column_fields(t, cat)[j].output == k);
    }
    assert forall|j: int|
        p < j < list.len() && !written.contains((#[trigger] list[j]).0) && const_companions(
            list[j].1,
        ) is Some implies !is_under(
        k + "_"@ + name,
        list[j].0 + "_"@,
        const_companions(list[j].1)->0,
    ) by {
        assert(list[j] == (ks[j], consts[ks[j]]));
        assert(ks.to_set().contains(ks[j]));
        assert(lex_lt(ks[p], ks[j]));
        lex_lt_trichotomy(ks[p], ks[p]);
        assert(consts.dom().contains(ks[j]));
    }
    lemma_companion_put(derived_fields(t, cat, c), list, written, p, name);
}

/// The constants of a category are those under its own name, and its derivers those under its name
/// where there are some, else those of the topic.
pub proof fn categories_have_constants_and_derivers_of_their_own(t: TopicRunner, cat: CategoryDef)
    ensures
        match lookup(named_fields(t.category_consts@), cat.id@) {
            Some(m) => constants(t, cat) == m,
            None => constants(t, cat).dom().len() == 0,
        },
        match lookup(
            named_lists(t.category_derivers@),
            cat.id@,
        ) {
            Some(fs) => derivers_of(t, cat.id@) == fs,
            None => derivers_of(t, cat.id@) == fields_view(t.topic_derivers@),
        },
{
}

/// The raw columns hold what the topic's tag fields give, and nothing else.
pub proof fn raw_columns_hold_what_fields_give(
    row: TopicRow,
    t: TopicRunner,
    kind: ElementKind,
    osm_id: i64,
    cats: CategoriesFile,
    cat: CategoryDef,
    objs: Seq<TransformedObject>,
    i: int,
    meta: MetaV,
    w: World,
    q: Seq<char>,
)
    requires
        is_row(row, t, kind, osm_id, cats, cat, objs, i, meta, w),
    ensures
        ({
            let c = read(objs, i, cat, t, w);
            let fs = fields_view(t.spec.osm_fields@);
            &&& row.osm@.dom().contains(q) <==> exists|j: int|
                0 <= j < fs.len() && writes(#[trigger] fs[j], c, q)
            &&& forall|j: int|
                #![trigger fs[j]]
                0 <= j < fs.len() && writes(fs[j], c, q) && (forall|l: int|
                    j < l < fs.len() ==> !writes(#[trigger] fs[l], c, q)) ==> row.osm@[q]
                    == written_by(fs[j], c, q)
        }),
{
    let c = read(objs, i, cat, t, w);
    let fs = fields_view(t.spec.osm_fields@);
    let n = fs.len() as int;
    lemma_written_somewhere(fs, n, c, q);
    assert forall|j: int|
        #![trigger fs[j]]
        0 <= j < fs.len() && writes(fs[j], c, q) && (forall|l: int|
            j < l < fs.len() ==> !writes(#[trigger] fs[l], c, q)) implies row.osm@[q]
        == written_by(fs[j], c, q) by {
        lemma_written_last(Map::empty(), fs, n, c, j, q);
    }
}

proof fn lemma_written_somewhere(fs: Seq<FieldV>, n: int, c: CtxV, q: Seq<char>)
    requires
        0 <= n <= fs.len(),
    ensures
        fields_into(Map::empty(), fs, n, c).dom().contains(q) <==> exists|j: int|
            0 <= j < n && writes(#[trigger] fs[j], c, q),
    decreases n,
{
    if n > 0 {
        lemma_written_somewhere(fs, n - 1, c, q);
        if writes(fs[n - 1], c, q) {
            lemma_written_last(Map::empty(), fs, n, c, n - 1, q);
        }
    }
}

/// A field that reads a tag of the parent gives a split object the way's own value of that tag, and
/// nothing where the way does not have it.
pub proof fn parent_fields_read_the_way(
    row: TopicRow,
    t: TopicRunner,
    kind: ElementKind,
    osm_id: i64,
    cats: CategoriesFile,
    cat: CategoryDef,
    objs: Seq<TransformedObject>,
    i: int,
    meta: MetaV,
    w: World,
    output: Seq<char>,
    k: Seq<char>,
)
    requires
        is_row(row, t, kind, osm_id, cats, cat, objs, i, meta, w),
        objs[i].parent_highway is Some,
        fields_view(t.spec.osm_fields@) == seq![
            FieldV {
                output,
                source: ProducerV::Extract {
                    key: Some(k),
                    keys: None,
                    from: TagSet::Parent,
                    side: None,
                    sanitize: None,
                    consts: Map::empty(),
                    directed: false,
                },
            },
        ],
    ensures
        row.osm@.dom().contains(output) <==> tag_map(objs[0].tags).dom().contains(k),
        tag_map(objs[0].tags).dom().contains(k) ==> row.osm@[output] == ValueV::String(
            tag_map(objs[0].tags)[k],
        ),
{
    let c = read(objs, i, cat, t, w);
    let fs = fields_view(t.spec.osm_fields@);
    reveal_with_fuel(fields_into, 2);
    reveal_with_fuel(first_set, 3);
    assert(seq![k].skip(1) =~= Seq::<Seq<char>>::empty());
    assert(fs[0].output == output);
}

/// The private data says which side the object is, by which prefix and infix it was split off, and
/// the highway of its way, each exactly where there is one; else what the category has under that
/// name stays.
pub proof fn private_data_describes_the_split(
    row: TopicRow,
    t: TopicRunner,
    kind: ElementKind,
    osm_id: i64,
    cats: CategoriesFile,
    cat: CategoryDef,
    objs: Seq<TransformedObject>,
    i: int,
    meta: MetaV,
    w: World,
)
    requires
        is_row(row, t, kind, osm_id, cats, cat, objs, i, meta, w),
    ensures
        ({
            let own = fields_or_none(named_fields(t.category_private@), cat.id@);
            let at = |key: Seq<char>, text: Option<Seq<char>>|
                match text {
                    Some(s) => row.private@.dom().contains(key) && row.private@[key]
                        == ValueV::String(s),
                    None => row.private@.dom().contains(key) == own.dom().contains(key)
                        && (own.dom().contains(key) ==> row.private@[key] == own[key]),
                };
            &&& objs[i].side == Side::Self_ ==> at("_side"@, Some("self"@))
            &&& objs[i].side == Side::Left ==> at("_side"@, Some("left"@))
            &&& objs[i].side == Side::Right ==> at("_side"@, Some("right"@))
            &&& at("_prefix"@, objs[i].prefix.model())
            &&& at("_infix"@, objs[i].infix.model())
            &&& at("_parent_highway"@, objs[i].parent_highway.model())
        }),
{
    reveal_strlit("_side");
    reveal_strlit("_prefix");
    reveal_strlit("_infix");
    reveal_strlit("_parent_highway");
    assert("_side"@.len() == 5 && "_prefix"@.len() == 7 && "_infix"@.len() == 6
        && "_parent_highway"@.len() == 15);
}

/// The letter of a row's kind.
pub proof fn rows_name_their_kind(
    row: TopicRow,
    t: TopicRunner,
    kind: ElementKind,
    osm_id: i64,
    cats: CategoriesFile,
    cat: CategoryDef,
    objs: Seq<TransformedObject>,
    i: int,
    meta: MetaV,
    w: World,
)
    requires
        is_row(row, t, kind, osm_id, cats, cat, objs, i, meta, w),
    ensures
        kind == ElementKind::Way ==> row.osm_type@ == "W"@,
        kind == ElementKind::Node ==> row.osm_type@ == "N"@,
        kind == ElementKind::Relation ==> row.osm_type@ == "R"@,
{
}

// ── Zoom levels ─────────────────────────────────────────────────────────────────────────────

/// A row is shown from the zoom level of its category's rule on, else of the topic's rule, else
/// from level zero.
pub proof fn zoom_goes_by_category_then_topic(
    row: TopicRow,
    t: TopicRunner,
    kind: ElementKind,
    osm_id: i64,
    cats: CategoriesFile,
    cat: CategoryDef,
    objs: Seq<TransformedObject>,
    i: int,
    meta: MetaV,
    w: World,
)
    requires
        is_row(row, t, kind, osm_id, cats, cat, objs, i, meta, w),
    ensures
        ({
            let c = seen(objs, i, t, w);
            let macros = macros_view(cats.macros@);
            &&& cat.minzoom is Some ==> row.minzoom == zoom_of(cat.minzoom->0, c, macros)
            &&& cat.minzoom is None && t.spec.minzoom is Some ==> row.minzoom == zoom_of(
                t.spec.minzoom->0,
                c,
                macros,
            )
            &&& cat.minzoom is None && t.spec.minzoom is None ==> row.minzoom == 0
        }),
{
}

/// A fixed zoom rule gives its level; one with cases gives the level of the first case that holds,
/// and its default where none does.
pub proof fn first_case_gives_the_zoom(
    rules: Vec<MinzoomCase>,
    default: i32,
    c: CategoryCtxV,
    macros: Seq<(Seq<char>, FilterV)>,
    k: int,
)
    requires
        0 <= k <= rules@.len(),
        forall|j: int| 0 <= j < k ==> !holds((#[trigger] rules@[j]).when@, c, macros),
        k < rules@.len() ==> holds(rules@[k].when@, c, macros),
    ensures
        zoom_of(MinzoomRule::Const(default), c, macros) == default,
        zoom_of(MinzoomRule::Conditional { default, rules }, c, macros) == (if k < rules@.len() {
            rules@[k].zoom
        } else {
            default
        }),
{
    lemma_first_zoom(rules@, default, c, macros, 0, k);
}

proof fn lemma_first_zoom(
    rules: Seq<MinzoomCase>,
    default: i32,
    c: CategoryCtxV,
    macros: Seq<(Seq<char>, FilterV)>,
    from: int,
    k: int,
)
    requires
        0 <= from <= k <= rules.len(),
        forall|j: int| from <= j < k ==> !holds((#[trigger] rules[j]).when@, c, macros),
        k < rules.len() ==> holds(rules[k].when@, c, macros),
    ensures
        first_zoom(rules, from, default, c, macros) == (if k < rules.len() {
            rules[k].zoom
        } else {
            default
        }),
    decreases k - from,
{
    if from < k {
        assert(!holds(rules[from].when@, c, macros));
        lemma_first_zoom(rules, default, c, macros, from + 1, k);
    }
}

} // verus!
