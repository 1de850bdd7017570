//! The rows that a topic gives for an element: one for every object that falls into a category.
use vstd::prelude::*;

use crate::assoc::{as_map, lemma_lookup, lookup, position_of};
use crate::classify::categories::{
    categorize, category_of, order_fits, order_is_finite, resolve_minzoom, rule_is_finite, zoom_of,
    CategoriesFile, CategoryDef,
};
use crate::classify::classifier::Classifier;
use crate::classify::filter::{
    eval_filter, holds, is_finite, macros_view, neutral, CategoryContext, CategoryCtxV, Side,
};
use crate::engine::extract::{
    can_run, classifiers_view, library_view, produced, CtxV, ExtractCtx,
};
use crate::engine::topic::{fields_view, Field, FieldV};
use crate::engine::topic_runner::{
    named_fields, named_lists, CenterLineTransformation, CenterLineV, ElementKind, TagTransform,
    TagTransformV, TopicRunner,
};
use crate::json::{in_order, sorted_fields};
use crate::lang::context::{parent_map, ValueSets};
use crate::model::{models, Model};
use crate::number::Readings;
use crate::tags::{tag_map, RawTags};
use crate::text::{concat2, concat3, contains_str, spell, spelled};
use crate::value::{
    clone_value, fields, group_values, joined_under, lists_fields, opt_text, Fields, Value, ValueV,
};

verus! {

/// What is known of the last edit of an element.
#[derive(Debug)]
pub struct OsmMeta {
    pub updated_at: Option<i64>,
    pub updated_by: Option<String>,
    pub changeset_id: Option<i64>,
}

/// What is known of the last edit of an element.
pub struct MetaV {
    pub updated_at: Option<i64>,
    pub updated_by: Option<Seq<char>>,
    pub changeset_id: Option<i64>,
}

impl OsmMeta {
    pub open spec fn view(&self) -> MetaV {
        MetaV {
            updated_at: self.updated_at,
            updated_by: self.updated_by.model(),
            changeset_id: self.changeset_id,
        }
    }

    fn copy(&self) -> (r: OsmMeta)
        ensures
            r@ == self@,
    {
        OsmMeta {
            updated_at: self.updated_at,
            updated_by: self.updated_by.copy(),
            changeset_id: self.changeset_id,
        }
    }
}

/// An object of an element: the element itself, or a side of a way. Sides have the `highway` of the
/// way, which is the first object.
#[derive(Debug)]
pub struct TransformedObject {
    pub tags: RawTags,
    pub side: Side,
    pub prefix: Option<String>,
    pub infix: Option<String>,
    pub parent_highway: Option<String>,
}

/// What every topic reads beside the element.
#[derive(Clone, Copy)]
pub struct World<'a> {
    pub classifiers: &'a Vec<(String, Classifier)>,
    pub value_sets: &'a ValueSets,
    pub readings: &'a Readings,
    pub left_hand_traffic: bool,
}

/// A row of a topic's table.
#[derive(Debug)]
pub struct TopicRow {
    pub osm_id: i64,
    pub osm_type: String,
    pub id: String,
    pub osm: Fields,
    pub derived: Fields,
    pub private: Fields,
    pub meta: OsmMeta,
    pub minzoom: i32,
}

// ── Fields ──────────────────────────────────────────────────────────────────────────────────

/// The values with what the first `n` fields give put in: the value under the output, and what
/// comes with it under `<output>_<key>`.
pub open spec fn fields_into(
    m: Map<Seq<char>, ValueV>,
    fs: Seq<FieldV>,
    n: int,
    c: CtxV,
) -> Map<Seq<char>, ValueV>
    decreases n,
{
    if n <= 0 || n > fs.len() {
        m
    } else {
        let before = fields_into(m, fs, n - 1, c);
        match produced(fs[n - 1].source, c) {
            Some(p) => joined_under(
                before.insert(fs[n - 1].output, p.value),
                fs[n - 1].output + "_"@,
                p.consts,
            ),
            None => before,
        }
    }
}

/// The outputs of the first `n` fields that give something.
pub open spec fn outputs(fs: Seq<FieldV>, n: int, c: CtxV) -> Seq<Seq<char>>
    decreases n,
{
    if n <= 0 || n > fs.len() {
        Seq::empty()
    } else if produced(fs[n - 1].source, c) is Some {
        outputs(fs, n - 1, c).push(fs[n - 1].output)
    } else {
        outputs(fs, n - 1, c)
    }
}

/// Whether every field can be run on an object.
pub open spec fn fields_run(fs: Seq<FieldV>, c: CtxV) -> bool {
    forall|i: int| 0 <= i < fs.len() ==> can_run((#[trigger] fs[i]).source, c)
}

/// Puts what the fields give into `map`, and their outputs into `written`.
pub fn eval_fields(
    list: &Vec<Field>,
    ctx: &ExtractCtx,
    map: &mut Fields,
    written: &mut Vec<String>,
)
    requires
        fields_run(fields_view(list@), ctx@),
    ensures
        final(map)@ == fields_into(
            old(map)@,
            fields_view(list@),
            list@.len() as int,
            ctx@,
        ),
        models(final(written)@) == models(old(written)@) + outputs(
            fields_view(list@),
            list@.len() as int,
            ctx@,
        ),
{
    let ghost m = map@;
    let ghost w = models(written@);
    let ghost fv = fields_view(list@);
    let ghost c = ctx@;
    proof {
        assert(w + outputs(fv, 0, c) =~= w);
    }
    for i in 0..list.len()
        invariant
            fv == fields_view(list@),
            c == ctx@,
            fields_run(fv, c),
            map@ == fields_into(m, fv, i as int, c),
            models(written@) == w + outputs(fv, i as int, c),
    {
        let ghost wb = written@;
        proof {
            assert(fv[i as int] == list@[i as int]@);
            assert(can_run(fv[i as int].source, c));
        }
        match list[i].source.eval(ctx) {
            Some(p) => {
                let output = list[i].output.as_str();
                map.insert(output.to_owned(), p.value);
                map.join_under(concat2(output, "_").as_str(), &p.consts);
                written.push(output.to_owned());
                proof {
                    assert(models(written@) =~= models(wb).push(fv[i as int].output));
                    assert(w + outputs(fv, i + 1, c) =~= (w + outputs(fv, i as int, c)).push(
                        fv[i as int].output,
                    ));
                }
            },
            None => {},
        }
    }
}

// ── Constants ───────────────────────────────────────────────────────────────────────────────

/// The value of a constant: of an object with a `value`, that value; else the constant itself.
pub open spec fn const_value(v: ValueV) -> ValueV {
    match v {
        ValueV::Object(fs) => match lookup(fs, "value"@) {
            Some(x) => x,
            None => v,
        },
        _ => v,
    }
}

/// What comes with a constant: the `consts` of an object with a `value`.
pub open spec fn const_companions(v: ValueV) -> Option<Map<Seq<char>, ValueV>> {
    match v {
        ValueV::Object(fs) => if lookup(fs, "value"@) is Some {
            match lookup(fs, "consts"@) {
                Some(ValueV::Object(gs)) => Some(as_map(gs)),
                _ => None,
            }
        } else {
            None
        },
        _ => None,
    }
}

fn find_field<'a>(entries: &'a Vec<(String, Value)>, key: &str) -> (r: Option<&'a Value>)
    ensures
        match r {
            Some(v) => lookup(fields(entries@), key@) == Some(v@),
            None => lookup(fields(entries@), key@) is None,
        },
{
    broadcast use group_values;

    let ghost e = fields(entries@);
    match position_of(entries, key) {
        Some(i) => {
            proof {
                assert forall|j: int| 0 <= j < i implies (#[trigger] e[j]).0 != key@ by {
                    assert(entries@[j].0@ != key@);
                }
                assert(e[i as int].0 == key@);
                lemma_lookup(e, key@, i as int);
            }
            Some(&entries[i].1)
        },
        None => {
            proof {
                assert forall|j: int| 0 <= j < e.len() implies (#[trigger] e[j]).0 != key@ by {
                    assert(entries@[j].0@ != key@);
                }
                lemma_lookup(e, key@, e.len() as int);
            }
            None
        },
    }
}

fn as_fields(entries: &Vec<(String, Value)>) -> (r: Fields)
    ensures
        r@ == as_map(fields(entries@)),
{
    broadcast use group_values;

    let ghost e = fields(entries@);
    let mut out = Fields::new();
    let mut i: usize = entries.len();
    proof {
        assert(e.skip(e.len() as int) =~= Seq::<(Seq<char>, ValueV)>::empty());
        assert(out@ =~= as_map(e.skip(e.len() as int)));
    }
    while i > 0
        invariant
            0 <= i <= entries@.len(),
            e == fields(entries@),
            out@ == as_map(e.skip(i as int)),
        decreases i,
    {
        let ghost before = out@;
        out.insert(entries[i - 1].0.clone(), clone_value(&entries[i - 1].1));
        proof {
            let s = e.skip(i - 1);
            assert(s[0] == e[i - 1]);
            assert(s.skip(1) =~= e.skip(i as int));
            assert(out@ =~= as_map(s));
        }
        i = i - 1;
    }
    proof {
        assert(e.skip(0) =~= e);
    }
    out
}

/// The value of a constant, and what comes with it.
pub fn const_entry(v: &Value) -> (r: (Value, Option<Fields>))
    ensures
        r.0@ == const_value(v@),
        match r.1 {
            Some(m) => const_companions(v@) == Some(m@),
            None => const_companions(v@) is None,
        },
{
    match v {
        Value::Object(entries) => match find_field(entries, "value") {
            Some(value) => {
                let companions = match find_field(entries, "consts") {
                    Some(Value::Object(gs)) => Some(as_fields(gs)),
                    _ => None,
                };
                (clone_value(value), companions)
            },
            None => (clone_value(v), None),
        },
        _ => (clone_value(v), None),
    }
}

/// The values of constants.
pub open spec fn seeded(consts: Map<Seq<char>, ValueV>) -> Map<Seq<char>, ValueV> {
    consts.map_values(|v: ValueV| const_value(v))
}

fn seed(list: &Vec<(String, Value)>, Ghost(consts): Ghost<Map<Seq<char>, ValueV>>) -> (r: Fields)
    requires
        lists_fields(fields(list@), consts),
    ensures
        r@ == seeded(consts),
{
    broadcast use group_values;

    let ghost lv = fields(list@);
    let mut out = Fields::new();
    let mut i: usize = 0;
    while i < list.len()
        invariant
            0 <= i <= list@.len(),
            lv == fields(list@),
            lists_fields(lv, consts),
            forall|k: Seq<char>| #[trigger]
                out@.dom().contains(k) <==> exists|j: int|
                    0 <= j < i && (#[trigger] lv[j]).0 == k,
            forall|k: Seq<char>| #[trigger]
                out@.dom().contains(k) ==> out@[k] == const_value(consts[k]),
        decreases list.len() - i,
    {
        let ghost before = out@;
        let (value, _) = const_entry(&list[i].1);
        out.insert(list[i].0.clone(), value);
        proof {
            assert(lv[i as int].0 == list@[i as int].0@);
            assert(consts[lv[i as int].0] == lv[i as int].1);
            assert forall|k: Seq<char>| #[trigger]
                out@.dom().contains(k) <==> exists|j: int|
                    0 <= j < i + 1 && (#[trigger] lv[j]).0 == k by {
                assert(before.dom().contains(k) <==> exists|j: int|
                    0 <= j < i && (#[trigger] lv[j]).0 == k);
            }
        }
        i = i + 1;
    }
    proof {
        assert forall|k: Seq<char>| out@.dom().contains(k) == #[trigger] seeded(
            consts,
        ).dom().contains(k) by {
            if consts.dom().contains(k) {
                let j = choose|j: int| 0 <= j < lv.len() && (#[trigger] lv[j]).0 == k;
                assert(lv[j].0 == k);
            }
        }
        assert(out@ =~= seeded(consts));
    }
    out
}

/// The values with what comes with the constants of a list that no field has written, under
/// `<key>_<companion>`.
pub open spec fn with_companions(
    m: Map<Seq<char>, ValueV>,
    list: Seq<(Seq<char>, ValueV)>,
    written: Seq<Seq<char>>,
) -> Map<Seq<char>, ValueV>
    decreases list.len(),
{
    if list.len() == 0 {
        m
    } else {
        let before = with_companions(m, list.drop_last(), written);
        if written.contains(list.last().0) {
            before
        } else {
            match const_companions(list.last().1) {
                Some(cs) => joined_under(before, list.last().0 + "_"@, cs),
                None => before,
            }
        }
    }
}

/// Puts in what comes with the constants of a list that no field has written.
pub fn add_companions(derived: &mut Fields, list: &Vec<(String, Value)>, written: &Vec<String>)
    ensures
        final(derived)@ == with_companions(old(derived)@, fields(list@), models(written@)),
{
    broadcast use group_values;

    let ghost m = derived@;
    let ghost lv = fields(list@);
    let ghost wv = models(written@);
    proof {
        assert(lv.take(0) =~= Seq::<(Seq<char>, ValueV)>::empty());
    }
    for i in 0..list.len()
        invariant
            lv == fields(list@),
            wv == models(written@),
            derived@ == with_companions(m, lv.take(i as int), wv),
    {
        proof {
            assert(lv.take(i + 1).drop_last() =~= lv.take(i as int));
            assert(lv.take(i + 1).last() == lv[i as int]);
            assert(lv[i as int].0 == list@[i as int].0@);
            assert(lv[i as int].1 == list@[i as int].1@);
        }
        if !contains_str(written, list[i].0.as_str()) {
            let (_, companions) = const_entry(&list[i].1);
            match companions {
                Some(cs) => {
                    derived.join_under(concat2(list[i].0.as_str(), "_").as_str(), &cs);
                },
                None => {},
            }
        }
    }
    proof {
        assert(lv.take(lv.len() as int) =~= lv);
    }
}

// ── Rows ────────────────────────────────────────────────────────────────────────────────────

/// The tags of the way that an object was split from.
pub open spec fn parent_of(objs: Seq<TransformedObject>, i: int) -> Option<
    Map<Seq<char>, Seq<char>>,
> {
    if objs[i].parent_highway is Some {
        Some(tag_map(objs[0].tags))
    } else {
        None
    }
}

/// What conditions see of an object.
pub open spec fn seen(
    objs: Seq<TransformedObject>,
    i: int,
    t: TopicRunner,
    w: World,
) -> CategoryCtxV {
    CategoryCtxV {
        tags: tag_map(objs[i].tags),
        side: objs[i].side,
        prefix: objs[i].prefix.model(),
        parent_highway: objs[i].parent_highway.model(),
        parent_tags: parent_of(objs, i),
        infix: objs[i].infix.model(),
        sanitizers: t.sanitizers@,
        value_sets: w.value_sets@,
        readings: w.readings@,
    }
}

/// What producers see of an object of a category.
pub open spec fn read(
    objs: Seq<TransformedObject>,
    i: int,
    cat: CategoryDef,
    t: TopicRunner,
    w: World,
) -> CtxV {
    CtxV {
        obj: tag_map(objs[i].tags),
        parent: parent_of(objs, i),
        parking_inference: cat.parking_inference.model(),
        obj_side: objs[i].side.spec_name(),
        sanitizers: t.sanitizers@,
        derivers: library_view(t.deriver_lib@),
        classifiers: classifiers_view(w.classifiers@),
        value_sets: w.value_sets@,
        readings: w.readings@,
        left_hand_traffic: w.left_hand_traffic,
    }
}

/// The fields of a name; none where there is no such name.
pub open spec fn fields_or_none(
    v: Seq<(Seq<char>, Map<Seq<char>, ValueV>)>,
    id: Seq<char>,
) -> Map<Seq<char>, ValueV> {
    match lookup(v, id) {
        Some(m) => m,
        None => Map::empty(),
    }
}

/// The derivers of a category.
pub open spec fn derivers_of(t: TopicRunner, id: Seq<char>) -> Seq<FieldV> {
    match lookup(named_lists(t.category_derivers@), id) {
        Some(fs) => fs,
        None => fields_view(t.topic_derivers@),
    }
}

/// The id of a row: of the element, or of a side of the way.
pub open spec fn row_id(kind: ElementKind, osm_id: i64, obj: TransformedObject) -> Seq<char> {
    let own = kind.spec_id_prefix() + "/"@ + spelled(osm_id as int);
    if obj.side == Side::Self_ {
        own
    } else {
        own + "/"@ + (match obj.prefix.model() {
            Some(p) => p,
            None => "cycleway"@,
        }) + (if obj.side == Side::Left {
            "/left"@
        } else {
            "/right"@
        })
    }
}

/// What fields give over the constants: first the sanitizers, then the derivers.
pub open spec fn derived_fields(
    t: TopicRunner,
    cat: CategoryDef,
    c: CtxV,
) -> Map<Seq<char>, ValueV> {
    let consts = fields_or_none(named_fields(t.category_consts@), cat.id@);
    let sf = fields_view(t.sanitizer_fields@);
    let df = derivers_of(t, cat.id@);
    fields_into(
        fields_into(seeded(consts), sf, sf.len() as int, c),
        df,
        df.len() as int,
        c,
    )
}

/// The outputs that fields have written.
pub open spec fn written_outputs(t: TopicRunner, cat: CategoryDef, c: CtxV) -> Seq<Seq<char>> {
    let sf = fields_view(t.sanitizer_fields@);
    let df = derivers_of(t, cat.id@);
    outputs(sf, sf.len() as int, c) + outputs(df, df.len() as int, c)
}

/// What is derived of an object of a category: what fields give over the constants, what comes
/// with constants that no field has written, the category and the row id.
pub open spec fn derived_row(
    t: TopicRunner,
    cat: CategoryDef,
    c: CtxV,
    id: Seq<char>,
) -> Map<Seq<char>, ValueV> {
    with_companions(
        derived_fields(t, cat, c),
        in_order(fields_or_none(named_fields(t.category_consts@), cat.id@)),
        written_outputs(t, cat, c),
    ).insert("category"@, ValueV::String(cat.id@)).insert("id"@, ValueV::String(id))
}

/// The map with a text put in, where there is one.
pub open spec fn with_text(
    m: Map<Seq<char>, ValueV>,
    key: Seq<char>,
    text: Option<Seq<char>>,
) -> Map<Seq<char>, ValueV> {
    match text {
        Some(s) => m.insert(key, ValueV::String(s)),
        None => m,
    }
}

/// The private data of an object of a category.
pub open spec fn private_fields(
    t: TopicRunner,
    cat: CategoryDef,
    obj: TransformedObject,
) -> Map<Seq<char>, ValueV> {
    let own = fields_or_none(named_fields(t.category_private@), cat.id@).insert(
        "_side"@,
        ValueV::String(obj.side.spec_name()),
    );
    with_text(
        with_text(with_text(own, "_prefix"@, obj.prefix.model()), "_infix"@, obj.infix.model()),
        "_parent_highway"@,
        obj.parent_highway.model(),
    )
}

/// The zoom level of an object of a category: by the category's rule, or the topic's, or 0.
pub open spec fn row_zoom(
    t: TopicRunner,
    cats: CategoriesFile,
    cat: CategoryDef,
    c: CategoryCtxV,
) -> i32 {
    match cat.minzoom {
        Some(rule) => zoom_of(rule, c, macros_view(cats.macros@)),
        None => match t.spec.minzoom {
            Some(rule) => zoom_of(rule, c, macros_view(cats.macros@)),
            None => 0,
        },
    }
}

/// Whether the row is that of an object of a category.
pub open spec fn is_row(
    row: TopicRow,
    t: TopicRunner,
    kind: ElementKind,
    osm_id: i64,
    cats: CategoriesFile,
    cat: CategoryDef,
    objs: Seq<TransformedObject>,
    i: int,
    meta: MetaV,
    w: World,
) -> bool {
    let c = read(objs, i, cat, t, w);
    let osm = fields_view(t.spec.osm_fields@);
    &&& row.osm_id == osm_id
    &&& row.osm_type@ == kind.spec_osm_type()
    &&& row.id@ == row_id(kind, osm_id, objs[i])
    &&& row.osm@ == fields_into(Map::empty(), osm, osm.len() as int, c)
    &&& row.derived@ == derived_row(t, cat, c, row_id(kind, osm_id, objs[i]))
    &&& row.private@ == private_fields(t, cat, objs[i])
    &&& row.meta@ == meta
    &&& row.minzoom == row_zoom(t, cats, cat, seen(objs, i, t, w))
}

/// The category of an object.
pub open spec fn object_category(
    t: TopicRunner,
    cats: CategoriesFile,
    objs: Seq<TransformedObject>,
    i: int,
    w: World,
) -> Option<int> {
    category_of(cats.order@, cats.categories@, seen(objs, i, t, w), macros_view(cats.macros@))
}

/// The objects among the first `n` that fall into a category, in order.
pub open spec fn categorized(
    t: TopicRunner,
    cats: CategoriesFile,
    objs: Seq<TransformedObject>,
    n: int,
    w: World,
) -> Seq<int>
    decreases n,
{
    if n <= 0 || n > objs.len() {
        Seq::empty()
    } else if object_category(t, cats, objs, n - 1, w) is Some {
        categorized(t, cats, objs, n - 1, w).push(n - 1)
    } else {
        categorized(t, cats, objs, n - 1, w)
    }
}

/// The categories for a kind of element.
pub open spec fn categories_for(t: TopicRunner, kind: ElementKind) -> Option<CategoriesFile> {
    first_of_kind(t.categories@, 0, kind)
}

/// The categories of the first entry from `k` on for a kind of element.
pub open spec fn first_of_kind(
    v: Seq<(ElementKind, CategoriesFile)>,
    k: int,
    kind: ElementKind,
) -> Option<CategoriesFile>
    decreases v.len() - k,
{
    if k < 0 || k >= v.len() {
        None
    } else if v[k].0 == kind {
        Some(v[k].1)
    } else {
        first_of_kind(v, k + 1, kind)
    }
}

/// Whether the topic leaves the element out.
pub open spec fn is_left_out(
    t: TopicRunner,
    cats: CategoriesFile,
    tags: Map<Seq<char>, Seq<char>>,
    w: World,
) -> bool {
    match t.spec.exclude_condition {
        Some(f) => holds(
            f@,
            neutral(tags, t.sanitizers@, w.value_sets@, w.readings@),
            macros_view(cats.macros@),
        ),
        None => false,
    }
}

/// Whether the fields of an object of a category can be run.
pub open spec fn row_runs(t: TopicRunner, cat: CategoryDef, c: CtxV) -> bool {
    &&& fields_run(fields_view(t.spec.osm_fields@), c)
    &&& fields_run(fields_view(t.sanitizer_fields@), c)
    &&& fields_run(derivers_of(t, cat.id@), c)
}

/// Whether the fields of every object that falls into a category can be run.
pub open spec fn rows_run(
    t: TopicRunner,
    cats: CategoriesFile,
    objs: Seq<TransformedObject>,
    w: World,
) -> bool {
    forall|i: int|
        0 <= i < objs.len() && (#[trigger] object_category(t, cats, objs, i, w)) is Some
            ==> row_runs(
            t,
            cats.categories@[object_category(t, cats, objs, i, w)->0],
            read(objs, i, cats.categories@[object_category(t, cats, objs, i, w)->0], t, w),
        )
}

/// Whether the topic can be run on an element: its conditions end, and where it does not leave the
/// element out, the fields of every object that falls into a category can be run.
pub open spec fn is_runnable(
    t: TopicRunner,
    kind: ElementKind,
    tags: Map<Seq<char>, Seq<char>>,
    objs: Seq<TransformedObject>,
    w: World,
) -> bool {
    match categories_for(t, kind) {
        Some(cats) => kind_runnable(t, cats) && (!is_left_out(t, cats, tags, w) ==> rows_run(
            t,
            cats,
            objs,
            w,
        )),
        None => true,
    }
}

/// Whether the conditions of the topic and of its categories of a kind end.
pub open spec fn kind_runnable(t: TopicRunner, cats: CategoriesFile) -> bool {
    let macros = macros_view(cats.macros@);
    &&& order_fits(cats.order@, cats.categories@.len() as int)
    &&& order_is_finite(cats.order@, cats.categories@, macros)
    &&& t.spec.exclude_condition is Some ==> is_finite(t.spec.exclude_condition->0@, macros)
    &&& t.spec.minzoom is Some ==> rule_is_finite(t.spec.minzoom->0, macros)
    &&& forall|i: int|
        0 <= i < cats.categories@.len() && (#[trigger] cats.categories@[i]).minzoom is Some
            ==> rule_is_finite(cats.categories@[i].minzoom->0, macros)
}

/// Whether the rows are those of an element: none where the topic has no categories for its kind or
/// leaves it out, else one for every object that falls into a category.
pub open spec fn are_rows(
    rows: Seq<TopicRow>,
    t: TopicRunner,
    kind: ElementKind,
    osm_id: i64,
    tags: Map<Seq<char>, Seq<char>>,
    objs: Seq<TransformedObject>,
    meta: MetaV,
    w: World,
) -> bool {
    match categories_for(t, kind) {
        None => rows.len() == 0,
        Some(cats) => if is_left_out(t, cats, tags, w) {
            rows.len() == 0
        } else {
            rows_fit(rows, t, kind, osm_id, cats, objs, objs.len() as int, meta, w)
        },
    }
}

/// Whether the rows are those of the first `n` objects.
pub open spec fn rows_fit(
    rows: Seq<TopicRow>,
    t: TopicRunner,
    kind: ElementKind,
    osm_id: i64,
    cats: CategoriesFile,
    objs: Seq<TransformedObject>,
    n: int,
    meta: MetaV,
    w: World,
) -> bool {
    let kept = categorized(t, cats, objs, n, w);
    &&& rows.len() == kept.len()
    &&& forall|k: int|
        0 <= k < rows.len() ==> is_row(
            #[trigger] rows[k],
            t,
            kind,
            osm_id,
            cats,
            cats.categories@[object_category(t, cats, objs, kept[k], w)->0],
            objs,
            kept[k],
            meta,
            w,
        )
}

fn find_kind(v: &Vec<(ElementKind, CategoriesFile)>, kind: ElementKind) -> (r: Option<usize>)
    ensures
        match r {
            Some(i) => i < v@.len() && first_of_kind(v@, 0, kind) == Some(v@[i as int].1),
            None => first_of_kind(v@, 0, kind) is None,
        },
{
    let mut i: usize = 0;
    while i < v.len()
        invariant
            0 <= i <= v@.len(),
            first_of_kind(v@, 0, kind) == first_of_kind(v@, i as int, kind),
        decreases v.len() - i,
    {
        if v[i].0 == kind {
            return Some(i);
        }
        i = i + 1;
    }
    None
}

fn named_or_none(v: &Vec<(String, Fields)>, id: &str) -> (r: Fields)
    ensures
        r@ == fields_or_none(named_fields(v@), id@),
{
    let ghost nv = named_fields(v@);
    match position_of(v, id) {
        Some(i) => {
            proof {
                assert forall|j: int| 0 <= j < i implies (#[trigger] nv[j]).0 != id@ by {
                    assert(v@[j].0@ != id@);
                }
                lemma_lookup(nv, id@, i as int);
            }
            v[i].1.copy()
        },
        None => {
            proof {
                assert forall|j: int| 0 <= j < nv.len() implies (#[trigger] nv[j]).0 != id@ by {
                    assert(v@[j].0@ != id@);
                }
                lemma_lookup(nv, id@, nv.len() as int);
            }
            Fields::new()
        },
    }
}

fn derivers_for<'a>(t: &'a TopicRunner, id: &str) -> (r: &'a Vec<Field>)
    ensures
        fields_view(r@) == derivers_of(*t, id@),
{
    let ghost nv = named_lists(t.category_derivers@);
    match position_of(&t.category_derivers, id) {
        Some(i) => {
            proof {
                assert forall|j: int| 0 <= j < i implies (#[trigger] nv[j]).0 != id@ by {
                    assert(t.category_derivers@[j].0@ != id@);
                }
                lemma_lookup(nv, id@, i as int);
            }
            &t.category_derivers[i].1
        },
        None => {
            proof {
                assert forall|j: int| 0 <= j < nv.len() implies (#[trigger] nv[j]).0 != id@ by {
                    assert(t.category_derivers@[j].0@ != id@);
                }
                lemma_lookup(nv, id@, nv.len() as int);
            }
            &t.topic_derivers
        },
    }
}

fn opt_str(s: &Option<String>) -> (r: Option<&str>)
    ensures
        opt_text(r) == s.model(),
{
    match s {
        Some(x) => Some(x.as_str()),
        None => None,
    }
}

fn put_text(m: &mut Fields, key: &str, text: &Option<String>)
    ensures
        final(m)@ == with_text(old(m)@, key@, text.model()),
{
    match text {
        Some(s) => {
            m.insert(key.to_owned(), Value::String(s.clone()));
        },
        None => {},
    }
}

fn make_id(kind: ElementKind, osm_id: i64, obj: &TransformedObject) -> (r: String)
    ensures
        r@ == row_id(kind, osm_id, *obj),
{
    let own = concat3(kind.id_prefix(), "/", spell(osm_id).as_str());
    if obj.side == Side::Self_ {
        return own;
    }
    let prefix = match &obj.prefix {
        Some(p) => p.as_str(),
        None => "cycleway",
    };
    let side = if obj.side == Side::Left {
        "/left"
    } else {
        "/right"
    };
    concat2(concat3(own.as_str(), "/", prefix).as_str(), side)
}

fn derive_fields(
    runner: &TopicRunner,
    cat: &CategoryDef,
    ctx: &ExtractCtx,
    id: &str,
) -> (r: Fields)
    requires
        row_runs(*runner, *cat, ctx@),
    ensures
        r@ == derived_row(*runner, *cat, ctx@, id@),
{
    let consts = named_or_none(&runner.category_consts, cat.id.as_str());
    let list = sorted_fields(&consts);
    let mut derived = seed(&list, Ghost(consts@));
    let mut written: Vec<String> = Vec::new();
    proof {
        assert(models(written@) =~= Seq::<Seq<char>>::empty());
    }
    eval_fields(&runner.sanitizer_fields, ctx, &mut derived, &mut written);
    let derivers = derivers_for(runner, cat.id.as_str());
    eval_fields(derivers, ctx, &mut derived, &mut written);
    proof {
        assert(models(written@) =~= written_outputs(*runner, *cat, ctx@));
    }
    add_companions(&mut derived, &list, &written);
    derived.insert("category".to_owned(), Value::String(cat.id.clone()));
    derived.insert("id".to_owned(), Value::String(id.to_owned()));
    derived
}

fn private_data(runner: &TopicRunner, cat: &CategoryDef, obj: &TransformedObject) -> (r: Fields)
    ensures
        r@ == private_fields(*runner, *cat, *obj),
{
    let mut private = named_or_none(&runner.category_private, cat.id.as_str());
    private.insert("_side".to_owned(), Value::String(obj.side.name().to_owned()));
    put_text(&mut private, "_prefix", &obj.prefix);
    put_text(&mut private, "_infix", &obj.infix);
    put_text(&mut private, "_parent_highway", &obj.parent_highway);
    private
}

/// The row of an object of a category.
fn build_row(
    runner: &TopicRunner,
    kind: ElementKind,
    osm_id: i64,
    cats: &CategoriesFile,
    cat: &CategoryDef,
    objs: &Vec<TransformedObject>,
    i: usize,
    ctx: &CategoryContext,
    meta: &OsmMeta,
    world: &World,
) -> (r: TopicRow)
    requires
        row_runs(*runner, *cat, read(objs@, i as int, *cat, *runner, *world)),
        kind_runnable(*runner, *cats),
        cats.categories@.contains(*cat),
        i < objs@.len(),
        ctx@ == seen(objs@, i as int, *runner, *world),
        parent_map(ctx.parent_tags) == parent_of(objs@, i as int),
    ensures
        is_row(r, *runner, kind, osm_id, *cats, *cat, objs@, i as int, meta@, *world),
{
    let obj = &objs[i];
    let ectx = ExtractCtx {
        obj_tags: &obj.tags,
        parent_tags: ctx.parent_tags,
        parking_inference: opt_str(&cat.parking_inference),
        obj_side: obj.side.name(),
        sanitizers: &runner.sanitizers,
        derivers: &runner.deriver_lib,
        classifiers: world.classifiers,
        value_sets: world.value_sets,
        readings: world.readings,
        left_hand_traffic: world.left_hand_traffic,
    };
    proof {
        assert(ectx@ == read(objs@, i as int, *cat, *runner, *world));
        let q = cats.categories@.index_of(*cat);
        assert(cats.categories@[q] == *cat);
    }
    let mut osm = Fields::new();
    let mut osm_written: Vec<String> = Vec::new();
    eval_fields(&runner.spec.osm_fields, &ectx, &mut osm, &mut osm_written);
    let id = make_id(kind, osm_id, obj);
    let derived = derive_fields(runner, cat, &ectx, id.as_str());
    let private = private_data(runner, cat, obj);
    let minzoom: i32 = match &cat.minzoom {
        Some(rule) => resolve_minzoom(rule, ctx, &cats.macros),
        None => match &runner.spec.minzoom {
            Some(rule) => resolve_minzoom(rule, ctx, &cats.macros),
            None => 0,
        },
    };
    TopicRow {
        osm_id,
        osm_type: kind.osm_type().to_owned(),
        id,
        osm,
        derived,
        private,
        meta: meta.copy(),
        minzoom,
    }
}

/// The rows of an element: `tags` are its own, after the topic's rewrites, and `objs` the objects
/// that it was split into, the element itself first.
pub fn build_topic_rows(
    runner: &TopicRunner,
    kind: ElementKind,
    osm_id: i64,
    tags: &RawTags,
    objs: &Vec<TransformedObject>,
    meta: &OsmMeta,
    world: &World,
) -> (r: Vec<TopicRow>)
    requires
        is_runnable(*runner, kind, tag_map(*tags), objs@, *world),
    ensures
        are_rows(r@, *runner, kind, osm_id, tag_map(*tags), objs@, meta@, *world),
{
    let mut rows: Vec<TopicRow> = Vec::new();
    let cats = match find_kind(&runner.categories, kind) {
        Some(k) => {
            &runner.categories[k].1
        },
        None => {
            return rows;
        },
    };
    match &runner.spec.exclude_condition {
        Some(cond) => {
            if eval_filter(
                cond,
                tags,
                &cats.macros,
                &runner.sanitizers,
                world.value_sets,
                world.readings,
            ) {
                return rows;
            }
        },
        None => {},
    }
    for i in 0..objs.len()
        invariant
            kind_runnable(*runner, *cats),
            rows_run(*runner, *cats, objs@, *world),
            rows_fit(
                rows@,
                *runner,
                kind,
                osm_id,
                *cats,
                objs@,
                i as int,
                meta@,
                *world,
            ),
    {
        let obj = &objs[i];
        let parent_tags = if obj.parent_highway.is_some() {
            Some(&objs[0].tags)
        } else {
            None
        };
        let ctx = CategoryContext {
            tags: &obj.tags,
            side: obj.side,
            prefix: opt_str(&obj.prefix),
            parent_highway: opt_str(&obj.parent_highway),
            parent_tags,
            infix: opt_str(&obj.infix),
            sanitizers: &runner.sanitizers,
            value_sets: world.value_sets,
            readings: world.readings,
        };
        let ghost before = rows@;
        proof {
            assert(ctx@ == seen(objs@, i as int, *runner, *world));
        }
        match categorize(&ctx, cats) {
            Some(cat) => {
                let ghost q = object_category(*runner, *cats, objs@, i as int, *world)->0;
                proof {
                    assert(cats.categories@[q] == *cat);
                }
                let row = build_row(runner, kind, osm_id, cats, cat, objs, i, &ctx, meta, world);
                rows.push(row);
                proof {
                    let kept = categorized(*runner, *cats, objs@, i + 1, *world);
                    let old_kept = categorized(*runner, *cats, objs@, i as int, *world);
                    assert(kept == old_kept.push(i as int));
                    assert forall|k: int| 0 <= k < rows@.len() implies is_row(
                        #[trigger] rows@[k],
                        *runner,
                        kind,
                        osm_id,
                        *cats,
                        cats.categories@[object_category(
                            *runner,
                            *cats,
                            objs@,
                            kept[k],
                            *world,
                        )->0],
                        objs@,
                        kept[k],
                        meta@,
                        *world,
                    ) by {
                        if k < before.len() {
                            assert(rows@[k] == before[k]);
                            assert(kept[k] == old_kept[k]);
                        }
                    }
                }
            },
            None => {},
        }
    }
    rows
}

/// The rewrites of tags that apply to a kind of element: all of them to ways, none to others.
pub open spec fn rewrites_for(t: TopicRunner, kind: ElementKind) -> Seq<TagTransformV> {
    if kind is Way {
        t.pipeline@.tag_transforms
    } else {
        Seq::empty()
    }
}

/// The splits into sides that apply to a kind of element: all of them to ways, none to others.
pub open spec fn splits_for(t: TopicRunner, kind: ElementKind) -> Seq<CenterLineV> {
    if kind is Way {
        t.pipeline@.transformations
    } else {
        Seq::empty()
    }
}

impl TopicRunner {
    /// The rewrites of tags that apply to a kind of element.
    pub fn tag_transforms_for(&self, kind: ElementKind) -> (r: Vec<&TagTransform>)
        ensures
            r@.map_values(|t: &TagTransform| t@) == rewrites_for(*self, kind),
    {
        let mut out: Vec<&TagTransform> = Vec::new();
        if kind == ElementKind::Way {
            for i in 0..self.pipeline.tag_transforms.len()
                invariant
                    out@.len() == i,
                    forall|j: int|
                        0 <= j < i ==> (#[trigger] out@[j])@
                            == self.pipeline.tag_transforms@[j]@,
            {
                out.push(&self.pipeline.tag_transforms[i]);
            }
        }
        assert(out@.map_values(|t: &TagTransform| t@) =~= rewrites_for(*self, kind));
        out
    }

    /// The splits into sides that apply to a kind of element.
    pub fn transformations_for(&self, kind: ElementKind) -> (r: Vec<&CenterLineTransformation>)
        ensures
            r@.map_values(|t: &CenterLineTransformation| t@) == splits_for(*self, kind),
    {
        let mut out: Vec<&CenterLineTransformation> = Vec::new();
        if kind == ElementKind::Way {
            for i in 0..self.pipeline.transformations.len()
                invariant
                    out@.len() == i,
                    forall|j: int|
                        0 <= j < i ==> (#[trigger] out@[j])@
                            == self.pipeline.transformations@[j]@,
            {
                out.push(&self.pipeline.transformations[i]);
            }
        }
        assert(out@.map_values(|t: &CenterLineTransformation| t@) =~= splits_for(*self, kind));
        out
    }

    /// Whether the topic has categories for a kind of element.
    pub fn has_kind(&self, kind: ElementKind) -> (r: bool)
        ensures
            r == (categories_for(*self, kind) is Some),
    {
        find_kind(&self.categories, kind).is_some()
    }

    /// The rows of an element.
    pub fn process(
        &self,
        kind: ElementKind,
        osm_id: i64,
        tags: &RawTags,
        objs: &Vec<TransformedObject>,
        meta: &OsmMeta,
        world: &World,
    ) -> (r: Vec<TopicRow>)
        requires
            is_runnable(*self, kind, tag_map(*tags), objs@, *world),
        ensures
            are_rows(r@, *self, kind, osm_id, tag_map(*tags), objs@, meta@, *world),
    {
        if !self.has_kind(kind) {
            return Vec::new();
        }
        build_topic_rows(self, kind, osm_id, tags, objs, meta, world)
    }
}

} // verus!
