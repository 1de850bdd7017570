//! Whether a loaded topic can be run: everything it names is there, and nothing leads back to
//! itself.
use vstd::prelude::*;

use crate::assoc::{first_position, lemma_first_position, lemma_lookup};
use crate::classify::categories::{
    condition_at, order_fits, rule_is_finite, CategoriesFile, CategoryDef, MinzoomRule, OrderedNode,
};
use crate::classify::classifier::{Classifier, ClassifierV};
use crate::classify::filter::{expands, expands_within, is_finite, macros_view, Filter, FilterV};
use crate::engine::extract::{
    can_run, classifiers_view, complete_producers_are_ready, is_complete, library_view, ready_within,
    CtxV, Producer, ProducerV,
};
use crate::engine::runner::{
    categories_for, fields_run, first_of_kind, is_runnable, kind_runnable, object_category, read,
    row_runs, TransformedObject, World,
};
use crate::engine::topic::{fields_view, Field};
use crate::engine::topic_runner::{named_lists, ElementKind, TopicRunner};

verus! {

/// Whether every field's producer is ready within a depth.
pub open spec fn fields_ready(
    fs: Seq<Field>,
    lib: Seq<(Seq<char>, ProducerV)>,
    tables: Seq<(Seq<char>, ClassifierV)>,
    depth: nat,
) -> bool {
    forall|i: int| 0 <= i < fs.len() ==> is_complete((#[trigger] fs[i]).source@, lib, tables, depth)
}

/// Whether every condition of a zoom rule ends within a depth.
pub open spec fn rule_ends(
    rule: MinzoomRule,
    macros: Seq<(Seq<char>, FilterV)>,
    depth: nat,
) -> bool {
    match rule {
        MinzoomRule::Const(_) => true,
        MinzoomRule::Conditional { rules, .. } => forall|i: int|
            0 <= i < rules@.len() ==> expands((#[trigger] rules@[i]).when@, macros, depth),
    }
}

/// Whether the categories of a kind can be walked, every condition ending within a depth.
pub open spec fn kind_ends(t: TopicRunner, cats: CategoriesFile, depth: nat) -> bool {
    let macros = macros_view(cats.macros@);
    &&& order_fits(cats.order@, cats.categories@.len() as int)
    &&& forall|k: int|
        0 <= k < cats.order@.len() ==> expands(
            condition_at(#[trigger] cats.order@[k], cats.categories@),
            macros,
            depth,
        )
    &&& t.spec.exclude_condition is Some ==> expands(t.spec.exclude_condition->0@, macros, depth)
    &&& t.spec.minzoom is Some ==> rule_ends(t.spec.minzoom->0, macros, depth)
    &&& forall|i: int|
        0 <= i < cats.categories@.len() && (#[trigger] cats.categories@[i]).minzoom is Some
            ==> rule_ends(cats.categories@[i].minzoom->0, macros, depth)
}

/// Whether a topic can be run, everything it names ending within a depth.
pub open spec fn runs_at(t: TopicRunner, w: World, depth: nat) -> bool {
    let lib = library_view(t.deriver_lib@);
    let tables = classifiers_view(w.classifiers@);
    &&& fields_ready(t.spec.osm_fields@, lib, tables, depth)
    &&& fields_ready(t.sanitizer_fields@, lib, tables, depth)
    &&& fields_ready(t.topic_derivers@, lib, tables, depth)
    &&& forall|i: int|
        0 <= i < t.category_derivers@.len() ==> fields_ready(
            (#[trigger] t.category_derivers@[i]).1@,
            lib,
            tables,
            depth,
        )
    &&& forall|k: int|
        0 <= k < t.categories@.len() ==> kind_ends(t, (#[trigger] t.categories@[k]).1, depth)
}

proof fn lemma_fields_run(fs: Seq<Field>, c: CtxV, depth: nat)
    requires
        fields_ready(fs, c.derivers, c.classifiers, depth),
    ensures
        fields_run(fields_view(fs), c),
{
    assert forall|i: int| 0 <= i < fields_view(fs).len() implies can_run(
        (#[trigger] fields_view(fs)[i]).source,
        c,
    ) by {
        assert(is_complete(fs[i].source@, c.derivers, c.classifiers, depth));
        complete_producers_are_ready(fs[i].source@, c, depth);
    }
}

proof fn lemma_kind_runs(t: TopicRunner, cats: CategoriesFile, depth: nat)
    requires
        kind_ends(t, cats, depth),
    ensures
        kind_runnable(t, cats),
{
    let macros = macros_view(cats.macros@);
    assert forall|k: int| 0 <= k < cats.order@.len() implies is_finite(
        condition_at(#[trigger] cats.order@[k], cats.categories@),
        macros,
    ) by {
        assert(expands(condition_at(cats.order@[k], cats.categories@), macros, depth));
    }
    if t.spec.minzoom is Some {
        lemma_rule_ends(t.spec.minzoom->0, macros, depth);
    }
    assert forall|i: int|
        0 <= i < cats.categories@.len() && (#[trigger] cats.categories@[i]).minzoom is Some implies rule_is_finite(
    cats.categories@[i].minzoom->0, macros) by {
        lemma_rule_ends(cats.categories@[i].minzoom->0, macros, depth);
    }
}

proof fn lemma_rule_ends(rule: MinzoomRule, macros: Seq<(Seq<char>, FilterV)>, depth: nat)
    requires
        rule_ends(rule, macros, depth),
    ensures
        rule_is_finite(rule, macros),
{
    if let MinzoomRule::Conditional { rules, .. } = rule {
        assert forall|i: int| 0 <= i < rules@.len() implies is_finite(
            (#[trigger] rules@[i]).when@,
            macros,
        ) by {
            assert(expands(rules@[i].when@, macros, depth));
        }
    }
}

proof fn lemma_row_runs(t: TopicRunner, w: World, cat: CategoryDef, c: CtxV, depth: nat)
    requires
        runs_at(t, w, depth),
        c.derivers == library_view(t.deriver_lib@),
        c.classifiers == classifiers_view(w.classifiers@),
    ensures
        row_runs(t, cat, c),
{
    lemma_fields_run(t.spec.osm_fields@, c, depth);
    lemma_fields_run(t.sanitizer_fields@, c, depth);
    lemma_fields_run(t.topic_derivers@, c, depth);
    let lists = named_lists(t.category_derivers@);
    let id = cat.id@;
    lemma_first_position(lists, id);
    let p = first_position(lists, id);
    lemma_lookup(lists, id, p);
    if p < lists.len() {
        lemma_fields_run(t.category_derivers@[p].1@, c, depth);
    }
}

proof fn lemma_kind_is_listed(v: Seq<(ElementKind, CategoriesFile)>, k: int, kind: ElementKind)
    requires
        0 <= k,
        first_of_kind(v, k, kind) is Some,
    ensures
        exists|i: int| 0 <= i < v.len() && (#[trigger] v[i]).1 == first_of_kind(v, k, kind)->0,
    decreases v.len() - k,
{
    if v[k].0 != kind {
        lemma_kind_is_listed(v, k + 1, kind);
    }
}

/// A topic of which everything ends within some depth can be run on every element.
pub proof fn what_ends_can_be_run(
    t: TopicRunner,
    w: World,
    depth: nat,
    kind: ElementKind,
    tags: Map<Seq<char>, Seq<char>>,
    objs: Seq<TransformedObject>,
)
    requires
        runs_at(t, w, depth),
    ensures
        is_runnable(t, kind, tags, objs, w),
{
    if let Some(cats) = categories_for(t, kind) {
        lemma_kind_is_listed(t.categories@, 0, kind);
        let k = choose|k: int| 0 <= k < t.categories@.len() && (#[trigger] t.categories@[k]).1 == cats;
        lemma_kind_runs(t, t.categories@[k].1, depth);
        assert forall|i: int|
            0 <= i < objs.len() && (#[trigger] object_category(t, cats, objs, i, w)) is Some implies row_runs(
            t,
            cats.categories@[object_category(t, cats, objs, i, w)->0],
            read(objs, i, cats.categories@[object_category(t, cats, objs, i, w)->0], t, w),
        ) by {
            let cat = cats.categories@[object_category(t, cats, objs, i, w)->0];
            lemma_row_runs(t, w, cat, read(objs, i, cat, t, w), depth);
        }
    }
}

fn fields_ready_within(
    fs: &Vec<Field>,
    lib: &Vec<(String, Producer)>,
    tables: &Vec<(String, Classifier)>,
    depth: usize,
) -> (r: bool)
    ensures
        r == fields_ready(fs@, library_view(lib@), classifiers_view(tables@), depth as nat),
{
    let mut i: usize = 0;
    while i < fs.len()
        invariant
            i <= fs@.len(),
            forall|j: int|
                0 <= j < i ==> is_complete(
                    (#[trigger] fs@[j]).source@,
                    library_view(lib@),
                    classifiers_view(tables@),
                    depth as nat,
                ),
        decreases fs.len() - i,
    {
        if !ready_within(&fs[i].source, lib, tables, depth) {
            assert(!is_complete(
                fs@[i as int].source@,
                library_view(lib@),
                classifiers_view(tables@),
                depth as nat,
            ));
            return false;
        }
        i = i + 1;
    }
    true
}

fn rule_ends_within(rule: &MinzoomRule, macros: &Vec<(String, Filter)>, depth: usize) -> (r: bool)
    ensures
        r == rule_ends(*rule, macros_view(macros@), depth as nat),
{
    match rule {
        MinzoomRule::Const(_) => true,
        MinzoomRule::Conditional { rules, .. } => {
            let mut i: usize = 0;
            while i < rules.len()
                invariant
                    i <= rules@.len(),
                    *rule is Conditional,
                    rule->rules == *rules,
                    forall|j: int|
                        0 <= j < i ==> expands(
                            (#[trigger] rules@[j]).when@,
                            macros_view(macros@),
                            depth as nat,
                        ),
                decreases rules.len() - i,
            {
                if !expands_within(&rules[i].when, macros, depth) {
                    assert(!expands(rules@[i as int].when@, macros_view(macros@), depth as nat));
                    return false;
                }
                i = i + 1;
            }
            true
        },
    }
}

fn order_ends_within(cats: &CategoriesFile, depth: usize) -> (r: bool)
    ensures
        r == (order_fits(cats.order@, cats.categories@.len() as int) && forall|k: int|
            0 <= k < cats.order@.len() ==> expands(
                condition_at(#[trigger] cats.order@[k], cats.categories@),
                macros_view(cats.macros@),
                depth as nat,
            )),
{
    let mut i: usize = 0;
    while i < cats.order.len()
        invariant
            i <= cats.order@.len(),
            forall|k: int|
                0 <= k < i && (#[trigger] cats.order@[k]) is Category ==> cats.order@[k]->idx
                    < cats.categories@.len(),
            forall|k: int|
                0 <= k < i ==> expands(
                    condition_at(#[trigger] cats.order@[k], cats.categories@),
                    macros_view(cats.macros@),
                    depth as nat,
                ),
        decreases cats.order.len() - i,
    {
        match &cats.order[i] {
            OrderedNode::Category { idx } => {
                if *idx >= cats.categories.len() {
                    assert(cats.order@[i as int] is Category);
                    return false;
                }
                if !expands_within(&cats.categories[*idx].condition, &cats.macros, depth) {
                    assert(!expands(
                        condition_at(cats.order@[i as int], cats.categories@),
                        macros_view(cats.macros@),
                        depth as nat,
                    ));
                    return false;
                }
            },
            OrderedNode::Skip { condition } => {
                if !expands_within(condition, &cats.macros, depth) {
                    assert(!expands(
                        condition_at(cats.order@[i as int], cats.categories@),
                        macros_view(cats.macros@),
                        depth as nat,
                    ));
                    return false;
                }
            },
        }
        i = i + 1;
    }
    true
}

fn zooms_end_within(
    cats: &Vec<CategoryDef>,
    macros: &Vec<(String, Filter)>,
    depth: usize,
) -> (r: bool)
    ensures
        r == forall|i: int|
            0 <= i < cats@.len() && (#[trigger] cats@[i]).minzoom is Some ==> rule_ends(
                cats@[i].minzoom->0,
                macros_view(macros@),
                depth as nat,
            ),
{
    let mut i: usize = 0;
    while i < cats.len()
        invariant
            i <= cats@.len(),
            forall|j: int|
                0 <= j < i && (#[trigger] cats@[j]).minzoom is Some ==> rule_ends(
                    cats@[j].minzoom->0,
                    macros_view(macros@),
                    depth as nat,
                ),
        decreases cats.len() - i,
    {
        if let Some(rule) = &cats[i].minzoom {
            if !rule_ends_within(rule, macros, depth) {
                assert(cats@[i as int].minzoom is Some);
                return false;
            }
        }
        i = i + 1;
    }
    true
}

fn kind_ends_within(t: &TopicRunner, cats: &CategoriesFile, depth: usize) -> (r: bool)
    ensures
        r == kind_ends(*t, *cats, depth as nat),
{
    if !order_ends_within(cats, depth) {
        return false;
    }
    if let Some(f) = &t.spec.exclude_condition {
        if !expands_within(f, &cats.macros, depth) {
            return false;
        }
    }
    if let Some(rule) = &t.spec.minzoom {
        if !rule_ends_within(rule, &cats.macros, depth) {
            return false;
        }
    }
    zooms_end_within(&cats.categories, &cats.macros, depth)
}

/// Whether a topic can be run, everything it names ending within a depth.
pub fn runs_within(t: &TopicRunner, w: &World, depth: usize) -> (r: bool)
    ensures
        r == runs_at(*t, *w, depth as nat),
        r ==> forall|
            kind: ElementKind,
            tags: Map<Seq<char>, Seq<char>>,
            objs: Seq<TransformedObject>,
        | #[trigger]
            is_runnable(*t, kind, tags, objs, *w),
{
    let ghost lib = library_view(t.deriver_lib@);
    let ghost tables = classifiers_view(w.classifiers@);
    if !fields_ready_within(&t.spec.osm_fields, &t.deriver_lib, w.classifiers, depth)
        || !fields_ready_within(&t.sanitizer_fields, &t.deriver_lib, w.classifiers, depth)
        || !fields_ready_within(&t.topic_derivers, &t.deriver_lib, w.classifiers, depth) {
        return false;
    }
    let mut i: usize = 0;
    while i < t.category_derivers.len()
        invariant
            i <= t.category_derivers@.len(),
            lib == library_view(t.deriver_lib@),
            tables == classifiers_view(w.classifiers@),
            forall|j: int|
                0 <= j < i ==> fields_ready(
                    (#[trigger] t.category_derivers@[j]).1@,
                    lib,
                    tables,
                    depth as nat,
                ),
        decreases t.category_derivers.len() - i,
    {
        if !fields_ready_within(&t.category_derivers[i].1, &t.deriver_lib, w.classifiers, depth) {
            assert(!fields_ready(t.category_derivers@[i as int].1@, lib, tables, depth as nat));
            return false;
        }
        i = i + 1;
    }
    let mut k: usize = 0;
    while k < t.categories.len()
        invariant
            k <= t.categories@.len(),
            forall|j: int|
                0 <= j < k ==> kind_ends(*t, (#[trigger] t.categories@[j]).1, depth as nat),
        decreases t.categories.len() - k,
    {
        if !kind_ends_within(t, &t.categories[k].1, depth) {
            assert(!kind_ends(*t, t.categories@[k as int].1, depth as nat));
            return false;
        }
        k = k + 1;
    }
    proof {
        assert forall|
            kind: ElementKind,
            tags: Map<Seq<char>, Seq<char>>,
            objs: Seq<TransformedObject>,
        | #[trigger]
            is_runnable(*t, kind, tags, objs, *w) by {
            what_ends_can_be_run(*t, *w, depth as nat, kind, tags, objs);
        }
    }
    true
}

} // verus!
