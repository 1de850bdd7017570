//! A topic as it is loaded: its references resolved, its categories ordered, and what each category
//! overrides worked out.
use vstd::prelude::*;

use crate::assoc::{lemma_lookup_push, lookup};
use crate::classify::categories::{
    explains, is_compiled_order, order_fits, CategoriesFile, CategoryDef, OrderError,
};
use crate::classify::filter::{clone_filter, macros_view, Filter, FilterV};
use crate::classify::sanitize::{defs, normal_defs, SanitizerDef, SanitizerRegistry};
use crate::engine::extract::{
    clone_producer, find_producer, library_view, Producer, ProducerV,
};
use crate::engine::topic::{
    clone_fields, fields_view, DeriverBinding, Field, FieldV, ParamTransform, Sanitizer, TopicSpec,
    Transform,
};
use crate::model::{models, Model};
use crate::text::str_eq;
use crate::value::{joined_under, Fields, ValueV};

verus! {

/// The kinds of map elements.
#[derive(Debug, Clone, Copy, PartialEq, Eq, Structural)]
pub enum ElementKind {
    Node,
    Way,
    Relation,
}

impl ElementKind {
    /// What row ids of the kind start with.
    pub open spec fn spec_id_prefix(self) -> Seq<char> {
        match self {
            ElementKind::Node => "node"@,
            ElementKind::Way => "way"@,
            ElementKind::Relation => "relation"@,
        }
    }

    /// The letter of the kind.
    pub open spec fn spec_osm_type(self) -> Seq<char> {
        match self {
            ElementKind::Node => "N"@,
            ElementKind::Way => "W"@,
            ElementKind::Relation => "R"@,
        }
    }

    /// What row ids of the kind start with.
    pub fn id_prefix(self) -> (r: &'static str)
        ensures
            r@ == self.spec_id_prefix(),
    {
        match self {
            ElementKind::Node => "node",
            ElementKind::Way => "way",
            ElementKind::Relation => "relation",
        }
    }

    /// The letter of the kind.
    pub fn osm_type(self) -> (r: &'static str)
        ensures
            r@ == self.spec_osm_type(),
    {
        match self {
            ElementKind::Node => "N",
            ElementKind::Way => "W",
            ElementKind::Relation => "R",
        }
    }
}

/// A rewrite of a way's tags before categorization.
#[derive(Debug)]
pub enum TagTransform {
    Lifecycle,
    StripPrefix {
        prefix: String,
        stamp_key: String,
        stamp_value: String,
        stamp_nested_under: Vec<String>,
    },
}

/// How the sides of a way are split off.
#[derive(Debug)]
pub struct CenterLineTransformation {
    pub highway: String,
    pub prefix: String,
    pub directed_keys: Vec<String>,
    pub self_directed_keys: Vec<String>,
}

/// The declared steps of a topic, by what they do.
#[derive(Debug)]
pub struct Pipeline {
    pub tag_transforms: Vec<TagTransform>,
    pub transformations: Vec<CenterLineTransformation>,
    pub sidepath_self_prefixes: Vec<String>,
    pub tag_rules: Vec<(String, Producer)>,
}

/// Why a topic cannot be loaded.
#[derive(Debug)]
pub enum LoadError {
    /// A binding names a deriver that the library does not have.
    UnknownDeriver { topic: String, deriver: String },
    /// The categories of a kind have no priority order.
    Order { topic: String, error: OrderError },
    /// A step is declared by a name that there is none of.
    UnknownTransform { topic: String, transform: String },
}

/// A topic, ready to process elements.
#[derive(Debug)]
pub struct TopicRunner {
    pub spec: TopicSpec,
    pub categories: Vec<(ElementKind, CategoriesFile)>,
    pub pipeline: Pipeline,
    /// The fields of the topic's sanitizers, for every category.
    pub sanitizer_fields: Vec<Field>,
    pub sanitizers: SanitizerRegistry,
    pub deriver_lib: Vec<(String, Producer)>,
    /// The derivers of categories that override none.
    pub topic_derivers: Vec<Field>,
    /// The derivers of categories that override some.
    pub category_derivers: Vec<(String, Vec<Field>)>,
    /// The constants of every category.
    pub category_consts: Vec<(String, Fields)>,
    /// The private data of every category.
    pub category_private: Vec<(String, Fields)>,
}

// ── Overlays and overrides ──────────────────────────────────────────────────────────────────

/// The fields of `base` with those of `over` on top.
pub fn overlay(base: &Fields, over: &Fields) -> (r: Fields)
    ensures
        r@ == base@.union_prefer_right(over@),
{
    let mut out = base.copy();
    out.join_under("", over);
    proof {
        reveal_strlit("");
        let w = joined_under(base@, ""@, over@);
        assert forall|q: Seq<char>| #[trigger] crate::value::is_under(q, ""@, over@)
            == over@.dom().contains(q) by {
            assert(q.subrange(0, q.len() as int) =~= q);
            assert(""@ =~= q.subrange(0, 0));
        }
        assert forall|q: Seq<char>| w.dom().contains(q) implies #[trigger] w[q]
            == base@.union_prefer_right(over@)[q] by {
            assert(crate::value::is_under(q, ""@, over@) == over@.dom().contains(q));
            assert(q.subrange(0, q.len() as int) =~= q);
        }
        assert forall|q: Seq<char>| #[trigger] w.dom().contains(q)
            == base@.union_prefer_right(over@).dom().contains(q) by {
            assert(crate::value::is_under(q, ""@, over@) == over@.dom().contains(q));
        }
        assert(w =~= base@.union_prefer_right(over@));
    }
    out
}

/// The field that a binding stands for.
pub open spec fn bound_field(lib: Seq<(Seq<char>, ProducerV)>, b: DeriverBinding) -> FieldV {
    FieldV { output: b.spec_output(), source: lookup(lib, b.spec_deriver())->0 }
}

/// Whether the library has the deriver of a binding.
pub open spec fn is_bound(lib: Seq<(Seq<char>, ProducerV)>, b: DeriverBinding) -> bool {
    lookup(lib, b.spec_deriver()) is Some
}

/// Whether the library has the deriver of every binding.
pub open spec fn all_bound(lib: Seq<(Seq<char>, ProducerV)>, bs: Seq<DeriverBinding>) -> bool {
    forall|i: int| 0 <= i < bs.len() ==> is_bound(lib, #[trigger] bs[i])
}

/// The fields that bindings stand for.
pub open spec fn bound_fields(lib: Seq<(Seq<char>, ProducerV)>, bs: Seq<DeriverBinding>) -> Seq<
    FieldV,
> {
    bs.map_values(|b: DeriverBinding| bound_field(lib, b))
}

/// Whether `name` is the deriver of the first binding that the library does not have.
pub open spec fn first_unbound(
    lib: Seq<(Seq<char>, ProducerV)>,
    bs: Seq<DeriverBinding>,
    name: Seq<char>,
) -> bool {
    exists|i: int|
        0 <= i < bs.len() && (#[trigger] bs[i]).spec_deriver() == name && !is_bound(lib, bs[i])
            && forall|j: int| 0 <= j < i ==> is_bound(lib, #[trigger] bs[j])
}

/// The fields that bindings stand for; an error names the first deriver that the library does not
/// have.
pub fn resolve_bindings(
    lib: &Vec<(String, Producer)>,
    bindings: &Vec<DeriverBinding>,
    topic: &str,
) -> (r: Result<Vec<Field>, LoadError>)
    ensures
        match r {
            Ok(v) => all_bound(library_view(lib@), bindings@) && fields_view(v@) == bound_fields(
                library_view(lib@),
                bindings@,
            ),
            Err(e) => e is UnknownDeriver && e->UnknownDeriver_topic@ == topic@ && first_unbound(
                library_view(lib@),
                bindings@,
                e->deriver@,
            ),
        },
{
    let ghost lv = library_view(lib@);
    let mut out: Vec<Field> = Vec::new();
    for i in 0..bindings.len()
        invariant
            lv == library_view(lib@),
            out@.len() == i,
            forall|j: int|
                0 <= j < i ==> is_bound(lv, #[trigger] bindings@[j]) && out@[j]@ == bound_field(
                    lv,
                    bindings@[j],
                ),
    {
        match find_producer(lib, bindings[i].deriver()) {
            Some(p) => {
                out.push(
                    Field { output: bindings[i].output().to_owned(), source: clone_producer(p) },
                );
            },
            None => {
                proof {
                    assert(!is_bound(lv, bindings@[i as int]));
                }
                return Err(
                    LoadError::UnknownDeriver {
                        topic: topic.to_owned(),
                        deriver: bindings[i].deriver().to_owned(),
                    },
                );
            },
        }
    }
    proof {
        assert(fields_view(out@) =~= bound_fields(lv, bindings@));
    }
    Ok(out)
}

/// The place of the first field with the output, or the end.
pub open spec fn output_place(fs: Seq<FieldV>, output: Seq<char>) -> int
    decreases fs.len(),
{
    if fs.len() == 0 || fs[0].output == output {
        0
    } else {
        1 + output_place(fs.skip(1), output)
    }
}

proof fn lemma_output_place(fs: Seq<FieldV>, output: Seq<char>, i: int)
    requires
        0 <= i <= fs.len(),
        forall|j: int| 0 <= j < i ==> (#[trigger] fs[j]).output != output,
        i < fs.len() ==> fs[i].output == output,
    ensures
        output_place(fs, output) == i,
    decreases fs.len(),
{
    if fs.len() > 0 && i > 0 {
        assert forall|j: int| 0 <= j < i - 1 implies (#[trigger] fs.skip(1)[j]).output
            != output by {
            assert(fs.skip(1)[j] == fs[j + 1]);
        }
        lemma_output_place(fs.skip(1), output, i - 1);
    }
}

/// The fields with one put in the place of the field with its output, or at the end.
pub open spec fn with_field(fs: Seq<FieldV>, f: FieldV) -> Seq<FieldV> {
    let i = output_place(fs, f.output);
    if i < fs.len() {
        fs.update(i, f)
    } else {
        fs.push(f)
    }
}

/// The fields with others put in their places, one after the other.
pub open spec fn overridden(fs: Seq<FieldV>, overrides: Seq<FieldV>) -> Seq<FieldV>
    decreases overrides.len(),
{
    if overrides.len() == 0 {
        fs
    } else {
        with_field(overridden(fs, overrides.drop_last()), overrides.last())
    }
}

/// The fields with the overrides in the places of those with the same outputs.
pub fn apply_overrides(base: &Vec<Field>, overrides: Vec<Field>) -> (r: Vec<Field>)
    ensures
        fields_view(r@) == overridden(fields_view(base@), fields_view(overrides@)),
{
    let ghost bv = fields_view(base@);
    let ghost all = overrides@;
    let ghost ov = fields_view(overrides@);
    let n: usize = overrides.len();
    let mut fields = clone_fields(base);
    let mut left = overrides;
    let mut k: usize = 0;
    proof {
        assert(ov.take(0) =~= Seq::<FieldV>::empty());
    }
    while k < n
        invariant
            0 <= k <= n,
            n == all.len(),
            ov == fields_view(all),
            left@ == all.skip(k as int),
            fields_view(fields@) == overridden(bv, ov.take(k as int)),
        decreases n - k,
    {
        let field = left.remove(0);
        let ghost fv = fields_view(fields@);
        proof {
            assert(field == all[k as int]);
            assert(left@ =~= all.skip(k + 1));
            assert(ov.take(k + 1).drop_last() =~= ov.take(k as int));
            assert(ov.take(k + 1).last() == field@);
        }
        let mut i: usize = 0;
        while i < fields.len() && !str_eq(fields[i].output.as_str(), field.output.as_str())
            invariant
                0 <= i <= fields@.len(),
                fv == fields_view(fields@),
                forall|j: int| 0 <= j < i ==> (#[trigger] fv[j]).output != field@.output,
            decreases fields.len() - i,
        {
            proof {
                assert(fv[i as int].output == fields@[i as int].output@);
            }
            i = i + 1;
        }
        proof {
            if i < fields@.len() {
                assert(fv[i as int].output == field@.output);
            }
            lemma_output_place(fv, field@.output, i as int);
        }
        let ghost f = field@;
        if i < fields.len() {
            fields.set(i, field);
            proof {
                assert(fields_view(fields@) =~= fv.update(i as int, f));
            }
        } else {
            fields.push(field);
            proof {
                assert(fields_view(fields@) =~= fv.push(f));
            }
        }
        k = k + 1;
    }
    proof {
        assert(ov.take(ov.len() as int) =~= ov);
    }
    fields
}

/// The source of the first field with the output.
pub open spec fn source_for(fs: Seq<FieldV>, output: Seq<char>) -> Option<ProducerV> {
    let i = output_place(fs, output);
    if i < fs.len() {
        Some(fs[i].source)
    } else {
        None
    }
}

/// The source of the last field with the output.
pub open spec fn last_source(fs: Seq<FieldV>, output: Seq<char>) -> Option<ProducerV>
    decreases fs.len(),
{
    if fs.len() == 0 {
        None
    } else if fs.last().output == output {
        Some(fs.last().source)
    } else {
        last_source(fs.drop_last(), output)
    }
}

proof fn lemma_place_bounds(fs: Seq<FieldV>, output: Seq<char>)
    ensures
        0 <= output_place(fs, output) <= fs.len(),
        forall|j: int|
            0 <= j < output_place(fs, output) ==> (#[trigger] fs[j]).output != output,
        output_place(fs, output) < fs.len() ==> fs[output_place(fs, output)].output == output,
    decreases fs.len(),
{
    if fs.len() > 0 && fs[0].output != output {
        lemma_place_bounds(fs.skip(1), output);
        let n = output_place(fs.skip(1), output);
        assert forall|j: int| 0 <= j < n + 1 implies (#[trigger] fs[j]).output != output by {
            if j > 0 {
                assert(fs.skip(1)[j - 1] == fs[j]);
            }
        }
        if n < fs.skip(1).len() {
            assert(fs.skip(1)[n] == fs[n + 1]);
        }
    }
}

/// After overriding, an output comes from the last override that names it, or else from where it
/// came before.
pub proof fn overrides_win(fs: Seq<FieldV>, overrides: Seq<FieldV>, output: Seq<char>)
    ensures
        source_for(overridden(fs, overrides), output) == (match last_source(overrides, output) {
            Some(p) => Some(p),
            None => source_for(fs, output),
        }),
    decreases overrides.len(),
{
    if overrides.len() > 0 {
        overrides_win(fs, overrides.drop_last(), output);
        let before = overridden(fs, overrides.drop_last());
        let f = overrides.last();
        let after = with_field(before, f);
        lemma_place_bounds(before, f.output);
        lemma_place_bounds(before, output);
        let i = output_place(before, f.output);
        let k = output_place(before, output);
        if f.output == output {
            assert forall|j: int| 0 <= j < i implies (#[trigger] after[j]).output != output by {
                assert(after[j] == before[j]);
            }
            lemma_output_place(after, output, i);
        } else {
            assert forall|j: int| 0 <= j < k implies (#[trigger] after[j]).output != output by {
                if j != i {
                    assert(after[j] == before[j]);
                }
            }
            if k < before.len() {
                lemma_output_place(after, output, k);
            } else {
                assert forall|j: int| 0 <= j < after.len() implies (#[trigger] after[j]).output
                    != output by {
                    if j < before.len() && j != i {
                        assert(after[j] == before[j]);
                    }
                }
                lemma_output_place(after, output, after.len() as int);
            }
        }
    }
}

// ── The declared steps ──────────────────────────────────────────────────────────────────────

/// A rewrite of a way's tags before categorization.
pub enum TagTransformV {
    Lifecycle,
    StripPrefix {
        prefix: Seq<char>,
        stamp_key: Seq<char>,
        stamp_value: Seq<char>,
        stamp_nested_under: Seq<Seq<char>>,
    },
}

/// How the sides of a way are split off.
pub struct CenterLineV {
    pub highway: Seq<char>,
    pub prefix: Seq<char>,
    pub directed_keys: Seq<Seq<char>>,
    pub self_directed_keys: Seq<Seq<char>>,
}

impl TagTransform {
    pub open spec fn view(&self) -> TagTransformV {
        match self {
            TagTransform::Lifecycle => TagTransformV::Lifecycle,
            TagTransform::StripPrefix { prefix, stamp_key, stamp_value, stamp_nested_under } => {
                TagTransformV::StripPrefix {
                    prefix: prefix@,
                    stamp_key: stamp_key@,
                    stamp_value: stamp_value@,
                    stamp_nested_under: models(stamp_nested_under@),
                }
            },
        }
    }
}

impl CenterLineTransformation {
    pub open spec fn view(&self) -> CenterLineV {
        CenterLineV {
            highway: self.highway@,
            prefix: self.prefix@,
            directed_keys: models(self.directed_keys@),
            self_directed_keys: models(self.self_directed_keys@),
        }
    }
}

/// What the declared steps of a topic are, by what they do.
pub struct PipelineV {
    pub tag_transforms: Seq<TagTransformV>,
    pub transformations: Seq<CenterLineV>,
    pub sidepath_self_prefixes: Seq<Seq<char>>,
    pub tag_rules: Seq<(Seq<char>, ProducerV)>,
}

impl Pipeline {
    pub open spec fn view(&self) -> PipelineV {
        PipelineV {
            tag_transforms: self.tag_transforms@.map_values(|t: TagTransform| t@),
            transformations: self.transformations@.map_values(|t: CenterLineTransformation| t@),
            sidepath_self_prefixes: models(self.sidepath_self_prefixes@),
            tag_rules: library_view(self.tag_rules@),
        }
    }
}

/// Whether there is a step of that name.
pub open spec fn is_declared(t: Transform) -> bool {
    t is Named ==> t->Named_0@ == "lifecycle"@
}

/// The steps, each put behind those of its sort.
pub open spec fn sorted_steps(ts: Seq<Transform>) -> PipelineV
    decreases ts.len(),
{
    if ts.len() == 0 {
        PipelineV {
            tag_transforms: Seq::empty(),
            transformations: Seq::empty(),
            sidepath_self_prefixes: Seq::empty(),
            tag_rules: Seq::empty(),
        }
    } else {
        let p = sorted_steps(ts.drop_last());
        match ts.last() {
            Transform::Named(_) => PipelineV {
                tag_transforms: p.tag_transforms.push(TagTransformV::Lifecycle),
                ..p
            },
            Transform::Param(step) => match step {
                ParamTransform::SplitSides { highway, prefix, directed_keys, self_directed_keys } => {
                    PipelineV {
                        transformations: p.transformations.push(
                            CenterLineV {
                                highway: highway@,
                                prefix: prefix@,
                                directed_keys: models(directed_keys@),
                                self_directed_keys: models(self_directed_keys@),
                            },
                        ),
                        ..p
                    }
                },
                ParamTransform::UnnestSidepathSelf { prefix } => PipelineV {
                    sidepath_self_prefixes: p.sidepath_self_prefixes.push(prefix@),
                    ..p
                },
                ParamTransform::TagRules { output, source } => PipelineV {
                    tag_rules: p.tag_rules.push((output@, source@)),
                    ..p
                },
                ParamTransform::StripPrefix {
                    prefix,
                    stamp_key,
                    stamp_value,
                    stamp_nested_under,
                } => PipelineV {
                    tag_transforms: p.tag_transforms.push(
                        TagTransformV::StripPrefix {
                            prefix: prefix@,
                            stamp_key: stamp_key@,
                            stamp_value: stamp_value@,
                            stamp_nested_under: models(stamp_nested_under@),
                        },
                    ),
                    ..p
                },
            },
        }
    }
}

/// Whether `name` is that of the first step that there is none of.
pub open spec fn first_undeclared(ts: Seq<Transform>, name: Seq<char>) -> bool {
    exists|i: int|
        0 <= i < ts.len() && !is_declared(#[trigger] ts[i]) && ts[i]->Named_0@ == name && forall|
            j: int,
        |
            0 <= j < i ==> is_declared(#[trigger] ts[j])
}

/// Whether there is a step for every name.
pub open spec fn all_declared(ts: Seq<Transform>) -> bool {
    forall|i: int| 0 <= i < ts.len() ==> is_declared(#[trigger] ts[i])
}

/// Sorts the declared steps by what they do; an error gives the first name that there is no step
/// of.
pub fn sort_transforms(transforms: &Vec<Transform>) -> (r: Result<Pipeline, String>)
    ensures
        match r {
            Ok(p) => all_declared(transforms@) && p@ == sorted_steps(transforms@),
            Err(name) => first_undeclared(transforms@, name@),
        },
{
    let mut p = Pipeline {
        tag_transforms: Vec::new(),
        transformations: Vec::new(),
        sidepath_self_prefixes: Vec::new(),
        tag_rules: Vec::new(),
    };
    let ghost tv = transforms@;
    proof {
        assert(tv.take(0) =~= Seq::<Transform>::empty());
        let e = sorted_steps(tv.take(0));
        assert(p@.tag_transforms =~= e.tag_transforms);
        assert(p@.transformations =~= e.transformations);
        assert(p@.sidepath_self_prefixes =~= e.sidepath_self_prefixes);
        assert(p@.tag_rules =~= e.tag_rules);
    }
    for i in 0..transforms.len()
        invariant
            tv == transforms@,
            p@ == sorted_steps(tv.take(i as int)),
            forall|j: int| 0 <= j < i ==> is_declared(#[trigger] tv[j]),
    {
        let ghost before = p@;
        proof {
            assert(tv.take(i + 1).drop_last() =~= tv.take(i as int));
            assert(tv.take(i + 1).last() == tv[i as int]);
        }
        match &transforms[i] {
            Transform::Named(name) => {
                if !str_eq(name.as_str(), "lifecycle") {
                    proof {
                        assert(!is_declared(tv[i as int]));
                    }
                    return Err(name.clone());
                }
                p.tag_transforms.push(TagTransform::Lifecycle);
            },
            Transform::Param(step) => match step {
                ParamTransform::SplitSides { highway, prefix, directed_keys, self_directed_keys } => {
                    p.transformations.push(
                        CenterLineTransformation {
                            highway: highway.clone(),
                            prefix: prefix.clone(),
                            directed_keys: directed_keys.copy(),
                            self_directed_keys: self_directed_keys.copy(),
                        },
                    );
                },
                ParamTransform::UnnestSidepathSelf { prefix } => {
                    p.sidepath_self_prefixes.push(prefix.clone());
                },
                ParamTransform::TagRules { output, source } => {
                    p.tag_rules.push((output.clone(), clone_producer(source)));
                },
                ParamTransform::StripPrefix {
                    prefix,
                    stamp_key,
                    stamp_value,
                    stamp_nested_under,
                } => {
                    p.tag_transforms.push(
                        TagTransform::StripPrefix {
                            prefix: prefix.clone(),
                            stamp_key: stamp_key.clone(),
                            stamp_value: stamp_value.clone(),
                            stamp_nested_under: stamp_nested_under.copy(),
                        },
                    );
                },
            },
        }
        proof {
            let after = sorted_steps(tv.take(i + 1));
            assert(p@.tag_transforms =~= after.tag_transforms);
            assert(p@.transformations =~= after.transformations);
            assert(p@.sidepath_self_prefixes =~= after.sidepath_self_prefixes);
            assert(p@.tag_rules =~= after.tag_rules);
        }
    }
    proof {
        assert(tv.take(tv.len() as int) =~= tv);
    }
    Ok(p)
}

// ── The categories of every kind ────────────────────────────────────────────────────────────

/// The macros of the categories, with the shared ones behind them.
pub open spec fn merged_macros(
    file: CategoriesFile,
    shared: Seq<(Seq<char>, FilterV)>,
) -> Seq<(Seq<char>, FilterV)> {
    macros_view(file.macros@) + shared
}

/// Whether the categories have a priority order.
pub open spec fn is_orderable(file: CategoriesFile, shared: Seq<(Seq<char>, FilterV)>) -> bool {
    exists|order: Seq<crate::classify::categories::OrderedNode>| #[trigger]
        is_compiled_order(order, file.categories@, merged_macros(file, shared))
}

/// Whether `b` are the categories of `a` with the shared macros and their priority order.
pub open spec fn is_prepared(
    a: (ElementKind, CategoriesFile),
    b: (ElementKind, CategoriesFile),
    shared: Seq<(Seq<char>, FilterV)>,
) -> bool {
    &&& b.0 == a.0
    &&& b.1.categories@ == a.1.categories@
    &&& macros_view(b.1.macros@) == merged_macros(a.1, shared)
    &&& is_compiled_order(b.1.order@, b.1.categories@, macros_view(b.1.macros@))
    &&& order_fits(b.1.order@, b.1.categories@.len() as int)
}

/// Whether every kind's categories are prepared.
pub open spec fn all_prepared(
    a: Seq<(ElementKind, CategoriesFile)>,
    b: Seq<(ElementKind, CategoriesFile)>,
    shared: Seq<(Seq<char>, FilterV)>,
) -> bool {
    a.len() == b.len() && forall|i: int|
        0 <= i < a.len() ==> is_prepared(#[trigger] a[i], b[i], shared)
}

/// Whether the error is that of the first kind whose categories have no priority order.
pub open spec fn first_unorderable(
    a: Seq<(ElementKind, CategoriesFile)>,
    shared: Seq<(Seq<char>, FilterV)>,
    e: OrderError,
) -> bool {
    exists|i: int|
        0 <= i < a.len() && explains(
            e,
            (#[trigger] a[i]).1.categories@,
            merged_macros(a[i].1, shared),
        ) && forall|j: int| 0 <= j < i ==> is_orderable((#[trigger] a[j]).1, shared)
}

/// Whether every kind's categories have a priority order.
pub open spec fn all_orderable(
    a: Seq<(ElementKind, CategoriesFile)>,
    shared: Seq<(Seq<char>, FilterV)>,
) -> bool {
    forall|i: int| 0 <= i < a.len() ==> is_orderable((#[trigger] a[i]).1, shared)
}

fn append_macros(macros: Vec<(String, Filter)>, shared: &Vec<(String, Filter)>) -> (r: Vec<
    (String, Filter),
>)
    ensures
        macros_view(r@) == macros_view(macros@) + macros_view(shared@),
{
    let ghost before = macros_view(macros@);
    let ghost sv = macros_view(shared@);
    let mut out = macros;
    proof {
        assert(before + sv.take(0) =~= before);
    }
    for i in 0..shared.len()
        invariant
            sv == macros_view(shared@),
            macros_view(out@) == before + sv.take(i as int),
    {
        let ghost o = out@;
        out.push((shared[i].0.clone(), clone_filter(&shared[i].1)));
        proof {
            assert(macros_view(out@) =~= macros_view(o).push(sv[i as int]));
            assert(before + sv.take(i + 1) =~= (before + sv.take(i as int)).push(sv[i as int]));
        }
    }
    proof {
        assert(sv.take(sv.len() as int) =~= sv);
    }
    out
}

/// Puts the shared macros behind those of every kind's categories, and works out the priority
/// orders.
pub fn prepare_categories(
    categories: Vec<(ElementKind, CategoriesFile)>,
    shared_macros: &Vec<(String, Filter)>,
) -> (r: Result<Vec<(ElementKind, CategoriesFile)>, OrderError>)
    ensures
        match r {
            Ok(v) => all_prepared(categories@, v@, macros_view(shared_macros@)) && all_orderable(
                categories@,
                macros_view(shared_macros@),
            ),
            Err(e) => first_unorderable(categories@, macros_view(shared_macros@), e),
        },
{
    let ghost all = categories@;
    let ghost sv = macros_view(shared_macros@);
    let n: usize = categories.len();
    let mut left = categories;
    let mut out: Vec<(ElementKind, CategoriesFile)> = Vec::new();
    let mut i: usize = 0;
    while i < n
        invariant
            0 <= i <= n,
            n == all.len(),
            all == categories@,
            sv == macros_view(shared_macros@),
            left@ == all.skip(i as int),
            out@.len() == i,
            forall|j: int|
                0 <= j < i ==> is_prepared(#[trigger] all[j], out@[j], sv) && is_orderable(
                    all[j].1,
                    sv,
                ),
        decreases n - i,
    {
        let (kind, file) = left.remove(0);
        proof {
            assert((kind, file) == all[i as int]);
            assert(left@ =~= all.skip(i + 1));
        }
        let mut ready = CategoriesFile {
            macros: append_macros(file.macros, shared_macros),
            categories: file.categories,
            order: file.order,
        };
        match ready.build_order() {
            Ok(_) => {
                out.push((kind, ready));
                proof {
                    let o = out@[i as int];
                    assert(is_prepared(all[i as int], o, sv));
                    assert(is_compiled_order(
                        o.1.order@,
                        all[i as int].1.categories@,
                        merged_macros(all[i as int].1, sv),
                    ));
                }
            },
            Err(e) => {
                proof {
                    assert(explains(
                        e,
                        all[i as int].1.categories@,
                        merged_macros(all[i as int].1, sv),
                    ));
                }
                return Err(e);
            },
        }
        i = i + 1;
    }
    Ok(out)
}

// ── What each category overrides ────────────────────────────────────────────────────────────

/// Whether a category counts: all do, or those with derivers of their own.
pub open spec fn counts(d: CategoryDef, overriding: bool) -> bool {
    overriding ==> d.derivers is Some
}

/// The place of the last category, among the first `n`, with the name that counts, or -1.
pub open spec fn last_counting(
    cats: Seq<CategoryDef>,
    n: int,
    id: Seq<char>,
    overriding: bool,
) -> int
    decreases n,
{
    if n <= 0 || n > cats.len() {
        -1
    } else if cats[n - 1].id@ == id && counts(cats[n - 1], overriding) {
        n - 1
    } else {
        last_counting(cats, n - 1, id, overriding)
    }
}

/// The last category with the name that counts, in the kinds from `k` on.
pub open spec fn last_def(
    ks: Seq<(ElementKind, CategoriesFile)>,
    k: int,
    id: Seq<char>,
    overriding: bool,
) -> Option<CategoryDef>
    decreases ks.len() - k,
{
    if k < 0 || k >= ks.len() {
        None
    } else {
        match last_def(ks, k + 1, id, overriding) {
            Some(d) => Some(d),
            None => {
                let cats = ks[k].1.categories@;
                let i = last_counting(cats, cats.len() as int, id, overriding);
                if i >= 0 {
                    Some(cats[i])
                } else {
                    None
                }
            },
        }
    }
}

/// The categories at places of a list.
pub open spec fn defs_at(
    places: Seq<(String, (usize, usize))>,
    ks: Seq<(ElementKind, CategoriesFile)>,
) -> Seq<(Seq<char>, CategoryDef)> {
    places.map_values(
        |p: (String, (usize, usize))|
            (p.0@, ks[p.1.0 as int].1.categories@[p.1.1 as int]),
    )
}

/// Whether every place is one that there is.
pub open spec fn places_fit(
    places: Seq<(String, (usize, usize))>,
    ks: Seq<(ElementKind, CategoriesFile)>,
) -> bool {
    forall|i: int|
        0 <= i < places.len() ==> (#[trigger] places[i]).1.0 < ks.len() && places[i].1.1
            < ks[places[i].1.0 as int].1.categories@.len()
}

proof fn lemma_last_counting(
    cats: Seq<CategoryDef>,
    n: int,
    m: int,
    id: Seq<char>,
    overriding: bool,
)
    requires
        0 <= n <= m <= cats.len(),
    ensures
        last_counting(cats, m, id, overriding) < m,
        last_counting(cats, m, id, overriding) < n ==> last_counting(cats, m, id, overriding)
            == last_counting(cats, n, id, overriding),
        last_counting(cats, m, id, overriding) >= -1,
    decreases m,
{
    if m > n {
        lemma_last_counting(cats, n, m - 1, id, overriding);
    } else if m > 0 {
        lemma_last_counting(cats, n - 1, m - 1, id, overriding);
    }
}

/// The places of the categories that count, so that the first with a name is the last category of
/// that name.
fn last_places(ks: &Vec<(ElementKind, CategoriesFile)>, overriding: bool) -> (r: Vec<
    (String, (usize, usize)),
>)
    ensures
        places_fit(r@, ks@),
        forall|id: Seq<char>| #[trigger]
            lookup(defs_at(r@, ks@), id) == last_def(ks@, 0, id, overriding),
{
    let mut out: Vec<(String, (usize, usize))> = Vec::new();
    let ghost kv = ks@;
    let mut k: usize = ks.len();
    while k > 0
        invariant
            0 <= k <= ks@.len(),
            kv == ks@,
            places_fit(out@, kv),
            forall|id: Seq<char>| #[trigger]
                lookup(defs_at(out@, kv), id) == last_def(kv, k as int, id, overriding),
        decreases k,
    {
        let ghost later = defs_at(out@, kv);
        let cats = &ks[k - 1].1.categories;
        let mut i: usize = cats.len();
        proof {
            assert forall|id: Seq<char>| #[trigger] lookup(defs_at(out@, kv), id) == (match lookup(
                later,
                id,
            ) {
                Some(d) => Some(d),
                None => if last_counting(cats@, cats@.len() as int, id, overriding) >= i {
                    Some(cats@[last_counting(cats@, cats@.len() as int, id, overriding)])
                } else {
                    None
                },
            }) by {
                lemma_last_counting(cats@, 0, cats@.len() as int, id, overriding);
            }
        }
        while i > 0
            invariant
                0 <= i <= cats@.len(),
                0 < k <= ks@.len(),
                kv == ks@,
                cats@ == kv[k - 1].1.categories@,
                places_fit(out@, kv),
                forall|id: Seq<char>| #[trigger]
                    lookup(defs_at(out@, kv), id) == (match lookup(later, id) {
                        Some(d) => Some(d),
                        None => if last_counting(cats@, cats@.len() as int, id, overriding) >= i {
                            Some(cats@[last_counting(cats@, cats@.len() as int, id, overriding)])
                        } else {
                            None
                        },
                    }),
            decreases i,
        {
            let ghost before = defs_at(out@, kv);
            let ghost o = out@;
            let d = &cats[i - 1];
            let taken = !overriding || d.derivers.is_some();
            if taken {
                out.push((d.id.clone(), (k - 1, i - 1)));
                proof {
                    assert(defs_at(out@, kv) =~= before.push((d.id@, *d)));
                }
            }
            proof {
                let n = cats@.len() as int;
                assert forall|id: Seq<char>| #[trigger] lookup(defs_at(out@, kv), id) == (
                match lookup(later, id) {
                    Some(d) => Some(d),
                    None => if last_counting(cats@, n, id, overriding) >= i - 1 {
                        Some(cats@[last_counting(cats@, n, id, overriding)])
                    } else {
                        None
                    },
                }) by {
                    lemma_last_counting(cats@, i as int, n, id, overriding);
                    lemma_last_counting(cats@, 0, i - 1, id, overriding);
                    assert(taken == counts(cats@[i - 1], overriding));
                    assert(last_counting(cats@, i as int, id, overriding) == (if d.id@ == id
                        && taken {
                        i - 1
                    } else {
                        last_counting(cats@, i - 1, id, overriding)
                    }));
                    if taken {
                        lemma_lookup_push(before, (d.id@, *d), id);
                    }
                    assert(lookup(before, id) == (match lookup(later, id) {
                        Some(d) => Some(d),
                        None => if last_counting(cats@, n, id, overriding) >= i {
                            Some(cats@[last_counting(cats@, n, id, overriding)])
                        } else {
                            None
                        },
                    }));
                }
            }
            i = i - 1;
        }
        proof {
            assert forall|id: Seq<char>| #[trigger] lookup(defs_at(out@, kv), id) == last_def(
                kv,
                k - 1,
                id,
                overriding,
            ) by {
                assert(lookup(later, id) == last_def(kv, k as int, id, overriding));
                lemma_last_counting(cats@, 0, cats@.len() as int, id, overriding);
            }
        }
        k = k - 1;
    }
    out
}

/// The fields of named objects.
pub open spec fn named_fields(v: Seq<(String, Fields)>) -> Seq<(Seq<char>, Map<Seq<char>, ValueV>)> {
    v.map_values(|p: (String, Fields)| (p.0@, p.1@))
}

/// The fields of named lists.
pub open spec fn named_lists(v: Seq<(String, Vec<Field>)>) -> Seq<(Seq<char>, Seq<FieldV>)> {
    v.map_values(|p: (String, Vec<Field>)| (p.0@, fields_view(p.1@)))
}

/// What is put over what for a category: its constants or its private data over those of the topic.
pub open spec fn effective(
    base: Map<Seq<char>, ValueV>,
    d: Option<CategoryDef>,
    private: bool,
) -> Option<Map<Seq<char>, ValueV>> {
    match d {
        Some(x) => Some(
            base.union_prefer_right(
                if private {
                    x.private@
                } else {
                    x.consts@
                },
            ),
        ),
        None => None,
    }
}

proof fn lemma_mapped_lookup<A, B>(a: Seq<(Seq<char>, A)>, b: Seq<(Seq<char>, B)>, id: Seq<char>)
    requires
        a.len() == b.len(),
        forall|i: int| 0 <= i < a.len() ==> (#[trigger] a[i]).0 == b[i].0,
    ensures
        lookup(a, id) is Some <==> lookup(b, id) is Some,
        lookup(a, id) is Some ==> exists|i: int|
            0 <= i < a.len() && (#[trigger] a[i]).0 == id && lookup(a, id) == Some(a[i].1)
                && lookup(b, id) == Some(b[i].1),
    decreases a.len(),
{
    if a.len() > 0 {
        assert(a[0].0 == b[0].0);
        if a[0].0 != id {
            assert forall|i: int| 0 <= i < a.skip(1).len() implies (#[trigger] a.skip(1)[i]).0
                == b.skip(1)[i].0 by {
                assert(a[i + 1].0 == b[i + 1].0);
            }
            lemma_mapped_lookup(a.skip(1), b.skip(1), id);
            if lookup(a, id) is Some {
                let i = choose|i: int|
                    0 <= i < a.skip(1).len() && (#[trigger] a.skip(1)[i]).0 == id && lookup(
                        a.skip(1),
                        id,
                    ) == Some(a.skip(1)[i].1) && lookup(b.skip(1), id) == Some(b.skip(1)[i].1);
                assert(a[i + 1] == a.skip(1)[i]);
                assert(b[i + 1] == b.skip(1)[i]);
            }
        }
    }
}

/// The constants, or the private data, of every category: its own over those of the topic.
pub fn effective_fields(
    ks: &Vec<(ElementKind, CategoriesFile)>,
    base: &Fields,
    private: bool,
) -> (r: Vec<(String, Fields)>)
    ensures
        forall|id: Seq<char>| #[trigger]
            lookup(named_fields(r@), id) == effective(
                base@,
                last_def(ks@, 0, id, false),
                private,
            ),
{
    let places = last_places(ks, false);
    let ghost dv = defs_at(places@, ks@);
    let mut out: Vec<(String, Fields)> = Vec::new();
    for i in 0..places.len()
        invariant
            dv == defs_at(places@, ks@),
            places_fit(places@, ks@),
            out@.len() == i,
            forall|j: int|
                0 <= j < i ==> (#[trigger] out@[j]).0@ == dv[j].0 && Some(out@[j].1@) == effective(
                    base@,
                    Some(dv[j].1),
                    private,
                ),
    {
        let d = &ks[places[i].1.0].1.categories[places[i].1.1];
        let over = if private {
            &d.private
        } else {
            &d.consts
        };
        out.push((places[i].0.clone(), overlay(base, over)));
    }
    proof {
        let nv = named_fields(out@);
        assert forall|id: Seq<char>| #[trigger] lookup(nv, id) == effective(
            base@,
            last_def(ks@, 0, id, false),
            private,
        ) by {
            assert(lookup(dv, id) == last_def(ks@, 0, id, false));
            lemma_mapped_lookup(dv, nv, id);
            if lookup(dv, id) is Some {
                let i = choose|i: int|
                    0 <= i < dv.len() && (#[trigger] dv[i]).0 == id && lookup(dv, id) == Some(
                        dv[i].1,
                    ) && lookup(nv, id) == Some(nv[i].1);
                assert(nv[i].1 == out@[i].1@);
            }
        }
    }
    out
}

/// Whether the derivers of a category are all in the library.
pub open spec fn def_bound(lib: Seq<(Seq<char>, ProducerV)>, d: CategoryDef) -> bool {
    d.derivers is Some ==> all_bound(lib, d.derivers->0@)
}

/// Whether the derivers of every category are all in the library.
pub open spec fn defs_bound(
    lib: Seq<(Seq<char>, ProducerV)>,
    ks: Seq<(ElementKind, CategoriesFile)>,
) -> bool {
    forall|k: int, i: int|
        0 <= k < ks.len() && 0 <= i < ks[k].1.categories@.len() ==> def_bound(
            lib,
            #[trigger] ks[k].1.categories@[i],
        )
}

/// Whether `name` is a deriver that the library does not have, of the first category with one.
pub open spec fn first_unbound_def(
    lib: Seq<(Seq<char>, ProducerV)>,
    ks: Seq<(ElementKind, CategoriesFile)>,
    name: Seq<char>,
) -> bool {
    exists|k: int, i: int|
        0 <= k < ks.len() && 0 <= i < ks[k].1.categories@.len() && (
        #[trigger] ks[k].1.categories@[i]).derivers is Some && first_unbound(
            lib,
            ks[k].1.categories@[i].derivers->0@,
            name,
        ) && forall|m: int, j: int|
            0 <= m < ks.len() && 0 <= j < ks[m].1.categories@.len() && (m < k || (m == k && j < i))
                ==> def_bound(lib, #[trigger] ks[m].1.categories@[j])
}

/// The derivers of a category: those of the topic with its own in their places.
pub open spec fn effective_derivers(
    base: Seq<FieldV>,
    lib: Seq<(Seq<char>, ProducerV)>,
    d: Option<CategoryDef>,
) -> Option<Seq<FieldV>> {
    match d {
        Some(x) => Some(overridden(base, bound_fields(lib, x.derivers->0@))),
        None => None,
    }
}

fn check_derivers(
    lib: &Vec<(String, Producer)>,
    ks: &Vec<(ElementKind, CategoriesFile)>,
    topic: &str,
) -> (r: Result<(), LoadError>)
    ensures
        match r {
            Ok(_) => defs_bound(library_view(lib@), ks@),
            Err(e) => e is UnknownDeriver && e->UnknownDeriver_topic@ == topic@
                && first_unbound_def(library_view(lib@), ks@, e->deriver@),
        },
{
    let ghost lv = library_view(lib@);
    let ghost kv = ks@;
    let mut k: usize = 0;
    while k < ks.len()
        invariant
            0 <= k <= ks@.len(),
            lv == library_view(lib@),
            kv == ks@,
            forall|m: int, j: int|
                0 <= m < k && 0 <= j < kv[m].1.categories@.len() ==> def_bound(
                    lv,
                    #[trigger] kv[m].1.categories@[j],
                ),
        decreases ks.len() - k,
    {
        let mut i: usize = 0;
        while i < ks[k].1.categories.len()
            invariant
                0 <= i <= kv[k as int].1.categories@.len(),
                k < ks@.len(),
                lv == library_view(lib@),
                kv == ks@,
                forall|m: int, j: int|
                    0 <= m < kv.len() && 0 <= j < kv[m].1.categories@.len() && (m < k || (m == k
                        && j < i)) ==> def_bound(lv, #[trigger] kv[m].1.categories@[j]),
            decreases kv[k as int].1.categories@.len() - i,
        {
            match &ks[k].1.categories[i].derivers {
                Some(bindings) => match resolve_bindings(lib, bindings, topic) {
                    Ok(_) => {},
                    Err(e) => {
                        proof {
                            assert(kv[k as int].1.categories@[i as int].derivers is Some);
                            assert(first_unbound_def(lv, kv, e->deriver@));
                        }
                        return Err(e);
                    },
                },
                None => {},
            }
            proof {
                assert(def_bound(lv, kv[k as int].1.categories@[i as int]));
            }
            i = i + 1;
        }
        k = k + 1;
    }
    Ok(())
}

/// The derivers of every category that has some of its own; an error names the first deriver that
/// the library does not have.
pub fn derivers_by_category(
    lib: &Vec<(String, Producer)>,
    ks: &Vec<(ElementKind, CategoriesFile)>,
    base: &Vec<Field>,
    topic: &str,
) -> (r: Result<Vec<(String, Vec<Field>)>, LoadError>)
    ensures
        match r {
            Ok(v) => defs_bound(library_view(lib@), ks@) && forall|id: Seq<char>| #[trigger]
                lookup(named_lists(v@), id) == effective_derivers(
                    fields_view(base@),
                    library_view(lib@),
                    last_def(ks@, 0, id, true),
                ),
            Err(e) => e is UnknownDeriver && e->UnknownDeriver_topic@ == topic@
                && first_unbound_def(library_view(lib@), ks@, e->deriver@),
        },
{
    match check_derivers(lib, ks, topic) {
        Ok(_) => {},
        Err(e) => {
            return Err(e);
        },
    }
    let ghost lv = library_view(lib@);
    let ghost bv = fields_view(base@);
    let places = last_places(ks, true);
    let ghost dv = defs_at(places@, ks@);
    let mut out: Vec<(String, Vec<Field>)> = Vec::new();
    for i in 0..places.len()
        invariant
            lv == library_view(lib@),
            bv == fields_view(base@),
            dv == defs_at(places@, ks@),
            places_fit(places@, ks@),
            defs_bound(lv, ks@),
            out@.len() == i,
            forall|j: int|
                0 <= j < i ==> (#[trigger] out@[j]).0@ == dv[j].0 && (dv[j].1.derivers is Some
                    ==> Some(fields_view(out@[j].1@)) == effective_derivers(
                    bv,
                    lv,
                    Some(dv[j].1),
                )),
    {
        let d = &ks[places[i].1.0].1.categories[places[i].1.1];
        proof {
            assert(def_bound(lv, ks@[places@[i as int].1.0 as int].1.categories@[places@[i as int].1.1 as int]));
        }
        let list = match &d.derivers {
            Some(bindings) => match resolve_bindings(lib, bindings, topic) {
                Ok(own) => apply_overrides(base, own),
                Err(e) => {
                    proof {
                        let name = e->deriver@;
                        let bs = bindings@;
                        let q = choose|q: int|
                            0 <= q < bs.len() && (#[trigger] bs[q]).spec_deriver() == name
                                && !is_bound(lv, bs[q]) && forall|j: int|
                                0 <= j < q ==> is_bound(lv, #[trigger] bs[j]);
                        assert(is_bound(lv, bs[q]));
                    }
                    Vec::new()
                },
            },
            None => clone_fields(base),
        };
        out.push((places[i].0.clone(), list));
    }
    proof {
        let nv = named_lists(out@);
        assert forall|id: Seq<char>| #[trigger] lookup(nv, id) == effective_derivers(
            bv,
            lv,
            last_def(ks@, 0, id, true),
        ) by {
            assert(lookup(dv, id) == last_def(ks@, 0, id, true));
            lemma_mapped_lookup(dv, nv, id);
            if lookup(dv, id) is Some {
                let i = choose|i: int|
                    0 <= i < dv.len() && (#[trigger] dv[i]).0 == id && lookup(dv, id) == Some(
                        dv[i].1,
                    ) && lookup(nv, id) == Some(nv[i].1);
                lemma_last_def_counts(ks@, 0, id, true);
                assert(nv[i].1 == fields_view(out@[i].1@));
                assert(out@[i].0@ == dv[i].0);
            }
        }
    }
    Ok(out)
}

proof fn lemma_last_counting_counts(
    cats: Seq<CategoryDef>,
    n: int,
    id: Seq<char>,
    overriding: bool,
)
    requires
        0 <= n <= cats.len(),
        last_counting(cats, n, id, overriding) >= 0,
    ensures
        last_counting(cats, n, id, overriding) < n,
        counts(cats[last_counting(cats, n, id, overriding)], overriding),
    decreases n,
{
    if !(cats[n - 1].id@ == id && counts(cats[n - 1], overriding)) {
        lemma_last_counting_counts(cats, n - 1, id, overriding);
    }
}

proof fn lemma_last_def_counts(
    ks: Seq<(ElementKind, CategoriesFile)>,
    k: int,
    id: Seq<char>,
    overriding: bool,
)
    requires
        0 <= k <= ks.len(),
        last_def(ks, k, id, overriding) is Some,
    ensures
        counts(last_def(ks, k, id, overriding)->0, overriding),
    decreases ks.len() - k,
{
    if k < ks.len() {
        if last_def(ks, k + 1, id, overriding) is Some {
            lemma_last_def_counts(ks, k + 1, id, overriding);
        } else {
            let cats = ks[k].1.categories@;
            lemma_last_counting_counts(cats, cats.len() as int, id, overriding);
        }
    }
}

// ── Loading ─────────────────────────────────────────────────────────────────────────────────

/// What a topic is loaded from: its own description, its sanitizers and those that topics share, its
/// derivers, the categories of every kind, and the macros that topics share.
#[derive(Debug)]
pub struct TopicSource {
    pub spec: TopicSpec,
    pub own_sanitizers: Vec<(String, SanitizerDef)>,
    pub shared_sanitizers: Vec<(String, SanitizerDef)>,
    pub deriver_lib: Vec<(String, Producer)>,
    pub categories: Vec<(ElementKind, CategoriesFile)>,
    pub shared_macros: Vec<(String, Filter)>,
}

/// The fields of a topic's sanitizers.
pub open spec fn sanitizer_fields(v: Seq<Sanitizer>) -> Seq<FieldV> {
    v.map_values(|s: Sanitizer| s.spec_field())
}

/// Whether the runner is what the source describes.
pub open spec fn is_loaded(t: TopicRunner, s: TopicSource) -> bool {
    let lib = library_view(s.deriver_lib@);
    &&& t.spec == s.spec
    &&& t.deriver_lib == s.deriver_lib
    &&& fields_view(t.sanitizer_fields@) == sanitizer_fields(s.spec.sanitizers@)
    &&& t.sanitizers@ == normal_defs(defs(s.own_sanitizers@) + defs(s.shared_sanitizers@))
    &&& fields_view(t.topic_derivers@) == bound_fields(lib, s.spec.derivers@)
    &&& all_prepared(s.categories@, t.categories@, macros_view(s.shared_macros@))
    &&& t.pipeline@ == sorted_steps(s.spec.transforms@)
    &&& forall|id: Seq<char>| #[trigger]
        lookup(named_lists(t.category_derivers@), id) == effective_derivers(
            bound_fields(lib, s.spec.derivers@),
            lib,
            last_def(t.categories@, 0, id, true),
        )
    &&& forall|id: Seq<char>| #[trigger]
        lookup(named_fields(t.category_consts@), id) == effective(
            s.spec.consts@,
            last_def(t.categories@, 0, id, false),
            false,
        )
    &&& forall|id: Seq<char>| #[trigger]
        lookup(named_fields(t.category_private@), id) == effective(
            s.spec.private@,
            last_def(t.categories@, 0, id, false),
            true,
        )
}

/// Whether the source describes a topic: every deriver is in the library, every kind's categories
/// have a priority order, and every step is declared by a name that there is.
pub open spec fn is_loadable(s: TopicSource) -> bool {
    let lib = library_view(s.deriver_lib@);
    &&& all_bound(lib, s.spec.derivers@)
    &&& all_orderable(s.categories@, macros_view(s.shared_macros@))
    &&& all_declared(s.spec.transforms@)
    &&& defs_bound(lib, s.categories@)
}

/// Whether the error is the first thing that keeps the topic from being loaded.
pub open spec fn hinders(e: LoadError, name: Seq<char>, s: TopicSource) -> bool {
    let lib = library_view(s.deriver_lib@);
    let shared = macros_view(s.shared_macros@);
    match e {
        LoadError::UnknownDeriver { topic, deriver } => topic@ == name && (first_unbound(
            lib,
            s.spec.derivers@,
            deriver@,
        ) || (all_bound(lib, s.spec.derivers@) && all_orderable(s.categories@, shared)
            && all_declared(s.spec.transforms@) && first_unbound_def(
            lib,
            s.categories@,
            deriver@,
        ))),
        LoadError::Order { topic, error } => topic@ == name && all_bound(lib, s.spec.derivers@)
            && first_unorderable(s.categories@, shared, error),
        LoadError::UnknownTransform { topic, transform } => topic@ == name && all_bound(
            lib,
            s.spec.derivers@,
        ) && all_orderable(s.categories@, shared) && first_undeclared(
            s.spec.transforms@,
            transform@,
        ),
    }
}

fn join_defs(
    own: Vec<(String, SanitizerDef)>,
    shared: Vec<(String, SanitizerDef)>,
) -> (r: Vec<(String, SanitizerDef)>)
    ensures
        defs(r@) == defs(own@) + defs(shared@),
{
    let ghost a = own@;
    let ghost b = shared@;
    let mut out = own;
    let mut more = shared;
    out.append(&mut more);
    proof {
        assert(defs(out@) =~= defs(a) + defs(b));
    }
    out
}

proof fn lemma_prepared_defs(
    a: Seq<(ElementKind, CategoriesFile)>,
    b: Seq<(ElementKind, CategoriesFile)>,
    shared: Seq<(Seq<char>, FilterV)>,
    lib: Seq<(Seq<char>, ProducerV)>,
)
    requires
        all_prepared(a, b, shared),
    ensures
        defs_bound(lib, a) == defs_bound(lib, b),
        forall|name: Seq<char>| #[trigger]
            first_unbound_def(lib, b, name) ==> first_unbound_def(lib, a, name),
{
    assert forall|k: int, i: int|
        0 <= k < a.len() && 0 <= i < a[k].1.categories@.len() implies (
    #[trigger] a[k].1.categories@[i]) == b[k].1.categories@[i] && b[k].1.categories@.len()
        == a[k].1.categories@.len() by {
        assert(is_prepared(a[k], b[k], shared));
    }
    assert forall|k: int| 0 <= k < a.len() implies (#[trigger] b[k]).1.categories@
        == a[k].1.categories@ by {
        assert(is_prepared(a[k], b[k], shared));
    }
    if defs_bound(lib, a) {
        assert forall|k: int, i: int|
            0 <= k < b.len() && 0 <= i < b[k].1.categories@.len() implies def_bound(
            lib,
            #[trigger] b[k].1.categories@[i],
        ) by {
            assert(def_bound(lib, a[k].1.categories@[i]));
        }
    }
    if defs_bound(lib, b) {
        assert forall|k: int, i: int|
            0 <= k < a.len() && 0 <= i < a[k].1.categories@.len() implies def_bound(
            lib,
            #[trigger] a[k].1.categories@[i],
        ) by {
            assert(def_bound(lib, b[k].1.categories@[i]));
        }
    }
    assert forall|name: Seq<char>| #[trigger]
        first_unbound_def(lib, b, name) implies first_unbound_def(lib, a, name) by {
        let (k, i) = choose|k: int, i: int|
            0 <= k < b.len() && 0 <= i < b[k].1.categories@.len() && (
            #[trigger] b[k].1.categories@[i]).derivers is Some && first_unbound(
                lib,
                b[k].1.categories@[i].derivers->0@,
                name,
            ) && forall|m: int, j: int|
                0 <= m < b.len() && 0 <= j < b[m].1.categories@.len() && (m < k || (m == k && j
                    < i)) ==> def_bound(lib, #[trigger] b[m].1.categories@[j]);
        assert(a[k].1.categories@[i].derivers is Some);
        assert forall|m: int, j: int|
            0 <= m < a.len() && 0 <= j < a[m].1.categories@.len() && (m < k || (m == k && j
                < i)) implies def_bound(lib, #[trigger] a[m].1.categories@[j]) by {
            assert(def_bound(lib, b[m].1.categories@[j]));
        }
    }
}

impl TopicRunner {
    /// Loads a topic: resolves its references, orders its categories, sorts its steps, and works
    /// out what each category overrides.
    pub fn load(name: &str, source: TopicSource) -> (r: Result<TopicRunner, LoadError>)
        ensures
            match r {
                Ok(t) => is_loadable(source) && is_loaded(t, source),
                Err(e) => hinders(e, name@, source),
            },
    {
        let ghost s = source;
        let TopicSource {
            spec,
            own_sanitizers,
            shared_sanitizers,
            deriver_lib,
            categories,
            shared_macros,
        } = source;
        let mut fields: Vec<Field> = Vec::new();
        for i in 0..spec.sanitizers.len()
            invariant
                fields@.len() == i,
                forall|j: int|
                    0 <= j < i ==> (#[trigger] fields@[j])@ == spec.sanitizers@[j].spec_field(),
        {
            fields.push(spec.sanitizers[i].to_field());
        }
        proof {
            assert(fields_view(fields@) =~= sanitizer_fields(spec.sanitizers@));
        }
        let sanitizers = SanitizerRegistry::new(join_defs(own_sanitizers, shared_sanitizers));
        let topic_derivers = match resolve_bindings(&deriver_lib, &spec.derivers, name) {
            Ok(v) => v,
            Err(e) => {
                return Err(e);
            },
        };
        let prepared = match prepare_categories(categories, &shared_macros) {
            Ok(v) => v,
            Err(error) => {
                return Err(LoadError::Order { topic: name.to_owned(), error });
            },
        };
        let pipeline = match sort_transforms(&spec.transforms) {
            Ok(p) => p,
            Err(transform) => {
                return Err(LoadError::UnknownTransform { topic: name.to_owned(), transform });
            },
        };
        proof {
            lemma_prepared_defs(
                s.categories@,
                prepared@,
                macros_view(s.shared_macros@),
                library_view(s.deriver_lib@),
            );
        }
        let category_derivers = match derivers_by_category(
            &deriver_lib,
            &prepared,
            &topic_derivers,
            name,
        ) {
            Ok(v) => v,
            Err(e) => {
                return Err(e);
            },
        };
        let category_consts = effective_fields(&prepared, &spec.consts, false);
        let category_private = effective_fields(&prepared, &spec.private, true);
        Ok(
            TopicRunner {
                spec,
                categories: prepared,
                pipeline,
                sanitizer_fields: fields,
                sanitizers,
                deriver_lib,
                topic_derivers,
                category_derivers,
                category_consts,
                category_private,
            },
        )
    }

    /// The table of the topic.
    pub fn table(&self) -> (r: &str)
        ensures
            r@ == self.spec.table@,
    {
        self.spec.table.as_str()
    }
}

} // verus!
