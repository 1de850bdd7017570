//! What a topic holds once it is loaded: whose sanitizers and macros count, whose constants and
//! derivers a category has, and which steps it takes.
use vstd::prelude::*;

use crate::assoc::lookup;
use crate::classify::categories::{CategoriesFile, CategoryDef};
use crate::classify::filter::macros_view;
use crate::classify::sanitize::{
    def_result, defs, normal_def, normal_defs, sanitized_by, tables_mean_their_cases, DefV,
};
use crate::engine::csv_source::{flattened, spelled_tags, FieldTextV};
use crate::engine::discover::is_shared;
use crate::engine::extract::{library_view, produced, CtxV, ProducedV};
use crate::engine::producer_laws::{first_set_key_is_read, read_texts_are_sanitized};
use crate::engine::runner::derivers_of;
use crate::engine::topic::{fields_view, DeriverBinding, FieldV, ParamTransform, Transform};
use crate::engine::topic_runner::{
    bound_fields, counts, effective, effective_derivers, is_declared, is_loaded, last_counting,
    last_def, last_source, named_fields, named_lists, output_place, overrides_win, sorted_steps,
    source_for, ElementKind, TagTransformV, TopicRunner, TopicSource,
};
use crate::json::json_text;
use crate::lang::filter::Spelling;
use crate::number::ReadingsV;
use crate::value::ValueV;


verus! {

// ── Whose sanitizers and macros count ───────────────────────────────────────────────────────

proof fn lemma_first_of_two<T>(a: Seq<(Seq<char>, T)>, b: Seq<(Seq<char>, T)>, key: Seq<char>)
    ensures
        lookup(a, key) is Some ==> lookup(a + b, key) == lookup(a, key),
        lookup(a, key) is None ==> lookup(a + b, key) == lookup(b, key),
    decreases a.len(),
{
    if a.len() == 0 {
        assert(a + b =~= b);
    } else {
        assert((a + b)[0] == a[0]);
        if a[0].0 != key {
            assert((a + b).skip(1) =~= a.skip(1) + b);
            lemma_first_of_two(a.skip(1), b, key);
        }
    }
}

proof fn lemma_normal_lookup(v: Seq<(Seq<char>, DefV)>, key: Seq<char>)
    ensures
        lookup(normal_defs(v), key) == (match lookup(v, key) {
            Some(d) => Some(normal_def(d)),
            None => None,
        }),
    decreases v.len(),
{
    if v.len() > 0 && v[0].0 != key {
        assert(normal_defs(v).skip(1) =~= normal_defs(v.skip(1)));
        lemma_normal_lookup(v.skip(1), key);
    }
}

/// A topic's own sanitizer counts before a shared one of the same name; a shared one counts where
/// the topic has none.
pub proof fn own_sanitizers_count_first(
    t: TopicRunner,
    s: TopicSource,
    name: Seq<char>,
    text: Seq<char>,
    readings: ReadingsV,
)
    requires
        is_loaded(t, s),
    ensures
        lookup(defs(s.own_sanitizers@), name) matches Some(d) ==> sanitized_by(
            t.sanitizers@,
            name,
            text,
            readings,
        ) == def_result(d, text, readings),
        lookup(defs(s.own_sanitizers@), name) is None ==> sanitized_by(
            t.sanitizers@,
            name,
            text,
            readings,
        ) == sanitized_by(defs(s.shared_sanitizers@), name, text, readings),
{
    let own = defs(s.own_sanitizers@);
    let shared = defs(s.shared_sanitizers@);
    lemma_first_of_two(own, shared, name);
    lemma_normal_lookup(own + shared, name);
    if let Some(d) = lookup(own + shared, name) {
        tables_mean_their_cases(d, text, readings);
    }
}

/// A kind's own macro counts before a shared one of the same name. Its categories are those of its
/// file.
pub proof fn own_macros_count_first(t: TopicRunner, s: TopicSource, k: int, name: Seq<char>)
    requires
        is_loaded(t, s),
        0 <= k < s.categories@.len(),
    ensures
        t.categories@.len() == s.categories@.len(),
        t.categories@[k].0 == s.categories@[k].0,
        t.categories@[k].1.categories@ == s.categories@[k].1.categories@,
        ({
            let own = lookup(macros_view(s.categories@[k].1.macros@), name);
            let found = lookup(macros_view(t.categories@[k].1.macros@), name);
            if own is Some {
                found == own
            } else {
                found == lookup(macros_view(s.shared_macros@), name)
            }
        }),
{
    lemma_first_of_two(
        macros_view(s.categories@[k].1.macros@),
        macros_view(s.shared_macros@),
        name,
    );
}

// ── Whose constants and derivers a category has ─────────────────────────────────────────────

/// Whether no other category of any kind has the name of the `i`-th of the `k`-th kind.
pub open spec fn is_named_once(ks: Seq<(ElementKind, CategoriesFile)>, k: int, i: int) -> bool {
    &&& 0 <= k < ks.len()
    &&& 0 <= i < ks[k].1.categories@.len()
    &&& forall|l: int, j: int|
        0 <= l < ks.len() && 0 <= j < ks[l].1.categories@.len() && (
        #[trigger] ks[l].1.categories@[j]).id@ == ks[k].1.categories@[i].id@ ==> l == k && j == i
}

proof fn lemma_counting(cats: Seq<CategoryDef>, n: int, i: int, id: Seq<char>, overriding: bool)
    requires
        0 <= n <= cats.len(),
        forall|j: int| 0 <= j < cats.len() && (#[trigger] cats[j]).id@ == id ==> j == i,
        0 <= i < cats.len() ==> cats[i].id@ == id,
    ensures
        last_counting(cats, n, id, overriding) == (if 0 <= i < n && counts(cats[i], overriding) {
            i
        } else {
            -1
        }),
    decreases n,
{
    if n > 0 {
        if cats[n - 1].id@ == id {
            assert(n - 1 == i);
        }
        lemma_counting(cats, n - 1, i, id, overriding);
    }
}

proof fn lemma_def(
    ks: Seq<(ElementKind, CategoriesFile)>,
    m: int,
    k: int,
    i: int,
    overriding: bool,
)
    requires
        is_named_once(ks, k, i),
        0 <= m <= ks.len(),
    ensures
        last_def(ks, m, ks[k].1.categories@[i].id@, overriding) == (if m <= k && counts(
            ks[k].1.categories@[i],
            overriding,
        ) {
            Some(ks[k].1.categories@[i])
        } else {
            None
        }),
    decreases ks.len() - m,
{
    let id = ks[k].1.categories@[i].id@;
    if m < ks.len() {
        lemma_def(ks, m + 1, k, i, overriding);
        let cats = ks[m].1.categories@;
        let place = if m == k {
            i
        } else {
            -1
        };
        assert forall|j: int| 0 <= j < cats.len() && (#[trigger] cats[j]).id@ == id implies j
            == place by {
            assert(ks[m].1.categories@[j].id@ == id);
        }
        lemma_counting(cats, cats.len() as int, place, id, overriding);
    }
}

/// A category has the constants of its topic, with its own over them; so it is with private data.
pub proof fn own_constants_stand_over_the_topics(
    t: TopicRunner,
    s: TopicSource,
    k: int,
    i: int,
    q: Seq<char>,
)
    requires
        is_loaded(t, s),
        is_named_once(t.categories@, k, i),
    ensures
        ({
            let cat = t.categories@[k].1.categories@[i];
            let consts = lookup(named_fields(t.category_consts@), cat.id@);
            let private = lookup(named_fields(t.category_private@), cat.id@);
            &&& consts is Some
            &&& private is Some
            &&& consts->0.dom().contains(q) <==> cat.consts@.dom().contains(q)
                || s.spec.consts@.dom().contains(q)
            &&& cat.consts@.dom().contains(q) ==> consts->0[q] == cat.consts@[q]
            &&& !cat.consts@.dom().contains(q) && s.spec.consts@.dom().contains(q) ==> consts->0[q]
                == s.spec.consts@[q]
            &&& private->0.dom().contains(q) <==> cat.private@.dom().contains(q)
                || s.spec.private@.dom().contains(q)
            &&& cat.private@.dom().contains(q) ==> private->0[q] == cat.private@[q]
            &&& !cat.private@.dom().contains(q) && s.spec.private@.dom().contains(q)
                ==> private->0[q] == s.spec.private@[q]
        }),
{
    let cat = t.categories@[k].1.categories@[i];
    lemma_def(t.categories@, 0, k, i, false);
    assert(lookup(named_fields(t.category_consts@), cat.id@)
        == effective(s.spec.consts@, Some(cat), false));
    assert(lookup(named_fields(t.category_private@), cat.id@)
        == effective(s.spec.private@, Some(cat), true));
}

/// A category that overrides no deriver has those of its topic. One that does has its own for the
/// outputs that it names, and for every other output the topic's.
pub proof fn own_derivers_stand_in_for_the_topics(
    t: TopicRunner,
    s: TopicSource,
    k: int,
    i: int,
    output: Seq<char>,
)
    requires
        is_loaded(t, s),
        is_named_once(t.categories@, k, i),
    ensures
        ({
            let cat = t.categories@[k].1.categories@[i];
            let lib = library_view(s.deriver_lib@);
            let topic = bound_fields(lib, s.spec.derivers@);
            &&& cat.derivers is None ==> derivers_of(t, cat.id@) == topic
            &&& cat.derivers is Some ==> {
                let own = last_source(bound_fields(lib, cat.derivers->0@), output);
                &&& own is Some ==> source_for(derivers_of(t, cat.id@), output) == own
                &&& own is None ==> source_for(derivers_of(t, cat.id@), output) == source_for(
                    topic,
                    output,
                )
            }
        }),
{
    let cat = t.categories@[k].1.categories@[i];
    let lib = library_view(s.deriver_lib@);
    lemma_def(t.categories@, 0, k, i, true);
    assert(lookup(named_lists(t.category_derivers@), cat.id@)
        == effective_derivers(
        bound_fields(lib, s.spec.derivers@),
        lib,
        last_def(t.categories@, 0, cat.id@, true),
    ));
    if cat.derivers is Some {
        overrides_win(
            bound_fields(lib, s.spec.derivers@),
            bound_fields(lib, cat.derivers->0@),
            output,
        );
    }
}

/// The source of an output is that of the first field with the output.
pub proof fn first_field_has_the_source(fs: Seq<FieldV>, i: int)
    requires
        0 <= i < fs.len(),
        forall|j: int| 0 <= j < i ==> (#[trigger] fs[j]).output != fs[i].output,
    ensures
        source_for(fs, fs[i].output) == Some(fs[i].source),
{
    lemma_place(fs, i, fs[i].output);
}

proof fn lemma_place(fs: Seq<FieldV>, i: int, output: Seq<char>)
    requires
        0 <= i < fs.len(),
        fs[i].output == output,
        forall|j: int| 0 <= j < i ==> (#[trigger] fs[j]).output != output,
    ensures
        output_place(fs, output) == i,
    decreases fs.len(),
{
    if i > 0 {
        let rest = fs.skip(1);
        assert(fs[0].output != output);
        assert forall|j: int| 0 <= j < i - 1 implies (#[trigger] rest[j]).output != output by {
            assert(rest[j] == fs[j + 1]);
        }
        lemma_place(rest, i - 1, output);
    }
}

/// Of several bindings for one output the last has the source.
pub proof fn last_override_has_the_source(fs: Seq<FieldV>, i: int)
    requires
        0 <= i < fs.len(),
        forall|j: int| i < j < fs.len() ==> (#[trigger] fs[j]).output != fs[i].output,
    ensures
        last_source(fs, fs[i].output) == Some(fs[i].source),
    decreases fs.len(),
{
    if i < fs.len() - 1 {
        let rest = fs.drop_last();
        assert(fs[fs.len() - 1].output != fs[i].output);
        assert forall|j: int| i < j < rest.len() implies (#[trigger] rest[j]).output
            != rest[i].output by {
            assert(rest[j] == fs[j]);
        }
        last_override_has_the_source(rest, i);
    }
}

/// The topic's derivers are those of the library that its bindings name, each under the output that
/// the binding gives it, or under its own name.
pub proof fn bindings_name_deriver_and_output(t: TopicRunner, s: TopicSource, i: int)
    requires
        is_loaded(t, s),
        0 <= i < s.spec.derivers@.len(),
    ensures
        fields_view(t.topic_derivers@).len() == s.spec.derivers@.len(),
        ({
            let f = fields_view(t.topic_derivers@)[i];
            let lib = library_view(s.deriver_lib@);
            match s.spec.derivers@[i] {
                DeriverBinding::Named(name) => f.output == name@ && f.source == lookup(
                    lib,
                    name@,
                )->0,
                DeriverBinding::Bound { deriver, output } => f.output == output@ && f.source
                    == lookup(lib, deriver@)->0,
            }
        }),
{
}

/// A sanitizer of a topic writes its tag with what it makes of the tag's own value, where no other
/// keys are named.
pub proof fn topic_sanitizers_clean_their_tag(t: TopicRunner, s: TopicSource, i: int, c: CtxV)
    requires
        is_loaded(t, s),
        0 <= i < s.spec.sanitizers@.len(),
        s.spec.sanitizers@[i].in_keys is None,
        s.spec.sanitizers@[i].from is Obj,
    ensures
        fields_view(t.sanitizer_fields@).len() == s.spec.sanitizers@.len(),
        ({
            let f = fields_view(t.sanitizer_fields@)[i];
            let tag = s.spec.sanitizers@[i].tag@;
            let name = s.spec.sanitizers@[i].name@;
            &&& f.output == tag
            &&& produced(f.source, c) == (if c.obj.dom().contains(tag) {
                match sanitized_by(c.sanitizers, name, c.obj[tag], c.readings) {
                    Some(value) => Some(ProducedV { value, consts: Map::empty() }),
                    None => None,
                }
            } else {
                None
            })
        }),
{
    let tag = s.spec.sanitizers@[i].tag@;
    let name = s.spec.sanitizers@[i].name@;
    let none = Map::<Seq<char>, ValueV>::empty();
    let from = s.spec.sanitizers@[i].from;
    let place: int = if c.obj.dom().contains(tag) {
        0
    } else {
        1
    };
    first_set_key_is_read(seq![tag], place, from, none, c, c.obj);
    read_texts_are_sanitized(None, Some(seq![tag]), from, None, name, none, false, c);
    assert(fields_view(t.sanitizer_fields@)[i] == s.spec.sanitizers@[i].spec_field());
}

// ── Which steps it takes ────────────────────────────────────────────────────────────────────

/// Steps of every sort keep the order in which they are declared.
pub proof fn declared_steps_keep_their_order(a: Seq<Transform>, b: Seq<Transform>)
    ensures
        ({
            let x = sorted_steps(a);
            let y = sorted_steps(b);
            let z = sorted_steps(a + b);
            &&& z.tag_transforms == x.tag_transforms + y.tag_transforms
            &&& z.transformations == x.transformations + y.transformations
            &&& z.sidepath_self_prefixes == x.sidepath_self_prefixes + y.sidepath_self_prefixes
            &&& z.tag_rules == x.tag_rules + y.tag_rules
        }),
    decreases b.len(),
{
    if b.len() == 0 {
        assert(a + b =~= a);
        let x = sorted_steps(a);
        let y = sorted_steps(b);
        assert(x.tag_transforms + y.tag_transforms =~= x.tag_transforms);
        assert(x.transformations + y.transformations =~= x.transformations);
        assert(x.sidepath_self_prefixes + y.sidepath_self_prefixes =~= x.sidepath_self_prefixes);
        assert(x.tag_rules + y.tag_rules =~= x.tag_rules);
    } else {
        declared_steps_keep_their_order(a, b.drop_last());
        assert((a + b).drop_last() =~= a + b.drop_last());
        assert((a + b).last() == b.last());
        let x = sorted_steps(a);
        let y = sorted_steps(b);
        let z = sorted_steps(a + b);
        assert(z.tag_transforms =~= x.tag_transforms + y.tag_transforms);
        assert(z.transformations =~= x.transformations + y.transformations);
        assert(z.sidepath_self_prefixes =~= x.sidepath_self_prefixes + y.sidepath_self_prefixes);
        assert(z.tag_rules =~= x.tag_rules + y.tag_rules);
    }
}

/// Each declared step is a step of one sort, with what was declared of it.
pub proof fn declared_steps_are_sorted(step: Transform)
    ensures
        ({
            let p = sorted_steps(seq![step]);
            &&& step is Named ==> p.tag_transforms == seq![TagTransformV::Lifecycle]
                && p.transformations.len() == 0 && p.sidepath_self_prefixes.len() == 0
                && p.tag_rules.len() == 0
            &&& step matches Transform::Param(
                ParamTransform::SplitSides { highway, prefix, .. },
            ) ==> p.transformations.len() == 1 && p.transformations[0].highway == highway@
                && p.transformations[0].prefix == prefix@ && p.tag_transforms.len() == 0
                && p.sidepath_self_prefixes.len() == 0 && p.tag_rules.len() == 0
            &&& step matches Transform::Param(ParamTransform::UnnestSidepathSelf { prefix })
                ==> p.sidepath_self_prefixes == seq![prefix@] && p.tag_transforms.len() == 0
                && p.transformations.len() == 0 && p.tag_rules.len() == 0
            &&& step matches Transform::Param(ParamTransform::TagRules { output, source })
                ==> p.tag_rules == seq![(output@, source@)] && p.tag_transforms.len() == 0
                && p.transformations.len() == 0 && p.sidepath_self_prefixes.len() == 0
            &&& step matches Transform::Param(
                ParamTransform::StripPrefix { prefix, stamp_key, stamp_value, .. },
            ) ==> p.tag_transforms.len() == 1 && p.tag_transforms[0] is StripPrefix
                && p.tag_transforms[0]->prefix == prefix@ && p.tag_transforms[0]->stamp_key
                == stamp_key@ && p.tag_transforms[0]->stamp_value == stamp_value@
                && p.transformations.len() == 0 && p.sidepath_self_prefixes.len() == 0
                && p.tag_rules.len() == 0
        }),
{
    reveal_with_fuel(sorted_steps, 3);
    let none = seq![step].drop_last();
    assert(none =~= Seq::<Transform>::empty());
    let p = sorted_steps(seq![step]);
    assert(step is Named ==> p.tag_transforms =~= seq![TagTransformV::Lifecycle]);
}

// ── Tags of a way ───────────────────────────────────────────────────────────────────────────

/// The tags of a way are the fields of its object, each with its text; of two fields with one key
/// the later counts.
pub proof fn later_fields_count(xs: Seq<(Seq<char>, FieldTextV)>, i: int)
    requires
        0 <= i < xs.len(),
        forall|j: int| i < j < xs.len() ==> (#[trigger] xs[j]).0 != xs[i].0,
    ensures
        spelled_tags(xs).dom().contains(xs[i].0),
        xs[i].1 matches FieldTextV::Text(s) ==> spelled_tags(xs)[xs[i].0] == s,
        xs[i].1 matches FieldTextV::Written(s) ==> spelled_tags(xs)[xs[i].0] == s,
    decreases xs.len(),
{
    if i < xs.len() - 1 {
        let rest = xs.drop_last();
        assert(xs[xs.len() - 1].0 != xs[i].0);
        assert forall|j: int| i < j < rest.len() implies (#[trigger] rest[j]).0 != rest[i].0 by {
            assert(rest[j] == xs[j]);
        }
        later_fields_count(rest, i);
    }
}

/// A field that is a text is its tag as it stands, any other as it is written in JSON; of two fields
/// with one key the later counts.
pub proof fn later_values_count(xs: Seq<(Seq<char>, ValueV)>, i: int, list: Seq<Spelling>)
    requires
        0 <= i < xs.len(),
        forall|j: int| i < j < xs.len() ==> (#[trigger] xs[j]).0 != xs[i].0,
    ensures
        flattened(xs, list).dom().contains(xs[i].0),
        xs[i].1 matches ValueV::String(s) ==> flattened(xs, list)[xs[i].0] == s,
        !(xs[i].1 is String) ==> flattened(xs, list)[xs[i].0] == json_text(xs[i].1, list),
    decreases xs.len(),
{
    if i < xs.len() - 1 {
        let rest = xs.drop_last();
        assert(xs[xs.len() - 1].0 != xs[i].0);
        assert forall|j: int| i < j < rest.len() implies (#[trigger] rest[j]).0 != rest[i].0 by {
            assert(rest[j] == xs[j]);
        }
        later_values_count(rest, i, list);
    }
}

/// No tag comes from anything but a field.
pub proof fn tags_come_from_fields(xs: Seq<(Seq<char>, FieldTextV)>, k: Seq<char>)
    requires
        spelled_tags(xs).dom().contains(k),
    ensures
        exists|i: int| 0 <= i < xs.len() && (#[trigger] xs[i]).0 == k,
    decreases xs.len(),
{
    if xs.len() > 0 {
        if xs.last().0 == k {
            assert(xs[xs.len() - 1].0 == k);
        } else {
            let rest = xs.drop_last();
            tags_come_from_fields(rest, k);
            let i = choose|i: int| 0 <= i < rest.len() && (#[trigger] rest[i]).0 == k;
            assert(xs[i] == rest[i]);
        }
    }
}

/// What is shared by topics is named with an underscore in front.
pub proof fn shared_names_begin_with_an_underscore(name: Seq<char>)
    ensures
        is_shared(name) <==> name.len() > 0 && name[0] == '_',
{
    reveal_strlit("_");
    assert("_"@ =~= seq!['_']);
    if name.len() > 0 && name[0] == '_' {
        assert("_"@ =~= name.subrange(0, 1));
    }
    if is_shared(name) {
        assert(name.subrange(0, 1)[0] == name[0]);
    }
}

/// A step that is declared by name alone is the one named `lifecycle`, and no other.
pub proof fn lifecycle_is_the_only_named_step(step: Transform)
    ensures
        step matches Transform::Named(name) ==> (is_declared(step) <==> name@ == seq![
            'l',
            'i',
            'f',
            'e',
            'c',
            'y',
            'c',
            'l',
            'e',
        ]),
        step is Param ==> is_declared(step),
{
    reveal_strlit("lifecycle");
    assert("lifecycle"@ =~= seq!['l', 'i', 'f', 'e', 'c', 'y', 'c', 'l', 'e']);
}

} // verus!
