//! Named sanitizers written out as sanitize chains.
use vstd::prelude::*;

use crate::assoc::lookup;
use crate::classify::sanitize::{
    builtin_named, chained, is_normal, sanitized_by, stepped, steps_view, table_of, with_inputs,
    DefV, SanitizerDef, Step, StepV,
};
use crate::json::{in_order, key_order, keys_have_an_order, sorted_fields};
use crate::lang::filter::number_of;
use crate::lang::sanitize::{
    atomic_of, sanitized, step_result, AtomicJson, AtomicV, Builtin, Sanitizer, SanitizerV,
};
use crate::lang::table::{
    drop_step, dropping, drops_lose_what_is_listed, filter_step, filtering,
    filters_keep_what_is_listed, rows, sorted_rows_are_a_table,
};
use crate::model::{copy_all, models, Model};
use crate::number::{is_finite, ReadingsV};
use crate::value::{fields, group_values, text_of, Fields, ValueV};

verus! {

/// The rows of a table: a nested value, which is no text and no number, drops what it stands for.
pub open spec fn table_rows(m: Map<Seq<char>, ValueV>) -> Seq<(Seq<char>, Option<AtomicV>)> {
    rows(key_order(m), |k: Seq<char>| atomic_of(m[k]))
}

/// The built-in step of a name; where there is none, a step that drops everything.
pub open spec fn builtin_step(name: Seq<char>) -> SanitizerV {
    if name == Builtin::ParseLength.spec_name() {
        SanitizerV::Builtin(Builtin::ParseLength)
    } else {
        SanitizerV::Mapping { mapping: Seq::empty(), on_miss: None }
    }
}

/// A step of a named sanitizer as a step of a chain.
pub open spec fn written_step(s: StepV) -> SanitizerV {
    match s {
        StepV::Mapping { mapping, on_miss } => SanitizerV::Mapping {
            mapping: table_rows(mapping),
            on_miss,
        },
        StepV::Cases { cases, on_miss } => SanitizerV::Mapping {
            mapping: table_rows(table_of(cases)),
            on_miss,
        },
        StepV::Filter { filter } => filtering(filter),
        StepV::Drop { drop } => dropping(drop),
        StepV::Replace { replace } => SanitizerV::Replace { replace },
        StepV::Builtin(name) => builtin_step(name),
    }
}

/// A sanitizer as a chain.
pub open spec fn written_def(d: DefV) -> Seq<SanitizerV> {
    match d {
        DefV::Chain(v) => v.map_values(|s: StepV| written_step(s)),
        DefV::One(s) => seq![written_step(s)],
        DefV::Alias(name) => seq![builtin_step(name)],
    }
}

/// The sanitizer of a name as a chain; no name is no step.
pub open spec fn written_chain(reg: Seq<(Seq<char>, DefV)>, name: Option<Seq<char>>) -> Seq<
    SanitizerV,
> {
    match name {
        None => Seq::empty(),
        Some(n) => match lookup(reg, n) {
            Some(d) => written_def(d),
            None => seq![builtin_step(n)],
        },
    }
}

// ── The same, executed ──────────────────────────────────────────────────────────────────────

fn write_table(of: &Fields) -> (r: Vec<(String, Option<AtomicJson>)>)
    ensures
        models(r@) == table_rows(of@),
{
    broadcast use group_values;

    let list = sorted_fields(of);
    let ghost ks = key_order(of@);
    proof {
        assert(fields(list@).len() == list@.len());
    }
    let mut out: Vec<(String, Option<AtomicJson>)> = Vec::new();
    for i in 0..list.len()
        invariant
            ks == key_order(of@),
            ks.len() == list@.len(),
            fields(list@) == in_order(of@),
            out@.len() == i,
            forall|j: int|
                0 <= j < i ==> (#[trigger] out@[j]).model() == (ks[j], atomic_of(of@[ks[j]])),
    {
        proof {
            assert(fields(list@)[i as int] == (ks[i as int], of@[ks[i as int]]));
        }
        out.push((list[i].0.clone(), AtomicJson::from_value(&list[i].1)));
    }
    proof {
        assert(models(out@) =~= table_rows(of@));
    }
    out
}

/// The built-in step of a name.
pub(crate) fn write_builtin(name: &str) -> (r: Sanitizer)
    ensures
        r@ == builtin_step(name@),
{
    match Builtin::from_name(name) {
        Some(b) => Sanitizer::Builtin(b),
        None => {
            proof {
                assert(name@ != Builtin::ParseLength.spec_name());
            }
            let mapping: Vec<(String, Option<AtomicJson>)> = Vec::new();
            proof {
                assert(models(mapping@) =~= Seq::empty());
            }
            Sanitizer::Mapping { mapping, on_miss: None }
        },
    }
}

fn write_step(s: &Step) -> (r: Sanitizer)
    requires
        !(*s is Cases),
    ensures
        r@ == written_step(s@),
{
    match s {
        Step::Mapping { mapping, on_miss } => Sanitizer::Mapping {
            mapping: write_table(mapping),
            on_miss: on_miss.copy(),
        },
        Step::Filter { filter } => filter_step(filter),
        Step::Drop { drop } => drop_step(drop),
        Step::Replace { replace } => Sanitizer::Replace { replace: copy_all(replace) },
        Step::Builtin(name) => write_builtin(name.as_str()),
        Step::Cases { .. } => write_builtin(""),
    }
}

/// A sanitizer as a chain.
pub(crate) fn write_def(d: &SanitizerDef) -> (r: Vec<Sanitizer>)
    requires
        is_normal(d@),
    ensures
        models(r@) == written_def(d@),
{
    let mut out: Vec<Sanitizer> = Vec::new();
    match d {
        SanitizerDef::Chain(steps) => {
            let ghost sv = d@->Chain_0;
            for i in 0..steps.len()
                invariant
                    sv == d@->Chain_0,
                    sv == steps_view(steps@),
                    is_normal(DefV::Chain(sv)),
                    out@.len() == i,
                    forall|j: int| 0 <= j < i ==> (#[trigger] out@[j])@ == written_step(sv[j]),
            {
                proof {
                    assert(sv[i as int] == steps@[i as int]@);
                    assert(!(sv[i as int] is Cases));
                }
                out.push(write_step(&steps[i]));
            }
        },
        SanitizerDef::One(step) => out.push(write_step(step)),
        SanitizerDef::Alias(name) => out.push(write_builtin(name.as_str())),
    }
    proof {
        assert(models(out@) =~= written_def(d@));
    }
    out
}

// ── What is kept ────────────────────────────────────────────────────────────────────────────

/// Whether a table is one that JSON spells: it ends, and its numbers are finite.
pub open spec fn is_spelled(m: Map<Seq<char>, ValueV>) -> bool {
    m.dom().finite() && forall|k: Seq<char>| #[trigger]
        m.dom().contains(k) ==> (m[k] matches ValueV::Number(n) ==> is_finite(n.spec_bits()))
}

/// Whether the table of a step is one that JSON spells.
pub open spec fn step_spelled(s: StepV) -> bool {
    s matches StepV::Mapping { mapping, .. } ==> is_spelled(mapping)
}

/// Whether the tables of a sanitizer are such as JSON spells.
pub open spec fn def_spelled(d: DefV) -> bool {
    match d {
        DefV::Chain(v) => forall|i: int| 0 <= i < v.len() ==> step_spelled(#[trigger] v[i]),
        DefV::One(s) => step_spelled(s),
        DefV::Alias(_) => true,
    }
}

/// Whether the tables of all sanitizers are such as JSON spells.
pub open spec fn all_spelled(reg: Seq<(Seq<char>, DefV)>) -> bool {
    forall|name: Seq<char>| #[trigger] lookup(reg, name) is Some ==> def_spelled(
        lookup(reg, name)->0,
    )
}

/// Whether two values read alike: as the same text and as the same number, if any.
pub open spec fn alike(a: Option<ValueV>, b: Option<ValueV>, readings: ReadingsV) -> bool {
    &&& seen_text(a) == seen_text(b)
    &&& seen_number(a, readings) == seen_number(b, readings)
}

/// The text that a value is, if it is one.
pub open spec fn seen_text(v: Option<ValueV>) -> Option<Seq<char>> {
    match v {
        Some(x) => text_of(x),
        None => None,
    }
}

/// The number that a value is or spells, if any.
pub open spec fn seen_number(v: Option<ValueV>, readings: ReadingsV) -> Option<u64> {
    match v {
        Some(x) => number_of(x, readings),
        None => None,
    }
}

proof fn lemma_inputs_spelled(
    m: Map<Seq<char>, ValueV>,
    inputs: Seq<Seq<char>>,
    output: Seq<char>,
)
    requires
        is_spelled(m),
    ensures
        is_spelled(with_inputs(m, inputs, output)),
    decreases inputs.len(),
{
    if inputs.len() > 0 {
        lemma_inputs_spelled(m, inputs.drop_last(), output);
    }
}

proof fn lemma_cases_spelled(cases: Seq<(Seq<char>, Seq<Seq<char>>)>)
    ensures
        is_spelled(table_of(cases)),
    decreases cases.len(),
{
    if cases.len() > 0 {
        lemma_cases_spelled(cases.drop_last());
        lemma_inputs_spelled(table_of(cases.drop_last()), cases.last().1, cases.last().0);
    }
}

proof fn lemma_table(
    m: Map<Seq<char>, ValueV>,
    on_miss: Option<Seq<char>>,
    v: Seq<char>,
    readings: ReadingsV,
)
    requires
        is_spelled(m),
    ensures
        alike(
            step_result(SanitizerV::Mapping { mapping: table_rows(m), on_miss }, v, readings),
            stepped(StepV::Mapping { mapping: m, on_miss }, v, readings),
            readings,
        ),
{
    let ks = key_order(m);
    keys_have_an_order(m);
    sorted_rows_are_a_table(ks, |k: Seq<char>| atomic_of(m[k]));
    assert(ks.contains(v) <==> ks.to_set().contains(v));
}

proof fn lemma_step(s: StepV, v: Seq<char>, readings: ReadingsV)
    requires
        step_spelled(s),
    ensures
        alike(step_result(written_step(s), v, readings), stepped(s, v, readings), readings),
{
    match s {
        StepV::Mapping { mapping, on_miss } => {
            lemma_table(mapping, on_miss, v, readings);
        },
        StepV::Cases { cases, on_miss } => {
            lemma_cases_spelled(cases);
            lemma_table(table_of(cases), on_miss, v, readings);
        },
        StepV::Filter { filter } => {
            filters_keep_what_is_listed(filter, v, readings);
        },
        StepV::Drop { drop } => {
            drops_lose_what_is_listed(drop, v, readings);
        },
        StepV::Replace { .. } => {},
        StepV::Builtin(name) => {
            lemma_builtin(name, v, readings);
        },
    }
}

proof fn lemma_builtin(name: Seq<char>, v: Seq<char>, readings: ReadingsV)
    ensures
        step_result(builtin_step(name), v, readings) == builtin_named(name, v, readings),
{
}

proof fn lemma_one(s: SanitizerV, raw: Seq<char>, readings: ReadingsV)
    ensures
        sanitized(seq![s], raw, readings) == step_result(s, raw, readings),
{
    reveal_with_fuel(sanitized, 2);
    assert(seq![s].drop_last() =~= Seq::empty());
}

proof fn lemma_chain(steps: Seq<StepV>, raw: Seq<char>, readings: ReadingsV)
    requires
        def_spelled(DefV::Chain(steps)),
    ensures
        alike(
            sanitized(written_def(DefV::Chain(steps)), raw, readings),
            chained(steps, raw, readings),
            readings,
        ),
    decreases steps.len(),
{
    let chain = written_def(DefV::Chain(steps));
    if steps.len() > 0 {
        let rest = steps.drop_last();
        assert forall|i: int| 0 <= i < rest.len() implies step_spelled(#[trigger] rest[i]) by {
            assert(rest[i] == steps[i]);
        }
        lemma_chain(rest, raw, readings);
        assert(chain.drop_last() =~= written_def(DefV::Chain(rest)));
        assert(step_spelled(steps[steps.len() - 1]));
        match seen_text(chained(rest, raw, readings)) {
            Some(s) => {
                lemma_step(steps.last(), s, readings);
            },
            None => {},
        }
    }
}

/// A named sanitizer written out as a chain gives what the sanitizer gives, as far as a condition can
/// tell.
pub proof fn written_chains_keep_meaning(
    reg: Seq<(Seq<char>, DefV)>,
    name: Seq<char>,
    raw: Seq<char>,
    readings: ReadingsV,
)
    requires
        all_spelled(reg),
    ensures
        alike(
            sanitized(written_chain(reg, Some(name)), raw, readings),
            sanitized_by(reg, name, raw, readings),
            readings,
        ),
{
    match lookup(reg, name) {
        Some(d) => {
            assert(def_spelled(d));
            match d {
                DefV::Chain(v) => {
                    lemma_chain(v, raw, readings);
                },
                DefV::One(s) => {
                    lemma_one(written_step(s), raw, readings);
                    lemma_step(s, raw, readings);
                },
                DefV::Alias(n) => {
                    lemma_one(builtin_step(n), raw, readings);
                    lemma_builtin(n, raw, readings);
                },
            }
        },
        None => {
            lemma_one(builtin_step(name), raw, readings);
            lemma_builtin(name, raw, readings);
        },
    }
}

} // verus!
