//! Sanitizers as a configuration spells them: named chains of steps that turn a tag's text into a
//! cleaned value.
use vstd::prelude::*;

use crate::assoc::{lemma_lookup, lookup, position_of};
use crate::classify::chain::{builtin_step, write_builtin, write_def, written_chain};
use crate::lang::sanitize::{
    apply_on_miss, builtin_result, missed, opt_value, rewritten_all, spelled_texts, Builtin,
    ReplaceRule, ReplaceV, Sanitizer, StrOrVec,
};
use crate::model::{models, Model};
use crate::number::{Readings, ReadingsV};
use crate::text::{concat2, concat3, contains_str, str_eq};
use crate::value::{clone_value, text_of, Fields, Value, ValueV};

verus! {

/// The keys of a sided read, in the order they are tried: for the side, for both sides, and, for
/// the left side only, the bare key.
pub open spec fn sided(key: Seq<char>, side: Seq<char>, bare_left: bool) -> Seq<Seq<char>> {
    let keys = seq![key + ":"@ + side, key + ":both"@];
    if bare_left && side == "left"@ {
        keys.push(key)
    } else {
        keys
    }
}

/// The keys of a sided read, in the order they are tried.
pub fn sided_keys(key: &str, side: &str, bare_left: bool) -> (r: Vec<String>)
    ensures
        models(r@) == sided(key@, side@, bare_left),
{
    let mut keys: Vec<String> = Vec::new();
    keys.push(concat3(key, ":", side));
    keys.push(concat2(key, ":both"));
    if bare_left && str_eq(side, "left") {
        keys.push(key.to_owned());
    }
    proof {
        assert(models(keys@) =~= sided(key@, side@, bare_left));
    }
    keys
}

/// One step of a sanitizer.
#[derive(Debug)]
pub enum Step {
    /// Looks the text up in a table; `on_miss` says what becomes of a text that is not there.
    Mapping { mapping: Fields, on_miss: Option<String> },
    /// The table the other way round: for each output the inputs that give it. Where two outputs
    /// list one input, the later one counts.
    Cases { cases: Vec<(String, StrOrVec)>, on_miss: Option<String> },
    /// Keeps the text where it is listed.
    Filter { filter: Vec<String> },
    /// Keeps the text where it is not listed.
    Drop { drop: Vec<String> },
    /// Rewrites the text, rule after rule.
    Replace { replace: Vec<ReplaceRule> },
    /// A built-in sanitizer.
    Builtin(String),
}

/// One step of a sanitizer.
pub enum StepV {
    Mapping { mapping: Map<Seq<char>, ValueV>, on_miss: Option<Seq<char>> },
    Cases { cases: Seq<(Seq<char>, Seq<Seq<char>>)>, on_miss: Option<Seq<char>> },
    Filter { filter: Seq<Seq<char>> },
    Drop { drop: Seq<Seq<char>> },
    Replace { replace: Seq<ReplaceV> },
    Builtin(Seq<char>),
}

/// The outputs of a list of cases, with their inputs.
pub open spec fn cases_view(v: Seq<(String, StrOrVec)>) -> Seq<(Seq<char>, Seq<Seq<char>>)> {
    v.map_values(|p: (String, StrOrVec)| (p.0@, spelled_texts(p.1)))
}

impl Step {
    pub open spec fn view(&self) -> StepV {
        match self {
            Step::Mapping { mapping, on_miss } => StepV::Mapping {
                mapping: mapping@,
                on_miss: on_miss.model(),
            },
            Step::Cases { cases, on_miss } => StepV::Cases {
                cases: cases_view(cases@),
                on_miss: on_miss.model(),
            },
            Step::Filter { filter } => StepV::Filter { filter: models(filter@) },
            Step::Drop { drop } => StepV::Drop { drop: models(drop@) },
            Step::Replace { replace } => StepV::Replace { replace: models(replace@) },
            Step::Builtin(name) => StepV::Builtin(name@),
        }
    }
}

/// The table with `inputs` giving `output`.
pub open spec fn with_inputs(
    m: Map<Seq<char>, ValueV>,
    inputs: Seq<Seq<char>>,
    output: Seq<char>,
) -> Map<Seq<char>, ValueV>
    decreases inputs.len(),
{
    if inputs.len() == 0 {
        m
    } else {
        with_inputs(m, inputs.drop_last(), output).insert(inputs.last(), ValueV::String(output))
    }
}

/// The table that cases spell.
pub open spec fn table_of(cases: Seq<(Seq<char>, Seq<Seq<char>>)>) -> Map<Seq<char>, ValueV>
    decreases cases.len(),
{
    if cases.len() == 0 {
        Map::empty()
    } else {
        with_inputs(table_of(cases.drop_last()), cases.last().1, cases.last().0)
    }
}

/// The step with cases put as the table that they spell.
pub open spec fn normal(s: StepV) -> StepV {
    match s {
        StepV::Cases { cases, on_miss } => StepV::Mapping { mapping: table_of(cases), on_miss },
        _ => s,
    }
}

/// What a built-in sanitizer gives; nothing where there is none of that name.
pub open spec fn builtin_named(name: Seq<char>, raw: Seq<char>, readings: ReadingsV) -> Option<
    ValueV,
> {
    if name == Builtin::ParseLength.spec_name() {
        builtin_result(Builtin::ParseLength, raw, readings)
    } else {
        None
    }
}

/// What a step makes of a text.
pub open spec fn stepped(s: StepV, v: Seq<char>, readings: ReadingsV) -> Option<ValueV> {
    match s {
        StepV::Mapping { mapping, on_miss } => if mapping.dom().contains(v) {
            Some(mapping[v])
        } else {
            missed(on_miss, v)
        },
        StepV::Cases { cases, on_miss } => if table_of(cases).dom().contains(v) {
            Some(table_of(cases)[v])
        } else {
            missed(on_miss, v)
        },
        StepV::Filter { filter } => if filter.contains(v) {
            Some(ValueV::String(v))
        } else {
            None
        },
        StepV::Drop { drop } => if drop.contains(v) {
            None
        } else {
            Some(ValueV::String(v))
        },
        StepV::Replace { replace } => Some(ValueV::String(rewritten_all(replace, v))),
        StepV::Builtin(name) => builtin_named(name, v, readings),
    }
}

/// Applies a built-in sanitizer by name.
pub fn apply_builtin(name: &str, raw: &str, readings: &Readings) -> (r: Option<Value>)
    ensures
        opt_value(r) == builtin_named(name@, raw@, readings@),
{
    match Builtin::from_name(name) {
        Some(b) => b.apply(raw, readings),
        None => {
            proof {
                assert(name@ != Builtin::ParseLength.spec_name());
            }
            None
        },
    }
}

fn put_inputs(m: &mut Fields, inputs: &Vec<String>, output: &str)
    ensures
        final(m)@ == with_inputs(old(m)@, models(inputs@), output@),
{
    let ghost before = m@;
    let ghost iv = models(inputs@);
    for i in 0..inputs.len()
        invariant
            iv == models(inputs@),
            m@ == with_inputs(before, iv.take(i as int), output@),
    {
        proof {
            assert(iv.take(i + 1).drop_last() =~= iv.take(i as int));
            assert(iv.take(i + 1).last() == iv[i as int]);
        }
        m.insert(inputs[i].clone(), Value::String(output.to_owned()));
    }
    proof {
        assert(iv.take(iv.len() as int) =~= iv);
    }
}

impl Step {
    /// The step with cases put as the table that they spell.
    pub fn normalize(self) -> (r: Step)
        ensures
            r@ == normal(self@),
    {
        match self {
            Step::Cases { cases, on_miss } => {
                let mut mapping = Fields::new();
                let ghost cv = cases_view(cases@);
                for i in 0..cases.len()
                    invariant
                        cv == cases_view(cases@),
                        mapping@ == table_of(cv.take(i as int)),
                {
                    proof {
                        assert(cv.take(i + 1).drop_last() =~= cv.take(i as int));
                        assert(cv.take(i + 1).last() == cv[i as int]);
                    }
                    let inputs = cases[i].1.texts();
                    put_inputs(&mut mapping, &inputs, cases[i].0.as_str());
                }
                proof {
                    assert(cv.take(cv.len() as int) =~= cv);
                }
                Step::Mapping { mapping, on_miss }
            },
            other => other,
        }
    }

    /// What the step makes of a text.
    pub fn apply(&self, v: &str, readings: &Readings) -> (r: Option<Value>)
        requires
            !(self is Cases),
        ensures
            opt_value(r) == stepped(self@, v@, readings@),
    {
        match self {
            Step::Mapping { mapping, on_miss } => match mapping.get(v) {
                Some(mapped) => Some(clone_value(mapped)),
                None => apply_on_miss(on_miss, v),
            },
            Step::Filter { filter } => if contains_str(filter, v) {
                Some(Value::String(v.to_owned()))
            } else {
                None
            },
            Step::Drop { drop } => if contains_str(drop, v) {
                None
            } else {
                Some(Value::String(v.to_owned()))
            },
            Step::Replace { replace } => {
                let mut out = v.to_owned();
                let ghost rv = models(replace@);
                for i in 0..replace.len()
                    invariant
                        rv == models(replace@),
                        out@ == rewritten_all(rv.take(i as int), v@),
                {
                    proof {
                        assert(rv.take(i + 1).drop_last() =~= rv.take(i as int));
                        assert(rv.take(i + 1).last() == rv[i as int]);
                    }
                    out = replace[i].apply(out);
                }
                proof {
                    assert(rv.take(rv.len() as int) =~= rv);
                }
                Some(Value::String(out))
            },
            Step::Builtin(name) => apply_builtin(name.as_str(), v, readings),
            Step::Cases { .. } => None,
        }
    }
}

/// A sanitizer: a chain of steps, one step, or the name of a built-in one.
#[derive(Debug)]
pub enum SanitizerDef {
    Chain(Vec<Step>),
    One(Step),
    Alias(String),
}

/// A sanitizer.
pub enum DefV {
    Chain(Seq<StepV>),
    One(StepV),
    Alias(Seq<char>),
}

/// The steps of a chain.
pub open spec fn steps_view(v: Seq<Step>) -> Seq<StepV> {
    v.map_values(|s: Step| s@)
}

impl SanitizerDef {
    pub open spec fn view(&self) -> DefV {
        match self {
            SanitizerDef::Chain(v) => DefV::Chain(steps_view(v@)),
            SanitizerDef::One(s) => DefV::One(s@),
            SanitizerDef::Alias(name) => DefV::Alias(name@),
        }
    }
}

/// The sanitizer with cases put as tables.
pub open spec fn normal_def(d: DefV) -> DefV {
    match d {
        DefV::Chain(v) => DefV::Chain(v.map_values(|s: StepV| normal(s))),
        DefV::One(s) => DefV::One(normal(s)),
        DefV::Alias(_) => d,
    }
}

/// Whether no step is spelled as cases.
pub open spec fn is_normal(d: DefV) -> bool {
    match d {
        DefV::Chain(v) => forall|i: int| 0 <= i < v.len() ==> !((#[trigger] v[i]) is Cases),
        DefV::One(s) => !(s is Cases),
        DefV::Alias(_) => true,
    }
}

/// What a chain makes of a text: every step but the last must give a text for the next.
pub open spec fn chained(steps: Seq<StepV>, raw: Seq<char>, readings: ReadingsV) -> Option<ValueV>
    decreases steps.len(),
{
    if steps.len() == 0 {
        Some(ValueV::String(raw))
    } else {
        match chained(steps.drop_last(), raw, readings) {
            Some(v) => match text_of(v) {
                Some(s) => stepped(steps.last(), s, readings),
                None => None,
            },
            None => None,
        }
    }
}

/// What a sanitizer makes of a text.
pub open spec fn def_result(d: DefV, raw: Seq<char>, readings: ReadingsV) -> Option<ValueV> {
    match d {
        DefV::Chain(v) => chained(v, raw, readings),
        DefV::One(s) => stepped(s, raw, readings),
        DefV::Alias(name) => builtin_named(name, raw, readings),
    }
}

proof fn lemma_chain_dropped(steps: Seq<StepV>, i: int, raw: Seq<char>, readings: ReadingsV)
    requires
        0 <= i <= steps.len(),
        chained(steps.take(i), raw, readings) is None,
    ensures
        chained(steps, raw, readings) is None,
    decreases steps.len(),
{
    if i < steps.len() {
        assert(steps.drop_last().take(i) =~= steps.take(i));
        lemma_chain_dropped(steps.drop_last(), i, raw, readings);
    } else {
        assert(steps.take(i) =~= steps);
    }
}

impl SanitizerDef {
    /// The sanitizer with cases put as tables.
    pub fn normalize(self) -> (r: SanitizerDef)
        ensures
            r@ == normal_def(self@),
            is_normal(r@),
    {
        match self {
            SanitizerDef::One(step) => SanitizerDef::One(step.normalize()),
            SanitizerDef::Chain(steps) => {
                let ghost all = steps@;
                let n: usize = steps.len();
                let mut left = steps;
                let mut out: Vec<Step> = Vec::new();
                let mut i: usize = 0;
                while i < n
                    invariant
                        0 <= i <= n,
                        n == all.len(),
                        left@ == all.skip(i as int),
                        out@.len() == i,
                        forall|j: int| 0 <= j < i ==> (#[trigger] out@[j])@ == normal(all[j]@),
                    decreases n - i,
                {
                    let step = left.remove(0);
                    proof {
                        assert(step == all[i as int]);
                        assert(left@ =~= all.skip(i + 1));
                    }
                    out.push(step.normalize());
                    i = i + 1;
                }
                proof {
                    assert(steps_view(out@) =~= steps_view(all).map_values(
                        |s: StepV| normal(s),
                    ));
                }
                SanitizerDef::Chain(out)
            },
            SanitizerDef::Alias(name) => SanitizerDef::Alias(name),
        }
    }

    /// What a chain or a step makes of a text.
    fn apply_chain(&self, raw: &str, readings: &Readings) -> (r: Option<Value>)
        requires
            is_normal(self@),
            !(self is Alias),
        ensures
            opt_value(r) == def_result(self@, raw@, readings@),
    {
        match self {
            SanitizerDef::One(step) => step.apply(raw, readings),
            SanitizerDef::Chain(steps) => {
                let ghost sv = steps_view(steps@);
                let mut cur = Value::String(raw.to_owned());
                proof {
                    assert(sv.take(0) =~= Seq::<StepV>::empty());
                }
                for i in 0..steps.len()
                    invariant
                        *self is Chain,
                        self->Chain_0@ == steps@,
                        sv == steps_view(steps@),
                        is_normal(DefV::Chain(sv)),
                        chained(sv.take(i as int), raw@, readings@) == Some(cur@),
                {
                    proof {
                        assert(sv.take(i + 1).drop_last() =~= sv.take(i as int));
                        assert(sv.take(i + 1).last() == sv[i as int]);
                        assert(!(sv[i as int] is Cases));
                    }
                    let next = match cur.as_str() {
                        Some(s) => steps[i].apply(s, readings),
                        None => None,
                    };
                    match next {
                        Some(v) => {
                            cur = v;
                        },
                        None => {
                            proof {
                                lemma_chain_dropped(sv, i + 1, raw@, readings@);
                            }
                            return None;
                        },
                    }
                }
                proof {
                    assert(sv.take(sv.len() as int) =~= sv);
                }
                Some(cur)
            },
            SanitizerDef::Alias(_) => None,
        }
    }
}

/// The named sanitizers of a list.
pub open spec fn defs(v: Seq<(String, SanitizerDef)>) -> Seq<(Seq<char>, DefV)> {
    v.map_values(|p: (String, SanitizerDef)| (p.0@, p.1@))
}

/// Whether every sanitizer is normal.
pub open spec fn all_normal(v: Seq<(Seq<char>, DefV)>) -> bool {
    forall|i: int| 0 <= i < v.len() ==> is_normal((#[trigger] v[i]).1)
}

/// The sanitizers by name: those that a configuration defines come before the built-in ones.
#[derive(Debug)]
pub struct SanitizerRegistry {
    custom: Vec<(String, SanitizerDef)>,
}

/// What the sanitizer of a name makes of a text.
pub open spec fn sanitized_by(
    reg: Seq<(Seq<char>, DefV)>,
    name: Seq<char>,
    raw: Seq<char>,
    readings: ReadingsV,
) -> Option<ValueV> {
    match lookup(reg, name) {
        Some(d) => def_result(d, raw, readings),
        None => builtin_named(name, raw, readings),
    }
}

/// The sanitizers with cases put as tables.
pub open spec fn normal_defs(v: Seq<(Seq<char>, DefV)>) -> Seq<(Seq<char>, DefV)> {
    v.map_values(|p: (Seq<char>, DefV)| (p.0, normal_def(p.1)))
}

impl SanitizerRegistry {
    pub closed spec fn view(&self) -> Seq<(Seq<char>, DefV)> {
        defs(self.custom@)
    }

    #[verifier::type_invariant]
    spec fn inv(&self) -> bool {
        all_normal(defs(self.custom@))
    }

    /// The sanitizers of a configuration.
    pub fn new(custom: Vec<(String, SanitizerDef)>) -> (r: SanitizerRegistry)
        ensures
            r@ == normal_defs(defs(custom@)),
    {
        let ghost all = custom@;
        let n: usize = custom.len();
        let mut left = custom;
        let mut out: Vec<(String, SanitizerDef)> = Vec::new();
        let mut i: usize = 0;
        while i < n
            invariant
                0 <= i <= n,
                n == all.len(),
                left@ == all.skip(i as int),
                out@.len() == i,
                forall|j: int|
                    0 <= j < i ==> (#[trigger] out@[j]).0@ == all[j].0@ && out@[j].1@ == normal_def(
                        all[j].1@,
                    ) && is_normal(out@[j].1@),
            decreases n - i,
        {
            let (name, def) = left.remove(0);
            proof {
                assert((name, def) == all[i as int]);
                assert(left@ =~= all.skip(i + 1));
            }
            out.push((name, def.normalize()));
            i = i + 1;
        }
        proof {
            assert(defs(out@) =~= normal_defs(defs(all)));
            assert(all_normal(defs(out@)));
        }
        SanitizerRegistry { custom: out }
    }

    /// What the sanitizer of a name makes of a text.
    pub fn apply(&self, name: &str, raw: &str, readings: &Readings) -> (r: Option<Value>)
        ensures
            opt_value(r) == sanitized_by(self@, name@, raw@, readings@),
    {
        proof {
            use_type_invariant(self);
        }
        let ghost dv = defs(self.custom@);
        let mut i: usize = 0;
        while i < self.custom.len()
            invariant
                0 <= i <= self.custom@.len(),
                dv == defs(self.custom@),
                dv == self@,
                all_normal(dv),
                forall|j: int| 0 <= j < i ==> (#[trigger] dv[j]).0 != name@,
            decreases self.custom.len() - i,
        {
            if str_eq(self.custom[i].0.as_str(), name) {
                proof {
                    assert(dv[i as int].0 == name@);
                    lemma_lookup(dv, name@, i as int);
                    assert(is_normal(dv[i as int].1));
                }
                return match &self.custom[i].1 {
                    SanitizerDef::Alias(builtin) => apply_builtin(builtin.as_str(), raw, readings),
                    def => def.apply_chain(raw, readings),
                };
            }
            i = i + 1;
        }
        proof {
            lemma_lookup(dv, name@, dv.len() as int);
        }
        apply_builtin(name, raw, readings)
    }

    /// The sanitizer of a name as a chain; no name is no step.
    pub fn chain(&self, name: &Option<String>) -> (r: Vec<Sanitizer>)
        ensures
            models(r@) == written_chain(self@, name.model()),
    {
        proof {
            use_type_invariant(self);
        }
        let ghost dv = defs(self.custom@);
        match name {
            None => {
                let out: Vec<Sanitizer> = Vec::new();
                proof {
                    assert(models(out@) =~= Seq::empty());
                }
                out
            },
            Some(n) => match position_of(&self.custom, n.as_str()) {
                Some(i) => {
                    proof {
                        assert(dv[i as int].0 == n@);
                        assert forall|j: int| 0 <= j < i implies (#[trigger] dv[j]).0 != n@ by {
                            assert(self.custom@[j].0@ != n@);
                        }
                        lemma_lookup(dv, n@, i as int);
                        assert(is_normal(dv[i as int].1));
                    }
                    write_def(&self.custom[i].1)
                },
                None => {
                    proof {
                        assert forall|j: int| 0 <= j < dv.len() implies (#[trigger] dv[j]).0
                            != n@ by {
                            assert(self.custom@[j].0@ != n@);
                        }
                        lemma_lookup(dv, n@, dv.len() as int);
                    }
                    let mut out: Vec<Sanitizer> = Vec::new();
                    out.push(write_builtin(n.as_str()));
                    proof {
                        assert(models(out@) =~= seq![builtin_step(n@)]);
                    }
                    out
                },
            },
        }
    }
}

/// Putting cases as a table changes no result.
pub proof fn tables_mean_their_cases(d: DefV, raw: Seq<char>, readings: ReadingsV)
    ensures
        def_result(normal_def(d), raw, readings) == def_result(d, raw, readings),
{
    match d {
        DefV::Chain(v) => {
            lemma_normal_chain(v, raw, readings);
        },
        _ => {},
    }
}

proof fn lemma_normal_chain(v: Seq<StepV>, raw: Seq<char>, readings: ReadingsV)
    ensures
        chained(v.map_values(|s: StepV| normal(s)), raw, readings) == chained(v, raw, readings),
    decreases v.len(),
{
    let n = v.map_values(|s: StepV| normal(s));
    if v.len() > 0 {
        assert(n.drop_last() =~= v.drop_last().map_values(|s: StepV| normal(s)));
        assert(n.last() == normal(v.last()));
        lemma_normal_chain(v.drop_last(), raw, readings);
    }
}

} // verus!
