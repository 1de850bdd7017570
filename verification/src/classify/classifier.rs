//! Rule tables: the value of the first rule whose condition holds of an object's tags.
use vstd::prelude::*;

use crate::classify::filter::{
    all_expand, clone_filter, eval_filter, expands, holds, is_finite, macros_view, neutral, value_at,
    CategoryCtxV, Filter, FilterV,
};
use crate::classify::sanitize::SanitizerRegistry;
use crate::lang::context::ValueSets;
use crate::lang::sanitize::opt_value;
use crate::number::Readings;
use crate::tags::{get, tag_map, RawTags};
use crate::value::{clone_value, Value, ValueV};

verus! {

/// What a rule gives: a literal, or the value of a tag with another text for where it is not set.
#[derive(Debug)]
pub enum ValueSpec {
    Const(Value),
    TagOr { tag_or: String, or: String },
}

/// A rule of a table.
#[derive(Debug)]
pub struct Rule {
    pub when: Filter,
    pub value: ValueSpec,
}

/// What a rule gives.
pub enum SpecV {
    Const(ValueV),
    TagOr { tag_or: Seq<char>, or: Seq<char> },
}

/// A rule of a table.
pub struct RuleV {
    pub when: FilterV,
    pub value: SpecV,
}

impl ValueSpec {
    pub open spec fn view(&self) -> SpecV {
        match self {
            ValueSpec::Const(v) => SpecV::Const(v@),
            ValueSpec::TagOr { tag_or, or } => SpecV::TagOr { tag_or: tag_or@, or: or@ },
        }
    }
}

impl Rule {
    pub open spec fn view(&self) -> RuleV {
        RuleV { when: self.when@, value: self.value@ }
    }
}

/// The rules of a table.
pub open spec fn rules_view(v: Seq<Rule>) -> Seq<RuleV> {
    v.map_values(|r: Rule| r@)
}

/// A named table with its own default.
#[derive(Debug)]
pub struct Classifier {
    pub rules: Vec<Rule>,
    pub default: Option<Value>,
}

/// A named table with its own default.
pub struct ClassifierV {
    pub rules: Seq<RuleV>,
    pub default: Option<ValueV>,
}

impl Classifier {
    pub open spec fn view(&self) -> ClassifierV {
        ClassifierV { rules: rules_view(self.rules@), default: opt_value(self.default) }
    }
}

/// No macros.
pub open spec fn no_macros() -> Seq<(Seq<char>, FilterV)> {
    Seq::empty()
}

/// What a rule gives of the tags.
pub open spec fn given(v: SpecV, tags: Map<Seq<char>, Seq<char>>) -> ValueV {
    match v {
        SpecV::Const(x) => x,
        SpecV::TagOr { tag_or, or } => ValueV::String(
            match value_at(tags, tag_or) {
                Some(s) => s,
                None => or,
            },
        ),
    }
}

/// What the first rule from `k` on gives whose condition holds.
pub open spec fn classified(rules: Seq<RuleV>, k: int, c: CategoryCtxV) -> Option<ValueV>
    decreases rules.len() - k,
{
    if k < 0 || k >= rules.len() {
        None
    } else if holds(rules[k].when, c, no_macros()) {
        Some(given(rules[k].value, c.tags))
    } else {
        classified(rules, k + 1, c)
    }
}

/// What a value is, or else the default.
pub open spec fn or_default(v: Option<ValueV>, default: Option<ValueV>) -> Option<ValueV> {
    match v {
        Some(x) => Some(x),
        None => default,
    }
}

/// Without macros every condition ends.
pub proof fn without_macros_conditions_end(f: FilterV)
    ensures
        expands(f, no_macros(), 0),
        is_finite(f, no_macros()),
    decreases f,
{
    match f {
        FilterV::And(fs) => {
            lemma_lists_end(fs);
        },
        FilterV::Or(fs) => {
            lemma_lists_end(fs);
        },
        FilterV::Not(g) => {
            without_macros_conditions_end(*g);
        },
        _ => {},
    }
    assert(expands(f, no_macros(), 0));
}

proof fn lemma_lists_end(fs: Seq<FilterV>)
    ensures
        all_expand(fs, no_macros(), 0),
    decreases fs,
{
    assert forall|i: int| 0 <= i < fs.len() implies expands(#[trigger] fs[i], no_macros(), 0) by {
        without_macros_conditions_end(fs[i]);
    }
}

fn give(v: &ValueSpec, tags: &RawTags) -> (r: Value)
    ensures
        r@ == given(v@, tag_map(*tags)),
{
    match v {
        ValueSpec::Const(x) => clone_value(x),
        ValueSpec::TagOr { tag_or, or } => match get(tags, tag_or.as_str()) {
            Some(s) => Value::String(s.to_owned()),
            None => Value::String(or.clone()),
        },
    }
}

/// What the first rule gives whose condition holds.
pub fn classify_rules(
    rules: &Vec<Rule>,
    tags: &RawTags,
    sanitizers: &SanitizerRegistry,
    value_sets: &ValueSets,
    readings: &Readings,
) -> (r: Option<Value>)
    ensures
        opt_value(r) == classified(
            rules_view(rules@),
            0,
            neutral(tag_map(*tags), sanitizers@, value_sets@, readings@),
        ),
{
    let ghost c = neutral(tag_map(*tags), sanitizers@, value_sets@, readings@);
    let ghost rv = rules_view(rules@);
    let none: Vec<(String, Filter)> = Vec::new();
    proof {
        assert(macros_view(none@) =~= no_macros());
    }
    let mut k: usize = 0;
    while k < rules.len()
        invariant
            0 <= k <= rules@.len(),
            rv == rules_view(rules@),
            c == neutral(tag_map(*tags), sanitizers@, value_sets@, readings@),
            macros_view(none@) == no_macros(),
            classified(rv, 0, c) == classified(rv, k as int, c),
        decreases rules.len() - k,
    {
        proof {
            without_macros_conditions_end(rules@[k as int].when@);
            assert(rv[k as int] == rules@[k as int]@);
        }
        if eval_filter(&rules[k].when, tags, &none, sanitizers, value_sets, readings) {
            return Some(give(&rules[k].value, tags));
        }
        k = k + 1;
    }
    None
}

/// A copy of a list of rules.
pub fn clone_rules(v: &Vec<Rule>) -> (r: Vec<Rule>)
    ensures
        rules_view(r@) == rules_view(v@),
{
    let mut out: Vec<Rule> = Vec::new();
    for i in 0..v.len()
        invariant
            out@.len() == i,
            forall|j: int| 0 <= j < i ==> (#[trigger] out@[j])@ == v@[j]@,
    {
        let value = match &v[i].value {
            ValueSpec::Const(x) => ValueSpec::Const(clone_value(x)),
            ValueSpec::TagOr { tag_or, or } => ValueSpec::TagOr {
                tag_or: tag_or.clone(),
                or: or.clone(),
            },
        };
        out.push(Rule { when: clone_filter(&v[i].when), value });
    }
    proof {
        assert(rules_view(out@) =~= rules_view(v@));
    }
    out
}

} // verus!
