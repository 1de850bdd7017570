//! The sanitize chain of a tag read: a list of steps, each from a text to an atomic value. An
//! empty chain gives the text back.
use vstd::prelude::*;

use crate::assoc::{find, lookup};
use crate::model::{copy_all, models, same_all, Model};
use crate::number::{finite, is_finite, Readings, ReadingsV};
use crate::text::{concat2, concat3, contains, occurs_in, replace, replace_all, str_eq, strip_prefix};
use crate::value::{text_of, Number, Value, ValueV};

verus! {

/// One text, or several.
#[derive(Debug)]
pub enum StrOrVec {
    One(String),
    Many(Vec<String>),
}

/// The texts that a spelling of one or several stands for.
pub open spec fn spelled_texts(s: StrOrVec) -> Seq<Seq<char>> {
    match s {
        StrOrVec::One(x) => seq![x@],
        StrOrVec::Many(v) => models(v@),
    }
}

impl StrOrVec {
    /// A copy of the texts.
    pub fn texts(&self) -> (r: Vec<String>)
        ensures
            models(r@) == spelled_texts(*self),
    {
        match self {
            StrOrVec::One(s) => {
                let mut out: Vec<String> = Vec::new();
                out.push(s.clone());
                proof {
                    assert(models(out@) =~= seq![s@]);
                }
                out
            },
            StrOrVec::Many(v) => copy_all(v),
        }
    }

    /// The texts: the one, or all of them.
    pub fn into_vec(self) -> (r: Vec<String>)
        ensures
            models(r@) == spelled_texts(self),
    {
        match self {
            StrOrVec::One(s) => {
                let mut out: Vec<String> = Vec::new();
                out.push(s);
                proof {
                    assert(models(out@) =~= seq![s@]);
                }
                out
            },
            StrOrVec::Many(v) => v,
        }
    }
}

/// The value of a mapping entry: a text, a truth value or a number, never a nested value. A number
/// is the bit pattern of a double.
#[derive(Debug)]
pub enum AtomicJson {
    Str(String),
    Bool(bool),
    Num(u64),
}

/// What a mapping entry's value is.
pub enum AtomicV {
    Str(Seq<char>),
    Bool(bool),
    Num(u64),
}

impl AtomicJson {
    pub open spec fn view(&self) -> AtomicV {
        match self {
            AtomicJson::Str(s) => AtomicV::Str(s@),
            AtomicJson::Bool(b) => AtomicV::Bool(*b),
            AtomicJson::Num(n) => AtomicV::Num(*n),
        }
    }

    /// The atomic value that `v` is; nothing for null, an array or an object.
    pub fn from_value(v: &Value) -> (r: Option<AtomicJson>)
        ensures
            r.model() == atomic_of(v@),
    {
        match v {
            Value::String(s) => Some(AtomicJson::Str(s.clone())),
            Value::Bool(b) => Some(AtomicJson::Bool(*b)),
            Value::Number(n) => Some(AtomicJson::Num(n.bits())),
            _ => None,
        }
    }

    /// The JSON value. A number that JSON cannot spell becomes zero.
    pub fn into_value(self) -> (r: Value)
        ensures
            r@ == json_of(self@),
    {
        match self {
            AtomicJson::Str(s) => Value::String(s),
            AtomicJson::Bool(b) => Value::Bool(b),
            AtomicJson::Num(bits) => Value::Number(float_to_json(bits)),
        }
    }
}

impl Model for AtomicJson {
    type M = AtomicV;

    open spec fn model(&self) -> AtomicV {
        self.view()
    }

    fn copy(&self) -> (r: Self) {
        match self {
            AtomicJson::Str(s) => AtomicJson::Str(s.clone()),
            AtomicJson::Bool(b) => AtomicJson::Bool(*b),
            AtomicJson::Num(n) => AtomicJson::Num(*n),
        }
    }

    fn same(&self, other: &Self) -> (r: bool) {
        match (self, other) {
            (AtomicJson::Str(a), AtomicJson::Str(b)) => str_eq(a.as_str(), b.as_str()),
            (AtomicJson::Bool(a), AtomicJson::Bool(b)) => *a == *b,
            (AtomicJson::Num(a), AtomicJson::Num(b)) => *a == *b,
            _ => false,
        }
    }
}

/// The atomic value that a JSON value is, if it is one.
pub open spec fn atomic_of(v: ValueV) -> Option<AtomicV> {
    match v {
        ValueV::String(s) => Some(AtomicV::Str(s)),
        ValueV::Bool(b) => Some(AtomicV::Bool(b)),
        ValueV::Number(n) => Some(AtomicV::Num(n.spec_bits())),
        _ => None,
    }
}

/// The JSON number of a double; zero where JSON cannot spell it.
pub open spec fn json_number(bits: u64) -> Number {
    if is_finite(bits) {
        Number::Float { bits }
    } else {
        Number::Int { value: 0, bits: 0 }
    }
}

/// The JSON value of an atomic value.
pub open spec fn json_of(a: AtomicV) -> ValueV {
    match a {
        AtomicV::Str(s) => ValueV::String(s),
        AtomicV::Bool(b) => ValueV::Bool(b),
        AtomicV::Num(bits) => ValueV::Number(json_number(bits)),
    }
}

/// The JSON number of a double; zero where JSON cannot spell it.
pub fn float_to_json(bits: u64) -> (r: Number)
    ensures
        r == json_number(bits),
{
    if finite(bits) {
        Number::Float { bits }
    } else {
        Number::Int { value: 0, bits: 0 }
    }
}

/// Where a rewrite applies: to every occurrence, or only to a leading one.
#[derive(Debug, Clone, Copy, PartialEq, Eq, Structural)]
pub enum ReplaceAt {
    Anywhere,
    Prefix,
}

impl Default for ReplaceAt {
    fn default() -> (r: Self)
        ensures
            r == ReplaceAt::Anywhere,
    {
        ReplaceAt::Anywhere
    }
}

/// One literal rewrite.
#[derive(Debug)]
pub struct ReplaceRule {
    pub from: String,
    pub to: String,
    pub at: ReplaceAt,
}

/// What a rewrite does.
pub struct ReplaceV {
    pub from: Seq<char>,
    pub to: Seq<char>,
    pub at: ReplaceAt,
}

/// The text behind one rewrite.
pub open spec fn rewritten(rule: ReplaceV, s: Seq<char>) -> Seq<char> {
    match rule.at {
        ReplaceAt::Anywhere => if occurs_in(s, rule.from) {
            replace_all(s, rule.from, rule.to)
        } else {
            s
        },
        ReplaceAt::Prefix => if rule.from.is_prefix_of(s) {
            rule.to + s.subrange(rule.from.len() as int, s.len() as int)
        } else {
            s
        },
    }
}

/// The text behind all rewrites, one after the other.
pub open spec fn rewritten_all(rules: Seq<ReplaceV>, s: Seq<char>) -> Seq<char>
    decreases rules.len(),
{
    if rules.len() == 0 {
        s
    } else {
        rewritten(rules.last(), rewritten_all(rules.drop_last(), s))
    }
}

impl ReplaceRule {
    pub open spec fn view(&self) -> ReplaceV {
        ReplaceV { from: self.from@, to: self.to@, at: self.at }
    }

    /// The text behind this rewrite; unchanged where the rule does not match.
    pub fn apply(&self, s: String) -> (r: String)
        ensures
            r@ == rewritten(self@, s@),
    {
        match self.at {
            ReplaceAt::Anywhere => if contains(s.as_str(), self.from.as_str()) {
                replace(s.as_str(), self.from.as_str(), self.to.as_str())
            } else {
                s
            },
            ReplaceAt::Prefix => match strip_prefix(s.as_str(), self.from.as_str()) {
                Some(rest) => concat2(self.to.as_str(), rest),
                None => s,
            },
        }
    }
}

impl Model for ReplaceRule {
    type M = ReplaceV;

    open spec fn model(&self) -> ReplaceV {
        self.view()
    }

    fn copy(&self) -> (r: Self) {
        ReplaceRule { from: self.from.clone(), to: self.to.clone(), at: self.at }
    }

    fn same(&self, other: &Self) -> (r: bool) {
        str_eq(self.from.as_str(), other.from.as_str()) && str_eq(
            self.to.as_str(),
            other.to.as_str(),
        ) && self.at == other.at
    }
}

/// The transforms that are code, by name.
#[derive(Debug, Clone, Copy, PartialEq, Eq, Structural)]
pub enum Builtin {
    ParseLength,
}

impl Builtin {
    /// The name that a configuration spells.
    pub open spec fn spec_name(self) -> Seq<char> {
        match self {
            Builtin::ParseLength => "parse_length"@,
        }
    }

    /// The transform of that name.
    pub fn from_name(name: &str) -> (r: Option<Builtin>)
        ensures
            match r {
                Some(b) => name@ == b.spec_name(),
                None => forall|b: Builtin| name@ != #[trigger] b.spec_name(),
            },
    {
        if str_eq(name, "parse_length") {
            Some(Builtin::ParseLength)
        } else {
            None
        }
    }

    /// The name that a configuration spells.
    pub fn name(self) -> (r: &'static str)
        ensures
            r@ == self.spec_name(),
    {
        match self {
            Builtin::ParseLength => "parse_length",
        }
    }

    /// The transform of a text: the length that it spells, as a number.
    pub fn apply(self, raw: &str, readings: &Readings) -> (r: Option<Value>)
        ensures
            opt_value(r) == builtin_result(self, raw@, readings@),
    {
        match self {
            Builtin::ParseLength => match readings.length(raw) {
                Some(bits) => Some(Value::Number(float_to_json(bits))),
                None => None,
            },
        }
    }
}

/// The value that an optional JSON value holds.
pub open spec fn opt_value(v: Option<Value>) -> Option<ValueV> {
    match v {
        Some(x) => Some(x@),
        None => None,
    }
}

/// What a built-in transform gives.
pub open spec fn builtin_result(b: Builtin, raw: Seq<char>, readings: ReadingsV) -> Option<ValueV> {
    match b {
        Builtin::ParseLength => match readings.length(raw) {
            Some(bits) => Some(ValueV::Number(json_number(bits))),
            None => None,
        },
    }
}

/// One step of a sanitize chain: a table lookup, literal rewrites, or a built-in transform.
///
/// An entry of a mapping without a value drops the text it stands for. A text without an entry is
/// kept where `on_miss` says `keep`, dropped where it says `drop` or nothing, and becomes the text
/// of `on_miss` otherwise.
#[derive(Debug)]
pub enum Sanitizer {
    Mapping { mapping: Vec<(String, Option<AtomicJson>)>, on_miss: Option<String> },
    Replace { replace: Vec<ReplaceRule> },
    Builtin(Builtin),
}

/// What a step does.
pub enum SanitizerV {
    Mapping { mapping: Seq<(Seq<char>, Option<AtomicV>)>, on_miss: Option<Seq<char>> },
    Replace { replace: Seq<ReplaceV> },
    Builtin(Builtin),
}

/// What a mapping gives for a text without an entry.
pub open spec fn missed(on_miss: Option<Seq<char>>, v: Seq<char>) -> Option<ValueV> {
    match on_miss {
        None => None,
        Some(m) => if m == "keep"@ {
            Some(ValueV::String(v))
        } else if m == "drop"@ {
            None
        } else {
            Some(ValueV::String(m))
        },
    }
}

/// What one step gives for a text.
pub open spec fn step_result(s: SanitizerV, v: Seq<char>, readings: ReadingsV) -> Option<ValueV> {
    match s {
        SanitizerV::Mapping { mapping, on_miss } => match lookup(mapping, v) {
            Some(None) => None,
            Some(Some(a)) => Some(json_of(a)),
            None => missed(on_miss, v),
        },
        SanitizerV::Replace { replace } => Some(ValueV::String(rewritten_all(replace, v))),
        SanitizerV::Builtin(b) => builtin_result(b, v, readings),
    }
}

/// What a chain gives for a text: each step reads the text that the one before gave.
pub open spec fn sanitized(chain: Seq<SanitizerV>, raw: Seq<char>, readings: ReadingsV) -> Option<
    ValueV,
>
    decreases chain.len(),
{
    if chain.len() == 0 {
        Some(ValueV::String(raw))
    } else {
        match sanitized(chain.drop_last(), raw, readings) {
            Some(v) => match text_of(v) {
                Some(s) => step_result(chain.last(), s, readings),
                None => None,
            },
            None => None,
        }
    }
}

/// What a mapping gives for a text without an entry.
pub(crate) fn apply_on_miss(on_miss: &Option<String>, v: &str) -> (r: Option<Value>)
    ensures
        opt_value(r) == missed(on_miss.model(), v@),
{
    match on_miss {
        None => None,
        Some(m) => if str_eq(m.as_str(), "keep") {
            Some(Value::String(v.to_owned()))
        } else if str_eq(m.as_str(), "drop") {
            None
        } else {
            Some(Value::String(m.clone()))
        },
    }
}

impl Sanitizer {
    pub open spec fn view(&self) -> SanitizerV {
        match self {
            Sanitizer::Mapping { mapping, on_miss } => SanitizerV::Mapping {
                mapping: models(mapping@),
                on_miss: on_miss.model(),
            },
            Sanitizer::Replace { replace } => SanitizerV::Replace { replace: models(replace@) },
            Sanitizer::Builtin(b) => SanitizerV::Builtin(*b),
        }
    }

    /// What this step gives for a text.
    pub fn apply(&self, v: &str, readings: &Readings) -> (r: Option<Value>)
        ensures
            opt_value(r) == step_result(self@, v@, readings@),
    {
        match self {
            Sanitizer::Mapping { mapping, on_miss } => match find(mapping, v) {
                Some(i) => match &mapping[i].1 {
                    None => None,
                    Some(a) => Some(a.copy().into_value()),
                },
                None => apply_on_miss(on_miss, v),
            },
            Sanitizer::Replace { replace } => {
                let mut s = v.to_owned();
                let ghost rules = models(replace@);
                for i in 0..replace.len()
                    invariant
                        rules == models(replace@),
                        s@ == rewritten_all(rules.take(i as int), v@),
                {
                    proof {
                        assert(rules.take(i + 1).drop_last() =~= rules.take(i as int));
                        assert(rules.take(i + 1).last() == replace@[i as int]@);
                    }
                    s = replace[i].apply(s);
                }
                proof {
                    assert(rules.take(rules.len() as int) =~= rules);
                }
                Some(Value::String(s))
            },
            Sanitizer::Builtin(b) => b.apply(v, readings),
        }
    }
}

impl Model for Sanitizer {
    type M = SanitizerV;

    open spec fn model(&self) -> SanitizerV {
        self.view()
    }

    fn copy(&self) -> (r: Self) {
        match self {
            Sanitizer::Mapping { mapping, on_miss } => Sanitizer::Mapping {
                mapping: copy_all(mapping),
                on_miss: on_miss.copy(),
            },
            Sanitizer::Replace { replace } => Sanitizer::Replace { replace: copy_all(replace) },
            Sanitizer::Builtin(b) => Sanitizer::Builtin(*b),
        }
    }

    fn same(&self, other: &Self) -> (r: bool) {
        match (self, other) {
            (
                Sanitizer::Mapping { mapping, on_miss },
                Sanitizer::Mapping { mapping: m2, on_miss: o2 },
            ) => same_all(mapping, m2) && on_miss.same(o2),
            (Sanitizer::Replace { replace }, Sanitizer::Replace { replace: r2 }) => same_all(
                replace,
                r2,
            ),
            (Sanitizer::Builtin(a), Sanitizer::Builtin(b)) => *a == *b,
            _ => false,
        }
    }
}

/// What a chain gives for a text.
pub fn eval_sanitize(chain: &Vec<Sanitizer>, raw: &str, readings: &Readings) -> (r: Option<Value>)
    ensures
        opt_value(r) == sanitized(models(chain@), raw@, readings@),
{
    let ghost steps = models(chain@);
    let mut cur: Value = Value::String(raw.to_owned());
    for i in 0..chain.len()
        invariant
            steps == models(chain@),
            sanitized(steps.take(i as int), raw@, readings@) == Some(cur@),
    {
        proof {
            assert(steps.take(i + 1).drop_last() =~= steps.take(i as int));
            assert(steps.take(i + 1).last() == chain@[i as int]@);
        }
        let next = match cur.as_str() {
            Some(s) => chain[i].apply(s, readings),
            None => None,
        };
        match next {
            Some(v) => {
                cur = v;
            },
            None => {
                proof {
                    lemma_stays_dropped(steps, i + 1, raw@, readings@);
                }
                return None;
            },
        }
    }
    proof {
        assert(steps.take(steps.len() as int) =~= steps);
    }
    Some(cur)
}

proof fn lemma_stays_dropped(chain: Seq<SanitizerV>, i: int, raw: Seq<char>, readings: ReadingsV)
    requires
        0 <= i <= chain.len(),
        sanitized(chain.take(i), raw, readings) is None,
    ensures
        sanitized(chain, raw, readings) is None,
    decreases chain.len(),
{
    if i == chain.len() {
        assert(chain.take(i) =~= chain);
    } else {
        assert(chain.drop_last().take(i) =~= chain.take(i));
        lemma_stays_dropped(chain.drop_last(), i, raw, readings);
    }
}

/// An atomic value that JSON can spell is read back from its JSON.
pub proof fn atoms_are_read_back(a: AtomicV)
    requires
        a matches AtomicV::Num(bits) ==> is_finite(bits),
    ensures
        atomic_of(json_of(a)) == Some(a),
{
}

/// Rewriting a text never drops it, and gives a text.
pub proof fn rewriting_never_drops(rules: Seq<ReplaceV>, v: Seq<char>, readings: ReadingsV)
    ensures
        step_result(SanitizerV::Replace { replace: rules }, v, readings) == Some(
            ValueV::String(rewritten_all(rules, v)),
        ),
{
}

/// A chain is its first steps followed by the others, which see the text that the first gave.
pub proof fn chains_run_in_turn(
    a: Seq<SanitizerV>,
    b: Seq<SanitizerV>,
    raw: Seq<char>,
    readings: ReadingsV,
)
    requires
        b.len() > 0,
    ensures
        sanitized(a + b, raw, readings) == match sanitized(a, raw, readings) {
            Some(v) => match text_of(v) {
                Some(s) => sanitized(b, s, readings),
                None => None,
            },
            None => None,
        },
    decreases b.len(),
{
    reveal_with_fuel(sanitized, 2);
    let last = b.last();
    let rest = b.drop_last();
    assert((a + b).drop_last() =~= a + rest);
    assert((a + b).last() == last);
    if rest.len() == 0 {
        assert(a + rest =~= a);
    } else {
        chains_run_in_turn(a, rest, raw, readings);
    }
}

/// A name that no sanitizer and no built-in transform has.
#[derive(Debug)]
pub struct UnknownSanitizer {
    pub name: String,
}

impl UnknownSanitizer {
    /// What is wrong, in words.
    pub fn message(&self) -> (r: String)
        ensures
            r@ == "`"@ + self.name@ + "` is not a named sanitizer or a built-in"@,
    {
        concat3("`", self.name.as_str(), "` is not a named sanitizer or a built-in")
    }
}

/// The chain that a name stands for: the named chain, or the built-in transform of that name.
pub fn resolve_named_sanitizer(
    name: &str,
    sanitizers: &Vec<(String, Vec<Sanitizer>)>,
) -> (r: Result<Vec<Sanitizer>, UnknownSanitizer>)
    ensures
        match lookup(models(sanitizers@), name@) {
            Some(chain) => r is Ok && models(r->Ok_0@) == chain,
            None => if exists|b: Builtin| name@ == #[trigger] b.spec_name() {
                r is Ok && exists|b: Builtin|
                    name@ == #[trigger] b.spec_name() && models(r->Ok_0@) == seq![
                        SanitizerV::Builtin(b),
                    ]
            } else {
                r is Err && r->Err_0.name@ == name@
            },
        },
{
    match find(sanitizers, name) {
        Some(i) => Ok(copy_all(&sanitizers[i].1)),
        None => match Builtin::from_name(name) {
            Some(b) => {
                let mut out: Vec<Sanitizer> = Vec::new();
                out.push(Sanitizer::Builtin(b));
                proof {
                    assert(models(out@) =~= seq![SanitizerV::Builtin(b)]);
                }
                Ok(out)
            },
            None => Err(UnknownSanitizer { name: name.to_owned() }),
        },
    }
}

} // verus!
