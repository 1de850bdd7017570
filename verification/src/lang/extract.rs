//! Tag reads: which keys to look at, and the sanitize chain for what is found there.
use vstd::prelude::*;

use crate::lang::context::ExtractCtx;
use crate::lang::sanitize::{eval_sanitize, opt_value, sanitized, Sanitizer, SanitizerV};
use crate::model::{copy_all, models, same_all, Model};
use crate::number::ReadingsV;
use crate::tags::{get, tag_map, RawTags};
use crate::text::{concat2, str_eq, strip_prefix};
use crate::value::{opt_text, text_of, Value, ValueV};

verus! {

/// A tag read: the first of several keys that is set, or one key; then its sanitize chain.
#[derive(Debug)]
pub enum Extract {
    Candidates { keys: Vec<String>, sanitize: Vec<Sanitizer> },
    Value { key: String, sanitize: Vec<Sanitizer> },
}

/// What a tag read does.
pub enum ExtractV {
    Candidates { keys: Seq<Seq<char>>, sanitize: Seq<SanitizerV> },
    Value { key: Seq<char>, sanitize: Seq<SanitizerV> },
}

impl ExtractV {
    /// The keys, in the order they are tried.
    pub open spec fn keys(self) -> Seq<Seq<char>> {
        match self {
            ExtractV::Candidates { keys, .. } => keys,
            ExtractV::Value { key, .. } => seq![key],
        }
    }

    /// The sanitize chain.
    pub open spec fn chain(self) -> Seq<SanitizerV> {
        match self {
            ExtractV::Candidates { sanitize, .. } => sanitize,
            ExtractV::Value { sanitize, .. } => sanitize,
        }
    }

    /// The same read of keys with `prefix` in front.
    pub open spec fn prefixed(self, prefix: Seq<char>) -> ExtractV {
        match self {
            ExtractV::Candidates { keys, sanitize } => ExtractV::Candidates {
                keys: keys.map_values(|k: Seq<char>| prefix + k),
                sanitize,
            },
            ExtractV::Value { key, sanitize } => ExtractV::Value { key: prefix + key, sanitize },
        }
    }

    /// The same read of keys without `prefix` in front.
    pub open spec fn stripped(self, prefix: Seq<char>) -> ExtractV {
        match self {
            ExtractV::Candidates { keys, sanitize } => ExtractV::Candidates {
                keys: keys.map_values(|k: Seq<char>| without_prefix(k, prefix)),
                sanitize,
            },
            ExtractV::Value { key, sanitize } => ExtractV::Value {
                key: without_prefix(key, prefix),
                sanitize,
            },
        }
    }
}

/// `k` without `prefix` in front; unchanged where it does not start with it.
pub open spec fn without_prefix(k: Seq<char>, prefix: Seq<char>) -> Seq<char> {
    if prefix.is_prefix_of(k) {
        k.subrange(prefix.len() as int, k.len() as int)
    } else {
        k
    }
}

/// The value of the first key that is set.
pub open spec fn first_set(m: Map<Seq<char>, Seq<char>>, keys: Seq<Seq<char>>) -> Option<Seq<char>>
    decreases keys.len(),
{
    if keys.len() == 0 {
        None
    } else if m.dom().contains(keys[0]) {
        Some(m[keys[0]])
    } else {
        first_set(m, keys.skip(1))
    }
}

/// What a read finds before its chain.
pub open spec fn raw_read(e: ExtractV, m: Map<Seq<char>, Seq<char>>) -> Option<Seq<char>> {
    first_set(m, e.keys())
}

/// What a read gives.
pub open spec fn value_read(
    e: ExtractV,
    m: Map<Seq<char>, Seq<char>>,
    readings: ReadingsV,
) -> Option<ValueV> {
    match raw_read(e, m) {
        Some(raw) => sanitized(e.chain(), raw, readings),
        None => None,
    }
}

/// The text that a read gives; nothing where the chain drops the value or gives no text.
pub open spec fn text_read(
    e: ExtractV,
    m: Map<Seq<char>, Seq<char>>,
    readings: ReadingsV,
) -> Option<Seq<char>> {
    match value_read(e, m, readings) {
        Some(v) => text_of(v),
        None => None,
    }
}

/// Of several keys the first that is set gives the value.
pub proof fn lemma_first_set(m: Map<Seq<char>, Seq<char>>, keys: Seq<Seq<char>>, i: int)
    requires
        0 <= i <= keys.len(),
        forall|j: int| 0 <= j < i ==> !m.dom().contains(#[trigger] keys[j]),
        i < keys.len() ==> m.dom().contains(keys[i]),
    ensures
        first_set(m, keys) == (if i < keys.len() {
            Some(m[keys[i]])
        } else {
            None
        }),
    decreases keys.len(),
{
    if keys.len() > 0 && i > 0 {
        assert forall|j: int| 0 <= j < i - 1 implies !m.dom().contains(
            #[trigger] keys.skip(1)[j],
        ) by {
            assert(keys.skip(1)[j] == keys[j + 1]);
        }
        lemma_first_set(m, keys.skip(1), i - 1);
    }
}

/// The value of the first key that is set.
pub fn first_present<'a>(tags: &'a RawTags, keys: &Vec<String>) -> (r: Option<&'a str>)
    ensures
        opt_text(r) == first_set(tag_map(*tags), models(keys@)),
{
    let ghost m = tag_map(*tags);
    for i in 0..keys.len()
        invariant
            m == tag_map(*tags),
            forall|j: int| 0 <= j < i ==> !m.dom().contains(#[trigger] models(keys@)[j]),
    {
        match get(tags, keys[i].as_str()) {
            Some(v) => {
                proof {
                    lemma_first_set(m, models(keys@), i as int);
                }
                return Some(v);
            },
            None => {},
        }
    }
    proof {
        lemma_first_set(m, models(keys@), keys@.len() as int);
    }
    None
}

impl Extract {
    pub open spec fn view(&self) -> ExtractV {
        match self {
            Extract::Candidates { keys, sanitize } => ExtractV::Candidates {
                keys: models(keys@),
                sanitize: models(sanitize@),
            },
            Extract::Value { key, sanitize } => ExtractV::Value {
                key: key@,
                sanitize: models(sanitize@),
            },
        }
    }

    /// The sanitize chain.
    pub fn sanitize(&self) -> (r: &Vec<Sanitizer>)
        ensures
            models(r@) == self@.chain(),
    {
        match self {
            Extract::Candidates { sanitize, .. } => sanitize,
            Extract::Value { sanitize, .. } => sanitize,
        }
    }

    /// What the read finds before its chain.
    pub fn read_raw<'a>(&self, ctx: &ExtractCtx<'a>) -> (r: Option<&'a str>)
        ensures
            opt_text(r) == raw_read(self@, ctx@.obj),
    {
        match self {
            Extract::Value { key, .. } => {
                proof {
                    let keys = seq![key@];
                    if ctx@.obj.dom().contains(key@) {
                        lemma_first_set(ctx@.obj, keys, 0);
                    } else {
                        lemma_first_set(ctx@.obj, keys, 1);
                    }
                }
                get(ctx.obj_tags, key.as_str())
            },
            Extract::Candidates { keys, .. } => first_present(ctx.obj_tags, keys),
        }
    }

    /// What the read gives.
    pub fn read(&self, ctx: &ExtractCtx) -> (r: Option<Value>)
        ensures
            opt_value(r) == value_read(self@, ctx@.obj, ctx@.readings),
    {
        match self.read_raw(ctx) {
            Some(raw) => eval_sanitize(self.sanitize(), raw, ctx.readings),
            None => None,
        }
    }

    /// The text that the read gives.
    pub fn read_str(&self, ctx: &ExtractCtx) -> (r: Option<String>)
        ensures
            r.model() == text_read(self@, ctx@.obj, ctx@.readings),
    {
        match self.read(ctx) {
            Some(v) => match v {
                Value::String(s) => Some(s),
                _ => None,
            },
            None => None,
        }
    }

    /// The keys that the read looks at, in order.
    pub fn tag_names(&self) -> (r: Vec<String>)
        ensures
            models(r@) == self@.keys(),
    {
        match self {
            Extract::Value { key, .. } => {
                let mut out: Vec<String> = Vec::new();
                out.push(key.clone());
                proof {
                    assert(models(out@) =~= self@.keys());
                }
                out
            },
            Extract::Candidates { keys, .. } => copy_all(keys),
        }
    }

    /// The same read of keys with `prefix` in front.
    pub fn prefixed(&self, prefix: &str) -> (r: Extract)
        ensures
            r@ == self@.prefixed(prefix@),
    {
        match self {
            Extract::Value { key, sanitize } => Extract::Value {
                key: concat2(prefix, key.as_str()),
                sanitize: copy_all(sanitize),
            },
            Extract::Candidates { keys, sanitize } => {
                let mut out: Vec<String> = Vec::new();
                for i in 0..keys.len()
                    invariant
                        out@.len() == i,
                        forall|j: int|
                            0 <= j < i ==> (#[trigger] out@[j])@ == prefix@ + keys@[j]@,
                {
                    out.push(concat2(prefix, keys[i].as_str()));
                }
                let r = Extract::Candidates { keys: out, sanitize: copy_all(sanitize) };
                proof {
                    assert(r@.keys() =~= self@.prefixed(prefix@).keys());
                }
                r
            },
        }
    }

    /// The same read of keys without `prefix` in front; a key that does not start with it stays.
    pub fn strip_prefix(&self, prefix: &str) -> (r: Extract)
        ensures
            r@ == self@.stripped(prefix@),
    {
        match self {
            Extract::Value { key, sanitize } => Extract::Value {
                key: strip_key(key, prefix),
                sanitize: copy_all(sanitize),
            },
            Extract::Candidates { keys, sanitize } => {
                let mut out: Vec<String> = Vec::new();
                for i in 0..keys.len()
                    invariant
                        out@.len() == i,
                        forall|j: int|
                            0 <= j < i ==> (#[trigger] out@[j])@ == without_prefix(
                                keys@[j]@,
                                prefix@,
                            ),
                {
                    out.push(strip_key(&keys[i], prefix));
                }
                let r = Extract::Candidates { keys: out, sanitize: copy_all(sanitize) };
                proof {
                    assert(r@.keys() =~= self@.stripped(prefix@).keys());
                }
                r
            },
        }
    }
}

fn strip_key(key: &String, prefix: &str) -> (r: String)
    ensures
        r@ == without_prefix(key@, prefix@),
{
    match strip_prefix(key.as_str(), prefix) {
        Some(rest) => rest.to_owned(),
        None => key.clone(),
    }
}

impl Model for Extract {
    type M = ExtractV;

    open spec fn model(&self) -> ExtractV {
        self.view()
    }

    fn copy(&self) -> (r: Self) {
        match self {
            Extract::Candidates { keys, sanitize } => Extract::Candidates {
                keys: copy_all(keys),
                sanitize: copy_all(sanitize),
            },
            Extract::Value { key, sanitize } => Extract::Value {
                key: key.clone(),
                sanitize: copy_all(sanitize),
            },
        }
    }

    fn same(&self, other: &Self) -> (r: bool) {
        match (self, other) {
            (
                Extract::Candidates { keys, sanitize },
                Extract::Candidates { keys: k2, sanitize: s2 },
            ) => same_all(keys, k2) && same_all(sanitize, s2),
            (Extract::Value { key, sanitize }, Extract::Value { key: k2, sanitize: s2 }) => str_eq(
                key.as_str(),
                k2.as_str(),
            ) && same_all(sanitize, s2),
            _ => false,
        }
    }
}

/// Stripping a prefix gives back the read that it was put on.
pub proof fn strip_undoes_prefix(e: ExtractV, prefix: Seq<char>)
    ensures
        e.prefixed(prefix).stripped(prefix) == e,
{
    assert forall|k: Seq<char>| without_prefix(#[trigger] (prefix + k), prefix) == k by {
        assert((prefix + k).subrange(0, prefix.len() as int) =~= prefix);
        assert((prefix + k).subrange(prefix.len() as int, (prefix + k).len() as int) =~= k);
    }
    match e {
        ExtractV::Candidates { keys, sanitize } => {
            assert(e.prefixed(prefix).stripped(prefix).keys() =~= keys);
        },
        ExtractV::Value { .. } => {},
    }
}

} // verus!
