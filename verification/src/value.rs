//! JSON values, the atomic results of a tag read and the literals a configuration spells.
use vstd::prelude::*;

use crate::assoc::{
    as_map, first_position, lemma_first_position, lemma_lookup, lemma_without, lookup, without,
};
use crate::text::str_eq;

verus! {

/// A JSON number. `bits` is the bit pattern of the double nearest to it.
#[derive(Debug, Clone, Copy, PartialEq, Eq, Structural)]
pub enum Number {
    Int { value: i128, bits: u64 },
    Float { bits: u64 },
}

impl Number {
    /// The number as a double.
    pub open spec fn spec_bits(self) -> u64 {
        match self {
            Number::Int { bits, .. } => bits,
            Number::Float { bits } => bits,
        }
    }

    /// The number as a double.
    pub fn bits(&self) -> (r: u64)
        ensures
            r == self.spec_bits(),
    {
        match self {
            Number::Int { bits, .. } => *bits,
            Number::Float { bits } => *bits,
        }
    }
}

/// A JSON value.
#[derive(Debug)]
pub enum Value {
    Null,
    Bool(bool),
    Number(Number),
    String(String),
    Array(Vec<Value>),
    Object(Vec<(String, Value)>),
}

/// What a JSON value holds.
pub enum ValueV {
    Null,
    Bool(bool),
    Number(Number),
    String(Seq<char>),
    Array(Seq<ValueV>),
    Object(Seq<(Seq<char>, ValueV)>),
}

impl Value {
    pub open spec fn view(&self) -> ValueV
        decreases self,
    {
        match self {
            Value::Null => ValueV::Null,
            Value::Bool(b) => ValueV::Bool(*b),
            Value::Number(n) => ValueV::Number(*n),
            Value::String(s) => ValueV::String(s@),
            Value::Array(v) => ValueV::Array(values(v@)),
            Value::Object(v) => ValueV::Object(fields(v@)),
        }
    }
}

pub open spec fn values(v: Seq<Value>) -> Seq<ValueV>
    decreases v,
{
    Seq::new(
        v.len(),
        |i: int|
            if 0 <= i < v.len() {
                v[i].view()
            } else {
                arbitrary()
            },
    )
}

pub open spec fn fields(v: Seq<(String, Value)>) -> Seq<(Seq<char>, ValueV)>
    decreases v,
{
    Seq::new(
        v.len(),
        |i: int|
            if 0 <= i < v.len() {
                (v[i].0@, v[i].1.view())
            } else {
                arbitrary()
            },
    )
}

pub broadcast proof fn values_len(v: Seq<Value>)
    ensures
        #[trigger] values(v).len() == v.len(),
{
}

pub broadcast proof fn values_index(v: Seq<Value>, i: int)
    requires
        0 <= i < v.len(),
    ensures
        #[trigger] values(v)[i] == v[i].view(),
{
}

pub broadcast proof fn fields_len(v: Seq<(String, Value)>)
    ensures
        #[trigger] fields(v).len() == v.len(),
{
}

pub broadcast proof fn fields_index(v: Seq<(String, Value)>, i: int)
    requires
        0 <= i < v.len(),
    ensures
        (#[trigger] fields(v)[i]).0 == v[i].0@,
        fields(v)[i].1 == v[i].1.view(),
{
}

pub broadcast group group_values {
    values_len,
    values_index,
    fields_len,
    fields_index,
}

/// A copy of a JSON value.
pub fn clone_value(v: &Value) -> (r: Value)
    ensures
        r@ == v@,
    decreases v,
{
    broadcast use group_values;

    match v {
        Value::Null => Value::Null,
        Value::Bool(b) => Value::Bool(*b),
        Value::Number(n) => Value::Number(*n),
        Value::String(s) => Value::String(s.clone()),
        Value::Array(xs) => {
            let mut out: Vec<Value> = Vec::new();
            for i in 0..xs.len()
                invariant
                    *v is Array,
                    v->Array_0 == *xs,
                    out@.len() == i,
                    forall|j: int| 0 <= j < i ==> (#[trigger] out@[j])@ == xs@[j]@,
            {
                proof {
                    assert(decreases_to!(xs@ => xs@[i as int]));
                }
                let c = clone_value(&xs[i]);
                out.push(c);
            }
            proof {
                assert(values(out@) =~= values(xs@));
            }
            Value::Array(out)
        },
        Value::Object(xs) => {
            let mut out: Vec<(String, Value)> = Vec::new();
            for i in 0..xs.len()
                invariant
                    *v is Object,
                    v->Object_0 == *xs,
                    out@.len() == i,
                    forall|j: int|
                        0 <= j < i ==> (#[trigger] out@[j]).0@ == xs@[j].0@ && out@[j].1@
                            == xs@[j].1@,
            {
                proof {
                    assert(decreases_to!(xs@ => xs@[i as int]));
                    assert(decreases_to!(xs@[i as int] => xs@[i as int].1));
                }
                let c = clone_value(&xs[i].1);
                out.push((xs[i].0.clone(), c));
            }
            proof {
                assert(fields(out@) =~= fields(xs@));
            }
            Value::Object(out)
        },
    }
}

/// The text of a string value.
pub open spec fn text_of(v: ValueV) -> Option<Seq<char>> {
    match v {
        ValueV::String(s) => Some(s),
        _ => None,
    }
}

/// The text of an optional string.
pub open spec fn opt_text(o: Option<&str>) -> Option<Seq<char>> {
    match o {
        Some(s) => Some(s@),
        None => None,
    }
}

impl Value {
    /// The text of a string value.
    pub fn as_str(&self) -> (r: Option<&str>)
        ensures
            opt_text(r) == text_of(self@),
    {
        match self {
            Value::String(s) => Some(s.as_str()),
            _ => None,
        }
    }
}

/// Whether the list holds every field of `m` once, in some order.
pub open spec fn lists_fields(list: Seq<(Seq<char>, ValueV)>, m: Map<Seq<char>, ValueV>) -> bool {
    &&& no_key_twice(list)
    &&& forall|i: int|
        0 <= i < list.len() ==> m.dom().contains((#[trigger] list[i]).0) && m[list[i].0]
            == list[i].1
    &&& forall|k: Seq<char>| #[trigger]
        m.dom().contains(k) ==> exists|i: int| 0 <= i < list.len() && (#[trigger] list[i]).0 == k
}

/// Whether no two fields of a list have one key.
pub open spec fn no_key_twice(list: Seq<(Seq<char>, ValueV)>) -> bool {
    forall|i: int, j: int|
        0 <= i < j < list.len() ==> (#[trigger] list[i]).0 != (#[trigger] list[j]).0
}

/// The fields of `m`, and over them those of `add` with `prefix` in front of their keys.
pub open spec fn joined_under(
    m: Map<Seq<char>, ValueV>,
    prefix: Seq<char>,
    add: Map<Seq<char>, ValueV>,
) -> Map<Seq<char>, ValueV> {
    Map::new(
        |q: Seq<char>| m.dom().contains(q) || is_under(q, prefix, add),
        |q: Seq<char>|
            if is_under(q, prefix, add) {
                add[q.subrange(prefix.len() as int, q.len() as int)]
            } else {
                m[q]
            },
    )
}

/// Whether `q` is a key of `add` with `prefix` in front.
pub open spec fn is_under(q: Seq<char>, prefix: Seq<char>, add: Map<Seq<char>, ValueV>) -> bool {
    prefix.is_prefix_of(q) && add.dom().contains(q.subrange(prefix.len() as int, q.len() as int))
}

/// A JSON object: every key at most once.
#[derive(Debug)]
pub struct Fields {
    entries: Vec<(String, Value)>,
}

impl Fields {
    /// The object.
    pub closed spec fn view(&self) -> Map<Seq<char>, ValueV> {
        as_map(fields(self.entries@))
    }

    #[verifier::type_invariant]
    spec fn inv(&self) -> bool {
        no_key_twice(fields(self.entries@))
    }

    /// An object without keys.
    pub fn new() -> (r: Fields)
        ensures
            r@ == Map::<Seq<char>, ValueV>::empty(),
    {
        broadcast use group_values;

        let r = Fields { entries: Vec::new() };
        proof {
            assert(r@ =~= Map::<Seq<char>, ValueV>::empty());
        }
        r
    }

    /// The position of `key`, or the number of entries where it is not set.
    fn position(&self, key: &str) -> (r: usize)
        ensures
            r <= self.entries@.len(),
            r < self.entries@.len() ==> fields(self.entries@)[r as int].0 == key@ && lookup(
                fields(self.entries@),
                key@,
            ) == Some(fields(self.entries@)[r as int].1),
            r == self.entries@.len() ==> lookup(fields(self.entries@), key@) is None,
            forall|j: int| 0 <= j < r ==> (#[trigger] fields(self.entries@)[j]).0 != key@,
    {
        broadcast use group_values;

        let mut i: usize = 0;
        while i < self.entries.len()
            invariant
                0 <= i <= self.entries@.len(),
                forall|j: int| 0 <= j < i ==> (#[trigger] fields(self.entries@)[j]).0 != key@,
            decreases self.entries.len() - i,
        {
            if str_eq(self.entries[i].0.as_str(), key) {
                proof {
                    assert(fields(self.entries@)[i as int].0 == key@);
                    lemma_lookup(fields(self.entries@), key@, i as int);
                }
                return i;
            }
            proof {
                assert(fields(self.entries@)[i as int].0 != key@);
            }
            i = i + 1;
        }
        proof {
            lemma_lookup(fields(self.entries@), key@, i as int);
        }
        i
    }

    /// The value of `key`, where it is set.
    pub fn get(&self, key: &str) -> (r: Option<&Value>)
        ensures
            r is Some <==> self@.dom().contains(key@),
            r is Some ==> r->0@ == self@[key@],
    {
        broadcast use group_values;

        let i: usize = self.position(key);
        if i < self.entries.len() {
            Some(&self.entries[i].1)
        } else {
            None
        }
    }

    /// Whether no key is set.
    pub fn is_empty(&self) -> (r: bool)
        ensures
            r == (self@ == Map::<Seq<char>, ValueV>::empty()),
    {
        broadcast use group_values;

        if self.entries.len() > 0 {
            proof {
                let e = fields(self.entries@);
                lemma_lookup(e, e[0].0, 0);
                assert(self@.dom().contains(e[0].0));
            }
            false
        } else {
            proof {
                assert(self@ =~= Map::<Seq<char>, ValueV>::empty());
            }
            true
        }
    }

    /// Sets `key` to `value`, whatever it held before.
    pub fn insert(&mut self, key: String, value: Value)
        ensures
            final(self)@ == old(self)@.insert(key@, value@),
    {
        broadcast use group_values;

        proof {
            use_type_invariant(&*self);
        }
        let ghost before = fields(self.entries@);
        let ghost m = self@;
        let i: usize = self.position(key.as_str());
        let ghost k = key@;
        let ghost v = value@;
        let mut entries: Vec<(String, Value)> = Vec::new();
        std::mem::swap(&mut entries, &mut self.entries);
        if i < entries.len() {
            entries.set(i, (key, value));
        } else {
            entries.push((key, value));
        }
        proof {
            let after = fields(entries@);
            assert(i < before.len() ==> after =~= before.update(i as int, (k, v)));
            assert(i == before.len() ==> after =~= before.push((k, v)));
            assert forall|q: Seq<char>| #[trigger] lookup(after, q) == (if q == k {
                Some(v)
            } else {
                lookup(before, q)
            }) by {
                if q == k {
                    lemma_lookup(after, q, i as int);
                } else {
                    let n = first_position(before, q);
                    lemma_first_position(before, q);
                    lemma_lookup(before, q, n);
                    if n < before.len() {
                        assert(n != i);
                        lemma_lookup(after, q, n);
                    } else {
                        lemma_lookup(after, q, after.len() as int);
                    }
                }
            }
            assert(no_key_twice(after)) by {
                if i == before.len() {
                    assert forall|a: int, b: int| 0 <= a < b < after.len() implies (
                    #[trigger] after[a]).0 != (#[trigger] after[b]).0 by {
                        if b < before.len() {
                            assert(before[a].0 != before[b].0);
                        } else {
                            assert(before[a].0 != k);
                        }
                    }
                } else {
                    assert forall|a: int, b: int| 0 <= a < b < after.len() implies (
                    #[trigger] after[a]).0 != (#[trigger] after[b]).0 by {
                        assert(before[a].0 != before[b].0);
                    }
                }
            }
        }
        self.entries = entries;
        proof {
            assert(self@ =~= m.insert(k, v));
        }
    }

    /// Leaves `key` unset.
    pub fn remove(&mut self, key: &str)
        ensures
            final(self)@ == old(self)@.remove(key@),
    {
        broadcast use group_values;

        proof {
            use_type_invariant(&*self);
        }
        let ghost before = fields(self.entries@);
        let mut out: Vec<(String, Value)> = Vec::new();
        for i in 0..self.entries.len()
            invariant
                before == fields(self.entries@),
                fields(out@) == without(before.take(i as int), key@),
        {
            proof {
                assert(before.take(i + 1).drop_last() =~= before.take(i as int));
                assert(before.take(i + 1).last() == before[i as int]);
            }
            if !str_eq(self.entries[i].0.as_str(), key) {
                let ghost o = out@;
                let pair = (self.entries[i].0.clone(), clone_value(&self.entries[i].1));
                out.push(pair);
                proof {
                    assert(fields(out@) =~= fields(o).push(before[i as int]));
                }
            }
        }
        proof {
            assert(before.take(before.len() as int) =~= before);
            lemma_without(before, key@);
            lemma_without_keeps_keys_apart(before, key@);
        }
        self.entries = out;
        proof {
            assert(self@ =~= old(self)@.remove(key@));
        }
    }

    /// A copy of the object.
    pub fn copy(&self) -> (r: Fields)
        ensures
            r@ == self@,
    {
        proof {
            use_type_invariant(self);
        }
        Fields { entries: self.copy_entries() }
    }

    fn copy_entries(&self) -> (r: Vec<(String, Value)>)
        ensures
            fields(r@) == fields(self.entries@),
    {
        broadcast use group_values;

        let mut out: Vec<(String, Value)> = Vec::new();
        for i in 0..self.entries.len()
            invariant
                out@.len() == i,
                forall|j: int|
                    0 <= j < i ==> (#[trigger] out@[j]).0@ == self.entries@[j].0@ && out@[j].1@
                        == self.entries@[j].1@,
        {
            let pair = (self.entries[i].0.clone(), clone_value(&self.entries[i].1));
            out.push(pair);
        }
        proof {
            assert(fields(out@) =~= fields(self.entries@));
        }
        out
    }

    /// Every field once.
    pub fn list(&self) -> (r: Vec<(String, Value)>)
        ensures
            lists_fields(fields(r@), self@),
    {
        proof {
            use_type_invariant(self);
            let e = fields(self.entries@);
            assert forall|i: int| 0 <= i < e.len() implies self@.dom().contains(
                (#[trigger] e[i]).0,
            ) && self@[e[i].0] == e[i].1 by {
                lemma_lookup(e, e[i].0, i);
            }
            assert forall|k: Seq<char>| #[trigger] self@.dom().contains(k) implies exists|i: int|
                0 <= i < e.len() && (#[trigger] e[i]).0 == k by {
                lemma_first_position(e, k);
                let n = first_position(e, k);
                lemma_lookup(e, k, n);
                assert(e[n].0 == k);
            }
        }
        self.copy_entries()
    }

    /// Sets every field of `add`, with `prefix` in front of its key.
    pub fn join_under(&mut self, prefix: &str, add: &Fields)
        ensures
            final(self)@ == joined_under(old(self)@, prefix@, add@),
    {
        broadcast use group_values;

        let list = add.list();
        let ghost lv = fields(list@);
        let ghost av = add@;
        let ghost m = self@;
        let mut i: usize = 0;
        while i < list.len()
            invariant
                0 <= i <= list@.len(),
                lv == fields(list@),
                lists_fields(lv, av),
                forall|q: Seq<char>| #[trigger]
                    self@.dom().contains(q) <==> m.dom().contains(q) || listed_under(
                        lv,
                        i as int,
                        prefix@,
                        q,
                    ),
                forall|q: Seq<char>| #[trigger]
                    self@.dom().contains(q) ==> self@[q] == (if listed_under(
                        lv,
                        i as int,
                        prefix@,
                        q,
                    ) {
                        av[q.subrange(prefix@.len() as int, q.len() as int)]
                    } else {
                        m[q]
                    }),
            decreases list.len() - i,
        {
            let ghost before = self@;
            let ghost k = lv[i as int].0;
            let key = crate::text::concat2(prefix, list[i].0.as_str());
            let ghost full = key@;
            let value = clone_value(&list[i].1);
            self.insert(key, value);
            proof {
                assert(full == prefix@ + k);
                assert(full.subrange(prefix@.len() as int, full.len() as int) =~= k);
                assert(prefix@.is_prefix_of(full)) by {
                    assert(full.subrange(0, prefix@.len() as int) =~= prefix@);
                }
                assert(av[k] == lv[i as int].1);
                assert forall|q: Seq<char>| #[trigger]
                    self@.dom().contains(q) <==> m.dom().contains(q) || listed_under(
                        lv,
                        i + 1,
                        prefix@,
                        q,
                    ) by {
                    lemma_listed_more(lv, i as int, prefix@, q);
                    assert(before.dom().contains(q) <==> m.dom().contains(q) || listed_under(
                        lv,
                        i as int,
                        prefix@,
                        q,
                    ));
                }
                assert forall|q: Seq<char>| #[trigger] self@.dom().contains(q) implies self@[q]
                    == (if listed_under(lv, i + 1, prefix@, q) {
                    av[q.subrange(prefix@.len() as int, q.len() as int)]
                } else {
                    m[q]
                }) by {
                    lemma_listed_more(lv, i as int, prefix@, q);
                    if q != full {
                        assert(before.dom().contains(q));
                    }
                }
            }
            i = i + 1;
        }
        proof {
            assert forall|q: Seq<char>| listed_under(lv, lv.len() as int, prefix@, q) == #[trigger]
                is_under(q, prefix@, av) by {
                if is_under(q, prefix@, av) {
                    let k = q.subrange(prefix@.len() as int, q.len() as int);
                    let j = choose|j: int| 0 <= j < lv.len() && (#[trigger] lv[j]).0 == k;
                    assert(lv[j].0 == k);
                }
            }
            let w = joined_under(m, prefix@, av);
            assert forall|q: Seq<char>| #[trigger] w.dom().contains(q) == self@.dom().contains(
                q,
            ) by {
                assert(is_under(q, prefix@, av) == listed_under(lv, lv.len() as int, prefix@, q));
            }
            assert forall|q: Seq<char>| #[trigger] w.dom().contains(q) implies w[q] == self@[q] by {
                assert(is_under(q, prefix@, av) == listed_under(lv, lv.len() as int, prefix@, q));
                assert(self@.dom().contains(q));
            }
            assert(self@ =~= w);
        }
    }
}

/// Whether `q` is the key of one of the first `n` fields with `prefix` in front.
spec fn listed_under(
    list: Seq<(Seq<char>, ValueV)>,
    n: int,
    prefix: Seq<char>,
    q: Seq<char>,
) -> bool {
    prefix.is_prefix_of(q) && exists|j: int|
        0 <= j < n && (#[trigger] list[j]).0 == q.subrange(prefix.len() as int, q.len() as int)
}

proof fn lemma_listed_more(
    list: Seq<(Seq<char>, ValueV)>,
    n: int,
    prefix: Seq<char>,
    q: Seq<char>,
)
    requires
        0 <= n < list.len(),
    ensures
        listed_under(list, n + 1, prefix, q) <==> listed_under(list, n, prefix, q) || q == prefix
            + list[n].0,
{
    let k = list[n].0;
    let full = prefix + k;
    assert(full.subrange(prefix.len() as int, full.len() as int) =~= k);
    assert(full.subrange(0, prefix.len() as int) =~= prefix);
    if listed_under(list, n + 1, prefix, q) && !listed_under(list, n, prefix, q) {
        let rest = q.subrange(prefix.len() as int, q.len() as int);
        let j = choose|j: int| 0 <= j < n + 1 && (#[trigger] list[j]).0 == rest;
        assert(j == n);
        assert(q =~= prefix + rest);
    }
    if q == full {
        assert(list[n].0 == q.subrange(prefix.len() as int, q.len() as int));
    }
}

proof fn lemma_without_keeps_keys_apart(list: Seq<(Seq<char>, ValueV)>, key: Seq<char>)
    requires
        no_key_twice(list),
    ensures
        no_key_twice(without(list, key)),
        forall|i: int|
            0 <= i < without(list, key).len() ==> list.contains(
                #[trigger] without(list, key)[i],
            ),
    decreases list.len(),
{
    if list.len() > 0 {
        let rest = list.drop_last();
        let w = without(rest, key);
        assert forall|i: int, j: int| 0 <= i < j < rest.len() implies (#[trigger] rest[i]).0 != (
        #[trigger] rest[j]).0 by {
            assert(list[i].0 != list[j].0);
        }
        lemma_without_keeps_keys_apart(rest, key);
        let all = without(list, key);
        assert forall|i: int| 0 <= i < all.len() implies list.contains(#[trigger] all[i]) by {
            if i < w.len() {
                assert(rest.contains(w[i]));
                let p = rest.index_of(w[i]);
                assert(list[p] == w[i]);
            } else {
                assert(list[list.len() - 1] == all[i]);
            }
        }
        assert forall|i: int, j: int| 0 <= i < j < all.len() implies (#[trigger] all[i]).0 != (
        #[trigger] all[j]).0 by {
            if j < w.len() {
                assert(w[i].0 != w[j].0);
            } else {
                assert(rest.contains(w[i]));
                let p = rest.index_of(w[i]);
                assert(list[p].0 != list[list.len() - 1].0);
            }
        }
    }
}

} // verus!
