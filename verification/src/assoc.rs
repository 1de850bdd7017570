//! Lists of pairs read as tables: the first pair with a key counts.
use vstd::prelude::*;

use crate::model::{models, Model};
use crate::text::str_eq;

verus! {

/// What the table says of `key`.
pub open spec fn lookup<T>(entries: Seq<(Seq<char>, T)>, key: Seq<char>) -> Option<T>
    decreases entries.len(),
{
    if entries.len() == 0 {
        None
    } else if entries[0].0 == key {
        Some(entries[0].1)
    } else {
        lookup(entries.skip(1), key)
    }
}

/// The first position of `key`, or the number of entries.
pub open spec fn first_position<T>(entries: Seq<(Seq<char>, T)>, key: Seq<char>) -> int
    decreases entries.len(),
{
    if entries.len() == 0 || entries[0].0 == key {
        0
    } else {
        1 + first_position(entries.skip(1), key)
    }
}

/// The map that the table spells.
pub open spec fn as_map<T>(entries: Seq<(Seq<char>, T)>) -> Map<Seq<char>, T> {
    Map::new(|k: Seq<char>| lookup(entries, k) is Some, |k: Seq<char>| lookup(entries, k)->0)
}

/// The entries whose key is not `key`.
pub open spec fn without<T>(entries: Seq<(Seq<char>, T)>, key: Seq<char>) -> Seq<(Seq<char>, T)>
    decreases entries.len(),
{
    if entries.len() == 0 {
        Seq::empty()
    } else if entries.last().0 == key {
        without(entries.drop_last(), key)
    } else {
        without(entries.drop_last(), key).push(entries.last())
    }
}

pub proof fn lemma_lookup<T>(entries: Seq<(Seq<char>, T)>, key: Seq<char>, i: int)
    requires
        0 <= i <= entries.len(),
        forall|j: int| 0 <= j < i ==> (#[trigger] entries[j]).0 != key,
        i < entries.len() ==> entries[i].0 == key,
    ensures
        i < entries.len() ==> lookup(entries, key) == Some(entries[i].1),
        i == entries.len() ==> lookup(entries, key) is None,
    decreases entries.len(),
{
    if entries.len() > 0 && entries[0].0 != key {
        assert forall|j: int| 0 <= j < i - 1 implies (#[trigger] entries.skip(1)[j]).0 != key by {
            assert(entries.skip(1)[j] == entries[j + 1]);
        }
        lemma_lookup(entries.skip(1), key, i - 1);
    }
}

pub proof fn lemma_first_position<T>(entries: Seq<(Seq<char>, T)>, key: Seq<char>)
    ensures
        0 <= first_position(entries, key) <= entries.len(),
        forall|j: int| 0 <= j < first_position(entries, key) ==> (#[trigger] entries[j]).0 != key,
        first_position(entries, key) < entries.len() ==> entries[first_position(entries, key)].0
            == key,
    decreases entries.len(),
{
    if entries.len() > 0 && entries[0].0 != key {
        lemma_first_position(entries.skip(1), key);
        let n = first_position(entries.skip(1), key);
        assert forall|j: int| 0 <= j < n + 1 implies (#[trigger] entries[j]).0 != key by {
            if j > 0 {
                assert(entries.skip(1)[j - 1] == entries[j]);
            }
        }
        if n < entries.skip(1).len() {
            assert(entries.skip(1)[n] == entries[n + 1]);
        }
    }
}

pub proof fn lemma_lookup_push<T>(entries: Seq<(Seq<char>, T)>, e: (Seq<char>, T), q: Seq<char>)
    ensures
        lookup(entries.push(e), q) == (if lookup(entries, q) is Some {
            lookup(entries, q)
        } else if e.0 == q {
            Some(e.1)
        } else {
            None
        }),
    decreases entries.len(),
{
    if entries.len() == 0 {
        assert(entries.push(e).skip(1) =~= entries);
    } else {
        assert(entries.push(e).skip(1) =~= entries.skip(1).push(e));
        lemma_lookup_push(entries.skip(1), e, q);
    }
}

pub proof fn lemma_without<T>(entries: Seq<(Seq<char>, T)>, key: Seq<char>)
    ensures
        forall|q: Seq<char>| #[trigger]
            lookup(without(entries, key), q) == (if q == key {
                None
            } else {
                lookup(entries, q)
            }),
    decreases entries.len(),
{
    if entries.len() > 0 {
        let rest = entries.drop_last();
        lemma_without(rest, key);
        assert(rest.push(entries.last()) =~= entries);
        assert forall|q: Seq<char>| #[trigger]
            lookup(without(entries, key), q) == (if q == key {
                None
            } else {
                lookup(entries, q)
            }) by {
            lemma_lookup_push(rest, entries.last(), q);
            lemma_lookup_push(without(rest, key), entries.last(), q);
        }
    }
}

/// The position of the first pair with the key, where there is one.
pub fn position_of<T>(entries: &Vec<(String, T)>, key: &str) -> (r: Option<usize>)
    ensures
        match r {
            Some(i) => i < entries@.len() && entries@[i as int].0@ == key@ && forall|j: int|
                0 <= j < i ==> (#[trigger] entries@[j]).0@ != key@,
            None => forall|j: int|
                0 <= j < entries@.len() ==> (#[trigger] entries@[j]).0@ != key@,
        },
{
    let mut i: usize = 0;
    while i < entries.len()
        invariant
            0 <= i <= entries@.len(),
            forall|j: int| 0 <= j < i ==> (#[trigger] entries@[j]).0@ != key@,
        decreases entries.len() - i,
    {
        if str_eq(entries[i].0.as_str(), key) {
            return Some(i);
        }
        i = i + 1;
    }
    None
}

/// The position of the first entry for `key`, where there is one.
pub fn find<T: Model>(entries: &Vec<(String, T)>, key: &str) -> (r: Option<usize>)
    ensures
        match r {
            Some(i) => i < entries@.len() && lookup(models(entries@), key@) == Some(
                entries@[i as int].1.model(),
            ),
            None => lookup(models(entries@), key@) is None,
        },
{
    let mut i: usize = 0;
    while i < entries.len()
        invariant
            0 <= i <= entries@.len(),
            forall|j: int| 0 <= j < i ==> (#[trigger] models(entries@)[j]).0 != key@,
        decreases entries.len() - i,
    {
        if str_eq(entries[i].0.as_str(), key) {
            proof {
                assert(models(entries@)[i as int].0 == key@);
                lemma_lookup(models(entries@), key@, i as int);
            }
            return Some(i);
        }
        i = i + 1;
    }
    proof {
        lemma_lookup(models(entries@), key@, i as int);
    }
    None
}

} // verus!
