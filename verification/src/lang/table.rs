//! The tables of mapping steps: entries in the order of their keys, each key once.
use vstd::prelude::*;
use vstd::seq_lib::lemma_seq_contains_after_push;

use crate::assoc::{lemma_lookup, lookup};
use crate::lang::sanitize::{
    spelled_texts, step_result, AtomicJson, AtomicV, Sanitizer, SanitizerV, StrOrVec,
};
use crate::model::{models, Model};
use crate::number::ReadingsV;
use crate::text::{
    lex_lt, lex_lt_transitive, lex_lt_trichotomy, sorted_lists_are_unique, sorted_set, sorting,
    sorting_keeps_the_texts, str_eq, str_lt, strictly_sorted,
};
use crate::value::ValueV;

verus! {

/// The keys of entries.
pub open spec fn entry_keys<T>(entries: Seq<(Seq<char>, T)>) -> Seq<Seq<char>> {
    entries.map_values(|e: (Seq<char>, T)| e.0)
}

/// Whether entries are a table: they stand in the order of their keys, each key once.
pub open spec fn is_table<T>(entries: Seq<(Seq<char>, T)>) -> bool {
    strictly_sorted(entry_keys(entries))
}

proof fn lemma_entry<T>(entries: Seq<(Seq<char>, T)>, i: int)
    requires
        is_table(entries),
        0 <= i < entries.len(),
    ensures
        lookup(entries, entries[i].0) == Some(entries[i].1),
{
    let ks = entry_keys(entries);
    assert forall|j: int| 0 <= j < i implies (#[trigger] entries[j]).0 != entries[i].0 by {
        assert(lex_lt(ks[j], ks[i]));
        lex_lt_trichotomy(ks[i], ks[i]);
    }
    lemma_lookup(entries, entries[i].0, i);
}

proof fn lemma_no_entry<T>(entries: Seq<(Seq<char>, T)>, q: Seq<char>)
    ensures
        lookup(entries, q) is None <==> !entry_keys(entries).contains(q),
    decreases entries.len(),
{
    let ks = entry_keys(entries);
    if entries.len() > 0 {
        let rest = entries.skip(1);
        lemma_no_entry(rest, q);
        assert(entry_keys(rest) =~= ks.skip(1));
        if entries[0].0 == q {
            assert(ks[0] == q);
        } else {
            if ks.contains(q) {
                assert(ks.skip(1)[ks.index_of(q) - 1] == q);
            }
            if ks.skip(1).contains(q) {
                assert(ks[ks.skip(1).index_of(q) + 1] == q);
            }
        }
    }
}

/// The rows of a table with some keys.
pub open spec fn rows<T>(ks: Seq<Seq<char>>, at: spec_fn(Seq<char>) -> T) -> Seq<(Seq<char>, T)> {
    ks.map_values(|k: Seq<char>| (k, at(k)))
}

/// Rows with sorted keys are a table, which has an entry for each of the keys.
pub proof fn sorted_rows_are_a_table<T>(ks: Seq<Seq<char>>, at: spec_fn(Seq<char>) -> T)
    requires
        strictly_sorted(ks),
    ensures
        is_table(rows(ks, at)),
        forall|q: Seq<char>| #[trigger]
            lookup(rows(ks, at), q) == (if ks.contains(q) {
                Some(at(q))
            } else {
                None
            }),
{
    let t = rows(ks, at);
    assert(entry_keys(t) =~= ks);
    assert forall|q: Seq<char>| #[trigger]
        lookup(t, q) == (if ks.contains(q) {
            Some(at(q))
        } else {
            None
        }) by {
        lemma_no_entry(t, q);
        if ks.contains(q) {
            lemma_entry(t, ks.index_of(q));
        }
    }
}

/// Two tables that say the same of every key are the same table.
pub proof fn tables_with_equal_lookups_are_equal<T>(
    a: Seq<(Seq<char>, T)>,
    b: Seq<(Seq<char>, T)>,
)
    requires
        is_table(a),
        is_table(b),
        forall|k: Seq<char>| #[trigger] lookup(a, k) == lookup(b, k),
    ensures
        a == b,
{
    let x = entry_keys(a);
    let y = entry_keys(b);
    assert forall|k: Seq<char>| #[trigger] x.to_set().contains(k) <==> y.to_set().contains(k) by {
        lemma_no_entry(a, k);
        lemma_no_entry(b, k);
        assert(lookup(a, k) == lookup(b, k));
    }
    assert(x.to_set() =~= y.to_set());
    sorted_lists_are_unique(x, y);
    assert forall|i: int| 0 <= i < a.len() implies #[trigger] a[i] == b[i] by {
        assert(x[i] == y[i]);
        lemma_entry(a, i);
        lemma_entry(b, i);
    }
    assert(a =~= b);
}

proof fn lemma_put<T>(
    before: Seq<(Seq<char>, T)>,
    after: Seq<(Seq<char>, T)>,
    i: int,
    e: (Seq<char>, T),
)
    requires
        is_table(before),
        0 <= i <= before.len(),
        forall|j: int| 0 <= j < i ==> lex_lt((#[trigger] before[j]).0, e.0),
        i < before.len() ==> !lex_lt(before[i].0, e.0),
        after == (if i < before.len() && before[i].0 == e.0 {
            before.update(i, e)
        } else {
            before.insert(i, e)
        }),
    ensures
        is_table(after),
        forall|q: Seq<char>| #[trigger]
            lookup(after, q) == (if q == e.0 {
                Some(e.1)
            } else {
                lookup(before, q)
            }),
{
    let ks = entry_keys(before);
    let ls = entry_keys(after);
    let replaced = i < before.len() && before[i].0 == e.0;
    assert forall|j: int, k: int| 0 <= j < k < ls.len() implies lex_lt(
        #[trigger] ls[j],
        #[trigger] ls[k],
    ) by {
        if replaced {
            assert(ls =~= ks);
        } else {
            let x = if j < i {
                j
            } else {
                j - 1
            };
            let y = if k < i {
                k
            } else {
                k - 1
            };
            if i < before.len() {
                lex_lt_trichotomy(before[i].0, e.0);
            }
            if j != i && k != i {
                assert(lex_lt(ks[x], ks[y]));
            } else if k == i {
                assert(lex_lt(before[j].0, e.0));
            } else if k - 1 > i {
                assert(lex_lt(ks[i], ks[k - 1]));
                lex_lt_transitive(e.0, ks[i], ks[k - 1]);
            }
        }
    }
    assert forall|q: Seq<char>| #[trigger]
        lookup(after, q) == (if q == e.0 {
            Some(e.1)
        } else {
            lookup(before, q)
        }) by {
        if q == e.0 {
            assert(after[i] == e);
            lemma_entry(after, i);
        } else {
            lemma_no_entry(before, q);
            lemma_no_entry(after, q);
            if ks.contains(q) {
                let j = ks.index_of(q);
                let k = if replaced || j < i {
                    j
                } else {
                    j + 1
                };
                assert(after[k] == before[j]);
                lemma_entry(before, j);
                lemma_entry(after, k);
            } else if ls.contains(q) {
                let k = ls.index_of(q);
                let j = if replaced || k < i {
                    k
                } else {
                    k - 1
                };
                assert(after[k] == before[j]);
                assert(ks[j] == q);
            }
        }
    }
}

/// Puts an entry into a table, in place of the one with its key.
fn put<T: Model>(table: &mut Vec<(String, T)>, key: String, value: T)
    requires
        is_table(models(old(table)@)),
    ensures
        is_table(models(final(table)@)),
        forall|q: Seq<char>| #[trigger]
            lookup(models(final(table)@), q) == (if q == key@ {
                Some(value.model())
            } else {
                lookup(models(old(table)@), q)
            }),
{
    let ghost before = models(table@);
    let ghost e = (key@, value.model());
    let mut i: usize = 0;
    while i < table.len() && str_lt(table[i].0.as_str(), key.as_str())
        invariant
            0 <= i <= table@.len(),
            table@ == old(table)@,
            before == models(table@),
            forall|j: int| 0 <= j < i ==> lex_lt((#[trigger] before[j]).0, key@),
        decreases table.len() - i,
    {
        i = i + 1;
    }
    proof {
        assert(i < before.len() ==> before[i as int].0 == table@[i as int].0@);
    }
    if i < table.len() && str_eq(table[i].0.as_str(), key.as_str()) {
        table[i] = (key, value);
        proof {
            assert(models(table@) =~= before.update(i as int, e));
        }
    } else {
        table.insert(i, (key, value));
        proof {
            assert(models(table@) =~= before.insert(i as int, e));
        }
    }
    proof {
        lemma_put(before, models(table@), i as int, e);
    }
}

// ── Mapping steps ───────────────────────────────────────────────────────────────────────────

/// The entry that counts for a key: the last one.
pub open spec fn last_entry<T>(entries: Seq<(Seq<char>, T)>, q: Seq<char>) -> Option<T>
    decreases entries.len(),
{
    if entries.len() == 0 {
        None
    } else if entries.last().0 == q {
        Some(entries.last().1)
    } else {
        last_entry(entries.drop_last(), q)
    }
}

/// The output that counts for a text: that of the last case that lists it.
pub open spec fn case_of(cases: Seq<(String, StrOrVec)>, q: Seq<char>) -> Option<Seq<char>>
    decreases cases.len(),
{
    if cases.len() == 0 {
        None
    } else if spelled_texts(cases.last().1).contains(q) {
        Some(cases.last().0@)
    } else {
        case_of(cases.drop_last(), q)
    }
}

/// What a table of texts holds where it gives `out`.
pub open spec fn text_entry(out: Option<Seq<char>>) -> Option<Option<AtomicV>> {
    match out {
        Some(s) => Some(Some(AtomicV::Str(s))),
        None => None,
    }
}

/// Whether a step looks texts up in a table that holds `said(q)` for each text `q`, and does with
/// the others what `on_miss` says.
pub open spec fn maps(
    s: SanitizerV,
    said: spec_fn(Seq<char>) -> Option<Option<AtomicV>>,
    on_miss: Option<Seq<char>>,
) -> bool {
    s matches SanitizerV::Mapping { mapping, on_miss: o } && o == on_miss && is_table(mapping)
        && forall|q: Seq<char>| #[trigger] lookup(mapping, q) == said(q)
}

/// There is one step that looks texts up in that way.
pub proof fn mapping_step_is_unique(
    a: SanitizerV,
    b: SanitizerV,
    said: spec_fn(Seq<char>) -> Option<Option<AtomicV>>,
    on_miss: Option<Seq<char>>,
)
    requires
        maps(a, said, on_miss),
        maps(b, said, on_miss),
    ensures
        a == b,
{
    tables_with_equal_lookups_are_equal(a->mapping, b->mapping);
}

/// A step that looks texts up in a table. Where two entries have one key, the later counts.
pub fn mapping_step(
    entries: Vec<(String, Option<AtomicJson>)>,
    on_miss: Option<String>,
) -> (r: Sanitizer)
    ensures
        maps(r@, |q: Seq<char>| last_entry(models(entries@), q), on_miss.model()),
{
    let ghost all = models(entries@);
    let mut table: Vec<(String, Option<AtomicJson>)> = Vec::new();
    proof {
        assert(all.take(0) =~= Seq::empty());
    }
    for i in 0..entries.len()
        invariant
            all == models(entries@),
            is_table(models(table@)),
            forall|q: Seq<char>| #[trigger]
                lookup(models(table@), q) == last_entry(all.take(i as int), q),
    {
        proof {
            assert(all.take(i + 1).drop_last() =~= all.take(i as int));
            assert(all.take(i + 1).last() == all[i as int]);
        }
        put(&mut table, entries[i].0.clone(), entries[i].1.copy());
    }
    proof {
        assert(all.take(all.len() as int) =~= all);
    }
    Sanitizer::Mapping { mapping: table, on_miss }
}

/// A step that looks texts up in a table spelled the other way round: for each output the texts
/// that give it. Where two outputs list one text, the later counts.
pub fn cases_step(cases: &Vec<(String, StrOrVec)>, on_miss: Option<String>) -> (r: Sanitizer)
    ensures
        maps(r@, |q: Seq<char>| text_entry(case_of(cases@, q)), on_miss.model()),
{
    let mut table: Vec<(String, Option<AtomicJson>)> = Vec::new();
    proof {
        assert(cases@.take(0) =~= Seq::empty());
    }
    for i in 0..cases.len()
        invariant
            is_table(models(table@)),
            forall|q: Seq<char>| #[trigger]
                lookup(models(table@), q) == text_entry(case_of(cases@.take(i as int), q)),
    {
        let ghost before = models(table@);
        let inputs = cases[i].1.texts();
        let ghost ins = models(inputs@);
        let ghost out = Some(AtomicV::Str(cases@[i as int].0@));
        proof {
            assert(cases@.take(i + 1).drop_last() =~= cases@.take(i as int));
            assert(cases@.take(i + 1).last() == cases@[i as int]);
        }
        for j in 0..inputs.len()
            invariant
                i < cases@.len(),
                out == Some(AtomicV::Str(cases@[i as int].0@)),
                ins == models(inputs@),
                is_table(models(table@)),
                forall|q: Seq<char>| #[trigger]
                    lookup(models(table@), q) == (if ins.take(j as int).contains(q) {
                        Some(out)
                    } else {
                        lookup(before, q)
                    }),
        {
            let ghost now = models(table@);
            put(&mut table, inputs[j].clone(), Some(AtomicJson::Str(cases[i].0.clone())));
            proof {
                assert(ins.take(j + 1) =~= ins.take(j as int).push(ins[j as int]));
                assert forall|q: Seq<char>| #[trigger]
                    lookup(models(table@), q) == (if ins.take(j + 1).contains(q) {
                        Some(out)
                    } else {
                        lookup(before, q)
                    }) by {
                    lemma_seq_contains_after_push(ins.take(j as int), ins[j as int], q);
                    assert(lookup(now, q) == (if ins.take(j as int).contains(q) {
                        Some(out)
                    } else {
                        lookup(before, q)
                    }));
                }
            }
        }
        proof {
            assert(ins.take(ins.len() as int) =~= ins);
        }
    }
    proof {
        assert(cases@.take(cases@.len() as int) =~= cases@);
    }
    Sanitizer::Mapping { mapping: table, on_miss }
}

/// The step that keeps the listed texts and drops the others.
pub open spec fn filtering(list: Seq<Seq<char>>) -> SanitizerV {
    SanitizerV::Mapping {
        mapping: rows(sorting(list), |t: Seq<char>| Some(AtomicV::Str(t))),
        on_miss: None,
    }
}

/// The step that drops the listed texts and keeps the others.
pub open spec fn dropping(list: Seq<Seq<char>>) -> SanitizerV {
    SanitizerV::Mapping {
        mapping: rows(sorting(list), |t: Seq<char>| None::<AtomicV>),
        on_miss: Some("keep"@),
    }
}

/// A filter gives the listed texts as they are, and nothing for the others.
pub proof fn filters_keep_what_is_listed(list: Seq<Seq<char>>, v: Seq<char>, readings: ReadingsV)
    ensures
        step_result(filtering(list), v, readings) == (if list.contains(v) {
            Some(ValueV::String(v))
        } else {
            None
        }),
{
    sorting_keeps_the_texts(list);
    sorted_rows_are_a_table(sorting(list), |t: Seq<char>| Some(AtomicV::Str(t)));
    assert(sorting(list).contains(v) <==> list.contains(v));
}

/// A drop gives nothing for the listed texts, and the others as they are.
pub proof fn drops_lose_what_is_listed(list: Seq<Seq<char>>, v: Seq<char>, readings: ReadingsV)
    ensures
        step_result(dropping(list), v, readings) == (if list.contains(v) {
            None
        } else {
            Some(ValueV::String(v))
        }),
{
    sorting_keeps_the_texts(list);
    sorted_rows_are_a_table(sorting(list), |t: Seq<char>| None::<AtomicV>);
    assert(sorting(list).contains(v) <==> list.contains(v));
}

/// A step that keeps the listed texts and drops the others.
pub fn filter_step(keep: &Vec<String>) -> (r: Sanitizer)
    ensures
        r@ == filtering(models(keep@)),
{
    let keys = sorted_set(keep);
    let ghost ks = models(keys@);
    let mut mapping: Vec<(String, Option<AtomicJson>)> = Vec::new();
    for i in 0..keys.len()
        invariant
            ks == models(keys@),
            mapping@.len() == i,
            forall|j: int|
                0 <= j < i ==> (#[trigger] mapping@[j]).model() == (ks[j], Some(AtomicV::Str(ks[j]))),
    {
        mapping.push((keys[i].clone(), Some(AtomicJson::Str(keys[i].clone()))));
    }
    proof {
        assert(models(mapping@) =~= rows(ks, |t: Seq<char>| Some(AtomicV::Str(t))));
    }
    Sanitizer::Mapping { mapping, on_miss: None }
}

/// A step that drops the listed texts and keeps the others.
pub fn drop_step(drop: &Vec<String>) -> (r: Sanitizer)
    ensures
        r@ == dropping(models(drop@)),
{
    let keys = sorted_set(drop);
    let ghost ks = models(keys@);
    let mut mapping: Vec<(String, Option<AtomicJson>)> = Vec::new();
    for i in 0..keys.len()
        invariant
            ks == models(keys@),
            mapping@.len() == i,
            forall|j: int|
                0 <= j < i ==> (#[trigger] mapping@[j]).model() == (ks[j], None::<AtomicV>),
    {
        mapping.push((keys[i].clone(), None));
    }
    proof {
        assert(models(mapping@) =~= rows(ks, |t: Seq<char>| None::<AtomicV>));
    }
    Sanitizer::Mapping { mapping, on_miss: Some("keep".to_owned()) }
}

} // verus!
