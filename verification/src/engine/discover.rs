//! Which directories of a configuration are topics, and which outputs a topic has.
use vstd::prelude::*;

use crate::text::{insert_sorted, starts_with, strictly_sorted, strs};

verus! {

/// Whether a directory is shared by topics and none itself.
pub open spec fn is_shared(name: Seq<char>) -> bool {
    "_"@.is_prefix_of(name)
}

/// The names of a list, each once, in order.
pub fn sorted_names(names: &Vec<String>) -> (r: Vec<String>)
    ensures
        strictly_sorted(strs(r@)),
        strs(r@).to_set() == strs(names@).to_set(),
{
    let mut out: Vec<String> = Vec::new();
    let mut i: usize = 0;
    assert(strs(out@).to_set() =~= strs(names@).take(0).to_set());
    while i < names.len()
        invariant
            i <= names@.len(),
            strictly_sorted(strs(out@)),
            strs(out@).to_set() == strs(names@).take(i as int).to_set(),
        decreases names.len() - i,
    {
        let ghost before = strs(out@).to_set();
        insert_sorted(&mut out, names[i].as_str());
        proof {
            lemma_take_one_more(strs(names@), i as int);
            assert(strs(names@)[i as int] == names@[i as int]@);
        }
        i = i + 1;
    }
    assert(strs(names@).take(i as int) =~= strs(names@));
    out
}

proof fn lemma_take_one_more(v: Seq<Seq<char>>, i: int)
    requires
        0 <= i < v.len(),
    ensures
        v.take(i + 1).to_set() == v.take(i).to_set().insert(v[i]),
{
    let now = v.take(i + 1);
    let before = v.take(i);
    assert forall|k: Seq<char>| now.to_set().contains(k) <==> #[trigger] before.to_set().insert(
        v[i],
    ).contains(k) by {
        if now.contains(k) {
            let j = now.index_of(k);
            if j < i {
                assert(before[j] == k);
            }
        }
        if before.contains(k) {
            let j = before.index_of(k);
            assert(now[j] == k);
        }
        assert(now[i] == v[i]);
    }
    assert(now.to_set() =~= before.to_set().insert(v[i]));
}

/// The names of the topics among the directories of a configuration, in order: what starts with an
/// underscore is shared.
pub fn topic_names(names: &Vec<String>) -> (r: Vec<String>)
    ensures
        strictly_sorted(strs(r@)),
        strs(r@).to_set() == strs(names@).to_set().filter(|s: Seq<char>| !is_shared(s)),
{
    let mut own: Vec<String> = Vec::new();
    let mut i: usize = 0;
    while i < names.len()
        invariant
            i <= names@.len(),
            forall|k: Seq<char>| #[trigger]
                strs(own@).contains(k) <==> strs(names@).take(i as int).contains(k) && !is_shared(
                    k,
                ),
        decreases names.len() - i,
    {
        let ghost before = strs(own@);
        let ghost all = strs(names@);
        if !starts_with(names[i].as_str(), "_") {
            own.push(names[i].clone());
        }
        proof {
            let s = names@[i as int]@;
            assert(all[i as int] == s);
            assert(all.take(i + 1) =~= all.take(i as int).push(s));
            assert(strs(own@) =~= if is_shared(s) {
                before
            } else {
                before.push(s)
            });
            assert forall|k: Seq<char>| #[trigger] strs(own@).contains(k) <==> all.take(
                i + 1,
            ).contains(k) && !is_shared(k) by {
                lemma_push_contains(all.take(i as int), s, k);
                lemma_push_contains(before, s, k);
            }
        }
        i = i + 1;
    }
    let r: Vec<String> = sorted_names(&own);
    proof {
        assert(strs(names@).take(i as int) =~= strs(names@));
        let kept = strs(names@).to_set().filter(|s: Seq<char>| !is_shared(s));
        assert forall|k: Seq<char>| strs(own@).to_set().contains(k) <==> #[trigger] kept.contains(
            k,
        ) by {
            assert(strs(own@).contains(k) <==> strs(names@).contains(k) && !is_shared(k));
        }
        assert(strs(own@).to_set() =~= kept);
    }
    r
}

proof fn lemma_push_contains(v: Seq<Seq<char>>, s: Seq<char>, k: Seq<char>)
    ensures
        v.push(s).contains(k) <==> v.contains(k) || k == s,
{
    if v.contains(k) {
        let j = v.index_of(k);
        assert(v.push(s)[j] == k);
    }
    if v.push(s).contains(k) {
        let j = v.push(s).index_of(k);
        if j < v.len() {
            assert(v[j] == k);
        }
    }
    assert(v.push(s)[v.len() as int] == s);
}

} // verus!
