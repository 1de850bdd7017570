//! The ways in which a field is produced, each with the names of those that produce it so.
use vstd::prelude::*;

use crate::model::{models, Model};
use crate::text::{lex_lt, lex_lt_transitive, lex_lt_trichotomy, str_eq, str_lt, strs};

verus! {

/// One way of producing a field: where it is first listed, and who produces the field so.
#[derive(Debug)]
pub struct Variant {
    pub first: usize,
    pub owners: Vec<String>,
}

pub struct VariantV {
    pub first: int,
    pub owners: Seq<Seq<char>>,
}

impl Variant {
    pub open spec fn model(&self) -> VariantV {
        VariantV { first: self.first as int, owners: strs(self.owners@) }
    }
}

pub open spec fn variant_models(v: Seq<Variant>) -> Seq<VariantV> {
    v.map_values(|x: Variant| x.model())
}

/// A list of texts in dictionary order with a text put behind those that do not come after it.
pub open spec fn placed(list: Seq<Seq<char>>, s: Seq<char>) -> Seq<Seq<char>>
    decreases list.len(),
{
    if list.len() == 0 || !lex_lt(s, list.last()) {
        list.push(s)
    } else {
        placed(list.drop_last(), s).push(list.last())
    }
}

/// The owners of a text among the first `n` pairs of text and owner, as they are listed.
pub open spec fn listed_owners(
    pairs: Seq<(Seq<char>, Seq<char>)>,
    text: Seq<char>,
    n: int,
) -> Seq<Seq<char>>
    decreases n,
{
    if n <= 0 {
        Seq::empty()
    } else if pairs[n - 1].0 == text {
        listed_owners(pairs, text, n - 1).push(pairs[n - 1].1)
    } else {
        listed_owners(pairs, text, n - 1)
    }
}

/// The owners of a text among the first `n` pairs, in dictionary order.
pub open spec fn sorted_owners(
    pairs: Seq<(Seq<char>, Seq<char>)>,
    text: Seq<char>,
    n: int,
) -> Seq<Seq<char>>
    decreases n,
{
    if n <= 0 {
        Seq::empty()
    } else if pairs[n - 1].0 == text {
        placed(sorted_owners(pairs, text, n - 1), pairs[n - 1].1)
    } else {
        sorted_owners(pairs, text, n - 1)
    }
}

/// No pair before position `i` has its text.
pub open spec fn is_first(pairs: Seq<(Seq<char>, Seq<char>)>, i: int) -> bool {
    forall|j: int| 0 <= j < i ==> (#[trigger] pairs[j]).0 != pairs[i].0
}

/// `a` comes before `b` in dictionary order of lists of texts, from position `i` on (the two agree
/// before it).
pub open spec fn list_lt_from(a: Seq<Seq<char>>, b: Seq<Seq<char>>, i: int) -> bool
    decreases b.len() - i,
{
    if i < 0 || i >= b.len() {
        false
    } else if i >= a.len() {
        true
    } else if a[i] == b[i] {
        list_lt_from(a, b, i + 1)
    } else {
        lex_lt(a[i], b[i])
    }
}

/// `a` comes before `b` in dictionary order of lists of texts.
pub open spec fn list_lt(a: Seq<Seq<char>>, b: Seq<Seq<char>>) -> bool {
    list_lt_from(a, b, 0)
}

/// A list of variants in the order of their owners, with one put behind those that do not come after
/// it.
pub open spec fn placed_variant(list: Seq<VariantV>, v: VariantV) -> Seq<VariantV>
    decreases list.len(),
{
    if list.len() == 0 || !list_lt(v.owners, list.last().owners) {
        list.push(v)
    } else {
        placed_variant(list.drop_last(), v).push(list.last())
    }
}

/// The variants that are first listed among the first `n` pairs, in the order of their owners.
pub open spec fn variants_among(pairs: Seq<(Seq<char>, Seq<char>)>, n: int) -> Seq<VariantV>
    decreases n,
{
    if n <= 0 {
        Seq::empty()
    } else if is_first(pairs, n - 1) {
        placed_variant(
            variants_among(pairs, n - 1),
            VariantV {
                first: n - 1,
                owners: sorted_owners(pairs, pairs[n - 1].0, pairs.len() as int),
            },
        )
    } else {
        variants_among(pairs, n - 1)
    }
}

proof fn lemma_placed(list: Seq<Seq<char>>, s: Seq<char>, i: int)
    requires
        0 <= i <= list.len(),
        forall|k: int| i <= k < list.len() ==> lex_lt(s, #[trigger] list[k]),
        i > 0 ==> !lex_lt(s, list[i - 1]),
    ensures
        placed(list, s) == list.insert(i, s),
    decreases list.len(),
{
    if i < list.len() {
        lemma_placed(list.drop_last(), s, i);
        assert(list.drop_last().insert(i, s).push(list.last()) =~= list.insert(i, s));
    } else {
        assert(list.push(s) =~= list.insert(i, s));
    }
}

proof fn lemma_placed_variant(list: Seq<VariantV>, v: VariantV, i: int)
    requires
        0 <= i <= list.len(),
        forall|k: int| i <= k < list.len() ==> list_lt(v.owners, (#[trigger] list[k]).owners),
        i > 0 ==> !list_lt(v.owners, list[i - 1].owners),
    ensures
        placed_variant(list, v) == list.insert(i, v),
    decreases list.len(),
{
    if i < list.len() {
        lemma_placed_variant(list.drop_last(), v, i);
        assert(list.drop_last().insert(i, v).push(list.last()) =~= list.insert(i, v));
    } else {
        assert(list.push(v) =~= list.insert(i, v));
    }
}

fn place(list: &mut Vec<String>, s: &str)
    ensures
        strs(final(list)@) == placed(strs(old(list)@), s@),
{
    let ghost before = strs(list@);
    let mut i: usize = list.len();
    while i > 0 && str_lt(s, list[i - 1].as_str())
        invariant
            i <= list.len(),
            list@ == old(list)@,
            before == strs(list@),
            forall|k: int| i <= k < before.len() ==> lex_lt(s@, #[trigger] before[k]),
        decreases i,
    {
        proof {
            assert(before[i - 1] == list@[i - 1]@);
        }
        i = i - 1;
    }
    list.insert(i, s.to_owned());
    proof {
        if i > 0 {
            assert(before[i - 1] == old(list)@[i - 1]@);
        }
        lemma_placed(before, s@, i as int);
        assert(strs(list@) =~= before.insert(i as int, s@));
    }
}

/// Whether a list of texts comes before another one in dictionary order.
pub fn texts_lt(a: &Vec<String>, b: &Vec<String>) -> (r: bool)
    ensures
        r == list_lt(strs(a@), strs(b@)),
{
    let ghost x = strs(a@);
    let ghost y = strs(b@);
    let mut i: usize = 0;
    while i < b.len()
        invariant
            i <= b.len(),
            x == strs(a@),
            y == strs(b@),
            list_lt(x, y) == list_lt_from(x, y, i as int),
        decreases b.len() - i,
    {
        if i >= a.len() {
            return true;
        }
        proof {
            assert(x[i as int] == a@[i as int]@);
            assert(y[i as int] == b@[i as int]@);
        }
        if !str_eq(a[i].as_str(), b[i].as_str()) {
            return str_lt(a[i].as_str(), b[i].as_str());
        }
        i = i + 1;
    }
    false
}

fn place_variant(list: &mut Vec<Variant>, v: Variant)
    ensures
        variant_models(final(list)@) == placed_variant(variant_models(old(list)@), v.model()),
{
    let ghost before = variant_models(list@);
    let mut i: usize = list.len();
    while i > 0 && texts_lt(&v.owners, &list[i - 1].owners)
        invariant
            i <= list.len(),
            list@ == old(list)@,
            before == variant_models(list@),
            forall|k: int|
                i <= k < before.len() ==> list_lt(v.model().owners, (#[trigger] before[k]).owners),
        decreases i,
    {
        proof {
            assert(before[i - 1] == list@[i - 1].model());
        }
        i = i - 1;
    }
    let ghost put = v.model();
    list.insert(i, v);
    proof {
        if i > 0 {
            assert(before[i - 1] == old(list)@[i - 1].model());
        }
        lemma_placed_variant(before, put, i as int);
        assert(variant_models(list@) =~= before.insert(i as int, put));
    }
}

fn owners_of(pairs: &Vec<(String, String)>, text: &str) -> (r: Vec<String>)
    ensures
        strs(r@) == sorted_owners(models(pairs@), text@, pairs@.len() as int),
{
    let ghost list = models(pairs@);
    let mut out: Vec<String> = Vec::new();
    proof {
        assert(strs(out@) =~= Seq::empty());
    }
    for i in 0..pairs.len()
        invariant
            list == models(pairs@),
            strs(out@) == sorted_owners(list, text@, i as int),
    {
        proof {
            assert(list[i as int] == pairs@[i as int].model());
        }
        if str_eq(pairs[i].0.as_str(), text) {
            place(&mut out, pairs[i].1.as_str());
        }
    }
    out
}

fn stands_first(pairs: &Vec<(String, String)>, i: usize) -> (r: bool)
    requires
        i < pairs@.len(),
    ensures
        r == is_first(models(pairs@), i as int),
{
    let ghost list = models(pairs@);
    for j in 0..i
        invariant
            i < pairs@.len(),
            list == models(pairs@),
            forall|k: int| 0 <= k < j ==> (#[trigger] list[k]).0 != list[i as int].0,
    {
        proof {
            assert(list[j as int] == pairs@[j as int].model());
            assert(list[i as int] == pairs@[i as int].model());
        }
        if str_eq(pairs[j].0.as_str(), pairs[i].0.as_str()) {
            return false;
        }
    }
    true
}

/// The variants of a field, from the text of each way of producing it and the name of who produces
/// it so: one for each text, in the order of their owners.
pub fn variants(pairs: &Vec<(String, String)>) -> (r: Vec<Variant>)
    ensures
        variant_models(r@) == variants_among(models(pairs@), pairs@.len() as int),
{
    let ghost list = models(pairs@);
    let mut out: Vec<Variant> = Vec::new();
    proof {
        assert(variant_models(out@) =~= Seq::empty());
    }
    for i in 0..pairs.len()
        invariant
            list == models(pairs@),
            variant_models(out@) == variants_among(list, i as int),
    {
        proof {
            assert(list[i as int] == pairs@[i as int].model());
        }
        if stands_first(pairs, i) {
            let owners = owners_of(pairs, pairs[i].0.as_str());
            place_variant(&mut out, Variant { first: i, owners });
        }
    }
    out
}

/// The texts are in dictionary order.
pub open spec fn in_order(list: Seq<Seq<char>>) -> bool {
    forall|i: int, j: int| 0 <= i < j < list.len() ==> !lex_lt(#[trigger] list[j], #[trigger] list[i])
}

proof fn lemma_place_of(list: Seq<Seq<char>>, s: Seq<char>) -> (i: int)
    ensures
        0 <= i <= list.len(),
        placed(list, s) == list.insert(i, s),
        forall|k: int| i <= k < list.len() ==> lex_lt(s, #[trigger] list[k]),
        i > 0 ==> !lex_lt(s, list[i - 1]),
    decreases list.len(),
{
    if list.len() == 0 || !lex_lt(s, list.last()) {
        assert(list.push(s) =~= list.insert(list.len() as int, s));
        list.len() as int
    } else {
        let i = lemma_place_of(list.drop_last(), s);
        assert(list.drop_last().insert(i, s).push(list.last()) =~= list.insert(i, s));
        assert forall|k: int| i <= k < list.len() implies lex_lt(s, #[trigger] list[k]) by {
            if k < list.len() - 1 {
                assert(list.drop_last()[k] == list[k]);
            }
        }
        i
    }
}

proof fn lemma_placing_keeps_order(list: Seq<Seq<char>>, s: Seq<char>)
    requires
        in_order(list),
    ensures
        in_order(placed(list, s)),
        placed(list, s).to_multiset() == list.push(s).to_multiset(),
{
    let i = lemma_place_of(list, s);
    let out = list.insert(i, s);
    assert forall|a: int, b: int| 0 <= a < b < out.len() implies !lex_lt(
        #[trigger] out[b],
        #[trigger] out[a],
    ) by {
        if b == i {
            lex_lt_trichotomy(list[i - 1], list[a]);
            if a < i - 1 && lex_lt(s, list[a]) {
                assert(!lex_lt(list[i - 1], list[a]));
                if list[a] != list[i - 1] {
                    lex_lt_transitive(s, list[a], list[i - 1]);
                }
            }
        } else if a == i {
            lex_lt_trichotomy(s, list[b - 1]);
        } else {
            let x = if a < i { a } else { a - 1 };
            let y = if b < i { b } else { b - 1 };
            assert(out[a] == list[x] && out[b] == list[y]);
        }
    }
    list.to_multiset_ensures();
    vstd::seq_lib::to_multiset_insert(list, i, s);
}

/// The owners of a text are those that are listed with it, in dictionary order.
pub proof fn owners_are_sorted(pairs: Seq<(Seq<char>, Seq<char>)>, text: Seq<char>, n: int)
    requires
        0 <= n <= pairs.len(),
    ensures
        in_order(sorted_owners(pairs, text, n)),
        sorted_owners(pairs, text, n).to_multiset() == listed_owners(pairs, text, n).to_multiset(),
    decreases n,
{
    if n > 0 {
        owners_are_sorted(pairs, text, n - 1);
        if pairs[n - 1].0 == text {
            let a = sorted_owners(pairs, text, n - 1);
            let b = listed_owners(pairs, text, n - 1);
            lemma_placing_keeps_order(a, pairs[n - 1].1);
            a.to_multiset_ensures();
            b.to_multiset_ensures();
        }
    }
}

proof fn lemma_list_lt_trans(a: Seq<Seq<char>>, b: Seq<Seq<char>>, c: Seq<Seq<char>>, i: int)
    requires
        0 <= i,
        list_lt_from(a, b, i),
        list_lt_from(b, c, i),
    ensures
        list_lt_from(a, c, i),
    decreases c.len() - i,
{
    if i < a.len() && i < b.len() && i < c.len() {
        if a[i] == b[i] && b[i] == c[i] {
            lemma_list_lt_trans(a, b, c, i + 1);
        } else if a[i] != b[i] && b[i] != c[i] {
            lex_lt_transitive(a[i], b[i], c[i]);
            lex_lt_trichotomy(a[i], c[i]);
        }
    }
}

proof fn lemma_list_lt_total(a: Seq<Seq<char>>, b: Seq<Seq<char>>, i: int)
    requires
        0 <= i <= a.len(),
        i <= b.len(),
        a.take(i) == b.take(i),
    ensures
        list_lt_from(a, b, i) || list_lt_from(b, a, i) || a == b,
        !(list_lt_from(a, b, i) && list_lt_from(b, a, i)),
    decreases a.len() - i,
{
    if i < a.len() && i < b.len() {
        if a[i] == b[i] {
            assert(a.take(i + 1) =~= a.take(i).push(a[i]));
            assert(b.take(i + 1) =~= b.take(i).push(b[i]));
            lemma_list_lt_total(a, b, i + 1);
        } else {
            lex_lt_trichotomy(a[i], b[i]);
        }
    } else if i == a.len() && i == b.len() {
        assert(a.take(i) =~= a);
        assert(b.take(i) =~= b);
    }
}

proof fn lemma_trichotomy(a: Seq<Seq<char>>, b: Seq<Seq<char>>)
    ensures
        list_lt(a, b) || list_lt(b, a) || a == b,
        !(list_lt(a, b) && list_lt(b, a)),
{
    assert(a.take(0) =~= b.take(0));
    lemma_list_lt_total(a, b, 0);
}

proof fn lemma_place_of_variant(list: Seq<VariantV>, v: VariantV) -> (i: int)
    ensures
        0 <= i <= list.len(),
        placed_variant(list, v) == list.insert(i, v),
        forall|k: int| i <= k < list.len() ==> list_lt(v.owners, (#[trigger] list[k]).owners),
        i > 0 ==> !list_lt(v.owners, list[i - 1].owners),
    decreases list.len(),
{
    if list.len() == 0 || !list_lt(v.owners, list.last().owners) {
        assert(list.push(v) =~= list.insert(list.len() as int, v));
        list.len() as int
    } else {
        let i = lemma_place_of_variant(list.drop_last(), v);
        assert(list.drop_last().insert(i, v).push(list.last()) =~= list.insert(i, v));
        assert forall|k: int| i <= k < list.len() implies list_lt(
            v.owners,
            (#[trigger] list[k]).owners,
        ) by {
            if k < list.len() - 1 {
                assert(list.drop_last()[k] == list[k]);
            }
        }
        i
    }
}

/// No variant comes after one whose owners are behind its own in dictionary order.
pub open spec fn ordered_variants(list: Seq<VariantV>) -> bool {
    forall|i: int, j: int|
        0 <= i < j < list.len() ==> !list_lt(
            (#[trigger] list[j]).owners,
            (#[trigger] list[i]).owners,
        )
}

/// Variants stand in the order of their owners.
pub proof fn variants_stand_in_order(pairs: Seq<(Seq<char>, Seq<char>)>, n: int)
    requires
        0 <= n <= pairs.len(),
    ensures
        ordered_variants(variants_among(pairs, n)),
    decreases n,
{
    if n > 0 {
        variants_stand_in_order(pairs, n - 1);
        if is_first(pairs, n - 1) {
            let list = variants_among(pairs, n - 1);
            let v = VariantV {
                first: n - 1,
                owners: sorted_owners(pairs, pairs[n - 1].0, pairs.len() as int),
            };
            let i = lemma_place_of_variant(list, v);
            let out = list.insert(i, v);
            assert forall|a: int, b: int| 0 <= a < b < out.len() implies !list_lt(
                (#[trigger] out[b]).owners,
                (#[trigger] out[a]).owners,
            ) by {
                if b == i {
                    if a < i - 1 && list_lt(v.owners, list[a].owners) {
                        assert(!list_lt(list[i - 1].owners, list[a].owners));
                        lemma_trichotomy(list[i - 1].owners, list[a].owners);
                        if list[a].owners != list[i - 1].owners {
                            lemma_list_lt_trans(v.owners, list[a].owners, list[i - 1].owners, 0);
                        }
                    }
                } else if a == i {
                    lemma_trichotomy(v.owners, list[b - 1].owners);
                } else {
                    let x = if a < i { a } else { a - 1 };
                    let y = if b < i { b } else { b - 1 };
                    assert(out[a] == list[x] && out[b] == list[y]);
                }
            }
        }
    }
}

/// The variants stand for the texts of the first `n` pairs: each under the first pair with its text
/// and with all its owners, none left out, no two for the same text.
pub open spec fn one_for_each(
    pairs: Seq<(Seq<char>, Seq<char>)>,
    list: Seq<VariantV>,
    n: int,
) -> bool {
    &&& forall|k: int|
        0 <= k < list.len() ==> {
            let v = #[trigger] list[k];
            &&& 0 <= v.first < n
            &&& is_first(pairs, v.first)
            &&& v.owners == sorted_owners(pairs, pairs[v.first].0, pairs.len() as int)
        }
    &&& forall|i: int|
        0 <= i < n ==> exists|k: int|
            0 <= k < list.len() && pairs[(#[trigger] list[k]).first].0 == (#[trigger] pairs[i]).0
    &&& forall|k: int, m: int|
        0 <= k < m < list.len() ==> pairs[(#[trigger] list[k]).first].0 != pairs[(
        #[trigger] list[m]).first].0
}

proof fn lemma_one_more(
    pairs: Seq<(Seq<char>, Seq<char>)>,
    list: Seq<VariantV>,
    n: int,
    at: int,
    v: VariantV,
)
    requires
        0 <= n < pairs.len(),
        0 <= at <= list.len(),
        one_for_each(pairs, list, n),
        is_first(pairs, n),
        v.first == n,
        v.owners == sorted_owners(pairs, pairs[n].0, pairs.len() as int),
    ensures
        one_for_each(pairs, list.insert(at, v), n + 1),
{
    let out = list.insert(at, v);
    assert(out[at] == v);
    assert forall|i: int| 0 <= i < n + 1 implies exists|k: int|
        0 <= k < out.len() && pairs[(#[trigger] out[k]).first].0 == (#[trigger] pairs[i]).0 by {
        if i < n {
            let k = choose|k: int|
                0 <= k < list.len() && pairs[(#[trigger] list[k]).first].0 == pairs[i].0;
            assert(out[if k < at { k } else { k + 1 }] == list[k]);
        }
    }
    assert forall|k: int, m: int| 0 <= k < m < out.len() implies pairs[(
    #[trigger] out[k]).first].0 != pairs[(#[trigger] out[m]).first].0 by {
        let x = if k < at { k } else { k - 1 };
        let y = if m < at { m } else { m - 1 };
        if k == at {
            assert(out[m] == list[y]);
        } else if m == at {
            assert(out[k] == list[x]);
        } else {
            assert(out[k] == list[x] && out[m] == list[y]);
        }
    }
}

proof fn lemma_no_more(pairs: Seq<(Seq<char>, Seq<char>)>, list: Seq<VariantV>, n: int)
    requires
        0 <= n < pairs.len(),
        one_for_each(pairs, list, n),
        !is_first(pairs, n),
    ensures
        one_for_each(pairs, list, n + 1),
{
    let j = choose|j: int| 0 <= j < n && (#[trigger] pairs[j]).0 == pairs[n].0;
    assert forall|i: int| 0 <= i < n + 1 implies exists|k: int|
        0 <= k < list.len() && pairs[(#[trigger] list[k]).first].0 == (#[trigger] pairs[i]).0 by {
        if i == n {
            let k = choose|k: int|
                0 <= k < list.len() && pairs[(#[trigger] list[k]).first].0 == pairs[j].0;
            assert(pairs[list[k].first].0 == pairs[i].0);
        }
    }
}

/// Each text has one variant.
pub proof fn every_text_has_one_variant(pairs: Seq<(Seq<char>, Seq<char>)>, n: int)
    requires
        0 <= n <= pairs.len(),
    ensures
        one_for_each(pairs, variants_among(pairs, n), n),
    decreases n,
{
    if n > 0 {
        every_text_has_one_variant(pairs, n - 1);
        let list = variants_among(pairs, n - 1);
        if is_first(pairs, n - 1) {
            let v = VariantV {
                first: n - 1,
                owners: sorted_owners(pairs, pairs[n - 1].0, pairs.len() as int),
            };
            let at = lemma_place_of_variant(list, v);
            lemma_one_more(pairs, list, n - 1, at, v);
        } else {
            lemma_no_more(pairs, list, n - 1);
        }
    }
}

} // verus!
