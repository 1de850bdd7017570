//! JSON values as compact text.
use vstd::prelude::*;

use crate::lang::filter::{spell, spelled, Spelling};
use crate::text::{
    concat3, hex_digit, insert_sorted, join, joined, joined_texts_follow_each_other, lex_lt,
    lex_lt_trichotomy, sorted_lists_are_unique, sorting, sorting_keeps_the_texts, spell_wide,
    strictly_sorted, strs,
};
use crate::value::{
    clone_value, fields, group_values, lists_fields, values, Fields, Number, Value, ValueV,
};

verus! {

/// A character inside a JSON string.
pub open spec fn json_char(c: char) -> Seq<char> {
    if c == '"' {
        seq!['\\', '"']
    } else if c == '\\' {
        seq!['\\', '\\']
    } else if c == '\u{8}' {
        seq!['\\', 'b']
    } else if c == '\u{9}' {
        seq!['\\', 't']
    } else if c == '\u{a}' {
        seq!['\\', 'n']
    } else if c == '\u{c}' {
        seq!['\\', 'f']
    } else if c == '\u{d}' {
        seq!['\\', 'r']
    } else if (c as int) < 32 {
        seq!['\\', 'u', '0', '0', hex_digit(c as int / 16), hex_digit(c as int % 16)]
    } else {
        seq![c]
    }
}

/// The characters of a JSON string, between its quotes.
pub open spec fn json_chars(s: Seq<char>) -> Seq<char>
    decreases s.len(),
{
    if s.len() == 0 {
        Seq::empty()
    } else {
        json_chars(s.drop_last()) + json_char(s.last())
    }
}

/// A text as a JSON string.
pub open spec fn json_string(s: Seq<char>) -> Seq<char> {
    seq!['"'] + json_chars(s) + seq!['"']
}

/// `serde_json::to_string` of a text, of crate `serde_json`: the text between quotes, with quotes,
/// backslashes and control characters escaped.
#[verifier::external_body]
pub(crate) fn quote_json(s: &str) -> (r: String)
    ensures
        r@ == json_string(s@),
{
    serde_json::to_string(s).unwrap_or_default()
}

/// A JSON number as text: an integer by its digits, a double as the list spells it.
pub open spec fn number_text(n: Number, list: Seq<Spelling>) -> Seq<char> {
    match n {
        Number::Int { value, .. } => crate::text::spelled(value as int),
        Number::Float { bits } => spelled(list, bits).2,
    }
}

/// A JSON value as compact text.
pub open spec fn json_text(v: ValueV, list: Seq<Spelling>) -> Seq<char>
    decreases v,
{
    match v {
        ValueV::Null => "null"@,
        ValueV::Bool(b) => if b {
            "true"@
        } else {
            "false"@
        },
        ValueV::Number(n) => number_text(n, list),
        ValueV::String(s) => json_string(s),
        ValueV::Array(xs) => "["@ + joined(json_texts(xs, list), ","@) + "]"@,
        ValueV::Object(xs) => "{"@ + joined(json_fields(xs, list), ","@) + "}"@,
    }
}

/// JSON values as compact texts.
pub open spec fn json_texts(xs: Seq<ValueV>, list: Seq<Spelling>) -> Seq<Seq<char>>
    decreases xs,
{
    Seq::new(
        xs.len(),
        |i: int|
            if 0 <= i < xs.len() {
                json_text(xs[i], list)
            } else {
                arbitrary()
            },
    )
}

/// Fields as compact texts: the key, a colon, the value.
pub open spec fn json_fields(xs: Seq<(Seq<char>, ValueV)>, list: Seq<Spelling>) -> Seq<Seq<char>>
    decreases xs,
{
    Seq::new(
        xs.len(),
        |i: int|
            if 0 <= i < xs.len() {
                json_string(xs[i].0) + ":"@ + json_text(xs[i].1, list)
            } else {
                arbitrary()
            },
    )
}

/// A JSON value as compact text; `list` spells its doubles.
pub fn to_json(v: &Value, list: &Vec<Spelling>) -> (r: String)
    ensures
        r@ == json_text(v@, list@),
    decreases v,
{
    broadcast use group_values;

    match v {
        Value::Null => "null".to_owned(),
        Value::Bool(b) => if *b {
            "true".to_owned()
        } else {
            "false".to_owned()
        },
        Value::Number(n) => match n {
            Number::Int { value, .. } => spell_wide(*value),
            Number::Float { bits } => spell(list, *bits).2,
        },
        Value::String(s) => quote_json(s.as_str()),
        Value::Array(xs) => {
            let mut out: Vec<String> = Vec::new();
            for i in 0..xs.len()
                invariant
                    *v is Array,
                    v->Array_0 == *xs,
                    out@.len() == i,
                    forall|j: int|
                        0 <= j < i ==> (#[trigger] out@[j])@ == json_text(xs@[j]@, list@),
            {
                proof {
                    assert(decreases_to!(xs@ => xs@[i as int]));
                }
                let one = to_json(&xs[i], list);
                out.push(one);
            }
            assert(strs(out@) =~= json_texts(values(xs@), list@));
            concat3("[", join(&out, ",").as_str(), "]")
        },
        Value::Object(xs) => {
            let mut out: Vec<String> = Vec::new();
            for i in 0..xs.len()
                invariant
                    *v is Object,
                    v->Object_0 == *xs,
                    out@.len() == i,
                    forall|j: int|
                        0 <= j < i ==> (#[trigger] out@[j])@ == json_string(xs@[j].0@) + ":"@
                            + json_text(xs@[j].1@, list@),
            {
                proof {
                    assert(decreases_to!(xs@ => xs@[i as int]));
                    assert(decreases_to!(xs@[i as int] => xs@[i as int].1));
                }
                let one = to_json(&xs[i].1, list);
                out.push(concat3(quote_json(xs[i].0.as_str()).as_str(), ":", one.as_str()));
            }
            assert(strs(out@) =~= json_fields(fields(xs@), list@));
            concat3("{", join(&out, ",").as_str(), "}")
        },
    }
}

/// The keys of a list of fields.
pub open spec fn keys_of(v: Seq<(Seq<char>, ValueV)>) -> Seq<Seq<char>> {
    v.map_values(|p: (Seq<char>, ValueV)| p.0)
}

/// Whether a list is the keys of `m`, in order.
pub open spec fn is_key_order(ks: Seq<Seq<char>>, m: Map<Seq<char>, ValueV>) -> bool {
    strictly_sorted(ks) && ks.to_set() == m.dom()
}

/// The keys of fields, in order.
pub open spec fn key_order(m: Map<Seq<char>, ValueV>) -> Seq<Seq<char>> {
    choose|ks: Seq<Seq<char>>| is_key_order(ks, m)
}

/// The fields of `m`, in the order of their keys.
pub open spec fn in_order(m: Map<Seq<char>, ValueV>) -> Seq<(Seq<char>, ValueV)> {
    key_order(m).map_values(|k: Seq<char>| (k, m[k]))
}

/// Finitely many keys have an order.
pub proof fn keys_have_an_order(m: Map<Seq<char>, ValueV>)
    requires
        m.dom().finite(),
    ensures
        is_key_order(key_order(m), m),
{
    let vs = m.dom().to_seq();
    m.dom().lemma_to_seq_to_set_id();
    sorting_keeps_the_texts(vs);
    assert forall|k: Seq<char>| #[trigger] sorting(vs).to_set().contains(k) <==> m.dom().contains(
        k,
    ) by {
        assert(sorting(vs).contains(k) <==> vs.contains(k));
        assert(vs.to_set().contains(k) <==> vs.contains(k));
    }
    assert(sorting(vs).to_set() =~= m.dom());
    assert(is_key_order(sorting(vs), m));
}

/// There is one order of the keys.
pub proof fn key_order_is_the_only_one(ks: Seq<Seq<char>>, m: Map<Seq<char>, ValueV>)
    requires
        is_key_order(ks, m),
    ensures
        key_order(m) == ks,
{
    assert(is_key_order(key_order(m), m));
    sorted_lists_are_unique(ks, key_order(m));
}

/// The keys of fields, in order.
pub fn sorted_keys(of: &Fields) -> (r: Vec<String>)
    ensures
        strs(r@) == key_order(of@),
        is_key_order(strs(r@), of@),
{
    broadcast use group_values;

    let list: Vec<(String, Value)> = of.list();
    let ghost all = fields(list@);
    let mut out: Vec<String> = Vec::new();
    let mut i: usize = 0;
    assert(strs(out@).to_set() =~= keys_of(all).take(0).to_set());
    while i < list.len()
        invariant
            i <= list@.len(),
            all == fields(list@),
            strictly_sorted(strs(out@)),
            strs(out@).to_set() == keys_of(all).take(i as int).to_set(),
        decreases list.len() - i,
    {
        let ghost before = strs(out@).to_set();
        insert_sorted(&mut out, list[i].0.as_str());
        proof {
            let ks = keys_of(all);
            assert(ks[i as int] == list@[i as int].0@);
            let now = ks.take(i + 1);
            assert(now =~= ks.take(i as int).push(ks[i as int]));
            assert forall|k: Seq<char>| now.to_set().contains(k) <==> #[trigger] before.insert(
                ks[i as int],
            ).contains(k) by {
                if now.contains(k) {
                    let j = now.index_of(k);
                    if j < i {
                        assert(ks.take(i as int)[j] == k);
                    }
                }
                if ks.take(i as int).contains(k) {
                    let j = ks.take(i as int).index_of(k);
                    assert(now[j] == k);
                }
                assert(now[i as int] == ks[i as int]);
            }
            assert(now.to_set() =~= before.insert(ks[i as int]));
        }
        i = i + 1;
    }
    proof {
        let ks = keys_of(all);
        assert(ks.take(i as int) =~= ks);
        assert forall|k: Seq<char>| ks.to_set().contains(k) <==> #[trigger] of@.dom().contains(k) by {
            if ks.contains(k) {
                let j = ks.index_of(k);
                assert(all[j].0 == k);
            }
            if of@.dom().contains(k) {
                let j = choose|j: int| 0 <= j < all.len() && (#[trigger] all[j]).0 == k;
                assert(ks[j] == k);
            }
        }
        assert(ks.to_set() =~= of@.dom());
        key_order_is_the_only_one(strs(out@), of@);
    }
    out
}

/// The fields, in the order of their keys.
pub fn sorted_fields(of: &Fields) -> (r: Vec<(String, Value)>)
    ensures
        fields(r@) == in_order(of@),
        lists_fields(fields(r@), of@),
{
    broadcast use group_values;

    let keys: Vec<String> = sorted_keys(of);
    let ghost ks = key_order(of@);
    let mut out: Vec<(String, Value)> = Vec::new();
    let mut i: usize = 0;
    assert(fields(out@) =~= in_order(of@).take(0));
    while i < keys.len()
        invariant
            i <= keys@.len(),
            ks == key_order(of@),
            strs(keys@) == ks,
            is_key_order(ks, of@),
            fields(out@) == in_order(of@).take(i as int),
        decreases keys.len() - i,
    {
        let ghost before = fields(out@);
        let ghost k = keys@[i as int]@;
        proof {
            assert(ks[i as int] == k);
            assert(ks.to_set().contains(k));
        }
        match of.get(keys[i].as_str()) {
            Some(v) => {
                let value: Value = clone_value(v);
                out.push((keys[i].clone(), value));
                proof {
                    assert(in_order(of@)[i as int] == (k, of@[k]));
                    assert(fields(out@) =~= before.push((k, of@[k])));
                    assert(in_order(of@).take(i + 1) =~= before.push((k, of@[k])));
                }
            },
            None => {},
        }
        i = i + 1;
    }
    proof {
        let all = in_order(of@);
        assert(all.take(i as int) =~= all);
        assert forall|a: int, b: int| 0 <= a < b < all.len() implies (#[trigger] all[a]).0 != (
        #[trigger] all[b]).0 by {
            assert(all[a].0 == ks[a] && all[b].0 == ks[b]);
            assert(lex_lt(ks[a], ks[b]));
            lex_lt_trichotomy(ks[a], ks[b]);
        }
        assert forall|j: int| 0 <= j < all.len() implies of@.dom().contains(
            (#[trigger] all[j]).0,
        ) by {
            assert(ks.to_set().contains(ks[j]));
        }
        assert forall|k: Seq<char>| #[trigger] of@.dom().contains(k) implies exists|j: int|
            0 <= j < all.len() && (#[trigger] all[j]).0 == k by {
            assert(ks.to_set().contains(k));
            let j = ks.index_of(k);
            assert(all[j].0 == k);
        }
    }
    out
}

/// A list of values is written one after the other with commas between, in brackets; fields likewise,
/// each with its key and a colon in front, in braces.
pub proof fn values_are_written_in_turn(
    a: Seq<ValueV>,
    b: Seq<ValueV>,
    xs: Seq<(Seq<char>, ValueV)>,
    ys: Seq<(Seq<char>, ValueV)>,
    v: ValueV,
    k: Seq<char>,
    list: Seq<Spelling>,
)
    requires
        a.len() > 0,
        b.len() > 0,
        xs.len() > 0,
        ys.len() > 0,
    ensures
        json_text(ValueV::Array(seq![v]), list) == "["@ + json_text(v, list) + "]"@,
        json_text(ValueV::Object(seq![(k, v)]), list) == "{"@ + (json_string(k) + ":"@ + json_text(
            v,
            list,
        )) + "}"@,
        json_text(ValueV::Array(a + b), list) == json_text(ValueV::Array(a), list).drop_last()
            + ","@ + json_text(ValueV::Array(b), list).skip(1),
        json_text(ValueV::Object(xs + ys), list) == json_text(ValueV::Object(xs), list).drop_last()
            + ","@ + json_text(ValueV::Object(ys), list).skip(1),
{
    reveal_strlit("[");
    reveal_strlit("]");
    reveal_strlit("{");
    reveal_strlit("}");
    assert(json_texts(seq![v], list) =~= seq![json_text(v, list)]);
    assert(json_fields(seq![(k, v)], list) =~= seq![
        json_string(k) + ":"@ + json_text(v, list),
    ]);
    let p = json_texts(a, list);
    let q = json_texts(b, list);
    assert(json_texts(a + b, list) =~= p + q);
    joined_texts_follow_each_other(p, q, json_text(v, list), ","@);
    lemma_in_brackets("["@, joined(p, ","@), ","@, joined(q, ","@), "]"@);
    let r = json_fields(xs, list);
    let s = json_fields(ys, list);
    assert(json_fields(xs + ys, list) =~= r + s);
    joined_texts_follow_each_other(r, s, json_string(k) + ":"@ + json_text(v, list), ","@);
    lemma_in_brackets("{"@, joined(r, ","@), ","@, joined(s, ","@), "}"@);
}

proof fn lemma_in_brackets(
    open: Seq<char>,
    x: Seq<char>,
    sep: Seq<char>,
    y: Seq<char>,
    close: Seq<char>,
)
    requires
        open.len() == 1,
        close.len() == 1,
    ensures
        open + (x + sep + y) + close == (open + x + close).drop_last() + sep + (open + y
            + close).skip(1),
{
    assert((open + x + close).drop_last() =~= open + x);
    assert((open + y + close).skip(1) =~= y + close);
    assert(open + (x + sep + y) + close =~= open + x + sep + (y + close));
}

} // verus!
