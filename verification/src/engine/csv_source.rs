//! Ways read as lines of a number and a JSON object of tags, without geometry.
use vstd::prelude::*;

use crate::json::{json_text, to_json};
use crate::lang::filter::Spelling;
use crate::tags::{no_tags, put, tag_map, RawTags};
use crate::text::to_chars;
use crate::value::{fields, group_values, Value, ValueV};

verus! {

/// Why a line is no way.
#[derive(Debug, Clone, Copy, PartialEq, Eq, Structural)]
pub enum RowError {
    /// The line has not two fields.
    FieldCount { found: usize },
    /// The first field is no number.
    BadId,
    /// The second field is no JSON.
    BadTags { osm_id: i64 },
}

/// What a decimal digit counts.
pub open spec fn digit_value(c: char) -> Option<int> {
    if '0' <= c && c <= '9' {
        Some(c as int - '0' as int)
    } else {
        None
    }
}

/// The number that decimal digits spell; nothing where a character is no digit.
pub open spec fn digits_value(s: Seq<char>) -> Option<int>
    decreases s.len(),
{
    if s.len() == 0 {
        Some(0)
    } else {
        match (digits_value(s.drop_last()), digit_value(s.last())) {
            (Some(n), Some(d)) => Some(n * 10 + d),
            _ => None,
        }
    }
}

/// The number that a text spells: an optional sign and at least one digit.
pub open spec fn integer_value(s: Seq<char>) -> Option<int> {
    if s.len() == 0 {
        None
    } else if s[0] == '-' {
        match digits_value(s.skip(1)) {
            Some(n) if s.len() > 1 => Some(-n),
            _ => None,
        }
    } else if s[0] == '+' {
        if s.len() > 1 {
            digits_value(s.skip(1))
        } else {
            None
        }
    } else {
        digits_value(s)
    }
}

/// The number of a way that a text spells, where it fits.
pub open spec fn id_value(s: Seq<char>) -> Option<i64> {
    match integer_value(s) {
        Some(n) if i64::MIN <= n <= i64::MAX => Some(n as i64),
        _ => None,
    }
}

proof fn lemma_digits_positive(s: Seq<char>)
    ensures
        digits_value(s) matches Some(n) ==> n >= 0,
    decreases s.len(),
{
    if s.len() > 0 {
        lemma_digits_positive(s.drop_last());
    }
}

proof fn lemma_digits_grow(s: Seq<char>, i: int)
    requires
        0 <= i <= s.len(),
    ensures
        digits_value(s.take(i)) is None ==> digits_value(s) is None,
        digits_value(s) matches Some(n) ==> (digits_value(s.take(i)) matches Some(m) && m <= n),
    decreases s.len() - i,
{
    if i < s.len() {
        lemma_digits_grow(s, i + 1);
        assert(s.take(i + 1).drop_last() =~= s.take(i));
        lemma_digits_positive(s.take(i));
    } else {
        assert(s.take(i) =~= s);
    }
}

/// Reads the number of a way.
pub fn parse_id(s: &str) -> (r: Option<i64>)
    ensures
        r == id_value(s@),
{
    let chars: Vec<char> = to_chars(s);
    let n: usize = chars.len();
    if n == 0 {
        return None;
    }
    let negative: bool = chars[0] == '-';
    let start: usize = if negative || chars[0] == '+' {
        1
    } else {
        0
    };
    if start == n {
        return None;
    }
    let ghost digits = s@.skip(start as int);
    proof {
        assert(start == 0 ==> digits =~= s@);
        lemma_digits_positive(digits);
    }
    // One more than the largest magnitude is enough to tell that a number does not fit.
    let mut total: i128 = 0;
    let mut i: usize = start;
    assert(digits.take(0) =~= Seq::<char>::empty());
    while i < n
        invariant
            start <= i <= n,
            n == s@.len(),
            chars@ == s@,
            digits == s@.skip(start as int),
            0 <= total <= 0x8000_0000_0000_0000,
            digits_value(digits.take(i - start)) == Some(total as int),
            start == 0 || start == 1,
            negative == (s@[0] == '-'),
            start == 1 <==> (s@[0] == '-' || s@[0] == '+'),
            start < n,
            start == 0 ==> digits == s@,
        decreases n - i,
    {
        let c: char = chars[i];
        proof {
            let k = i - start;
            assert(digits[k] == c);
            assert(digits.take(k + 1).drop_last() =~= digits.take(k));
            assert(digits.take(k + 1).last() == c);
            lemma_digits_grow(digits, k + 1);
        }
        if c < '0' || c > '9' {
            return None;
        }
        total = total * 10 + (c as u32 - '0' as u32) as i128;
        if total > 0x8000_0000_0000_0000 {
            return None;
        }
        i = i + 1;
    }
    assert(digits.take(n - start) =~= digits);
    if negative {
        Some((-total) as i64)
    } else if total == 0x8000_0000_0000_0000 {
        None
    } else {
        Some(total as i64)
    }
}

/// Reads the number of a way from the fields of its line.
pub fn row_id(record: &Vec<String>) -> (r: Result<i64, RowError>)
    ensures
        r == if record@.len() != 2 {
            Err(RowError::FieldCount { found: record@.len() as usize })
        } else {
            match id_value(record@[0]@) {
                Some(id) => Ok(id),
                None => Err(RowError::BadId),
            }
        },
{
    let n: usize = record.len();
    if n != 2 {
        return Err(RowError::FieldCount { found: n });
    }
    match parse_id(record[0].as_str()) {
        Some(id) => Ok(id),
        None => Err(RowError::BadId),
    }
}

/// The fields of a JSON object; none of any other value.
pub fn object_fields(v: Value) -> (r: Vec<(String, Value)>)
    ensures
        fields(r@) == match v@ {
            ValueV::Object(xs) => xs,
            _ => Seq::empty(),
        },
{
    match v {
        Value::Object(xs) => xs,
        _ => {
            let none: Vec<(String, Value)> = Vec::new();
            assert(fields(none@) =~= Seq::<(Seq<char>, ValueV)>::empty());
            none
        },
    }
}

/// A tag's text: a string as it is, any other value as JSON.
pub open spec fn tag_text(v: ValueV, list: Seq<Spelling>) -> Seq<char> {
    match v {
        ValueV::String(s) => s,
        _ => json_text(v, list),
    }
}

/// The tags that fields spell; of two fields with one key the later counts.
pub open spec fn flattened(xs: Seq<(Seq<char>, ValueV)>, list: Seq<Spelling>) -> Map<
    Seq<char>,
    Seq<char>,
>
    decreases xs.len(),
{
    if xs.len() == 0 {
        Map::empty()
    } else {
        flattened(xs.drop_last(), list).insert(xs.last().0, tag_text(xs.last().1, list))
    }
}

/// The tags of a way from the fields of its JSON object; `list` spells the doubles.
pub fn flat_tags(xs: &Vec<(String, Value)>, list: &Vec<Spelling>) -> (r: RawTags)
    ensures
        tag_map(r) == flattened(fields(xs@), list@),
{
    broadcast use group_values;

    let ghost all = fields(xs@);
    let mut tags: RawTags = no_tags();
    let mut i: usize = 0;
    assert(flattened(all.take(0), list@) =~= Map::<Seq<char>, Seq<char>>::empty());
    while i < xs.len()
        invariant
            i <= xs@.len(),
            all == fields(xs@),
            tag_map(tags) == flattened(all.take(i as int), list@),
        decreases xs.len() - i,
    {
        let text: String = match &xs[i].1 {
            Value::String(s) => s.clone(),
            other => to_json(other, list),
        };
        proof {
            assert(all.take(i + 1).drop_last() =~= all.take(i as int));
            assert(all.take(i + 1).last() == all[i as int]);
        }
        put(&mut tags, xs[i].0.clone(), text);
        i = i + 1;
    }
    assert(all.take(i as int) =~= all);
    tags
}

/// The value of a field of a JSON object: a text, or how any other value is written as JSON.
#[derive(Debug)]
pub enum FieldText {
    Text(String),
    Written(String),
}

pub enum FieldTextV {
    Text(Seq<char>),
    Written(Seq<char>),
}

impl FieldText {
    pub open spec fn model(&self) -> FieldTextV {
        match self {
            FieldText::Text(s) => FieldTextV::Text(s@),
            FieldText::Written(s) => FieldTextV::Written(s@),
        }
    }
}

pub open spec fn field_texts(v: Seq<(String, FieldText)>) -> Seq<(Seq<char>, FieldTextV)> {
    v.map_values(|x: (String, FieldText)| (x.0@, x.1.model()))
}

/// What a text stands for that may be no JSON, and if it is may be no object.
pub open spec fn maybe_object(r: Option<Option<Vec<(String, FieldText)>>>) -> Option<
    Option<Seq<(Seq<char>, FieldTextV)>>,
> {
    match r {
        None => None,
        Some(None) => Some(None),
        Some(Some(v)) => Some(Some(field_texts(v@))),
    }
}

/// What crate `serde_json` reads in a text: nothing where it is no JSON, and else its fields where it
/// is an object.
pub uninterp spec fn json_object(text: Seq<char>) -> Option<Option<Seq<(Seq<char>, FieldTextV)>>>;

/// `serde_json::from_str` into a `serde_json::Value`, and `to_string` of each field that is no
/// string: what is read depends on the text alone.
#[verifier::external_body]
fn read_object(text: &str) -> (r: Option<Option<Vec<(String, FieldText)>>>)
    ensures
        maybe_object(r) == json_object(text@),
{
    let value: serde_json::Value = serde_json::from_str(text).ok()?;
    let serde_json::Value::Object(map) = value else {
        return Some(None);
    };
    let field = |v: serde_json::Value| match v {
        serde_json::Value::String(s) => FieldText::Text(s),
        other => FieldText::Written(other.to_string()),
    };
    Some(Some(map.into_iter().map(|(k, v)| (k, field(v))).collect()))
}

/// The tags that the fields of an object spell; of two fields with one key the later counts.
pub open spec fn spelled_tags(xs: Seq<(Seq<char>, FieldTextV)>) -> Map<Seq<char>, Seq<char>>
    decreases xs.len(),
{
    if xs.len() == 0 {
        Map::empty()
    } else {
        let text = match xs.last().1 {
            FieldTextV::Text(s) => s,
            FieldTextV::Written(s) => s,
        };
        spelled_tags(xs.drop_last()).insert(xs.last().0, text)
    }
}

/// The tags of a way from what its JSON holds: none where that is no object.
pub fn object_tags(object: &Option<Vec<(String, FieldText)>>) -> (r: RawTags)
    ensures
        tag_map(r) == match object {
            Some(xs) => spelled_tags(field_texts(xs@)),
            None => Map::empty(),
        },
{
    let mut tags: RawTags = no_tags();
    if let Some(xs) = object {
        let ghost all = field_texts(xs@);
        assert(spelled_tags(all.take(0)) =~= Map::<Seq<char>, Seq<char>>::empty());
        for i in 0..xs.len()
            invariant
                all == field_texts(xs@),
                tag_map(tags) == spelled_tags(all.take(i as int)),
        {
            let text: String = match &xs[i].1 {
                FieldText::Text(s) => s.clone(),
                FieldText::Written(s) => s.clone(),
            };
            proof {
                assert(all.take(i + 1).drop_last() =~= all.take(i as int));
                assert(all.take(i + 1).last() == all[i as int]);
                assert(all[i as int] == (xs@[i as int].0@, xs@[i as int].1.model()));
            }
            put(&mut tags, xs[i].0.clone(), text);
        }
        assert(all.take(xs@.len() as int) =~= all);
    }
    tags
}

/// A line is read as the way with number `id` and the tags `tags`.
pub open spec fn is_way(record: Seq<String>, id: i64, tags: Map<Seq<char>, Seq<char>>) -> bool {
    &&& record.len() == 2
    &&& id_value(record[0]@) == Some(id)
    &&& json_object(record[1]@) matches Some(object)
    &&& tags == match object {
        Some(xs) => spelled_tags(xs),
        None => Map::empty(),
    }
}

/// Reads the number and the tags of a way from the fields of its line.
pub fn read_way(record: &Vec<String>) -> (r: Result<(i64, RawTags), RowError>)
    ensures
        match r {
            Ok((id, tags)) => is_way(record@, id, tag_map(tags)),
            Err(RowError::FieldCount { found }) => record@.len() != 2 && found == record@.len(),
            Err(RowError::BadId) => record@.len() == 2 && id_value(record@[0]@) is None,
            Err(RowError::BadTags { osm_id }) => record@.len() == 2 && id_value(record@[0]@) == Some(
                osm_id,
            ) && json_object(record@[1]@) is None,
        },
{
    assert(record.len() == record@.len());
    let id: i64 = match row_id(record) {
        Ok(id) => id,
        Err(e) => {
            return Err(e);
        },
    };
    match read_object(record[1].as_str()) {
        Some(object) => Ok((id, object_tags(&object))),
        None => Err(RowError::BadTags { osm_id: id }),
    }
}

} // verus!
