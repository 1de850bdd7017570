//! Strings as sequences of characters: the handful of operations the rest of the crate reads and
//! builds text with.
use vstd::prelude::*;

use crate::model::models;

verus! {

/// `p` stands in `s` at position `i`.
pub open spec fn occurs_at(s: Seq<char>, p: Seq<char>, i: int) -> bool {
    0 <= i && i + p.len() <= s.len() && s.subrange(i, i + p.len()) == p
}

/// `p` stands somewhere in `s`.
pub open spec fn occurs_in(s: Seq<char>, p: Seq<char>) -> bool {
    exists|i: int| #[trigger] occurs_at(s, p, i)
}

/// `s` from position `i` on, with every occurrence of `from`, found left to right and without
/// overlap, rewritten to `to`.
pub open spec fn replace_from(s: Seq<char>, from: Seq<char>, to: Seq<char>, i: int) -> Seq<char>
    decreases s.len() - i,
{
    if i < 0 || i >= s.len() {
        Seq::empty()
    } else if from.len() > 0 && occurs_at(s, from, i) {
        to + replace_from(s, from, to, i + from.len())
    } else {
        seq![s[i]] + replace_from(s, from, to, i + 1)
    }
}

/// `s` with `to` put before every character and at the end.
pub open spec fn interleave(s: Seq<char>, to: Seq<char>) -> Seq<char>
    decreases s.len(),
{
    if s.len() == 0 {
        to
    } else {
        to + seq![s[0]] + interleave(s.subrange(1, s.len() as int), to)
    }
}

/// What rewriting every occurrence of `from` in `s` to `to` gives.
pub open spec fn replace_all(s: Seq<char>, from: Seq<char>, to: Seq<char>) -> Seq<char> {
    if from.len() == 0 {
        interleave(s, to)
    } else {
        replace_from(s, from, to, 0)
    }
}

/// The lower-case form of a text, as Unicode defines it.
pub uninterp spec fn lowercase(s: Seq<char>) -> Seq<char>;

/// The quoted, escaped form a text has in Rust's debug output.
pub uninterp spec fn quoted(s: Seq<char>) -> Seq<char>;

/// `==` of `str`: whether the two texts hold the same characters.
#[verifier::external_body]
pub(crate) fn str_eq(a: &str, b: &str) -> (r: bool)
    ensures
        r == (a@ == b@),
{
    a == b
}

/// `str::starts_with` with a text pattern: whether `p` is a prefix of `s`.
#[verifier::external_body]
pub(crate) fn starts_with(s: &str, p: &str) -> (r: bool)
    ensures
        r == p@.is_prefix_of(s@),
{
    s.starts_with(p)
}

/// `str::ends_with` with a text pattern: whether `p` is a suffix of `s`.
#[verifier::external_body]
pub(crate) fn ends_with(s: &str, p: &str) -> (r: bool)
    ensures
        r == p@.is_suffix_of(s@),
{
    s.ends_with(p)
}

/// `str::contains` with a text pattern: whether `p` stands somewhere in `s`.
#[verifier::external_body]
pub(crate) fn contains(s: &str, p: &str) -> (r: bool)
    ensures
        r == occurs_in(s@, p@),
{
    s.contains(p)
}

/// `str::strip_prefix` with a text pattern: the rest of `s` behind `p`, or nothing where `s` does
/// not start with `p`.
#[verifier::external_body]
pub(crate) fn strip_prefix<'a>(s: &'a str, p: &str) -> (r: Option<&'a str>)
    ensures
        r is Some <==> p@.is_prefix_of(s@),
        r is Some ==> r->0@ == s@.subrange(p@.len() as int, s@.len() as int),
{
    s.strip_prefix(p)
}

/// `str::replace` with a text pattern: every occurrence of `from`, found left to right and without
/// overlap, becomes `to`; the empty pattern matches before every character and at the end.
#[verifier::external_body]
pub(crate) fn replace(s: &str, from: &str, to: &str) -> (r: String)
    ensures
        r@ == replace_all(s@, from@, to@),
{
    s.replace(from, to)
}

/// `str::to_lowercase`: the lower-case form of `s`, a function of the text alone.
#[verifier::external_body]
pub(crate) fn to_lowercase(s: &str) -> (r: String)
    ensures
        r@ == lowercase(s@),
{
    s.to_lowercase()
}

/// `format!` of one text with `{:?}`: its quoted form, a function of the text alone.
#[verifier::external_body]
pub(crate) fn quote(s: &str) -> (r: String)
    ensures
        r@ == quoted(s@),
{
    format!("{s:?}")
}

/// `s` without the characters `c` that it ends with.
pub open spec fn without_trailing(s: Seq<char>, c: char) -> Seq<char>
    decreases s.len(),
{
    if s.len() > 0 && s.last() == c {
        without_trailing(s.drop_last(), c)
    } else {
        s
    }
}

/// `str::trim_end_matches` with one character: `s` without the `c` that it ends with.
#[verifier::external_body]
pub(crate) fn trim_end<'a>(s: &'a str, c: char) -> (r: &'a str)
    ensures
        r@ == without_trailing(s@, c),
{
    s.trim_end_matches(c)
}

/// The texts of a list of strings.
pub open spec fn strs(v: Seq<String>) -> Seq<Seq<char>> {
    models(v)
}

/// Whether `s` is one of the strings in `v`.
pub fn contains_str(v: &Vec<String>, s: &str) -> (r: bool)
    ensures
        r == strs(v@).contains(s@),
{
    for i in 0..v.len()
        invariant
            forall|j: int| 0 <= j < i ==> (#[trigger] v@[j])@ != s@,
    {
        if str_eq(v[i].as_str(), s) {
            proof {
                assert(strs(v@)[i as int] == s@);
            }
            return true;
        }
    }
    proof {
        if strs(v@).contains(s@) {
            let k = strs(v@).index_of(s@);
            assert(strs(v@)[k] == v@[k]@);
        }
    }
    false
}

/// The texts of `v`, one behind the other with `sep` between them.
pub open spec fn joined(v: Seq<Seq<char>>, sep: Seq<char>) -> Seq<char>
    decreases v.len(),
{
    if v.len() == 0 {
        Seq::empty()
    } else if v.len() == 1 {
        v[0]
    } else {
        joined(v.drop_last(), sep) + sep + v.last()
    }
}

/// The strings of `v` in one, with `sep` between them.
pub fn join(v: &Vec<String>, sep: &str) -> (r: String)
    ensures
        r@ == joined(strs(v@), sep@),
{
    let mut out = String::new();
    for i in 0..v.len()
        invariant
            out@ == joined(strs(v@).take(i as int), sep@),
    {
        proof {
            assert(strs(v@).take(i + 1).drop_last() =~= strs(v@).take(i as int));
            assert(strs(v@).take(i + 1).last() == v@[i as int]@);
        }
        if i > 0 {
            out.append(sep);
        }
        out.append(v[i].as_str());
        proof {
            if i == 0 {
                assert(strs(v@).take(1)[0] == v@[0]@);
                assert(out@ =~= v@[0]@);
            }
        }
    }
    proof {
        assert(strs(v@).take(v@.len() as int) =~= strs(v@));
    }
    out
}

/// Two texts in one.
pub fn concat2(a: &str, b: &str) -> (r: String)
    ensures
        r@ == a@ + b@,
{
    let mut out = a.to_owned();
    out.append(b);
    out
}

/// Three texts in one.
pub fn concat3(a: &str, b: &str, c: &str) -> (r: String)
    ensures
        r@ == a@ + b@ + c@,
{
    let mut out = a.to_owned();
    out.append(b);
    out.append(c);
    out
}

/// A decimal digit.
pub open spec fn digit(d: int) -> Seq<char> {
    if d == 0 {
        "0"@
    } else if d == 1 {
        "1"@
    } else if d == 2 {
        "2"@
    } else if d == 3 {
        "3"@
    } else if d == 4 {
        "4"@
    } else if d == 5 {
        "5"@
    } else if d == 6 {
        "6"@
    } else if d == 7 {
        "7"@
    } else if d == 8 {
        "8"@
    } else {
        "9"@
    }
}

/// The decimal spelling of a natural number.
pub open spec fn decimal(n: nat) -> Seq<char>
    decreases n,
{
    if n < 10 {
        digit(n as int)
    } else {
        decimal(n / 10) + digit((n % 10) as int)
    }
}

/// The decimal spelling of an integer.
pub open spec fn spelled(n: int) -> Seq<char> {
    if n < 0 {
        "-"@ + decimal((-n) as nat)
    } else {
        decimal(n as nat)
    }
}

/// The lower-case hexadecimal digit of a number below sixteen.
pub open spec fn hex_digit(d: int) -> char {
    "0123456789abcdef"@[d]
}

fn digit_text(d: u64) -> (r: &'static str)
    requires
        d < 10,
    ensures
        r@ == digit(d as int),
{
    match d {
        0 => "0",
        1 => "1",
        2 => "2",
        3 => "3",
        4 => "4",
        5 => "5",
        6 => "6",
        7 => "7",
        8 => "8",
        _ => "9",
    }
}

/// The decimal spelling of a natural number.
pub fn decimal_text(n: u64) -> (r: String)
    ensures
        r@ == decimal(n as nat),
    decreases n,
{
    if n < 10 {
        digit_text(n).to_owned()
    } else {
        concat2(decimal_text(n / 10).as_str(), digit_text(n % 10))
    }
}

/// The decimal spelling of an integer.
pub fn spell(n: i64) -> (r: String)
    ensures
        r@ == spelled(n as int),
{
    if n == i64::MIN {
        let r = concat2("-", decimal_text(0x8000_0000_0000_0000).as_str());
        r
    } else if n < 0 {
        concat2("-", decimal_text((-n) as u64).as_str())
    } else {
        decimal_text(n as u64)
    }
}

/// The decimal spelling of a natural number of any machine size.
pub fn decimal_wide(n: u128) -> (r: String)
    ensures
        r@ == decimal(n as nat),
    decreases n,
{
    if n < 10 {
        digit_text(n as u64).to_owned()
    } else {
        concat2(decimal_wide(n / 10).as_str(), digit_text((n % 10) as u64))
    }
}

/// The decimal spelling of an integer of any machine size.
pub fn spell_wide(n: i128) -> (r: String)
    ensures
        r@ == spelled(n as int),
{
    if n == i128::MIN {
        concat2("-", decimal_wide(0x8000_0000_0000_0000_0000_0000_0000_0000).as_str())
    } else if n < 0 {
        concat2("-", decimal_wide((-n) as u128).as_str())
    } else {
        decimal_wide(n as u128)
    }
}

/// The characters of a text.
pub fn to_chars(s: &str) -> (r: Vec<char>)
    ensures
        r@ == s@,
{
    let mut out: Vec<char> = Vec::new();
    for c in it: s.chars()
        invariant
            out@ == s@.take(it.index() as int),
            it.seq() == s@,
    {
        proof {
            assert(s@.take(it.index() + 1) =~= s@.take(it.index() as int).push(c));
        }
        out.push(c);
    }
    proof {
        assert(s@.take(s@.len() as int) =~= s@);
    }
    out
}

/// `a` comes before `b` in dictionary order, from position `i` on (the two agree before it).
pub open spec fn lex_lt_from(a: Seq<char>, b: Seq<char>, i: int) -> bool
    decreases b.len() - i,
{
    if i < 0 || i >= b.len() {
        false
    } else if i >= a.len() {
        true
    } else if a[i] == b[i] {
        lex_lt_from(a, b, i + 1)
    } else {
        (a[i] as int) < (b[i] as int)
    }
}

/// `a` comes before `b` in dictionary order of code points.
pub open spec fn lex_lt(a: Seq<char>, b: Seq<char>) -> bool {
    lex_lt_from(a, b, 0)
}

/// Whether `a` comes before `b` in dictionary order of code points.
pub fn str_lt(a: &str, b: &str) -> (r: bool)
    ensures
        r == lex_lt(a@, b@),
{
    let x = to_chars(a);
    let y = to_chars(b);
    let mut i: usize = 0;
    while i < y.len()
        invariant
            0 <= i <= y.len(),
            x@ == a@,
            y@ == b@,
            lex_lt(a@, b@) == lex_lt_from(a@, b@, i as int),
        decreases y.len() - i,
    {
        if i >= x.len() {
            return true;
        }
        if x[i] != y[i] {
            return x[i] < y[i];
        }
        i = i + 1;
    }
    false
}

proof fn lemma_lt_from_trans(a: Seq<char>, b: Seq<char>, c: Seq<char>, i: int)
    requires
        0 <= i,
        lex_lt_from(a, b, i),
        lex_lt_from(b, c, i),
    ensures
        lex_lt_from(a, c, i),
    decreases c.len() - i,
{
    if i < a.len() && i < b.len() && i < c.len() && a[i] == b[i] && b[i] == c[i] {
        lemma_lt_from_trans(a, b, c, i + 1);
    }
}

proof fn lemma_lt_from_total(a: Seq<char>, b: Seq<char>, i: int)
    requires
        0 <= i <= a.len(),
        i <= b.len(),
        a.take(i) == b.take(i),
    ensures
        lex_lt_from(a, b, i) || lex_lt_from(b, a, i) || a == b,
        !(lex_lt_from(a, b, i) && lex_lt_from(b, a, i)),
        a == b ==> !lex_lt_from(a, b, i),
    decreases a.len() - i,
{
    if i < a.len() && i < b.len() {
        if a[i] == b[i] {
            assert(a.take(i + 1) =~= a.take(i).push(a[i]));
            assert(b.take(i + 1) =~= b.take(i).push(b[i]));
            lemma_lt_from_total(a, b, i + 1);
        }
    } else if i == a.len() && i == b.len() {
        assert(a.take(i) =~= a);
        assert(b.take(i) =~= b);
    }
}

/// Dictionary order is transitive.
pub proof fn lex_lt_transitive(a: Seq<char>, b: Seq<char>, c: Seq<char>)
    requires
        lex_lt(a, b),
        lex_lt(b, c),
    ensures
        lex_lt(a, c),
{
    lemma_lt_from_trans(a, b, c, 0);
}

/// Of two texts exactly one comes first in dictionary order, or they are the same.
pub proof fn lex_lt_trichotomy(a: Seq<char>, b: Seq<char>)
    ensures
        lex_lt(a, b) || lex_lt(b, a) || a == b,
        !(lex_lt(a, b) && lex_lt(b, a)),
        !lex_lt(a, a),
{
    assert(a.take(0) =~= b.take(0));
    lemma_lt_from_total(a, b, 0);
    lemma_lt_from_total(a, a, 0);
}

/// The texts are in dictionary order, each once.
pub open spec fn strictly_sorted(v: Seq<Seq<char>>) -> bool {
    forall|i: int, j: int| 0 <= i < j < v.len() ==> lex_lt(#[trigger] v[i], #[trigger] v[j])
}

/// Two sorted lists of the same texts are the same list.
pub proof fn sorted_lists_are_unique(a: Seq<Seq<char>>, b: Seq<Seq<char>>)
    requires
        strictly_sorted(a),
        strictly_sorted(b),
        a.to_set() == b.to_set(),
    ensures
        a == b,
    decreases a.len(),
{
    assert forall|x: Seq<char>| a.contains(x) <==> #[trigger] b.contains(x) by {
        assert(a.contains(x) <==> a.to_set().contains(x));
        assert(b.contains(x) <==> b.to_set().contains(x));
    }
    if a.len() == 0 {
        if b.len() > 0 {
            assert(b.contains(b[0]));
        }
        assert(a =~= b);
    } else {
        assert(a.contains(a[0]) && b.contains(a[0]));
        let x = a.last();
        let y = b.last();
        assert(a.contains(x) && b.contains(x));
        assert(b.len() > 0);
        assert(b[b.len() - 1] == y);
        assert(b.contains(y));
        assert(a.contains(y));
        let k = b.index_of(x);
        let m = a.index_of(y);
        lex_lt_trichotomy(x, y);
        assert(x == y) by {
            if k < b.len() - 1 {
                assert(lex_lt(b[k], b[b.len() - 1]));
            }
            if m < a.len() - 1 {
                assert(lex_lt(a[m], a[a.len() - 1]));
            }
        }
        let a1 = a.drop_last();
        let b1 = b.drop_last();
        assert forall|z: Seq<char>| #[trigger] a1.to_set().contains(z) <==> b1.to_set().contains(
            z,
        ) by {
            lex_lt_trichotomy(x, x);
            if a1.contains(z) {
                let i = a1.index_of(z);
                assert(lex_lt(a[i], a[a.len() - 1]));
                assert(a.contains(z) && b.contains(z));
                let j = b.index_of(z);
                assert(j < b.len() - 1);
                assert(b1[j] == z);
            }
            if b1.contains(z) {
                let i = b1.index_of(z);
                assert(lex_lt(b[i], b[b.len() - 1]));
                assert(b[i] == z);
                assert(b.contains(z));
                assert(a.contains(z));
                let j = a.index_of(z);
                assert(j < a.len() - 1);
                assert(a1[j] == z);
            }
        }
        assert(a1.to_set() =~= b1.to_set());
        assert(strictly_sorted(a1)) by {
            assert forall|i: int, j: int| 0 <= i < j < a1.len() implies lex_lt(
                #[trigger] a1[i],
                #[trigger] a1[j],
            ) by {
                assert(lex_lt(a[i], a[j]));
            }
        }
        assert(strictly_sorted(b1)) by {
            assert forall|i: int, j: int| 0 <= i < j < b1.len() implies lex_lt(
                #[trigger] b1[i],
                #[trigger] b1[j],
            ) by {
                assert(lex_lt(b[i], b[j]));
            }
        }
        sorted_lists_are_unique(a1, b1);
        assert(a =~= a1.push(x));
        assert(b =~= b1.push(y));
    }
}

/// Puts `s` into the sorted list `v`, unless it is there already.
pub fn insert_sorted(v: &mut Vec<String>, s: &str)
    requires
        strictly_sorted(strs(old(v)@)),
    ensures
        strictly_sorted(strs(final(v)@)),
        strs(final(v)@).to_set() == strs(old(v)@).to_set().insert(s@),
{
    let ghost before = strs(v@);
    let mut i: usize = 0;
    while i < v.len() && str_lt(v[i].as_str(), s)
        invariant
            0 <= i <= v.len(),
            before == strs(v@),
            v@ == old(v)@,
            strictly_sorted(before),
            forall|j: int| 0 <= j < i ==> lex_lt(#[trigger] before[j], s@),
        decreases v.len() - i,
    {
        i = i + 1;
    }
    proof {
        assert(i < before.len() ==> before[i as int] == v@[i as int]@);
    }
    if i < v.len() && str_eq(v[i].as_str(), s) {
        proof {
            assert(before[i as int] == s@);
            assert(before.to_set().contains(s@));
            assert(before.to_set().insert(s@) =~= before.to_set());
        }
        return ;
    }
    v.insert(i, s.to_owned());
    proof {
        let after = strs(v@);
        assert(after =~= before.insert(i as int, s@));
        assert forall|a: int, b: int| 0 <= a < b < after.len() implies lex_lt(
            #[trigger] after[a],
            #[trigger] after[b],
        ) by {
            if i < before.len() {
                lex_lt_trichotomy(before[i as int], s@);
            }
            if b < i {
                assert(lex_lt(before[a], before[b]));
            } else if b == i {
            } else if a == i {
                if b - 1 > i {
                    assert(lex_lt(before[i as int], before[b - 1]));
                    lex_lt_transitive(s@, before[i as int], before[b - 1]);
                }
            } else if a < i {
                if b - 1 == i {
                    lex_lt_transitive(before[a], s@, before[b - 1]);
                } else {
                    assert(lex_lt(before[a], before[b - 1]));
                }
            } else {
                assert(lex_lt(before[a - 1], before[b - 1]));
            }
        }
        assert(after.to_set() =~= before.to_set().insert(s@)) by {
            assert forall|x: Seq<char>| after.to_set().contains(x) <==> #[trigger] before.to_set().insert(s@).contains(x) by {
                if before.contains(x) {
                    let k = before.index_of(x);
                    if k < i {
                        assert(after[k] == x);
                    } else {
                        assert(after[k + 1] == x);
                    }
                }
                if after.contains(x) {
                    let k = after.index_of(x);
                    if k < i {
                        assert(before[k] == x);
                    } else if k > i {
                        assert(before[k - 1] == x);
                    }
                }
                assert(after[i as int] == s@);
            }
        }
    }
}

/// A sorted list with a text put in its place, unless it is there.
pub open spec fn sorted_with(ks: Seq<Seq<char>>, s: Seq<char>) -> Seq<Seq<char>>
    decreases ks.len(),
{
    if ks.len() == 0 || lex_lt(ks.last(), s) {
        ks.push(s)
    } else if ks.last() == s {
        ks
    } else {
        sorted_with(ks.drop_last(), s).push(ks.last())
    }
}

/// The texts of a list in their order, each once.
pub open spec fn sorting(vs: Seq<Seq<char>>) -> Seq<Seq<char>>
    decreases vs.len(),
{
    if vs.len() == 0 {
        Seq::empty()
    } else {
        sorted_with(sorting(vs.drop_last()), vs.last())
    }
}

proof fn lemma_sorted_with(ks: Seq<Seq<char>>, s: Seq<char>)
    requires
        strictly_sorted(ks),
    ensures
        strictly_sorted(sorted_with(ks, s)),
        forall|x: Seq<char>| #[trigger]
            sorted_with(ks, s).contains(x) <==> ks.contains(x) || x == s,
    decreases ks.len(),
{
    let out = sorted_with(ks, s);
    if ks.len() == 0 || lex_lt(ks.last(), s) {
        assert forall|i: int, j: int| 0 <= i < j < out.len() implies lex_lt(
            #[trigger] out[i],
            #[trigger] out[j],
        ) by {
            if j == ks.len() && i < ks.len() - 1 {
                lex_lt_transitive(ks[i], ks.last(), s);
            }
        }
        lemma_pushed(ks, s);
    } else if ks.last() == s {
        assert(ks[ks.len() - 1] == s);
    } else {
        let rest = ks.drop_last();
        let last = ks.last();
        assert(strictly_sorted(rest)) by {
            assert forall|i: int, j: int| 0 <= i < j < rest.len() implies lex_lt(
                #[trigger] rest[i],
                #[trigger] rest[j],
            ) by {
                assert(rest[i] == ks[i] && rest[j] == ks[j]);
            }
        }
        lemma_sorted_with(rest, s);
        lex_lt_trichotomy(last, s);
        let mid = sorted_with(rest, s);
        assert forall|i: int, j: int| 0 <= i < j < out.len() implies lex_lt(
            #[trigger] out[i],
            #[trigger] out[j],
        ) by {
            if j == mid.len() {
                assert(mid.contains(out[i])) by {
                    assert(mid[i] == out[i]);
                }
                if out[i] != s {
                    let k = rest.index_of(out[i]);
                    assert(rest[k] == ks[k]);
                    assert(lex_lt(ks[k], ks[ks.len() - 1]));
                }
            }
        }
        lemma_pushed(mid, last);
        lemma_pushed(rest, last);
        assert(ks =~= rest.push(last));
    }
}

proof fn lemma_pushed(ks: Seq<Seq<char>>, s: Seq<char>)
    ensures
        forall|x: Seq<char>| #[trigger] ks.push(s).contains(x) <==> ks.contains(x) || x == s,
{
    assert forall|x: Seq<char>| #[trigger] ks.push(s).contains(x) <==> ks.contains(x) || x == s by {
        if ks.contains(x) {
            assert(ks.push(s)[ks.index_of(x)] == x);
        }
        assert(ks.push(s)[ks.len() as int] == s);
    }
}

/// A sorting is in order and holds the texts that the list holds.
pub proof fn sorting_keeps_the_texts(vs: Seq<Seq<char>>)
    ensures
        strictly_sorted(sorting(vs)),
        forall|x: Seq<char>| #[trigger] sorting(vs).contains(x) <==> vs.contains(x),
    decreases vs.len(),
{
    if vs.len() > 0 {
        let rest = vs.drop_last();
        sorting_keeps_the_texts(rest);
        lemma_sorted_with(sorting(rest), vs.last());
        lemma_pushed(rest, vs.last());
        assert(vs =~= rest.push(vs.last()));
    }
}

/// The texts of a list in their order, each once.
pub fn sorted_set(v: &Vec<String>) -> (r: Vec<String>)
    ensures
        strs(r@) == sorting(strs(v@)),
{
    let ghost all = strs(v@);
    let mut out: Vec<String> = Vec::new();
    let mut i: usize = 0;
    assert(strs(out@) =~= sorting(all.take(0)));
    while i < v.len()
        invariant
            i <= v@.len(),
            all == strs(v@),
            strictly_sorted(strs(out@)),
            strs(out@) == sorting(all.take(i as int)),
        decreases v.len() - i,
    {
        let ghost before = strs(out@);
        insert_sorted(&mut out, v[i].as_str());
        proof {
            let s = all[i as int];
            assert(all.take(i + 1).drop_last() =~= all.take(i as int));
            assert(all.take(i + 1).last() == s);
            lemma_sorted_with(before, s);
            let want = sorted_with(before, s);
            assert(strs(out@).to_set() =~= want.to_set()) by {
                assert forall|x: Seq<char>| #[trigger] strs(out@).to_set().contains(x)
                    <==> want.to_set().contains(x) by {
                    assert(want.contains(x) <==> before.contains(x) || x == s);
                    assert(before.to_set().contains(x) <==> before.contains(x));
                }
            }
            sorted_lists_are_unique(strs(out@), want);
        }
        i = i + 1;
    }
    assert(all.take(i as int) =~= all);
    out
}

/// Texts in one stand one behind the other: one alone is itself, and those of two lists have one
/// separator between the two.
pub proof fn joined_texts_follow_each_other(
    a: Seq<Seq<char>>,
    b: Seq<Seq<char>>,
    x: Seq<char>,
    sep: Seq<char>,
)
    requires
        a.len() > 0,
        b.len() > 0,
    ensures
        joined(seq![x], sep) == x,
        joined(a + b, sep) == joined(a, sep) + sep + joined(b, sep),
    decreases b.len(),
{
    assert((a + b).drop_last() =~= a + b.drop_last());
    assert((a + b).last() == b.last());
    if b.len() == 1 {
        assert(a + b.drop_last() =~= a);
    } else {
        joined_texts_follow_each_other(a, b.drop_last(), x, sep);
        assert(joined(a + b, sep) =~= joined(a, sep) + sep + joined(b, sep));
    }
}

proof fn lemma_lex_behind(p: Seq<char>, a: Seq<char>, b: Seq<char>, i: int)
    requires
        0 <= i <= p.len(),
    ensures
        lex_lt_from(p + a, p + b, i) == lex_lt_from(p + a, p + b, p.len() as int),
    decreases p.len() - i,
{
    if i < p.len() {
        assert((p + a)[i] == p[i] && (p + b)[i] == p[i]);
        lemma_lex_behind(p, a, b, i + 1);
    }
}

/// Dictionary order: the first character in which two texts differ decides, and a text comes before
/// every longer one that begins with it.
pub proof fn first_difference_decides(
    p: Seq<char>,
    x: char,
    y: char,
    a: Seq<char>,
    b: Seq<char>,
)
    requires
        (x as int) < (y as int),
    ensures
        lex_lt(p + (seq![x] + a), p + (seq![y] + b)),
        !lex_lt(p + (seq![y] + b), p + (seq![x] + a)),
        lex_lt(p, p + (seq![x] + a)),
        !lex_lt(p, p),
{
    let n = p.len() as int;
    lemma_lex_behind(p, seq![x] + a, seq![y] + b, 0);
    lemma_lex_behind(p, seq![y] + b, seq![x] + a, 0);
    assert((p + (seq![x] + a))[n] == x);
    assert((p + (seq![y] + b))[n] == y);
    let none = Seq::<char>::empty();
    assert(p + none =~= p);
    lemma_lex_behind(p, none, seq![x] + a, 0);
    lemma_lex_behind(p, none, none, 0);
}

} // verus!
