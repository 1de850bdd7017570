//! The order of literals: variants in the order in which they are listed, and among literals of one
//! variant the parts, one after the other. It is the dictionary order of a code.
use vstd::prelude::*;

use crate::categorize::expr::{
    own_read, parent_prefix, Literal, LiteralV, NumOp, Predicate, PredicateV, Scope, TagRead, TagReadV,
};
use crate::lang::extract::{Extract, ExtractV};
use crate::lang::sanitize::{
    AtomicJson, AtomicV, ReplaceAt, ReplaceRule, ReplaceV, Sanitizer, SanitizerV,
};
use crate::model::{models, Model};
use crate::text::{lex_lt, lex_lt_from, to_chars};

verus! {

/// A mathematical type whose values are told apart by a code, no code being the start of another.
pub trait Coded: Sized {
    /// The code.
    spec fn code(self) -> Seq<u64>;

    /// Where codes with something behind them are the same, so are the values and what is behind.
    proof fn code_is_unique(a: Self, b: Self, x: Seq<u64>, y: Seq<u64>)
        requires
            a.code() + x == b.code() + y,
        ensures
            a == b,
            x == y,
    ;
}

proof fn lemma_heads(a: u64, b: u64, x: Seq<u64>, y: Seq<u64>)
    requires
        seq![a] + x == seq![b] + y,
    ensures
        a == b,
        x == y,
{
    assert((seq![a] + x)[0] == a);
    assert((seq![b] + y)[0] == b);
    assert((seq![a] + x).skip(1) =~= x);
    assert((seq![b] + y).skip(1) =~= y);
}

/// A number in front of a code.
#[verifier::opaque]
pub open spec fn tagged<T: Coded>(k: u64, t: T) -> Seq<u64> {
    seq![k] + t.code()
}

broadcast proof fn lemma_starts<T: Coded>(k: u64, t: T)
    ensures
        (#[trigger] tagged(k, t)).len() > 0,
        tagged(k, t)[0] == k,
{
    reveal(tagged);
}

proof fn lemma_tagged<T: Coded, U: Coded>(k: u64, t: T, j: u64, u: U, x: Seq<u64>, y: Seq<u64>)
    requires
        tagged(k, t) + x == tagged(j, u) + y,
    ensures
        k == j,
        t.code() + x == u.code() + y,
{
    reveal(tagged);
    assert(tagged(k, t) + x =~= seq![k] + (t.code() + x));
    assert(tagged(j, u) + y =~= seq![j] + (u.code() + y));
    lemma_heads(k, j, t.code() + x, u.code() + y);
}

impl Coded for () {
    open spec fn code(self) -> Seq<u64> {
        Seq::empty()
    }

    proof fn code_is_unique(a: Self, b: Self, x: Seq<u64>, y: Seq<u64>) {
        assert(a.code() + x =~= x);
        assert(b.code() + y =~= y);
    }
}

impl Coded for u64 {
    open spec fn code(self) -> Seq<u64> {
        seq![self]
    }

    proof fn code_is_unique(a: Self, b: Self, x: Seq<u64>, y: Seq<u64>) {
        lemma_heads(a, b, x, y);
    }
}

impl Coded for bool {
    open spec fn code(self) -> Seq<u64> {
        seq![if self { 1u64 } else { 0u64 }]
    }

    proof fn code_is_unique(a: Self, b: Self, x: Seq<u64>, y: Seq<u64>) {
        lemma_heads(
            if a { 1u64 } else { 0u64 },
            if b { 1u64 } else { 0u64 },
            x,
            y,
        );
    }
}

proof fn lemma_chars(a: char, b: char)
    requires
        a as u32 == b as u32,
    ensures
        a == b,
{
}

impl Coded for char {
    open spec fn code(self) -> Seq<u64> {
        seq![self as u32 as u64]
    }

    proof fn code_is_unique(a: Self, b: Self, x: Seq<u64>, y: Seq<u64>) {
        lemma_heads(a as u32 as u64, b as u32 as u64, x, y);
        lemma_chars(a, b);
    }
}

impl<A: Coded, B: Coded> Coded for (A, B) {
    open spec fn code(self) -> Seq<u64> {
        self.0.code() + self.1.code()
    }

    proof fn code_is_unique(a: Self, b: Self, x: Seq<u64>, y: Seq<u64>) {
        assert(a.code() + x =~= a.0.code() + (a.1.code() + x));
        assert(b.code() + y =~= b.0.code() + (b.1.code() + y));
        A::code_is_unique(a.0, b.0, a.1.code() + x, b.1.code() + y);
        B::code_is_unique(a.1, b.1, x, y);
    }
}

impl<T: Coded> Coded for Option<T> {
    open spec fn code(self) -> Seq<u64> {
        match self {
            None => tagged(0, ()),
            Some(t) => tagged(1, t),
        }
    }

    proof fn code_is_unique(a: Self, b: Self, x: Seq<u64>, y: Seq<u64>) {
        broadcast use lemma_starts;

        assert((a.code() + x)[0] == a.code()[0]);
        assert((b.code() + y)[0] == b.code()[0]);
        match (a, b) {
            (Some(t), Some(u)) => {
                lemma_tagged(1, t, 1, u, x, y);
                T::code_is_unique(t, u, x, y);
            },
            (None, None) => {
                lemma_tagged(0, (), 0, (), x, y);
                <() as Coded>::code_is_unique((), (), x, y);
            },
            _ => {},
        }
    }
}

/// The code of a list: each item behind a one, and a zero at the end.
pub open spec fn list_code<T: Coded>(s: Seq<T>) -> Seq<u64>
    decreases s.len(),
{
    if s.len() == 0 {
        seq![0u64]
    } else {
        seq![1u64] + s[0].code() + list_code(s.skip(1))
    }
}

proof fn lemma_list_starts<T: Coded>(s: Seq<T>)
    ensures
        list_code(s).len() > 0,
        list_code(s)[0] == (if s.len() == 0 {
            0u64
        } else {
            1u64
        }),
{
}

proof fn lemma_list_unique<T: Coded>(a: Seq<T>, b: Seq<T>, x: Seq<u64>, y: Seq<u64>)
    requires
        list_code(a) + x == list_code(b) + y,
    ensures
        a == b,
        x == y,
    decreases a.len(),
{
    lemma_list_starts(a);
    lemma_list_starts(b);
    assert((list_code(a) + x)[0] == list_code(a)[0]);
    assert((list_code(b) + y)[0] == list_code(b)[0]);
    if a.len() == 0 {
        assert(b.len() == 0);
        lemma_heads(0, 0, x, y);
        assert(a =~= b);
    } else {
        assert(b.len() > 0);
        let p = list_code(a.skip(1)) + x;
        let q = list_code(b.skip(1)) + y;
        assert(list_code(a) + x =~= seq![1u64] + (a[0].code() + p));
        assert(list_code(b) + y =~= seq![1u64] + (b[0].code() + q));
        lemma_heads(1, 1, a[0].code() + p, b[0].code() + q);
        T::code_is_unique(a[0], b[0], p, q);
        lemma_list_unique(a.skip(1), b.skip(1), x, y);
        assert(a =~= seq![a[0]] + a.skip(1));
        assert(b =~= seq![b[0]] + b.skip(1));
    }
}

impl<T: Coded> Coded for Seq<T> {
    open spec fn code(self) -> Seq<u64> {
        list_code(self)
    }

    proof fn code_is_unique(a: Self, b: Self, x: Seq<u64>, y: Seq<u64>) {
        lemma_list_unique(a, b, x, y);
    }
}

impl Coded for AtomicV {
    open spec fn code(self) -> Seq<u64> {
        match self {
            AtomicV::Str(s) => tagged(0, s),
            AtomicV::Bool(b) => tagged(1, b),
            AtomicV::Num(n) => tagged(2, n),
        }
    }

    proof fn code_is_unique(a: Self, b: Self, x: Seq<u64>, y: Seq<u64>) {
        broadcast use lemma_starts;

        assert((a.code() + x)[0] == a.code()[0]);
        assert((b.code() + y)[0] == b.code()[0]);
        match (a, b) {
            (AtomicV::Str(s), AtomicV::Str(t)) => {
                lemma_tagged(0, s, 0, t, x, y);
                Coded::code_is_unique(s, t, x, y);
            },
            (AtomicV::Bool(s), AtomicV::Bool(t)) => {
                lemma_tagged(1, s, 1, t, x, y);
                Coded::code_is_unique(s, t, x, y);
            },
            (AtomicV::Num(s), AtomicV::Num(t)) => {
                lemma_tagged(2, s, 2, t, x, y);
                Coded::code_is_unique(s, t, x, y);
            },
            _ => {},
        }
    }
}

/// A rewrite as its parts.
pub open spec fn rule_parts(r: ReplaceV) -> (Seq<char>, (Seq<char>, bool)) {
    (r.from, (r.to, r.at is Prefix))
}

impl Coded for ReplaceV {
    open spec fn code(self) -> Seq<u64> {
        rule_parts(self).code()
    }

    proof fn code_is_unique(a: Self, b: Self, x: Seq<u64>, y: Seq<u64>) {
        Coded::code_is_unique(rule_parts(a), rule_parts(b), x, y);
    }
}

impl Coded for SanitizerV {
    open spec fn code(self) -> Seq<u64> {
        match self {
            SanitizerV::Mapping { mapping, on_miss } => tagged(0, (mapping, on_miss)),
            SanitizerV::Replace { replace } => tagged(1, replace),
            SanitizerV::Builtin(_) => tagged(2, ()),
        }
    }

    proof fn code_is_unique(a: Self, b: Self, x: Seq<u64>, y: Seq<u64>) {
        broadcast use lemma_starts;

        assert((a.code() + x)[0] == a.code()[0]);
        assert((b.code() + y)[0] == b.code()[0]);
        match (a, b) {
            (
                SanitizerV::Mapping { mapping: m, on_miss: o },
                SanitizerV::Mapping { mapping: n, on_miss: p },
            ) => {
                lemma_tagged(0, (m, o), 0, (n, p), x, y);
                Coded::code_is_unique((m, o), (n, p), x, y);
            },
            (SanitizerV::Replace { replace: m }, SanitizerV::Replace { replace: n }) => {
                lemma_tagged(1, m, 1, n, x, y);
                Coded::code_is_unique(m, n, x, y);
            },
            (SanitizerV::Builtin(_), SanitizerV::Builtin(_)) => {
                lemma_tagged(2, (), 2, (), x, y);
                <() as Coded>::code_is_unique((), (), x, y);
            },
            _ => {},
        }
    }
}

/// A tag read as its parts: whether it reads one key, the keys as they are spelled, the steps, and
/// whose tags they are.
pub open spec fn read_parts(e: TagReadV) -> (bool, (Seq<Seq<char>>, (Seq<SanitizerV>, bool))) {
    (e.extract is Value, (e.names(), (e.extract.chain(), e.scope is Parent)))
}

impl Coded for TagReadV {
    open spec fn code(self) -> Seq<u64> {
        read_parts(self).code()
    }

    proof fn code_is_unique(a: Self, b: Self, x: Seq<u64>, y: Seq<u64>) {
        Coded::code_is_unique(read_parts(a), read_parts(b), x, y);
        let m = a.extract.keys();
        let n = b.extract.keys();
        assert(m.len() == a.names().len() && n.len() == b.names().len());
        assert forall|i: int| 0 <= i < m.len() implies m[i] == n[i] by {
            if a.scope is Parent {
                assert(a.names()[i] == parent_prefix() + m[i]);
                assert(b.names()[i] == parent_prefix() + n[i]);
                let k = parent_prefix().len() as int;
                assert((parent_prefix() + m[i]).skip(k) =~= m[i]);
                assert((parent_prefix() + n[i]).skip(k) =~= n[i]);
            }
        }
        assert(m =~= n);
        match (a.extract, b.extract) {
            (ExtractV::Value { key: k, .. }, ExtractV::Value { key: l, .. }) => {
                assert(m[0] == k && n[0] == l);
            },
            _ => {},
        }
    }
}

/// Where an operator stands.
pub open spec fn op_rank(op: NumOp) -> u64 {
    match op {
        NumOp::Lt => 0,
        NumOp::Lte => 1,
        NumOp::Gt => 2,
        NumOp::Gte => 3,
    }
}

impl Coded for PredicateV {
    open spec fn code(self) -> Seq<u64> {
        match self {
            PredicateV::Eq(e, v) => tagged(0, (e, v)),
            PredicateV::Contains(e, v, ci) => tagged(1, (e, (v, ci))),
            PredicateV::StartsWith(e, v) => tagged(2, (e, v)),
            PredicateV::EndsWith(e, v) => tagged(3, (e, v)),
            PredicateV::Exists(e) => tagged(4, e),
            PredicateV::FirstTagIn(e, vs) => tagged(5, (e, vs)),
            PredicateV::Num(e, op, bits) => tagged(6, (e, (op_rank(op), bits))),
            PredicateV::HasKeyPrefix(s, v) => tagged(7, (v, s is Parent)),
            PredicateV::HasParent => tagged(8, ()),
            PredicateV::Prefix(v) => tagged(9, v),
            PredicateV::Infix(v) => tagged(10, v),
            PredicateV::Side(v) => tagged(11, v),
            PredicateV::TagsEmpty(s) => tagged(12, s is Parent),
            PredicateV::IsNum(e) => tagged(13, e),
        }
    }

    proof fn code_is_unique(a: Self, b: Self, x: Seq<u64>, y: Seq<u64>) {
        broadcast use lemma_starts;

        assert((a.code() + x)[0] == a.code()[0]);
        assert((b.code() + y)[0] == b.code()[0]);
        match (a, b) {
            (PredicateV::Eq(e, v), PredicateV::Eq(f, w)) => {
                lemma_tagged(0, (e, v), 0, (f, w), x, y);
                Coded::code_is_unique((e, v), (f, w), x, y);
            },
            (PredicateV::Contains(e, v, c), PredicateV::Contains(f, w, d)) => {
                lemma_tagged(1, (e, (v, c)), 1, (f, (w, d)), x, y);
                Coded::code_is_unique((e, (v, c)), (f, (w, d)), x, y);
            },
            (PredicateV::StartsWith(e, v), PredicateV::StartsWith(f, w)) => {
                lemma_tagged(2, (e, v), 2, (f, w), x, y);
                Coded::code_is_unique((e, v), (f, w), x, y);
            },
            (PredicateV::EndsWith(e, v), PredicateV::EndsWith(f, w)) => {
                lemma_tagged(3, (e, v), 3, (f, w), x, y);
                Coded::code_is_unique((e, v), (f, w), x, y);
            },
            (PredicateV::Exists(e), PredicateV::Exists(f)) => {
                lemma_tagged(4, e, 4, f, x, y);
                Coded::code_is_unique(e, f, x, y);
            },
            (PredicateV::FirstTagIn(e, v), PredicateV::FirstTagIn(f, w)) => {
                lemma_tagged(5, (e, v), 5, (f, w), x, y);
                Coded::code_is_unique((e, v), (f, w), x, y);
            },
            (PredicateV::Num(e, o, v), PredicateV::Num(f, p, w)) => {
                let s = (e, (op_rank(o), v));
                let t = (f, (op_rank(p), w));
                lemma_tagged(6, s, 6, t, x, y);
                Coded::code_is_unique(s, t, x, y);
            },
            (PredicateV::HasKeyPrefix(s, v), PredicateV::HasKeyPrefix(t, w)) => {
                lemma_tagged(7, (v, s is Parent), 7, (w, t is Parent), x, y);
                Coded::code_is_unique((v, s is Parent), (w, t is Parent), x, y);
            },
            (PredicateV::HasParent, PredicateV::HasParent) => {
                lemma_tagged(8, (), 8, (), x, y);
                <() as Coded>::code_is_unique((), (), x, y);
            },
            (PredicateV::Prefix(v), PredicateV::Prefix(w)) => {
                lemma_tagged(9, v, 9, w, x, y);
                Coded::code_is_unique(v, w, x, y);
            },
            (PredicateV::Infix(v), PredicateV::Infix(w)) => {
                lemma_tagged(10, v, 10, w, x, y);
                Coded::code_is_unique(v, w, x, y);
            },
            (PredicateV::Side(v), PredicateV::Side(w)) => {
                lemma_tagged(11, v, 11, w, x, y);
                Coded::code_is_unique(v, w, x, y);
            },
            (PredicateV::TagsEmpty(s), PredicateV::TagsEmpty(t)) => {
                lemma_tagged(12, s is Parent, 12, t is Parent, x, y);
                Coded::code_is_unique(s is Parent, t is Parent, x, y);
            },
            (PredicateV::IsNum(e), PredicateV::IsNum(f)) => {
                lemma_tagged(13, e, 13, f, x, y);
                Coded::code_is_unique(e, f, x, y);
            },
            _ => {},
        }
    }
}

impl Coded for LiteralV {
    open spec fn code(self) -> Seq<u64> {
        match self {
            LiteralV::Pos(p) => tagged(0, p),
            LiteralV::Neg(p) => tagged(1, p),
        }
    }

    proof fn code_is_unique(a: Self, b: Self, x: Seq<u64>, y: Seq<u64>) {
        broadcast use lemma_starts;

        assert((a.code() + x)[0] == a.code()[0]);
        assert((b.code() + y)[0] == b.code()[0]);
        match (a, b) {
            (LiteralV::Pos(p), LiteralV::Pos(q)) => {
                lemma_tagged(0, p, 0, q, x, y);
                Coded::code_is_unique(p, q, x, y);
            },
            (LiteralV::Neg(p), LiteralV::Neg(q)) => {
                lemma_tagged(1, p, 1, q, x, y);
                Coded::code_is_unique(p, q, x, y);
            },
            _ => {},
        }
    }
}

// ── Dictionary order ────────────────────────────────────────────────────────────────────────

/// `a` comes before `b` in dictionary order, from position `i` on (the two agree before it).
pub open spec fn code_lt_from(a: Seq<u64>, b: Seq<u64>, i: int) -> bool
    decreases b.len() - i,
{
    if i < 0 || i >= b.len() {
        false
    } else if i >= a.len() {
        true
    } else if a[i] == b[i] {
        code_lt_from(a, b, i + 1)
    } else {
        a[i] < b[i]
    }
}

/// `a` comes before `b` in the order of literals.
pub open spec fn comes_before(a: LiteralV, b: LiteralV) -> bool {
    code_lt_from(a.code(), b.code(), 0)
}

proof fn lemma_trans(a: Seq<u64>, b: Seq<u64>, c: Seq<u64>, i: int)
    requires
        0 <= i,
        code_lt_from(a, b, i),
        code_lt_from(b, c, i),
    ensures
        code_lt_from(a, c, i),
    decreases c.len() - i,
{
    if i < a.len() && i < b.len() && i < c.len() && a[i] == b[i] && b[i] == c[i] {
        lemma_trans(a, b, c, i + 1);
    }
}

proof fn lemma_total(a: Seq<u64>, b: Seq<u64>, i: int)
    requires
        0 <= i <= a.len(),
        i <= b.len(),
        a.take(i) == b.take(i),
    ensures
        code_lt_from(a, b, i) || code_lt_from(b, a, i) || a == b,
        !(code_lt_from(a, b, i) && code_lt_from(b, a, i)),
        a == b ==> !code_lt_from(a, b, i),
    decreases a.len() - i,
{
    if i < a.len() && i < b.len() {
        if a[i] == b[i] {
            assert(a.take(i + 1) =~= a.take(i).push(a[i]));
            assert(b.take(i + 1) =~= b.take(i).push(b[i]));
            lemma_total(a, b, i + 1);
        }
    } else if i == a.len() && i == b.len() {
        assert(a.take(i) =~= a);
        assert(b.take(i) =~= b);
    }
}

/// The order of literals is transitive.
pub proof fn literal_order_is_transitive(a: LiteralV, b: LiteralV, c: LiteralV)
    requires
        comes_before(a, b),
        comes_before(b, c),
    ensures
        comes_before(a, c),
{
    lemma_trans(a.code(), b.code(), c.code(), 0);
}

/// Of two literals exactly one comes first, or they are the same.
pub proof fn literal_order_is_total(a: LiteralV, b: LiteralV)
    ensures
        comes_before(a, b) || comes_before(b, a) || a == b,
        !(comes_before(a, b) && comes_before(b, a)),
        !comes_before(a, a),
{
    assert(a.code().take(0) =~= b.code().take(0));
    lemma_total(a.code(), b.code(), 0);
    lemma_total(a.code(), a.code(), 0);
    if a.code() == b.code() {
        let none = Seq::<u64>::empty();
        assert(a.code() + none == b.code() + none);
        LiteralV::code_is_unique(a, b, none, none);
    }
}

/// The literals are in their order, each once.
pub open spec fn strictly_ordered(ls: Seq<LiteralV>) -> bool {
    forall|i: int, j: int|
        0 <= i < j < ls.len() ==> comes_before(#[trigger] ls[i], #[trigger] ls[j])
}

/// An ordered list with a literal put in its place, unless it is there.
pub open spec fn placed(ls: Seq<LiteralV>, l: LiteralV) -> Seq<LiteralV>
    decreases ls.len(),
{
    if ls.len() == 0 || comes_before(ls.last(), l) {
        ls.push(l)
    } else if ls.last() == l {
        ls
    } else {
        placed(ls.drop_last(), l).push(ls.last())
    }
}

/// The literals of a list in their order, each once.
pub open spec fn arranged(ls: Seq<LiteralV>) -> Seq<LiteralV>
    decreases ls.len(),
{
    if ls.len() == 0 {
        Seq::empty()
    } else {
        placed(arranged(ls.drop_last()), ls.last())
    }
}

proof fn lemma_pushed(s: Seq<LiteralV>, x: LiteralV, y: LiteralV)
    ensures
        s.push(x).contains(y) <==> s.contains(y) || x == y,
{
    if s.contains(y) {
        assert(s.push(x)[s.index_of(y)] == y);
    }
    assert(s.push(x)[s.len() as int] == x);
    if s.push(x).contains(y) {
        let i = s.push(x).index_of(y);
        if i < s.len() {
            assert(s[i] == y);
        }
    }
}

proof fn lemma_placed(ls: Seq<LiteralV>, l: LiteralV)
    requires
        strictly_ordered(ls),
    ensures
        strictly_ordered(placed(ls, l)),
        forall|x: LiteralV| #[trigger] placed(ls, l).contains(x) <==> ls.contains(x) || x == l,
    decreases ls.len(),
{
    let out = placed(ls, l);
    if ls.len() == 0 || comes_before(ls.last(), l) {
        assert forall|i: int, j: int| 0 <= i < j < out.len() implies comes_before(
            #[trigger] out[i],
            #[trigger] out[j],
        ) by {
            if j == ls.len() && i < ls.len() - 1 {
                literal_order_is_transitive(ls[i], ls.last(), l);
            }
        }
        assert forall|x: LiteralV| #[trigger] out.contains(x) <==> ls.contains(x) || x == l by {
            lemma_pushed(ls, l, x);
        }
    } else if ls.last() == l {
        assert(ls[ls.len() - 1] == l);
    } else {
        let rest = ls.drop_last();
        let last = ls.last();
        assert(strictly_ordered(rest)) by {
            assert forall|i: int, j: int| 0 <= i < j < rest.len() implies comes_before(
                #[trigger] rest[i],
                #[trigger] rest[j],
            ) by {
                assert(rest[i] == ls[i] && rest[j] == ls[j]);
            }
        }
        lemma_placed(rest, l);
        literal_order_is_total(last, l);
        let mid = placed(rest, l);
        assert forall|i: int, j: int| 0 <= i < j < out.len() implies comes_before(
            #[trigger] out[i],
            #[trigger] out[j],
        ) by {
            if j == mid.len() {
                assert(mid.contains(mid[i]));
                if out[i] != l {
                    let k = rest.index_of(out[i]);
                    assert(rest[k] == ls[k]);
                    assert(comes_before(ls[k], ls[ls.len() - 1]));
                }
            } else {
                assert(out[i] == mid[i] && out[j] == mid[j]);
            }
        }
        assert forall|x: LiteralV| #[trigger] out.contains(x) <==> ls.contains(x) || x == l by {
            lemma_pushed(mid, last, x);
            lemma_pushed(rest, last, x);
            assert(mid.contains(x) <==> rest.contains(x) || x == l);
            assert(ls =~= rest.push(last));
        }
    }
}

/// Arranging keeps the literals, puts them in their order, and keeps each once.
pub proof fn arranging_keeps_the_literals(ls: Seq<LiteralV>)
    ensures
        strictly_ordered(arranged(ls)),
        forall|l: LiteralV| #[trigger] arranged(ls).contains(l) <==> ls.contains(l),
    decreases ls.len(),
{
    if ls.len() > 0 {
        let rest = ls.drop_last();
        arranging_keeps_the_literals(rest);
        lemma_placed(arranged(rest), ls.last());
        assert forall|l: LiteralV| #[trigger] arranged(ls).contains(l) <==> ls.contains(l) by {
            lemma_pushed(rest, ls.last(), l);
            assert(arranged(rest).contains(l) <==> rest.contains(l));
            assert(ls =~= rest.push(ls.last()));
        }
    }
}

// ── What the order goes by ──────────────────────────────────────────────────────────────────

proof fn lemma_behind(p: Seq<u64>, a: Seq<u64>, b: Seq<u64>, i: int)
    requires
        0 <= i,
    ensures
        code_lt_from(p + a, p + b, p.len() + i) == code_lt_from(a, b, i),
    decreases b.len() - i,
{
    if i < b.len() {
        assert((p + b)[p.len() + i] == b[i]);
        if i < a.len() {
            assert((p + a)[p.len() + i] == a[i]);
        }
        lemma_behind(p, a, b, i + 1);
    }
}

proof fn lemma_same_start(p: Seq<u64>, a: Seq<u64>, b: Seq<u64>, i: int)
    requires
        0 <= i <= p.len(),
    ensures
        code_lt_from(p + a, p + b, i) == code_lt_from(a, b, 0),
    decreases p.len() - i,
{
    if i < p.len() {
        assert((p + a)[i] == p[i] && (p + b)[i] == p[i]);
        lemma_same_start(p, a, b, i + 1);
    } else {
        lemma_behind(p, a, b, 0);
    }
}

proof fn lemma_text_order(s: Seq<char>, t: Seq<char>, i: int, x: Seq<u64>, y: Seq<u64>)
    requires
        0 <= i <= s.len(),
        i <= t.len(),
        lex_lt_from(s, t, i),
    ensures
        code_lt_from(list_code(s.skip(i)) + x, list_code(t.skip(i)) + y, 0),
    decreases t.len() - i,
{
    let a = list_code(s.skip(i)) + x;
    let b = list_code(t.skip(i)) + y;
    lemma_list_starts(s.skip(i));
    lemma_list_starts(t.skip(i));
    assert(a[0] == list_code(s.skip(i))[0]);
    assert(b[0] == list_code(t.skip(i))[0]);
    if i < s.len() {
        lemma_list_step(s, i);
        lemma_list_step(t, i);
        let c = s[i];
        let d = t[i];
        let p = list_code(s.skip(i + 1)) + x;
        let q = list_code(t.skip(i + 1)) + y;
        assert(a =~= seq![1u64] + (c.code() + p));
        assert(b =~= seq![1u64] + (d.code() + q));
        lemma_same_start(seq![1u64], c.code() + p, d.code() + q, 0);
        if c == d {
            lemma_same_start(c.code(), p, q, 0);
            lemma_text_order(s, t, i + 1, x, y);
        } else {
            assert((c.code() + p)[0] == c as u32 as u64);
            assert((d.code() + q)[0] == d as u32 as u64);
            lemma_char_order(c, d);
        }
    }
}

proof fn lemma_char_order(c: char, d: char)
    requires
        (c as int) < (d as int),
    ensures
        (c as u32 as u64) < (d as u32 as u64),
{
}

/// A read of one key of the object's own, as it stands.
pub open spec fn plain_read(key: Seq<char>) -> TagReadV {
    own_read(ExtractV::Value { key, sanitize: Seq::empty() })
}

/// What stands in front of the key in the code of an equality.
spec fn before_key(denied: bool) -> Seq<u64> {
    seq![if denied { 1u64 } else { 0u64 }, 0u64, 1u64, 1u64]
}

spec fn behind_key(v: Seq<char>) -> Seq<u64> {
    seq![0u64, 0u64, 0u64] + list_code(v)
}

proof fn lemma_equality_code(key: Seq<char>, v: Seq<char>)
    ensures
        LiteralV::Pos(PredicateV::Eq(plain_read(key), v)).code() == before_key(false) + (list_code(
            key,
        ) + behind_key(v)),
        LiteralV::Neg(PredicateV::Eq(plain_read(key), v)).code() == before_key(true) + (list_code(
            key,
        ) + behind_key(v)),
{
    reveal(tagged);
    let e = plain_read(key);
    let one = seq![key];
    let steps = Seq::<SanitizerV>::empty();
    assert(one.skip(1) =~= Seq::<Seq<char>>::empty());
    assert(list_code(Seq::<Seq<char>>::empty()) == seq![0u64]);
    assert(list_code(one) == seq![1u64] + list_code(key) + seq![0u64]);
    assert(list_code(steps) == seq![0u64]);
    assert(e.names() == one);
    assert(e.code() =~= seq![1u64] + (list_code(one) + (seq![0u64] + seq![0u64])));
    let atom = PredicateV::Eq(e, v);
    assert(atom.code() =~= seq![0u64] + (e.code() + list_code(v)));
    assert(LiteralV::Pos(atom).code() =~= before_key(false) + (list_code(key) + behind_key(v)));
    assert(LiteralV::Neg(atom).code() =~= before_key(true) + (list_code(key) + behind_key(v)));
}

/// An asserted literal comes before a denied one.
pub proof fn assertions_come_first(p: PredicateV, q: PredicateV)
    ensures
        comes_before(LiteralV::Pos(p), LiteralV::Neg(q)),
{
    broadcast use lemma_starts;

    assert(LiteralV::Pos(p).code()[0] == 0);
    assert(LiteralV::Neg(q).code()[0] == 1);
}

/// Equalities of single keys stand in the dictionary order of the keys, and those of one key in the
/// dictionary order of the values.
pub proof fn equalities_follow_their_keys(
    key: Seq<char>,
    v: Seq<char>,
    other: Seq<char>,
    w: Seq<char>,
)
    requires
        lex_lt(key, other) || (key == other && lex_lt(v, w)),
    ensures
        comes_before(
            LiteralV::Pos(PredicateV::Eq(plain_read(key), v)),
            LiteralV::Pos(PredicateV::Eq(plain_read(other), w)),
        ),
        comes_before(
            LiteralV::Neg(PredicateV::Eq(plain_read(key), v)),
            LiteralV::Neg(PredicateV::Eq(plain_read(other), w)),
        ),
{
    lemma_equality_code(key, v);
    lemma_equality_code(other, w);
    let a = list_code(key) + behind_key(v);
    let b = list_code(other) + behind_key(w);
    lemma_same_start(before_key(false), a, b, 0);
    lemma_same_start(before_key(true), a, b, 0);
    if lex_lt(key, other) {
        assert(key.skip(0) =~= key && other.skip(0) =~= other);
        lemma_text_order(key, other, 0, behind_key(v), behind_key(w));
    } else {
        let none = Seq::<u64>::empty();
        assert(v.skip(0) =~= v && w.skip(0) =~= w);
        lemma_text_order(v, w, 0, none, none);
        assert(list_code(v) + none =~= list_code(v));
        assert(list_code(w) + none =~= list_code(w));
        lemma_same_start(list_code(key), behind_key(v), behind_key(w), 0);
        lemma_same_start(seq![0u64, 0u64, 0u64], list_code(v), list_code(w), 0);
    }
}

// ── Codes at work ───────────────────────────────────────────────────────────────────────────

proof fn lemma_list_step<T: Coded>(s: Seq<T>, i: int)
    requires
        0 <= i < s.len(),
    ensures
        list_code(s.skip(i)) == seq![1u64] + s[i].code() + list_code(s.skip(i + 1)),
{
    assert(s.skip(i)[0] == s[i]);
    assert(s.skip(i).skip(1) =~= s.skip(i + 1));
}

fn put_number(n: u64, out: &mut Vec<u64>)
    ensures
        final(out)@ == old(out)@ + n.code(),
{
    out.push(n);
    proof {
        assert(out@ =~= old(out)@ + seq![n]);
    }
}

fn put_bool(b: bool, out: &mut Vec<u64>)
    ensures
        final(out)@ == old(out)@ + b.code(),
{
    let n: u64 = if b { 1 } else { 0 };
    put_number(n, out);
}

fn put_text(s: &str, out: &mut Vec<u64>)
    ensures
        final(out)@ == old(out)@ + s@.code(),
{
    let chars: Vec<char> = to_chars(s);
    let ghost all = old(out)@ + list_code(s@);
    proof {
        assert(s@.skip(0) =~= s@);
    }
    for i in 0..chars.len()
        invariant
            chars@ == s@,
            out@ + list_code(s@.skip(i as int)) == all,
    {
        let ghost before = out@;
        out.push(1);
        out.push(chars[i] as u32 as u64);
        proof {
            lemma_list_step(s@, i as int);
            assert(out@ + list_code(s@.skip(i + 1)) =~= before + (seq![1u64] + s@[i as int].code()
                + list_code(s@.skip(i + 1))));
        }
    }
    out.push(0);
    proof {
        assert(s@.skip(s@.len() as int) =~= Seq::<char>::empty());
        assert(list_code(Seq::<char>::empty()) == seq![0u64]);
        assert(out@ =~= all);
    }
}

fn put_texts(v: &Vec<String>, out: &mut Vec<u64>)
    ensures
        final(out)@ == old(out)@ + models(v@).code(),
{
    let ghost s = models(v@);
    let ghost all = old(out)@ + list_code(s);
    proof {
        assert(s.skip(0) =~= s);
    }
    for i in 0..v.len()
        invariant
            s == models(v@),
            out@ + list_code(s.skip(i as int)) == all,
    {
        let ghost before = out@;
        out.push(1);
        put_text(v[i].as_str(), out);
        proof {
            lemma_list_step(s, i as int);
            assert(out@ + list_code(s.skip(i + 1)) =~= before + (seq![1u64] + s[i as int].code()
                + list_code(s.skip(i + 1))));
        }
    }
    out.push(0);
    proof {
        assert(s.skip(s.len() as int) =~= Seq::<Seq<char>>::empty());
        assert(list_code(Seq::<Seq<char>>::empty()) == seq![0u64]);
        assert(out@ =~= all);
    }
}

fn put_optional_text(t: &Option<String>, out: &mut Vec<u64>)
    ensures
        final(out)@ == old(out)@ + t.model().code(),
{
    reveal(tagged);
    match t {
        None => {
            out.push(0);
            proof {
                assert(out@ =~= old(out)@ + t.model().code());
            }
        },
        Some(s) => {
            out.push(1);
            put_text(s.as_str(), out);
            proof {
                assert(out@ =~= old(out)@ + t.model().code());
            }
        },
    }
}

fn put_value(v: &Option<AtomicJson>, out: &mut Vec<u64>)
    ensures
        final(out)@ == old(out)@ + v.model().code(),
{
    reveal(tagged);
    match v {
        None => {
            out.push(0);
        },
        Some(a) => {
            out.push(1);
            match a {
                AtomicJson::Str(s) => {
                    out.push(0);
                    put_text(s.as_str(), out);
                },
                AtomicJson::Bool(b) => {
                    out.push(1);
                    put_bool(*b, out);
                },
                AtomicJson::Num(n) => {
                    out.push(2);
                    put_number(*n, out);
                },
            }
        },
    }
    proof {
        assert(out@ =~= old(out)@ + v.model().code());
    }
}

fn put_mapping(v: &Vec<(String, Option<AtomicJson>)>, out: &mut Vec<u64>)
    ensures
        final(out)@ == old(out)@ + models(v@).code(),
{
    let ghost s = models(v@);
    let ghost all = old(out)@ + list_code(s);
    proof {
        assert(s.skip(0) =~= s);
    }
    for i in 0..v.len()
        invariant
            s == models(v@),
            out@ + list_code(s.skip(i as int)) == all,
    {
        let ghost before = out@;
        out.push(1);
        put_text(v[i].0.as_str(), out);
        put_value(&v[i].1, out);
        proof {
            lemma_list_step(s, i as int);
            assert(s[i as int] == (v@[i as int].0@, v@[i as int].1.model()));
            assert(out@ + list_code(s.skip(i + 1)) =~= before + (seq![1u64] + s[i as int].code()
                + list_code(s.skip(i + 1))));
        }
    }
    out.push(0);
    proof {
        assert(s.skip(s.len() as int) =~= Seq::<(Seq<char>, Option<AtomicV>)>::empty());
        assert(list_code(Seq::<(Seq<char>, Option<AtomicV>)>::empty()) == seq![0u64]);
        assert(out@ =~= all);
    }
}

fn put_rules(v: &Vec<ReplaceRule>, out: &mut Vec<u64>)
    ensures
        final(out)@ == old(out)@ + models(v@).code(),
{
    let ghost s = models(v@);
    let ghost all = old(out)@ + list_code(s);
    proof {
        assert(s.skip(0) =~= s);
    }
    for i in 0..v.len()
        invariant
            s == models(v@),
            out@ + list_code(s.skip(i as int)) == all,
    {
        let ghost before = out@;
        out.push(1);
        put_text(v[i].from.as_str(), out);
        put_text(v[i].to.as_str(), out);
        let at_start: bool = match v[i].at {
            ReplaceAt::Anywhere => false,
            ReplaceAt::Prefix => true,
        };
        put_bool(at_start, out);
        proof {
            lemma_list_step(s, i as int);
            assert(s[i as int] == v@[i as int]@);
            assert(out@ + list_code(s.skip(i + 1)) =~= before + (seq![1u64] + s[i as int].code()
                + list_code(s.skip(i + 1))));
        }
    }
    out.push(0);
    proof {
        assert(s.skip(s.len() as int) =~= Seq::<ReplaceV>::empty());
        assert(list_code(Seq::<ReplaceV>::empty()) == seq![0u64]);
        assert(out@ =~= all);
    }
}

fn put_step(x: &Sanitizer, out: &mut Vec<u64>)
    ensures
        final(out)@ == old(out)@ + x@.code(),
{
    reveal(tagged);
    match x {
        Sanitizer::Mapping { mapping, on_miss } => {
            out.push(0);
            put_mapping(mapping, out);
            put_optional_text(on_miss, out);
        },
        Sanitizer::Replace { replace } => {
            out.push(1);
            put_rules(replace, out);
        },
        Sanitizer::Builtin(_) => {
            out.push(2);
        },
    }
    proof {
        assert(out@ =~= old(out)@ + x@.code());
    }
}

fn put_chain(v: &Vec<Sanitizer>, out: &mut Vec<u64>)
    ensures
        final(out)@ == old(out)@ + models(v@).code(),
{
    let ghost s = models(v@);
    let ghost all = old(out)@ + list_code(s);
    proof {
        assert(s.skip(0) =~= s);
    }
    for i in 0..v.len()
        invariant
            s == models(v@),
            out@ + list_code(s.skip(i as int)) == all,
    {
        let ghost before = out@;
        out.push(1);
        put_step(&v[i], out);
        proof {
            lemma_list_step(s, i as int);
            assert(s[i as int] == v@[i as int]@);
            assert(out@ + list_code(s.skip(i + 1)) =~= before + (seq![1u64] + s[i as int].code()
                + list_code(s.skip(i + 1))));
        }
    }
    out.push(0);
    proof {
        assert(s.skip(s.len() as int) =~= Seq::<SanitizerV>::empty());
        assert(list_code(Seq::<SanitizerV>::empty()) == seq![0u64]);
        assert(out@ =~= all);
    }
}

fn is_parent(s: Scope) -> (r: bool)
    ensures
        r == (s is Parent),
{
    match s {
        Scope::Own => false,
        Scope::Parent => true,
    }
}

fn put_read(e: &TagRead, out: &mut Vec<u64>)
    ensures
        final(out)@ == old(out)@ + e@.code(),
{
    let single: bool = match &e.extract {
        Extract::Value { .. } => true,
        Extract::Candidates { .. } => false,
    };
    put_bool(single, out);
    put_texts(&e.tag_names(), out);
    match &e.extract {
        Extract::Value { sanitize, .. } => {
            put_chain(sanitize, out);
        },
        Extract::Candidates { sanitize, .. } => {
            put_chain(sanitize, out);
        },
    }
    put_bool(is_parent(e.scope), out);
    proof {
        assert(out@ =~= old(out)@ + read_parts(e@).code());
    }
}

proof fn lemma_one<A: Coded>(o: Seq<u64>, k: u64, a: A)
    ensures
        o.push(k) + a.code() == o + tagged(k, a),
{
    reveal(tagged);
    assert(o.push(k) + a.code() =~= o + tagged(k, a));
}

proof fn lemma_two<A: Coded, B: Coded>(o: Seq<u64>, k: u64, a: A, b: B)
    ensures
        o.push(k) + a.code() + b.code() == o + tagged(k, (a, b)),
{
    lemma_one(o, k, (a, b));
    assert(o.push(k) + a.code() + b.code() =~= o.push(k) + (a, b).code());
}

proof fn lemma_three<A: Coded, B: Coded, C: Coded>(o: Seq<u64>, k: u64, a: A, b: B, c: C)
    ensures
        o.push(k) + a.code() + b.code() + c.code() == o + tagged(k, (a, (b, c))),
{
    lemma_two(o, k, a, (b, c));
    assert(o.push(k) + a.code() + b.code() + c.code() =~= o.push(k) + a.code() + (b, c).code());
}

fn put_atom(p: &Predicate, out: &mut Vec<u64>)
    ensures
        final(out)@ == old(out)@ + p@.code(),
{
    match p {
        Predicate::Eq(e, v) => {
            out.push(0);
            put_read(e, out);
            put_text(v.as_str(), out);
            proof {
                lemma_two(old(out)@, 0, e@, v@);
            }
        },
        Predicate::Contains(e, v, ci) => {
            out.push(1);
            put_read(e, out);
            put_text(v.as_str(), out);
            put_bool(*ci, out);
            proof {
                lemma_three(old(out)@, 1, e@, v@, *ci);
            }
        },
        Predicate::StartsWith(e, v) => {
            out.push(2);
            put_read(e, out);
            put_text(v.as_str(), out);
            proof {
                lemma_two(old(out)@, 2, e@, v@);
            }
        },
        Predicate::EndsWith(e, v) => {
            out.push(3);
            put_read(e, out);
            put_text(v.as_str(), out);
            proof {
                lemma_two(old(out)@, 3, e@, v@);
            }
        },
        Predicate::Exists(e) => {
            out.push(4);
            put_read(e, out);
            proof {
                lemma_one(old(out)@, 4, e@);
            }
        },
        Predicate::FirstTagIn(e, vs) => {
            out.push(5);
            put_read(e, out);
            put_texts(vs, out);
            proof {
                lemma_two(old(out)@, 5, e@, models(vs@));
            }
        },
        Predicate::Num(e, op, bits) => {
            out.push(6);
            put_read(e, out);
            put_number(
                match op {
                    NumOp::Lt => 0,
                    NumOp::Lte => 1,
                    NumOp::Gt => 2,
                    NumOp::Gte => 3,
                },
                out,
            );
            put_number(*bits, out);
            proof {
                lemma_three(old(out)@, 6, e@, op_rank(*op), *bits);
            }
        },
        Predicate::HasKeyPrefix(s, v) => {
            out.push(7);
            put_text(v.as_str(), out);
            put_bool(is_parent(*s), out);
            proof {
                lemma_two(old(out)@, 7, v@, *s is Parent);
            }
        },
        Predicate::HasParent => {
            out.push(8);
            proof {
                lemma_one(old(out)@, 8, ());
                assert(old(out)@.push(8) + ().code() =~= old(out)@.push(8));
            }
        },
        Predicate::Prefix(v) => {
            out.push(9);
            put_text(v.as_str(), out);
            proof {
                lemma_one(old(out)@, 9, v@);
            }
        },
        Predicate::Infix(v) => {
            out.push(10);
            put_text(v.as_str(), out);
            proof {
                lemma_one(old(out)@, 10, v@);
            }
        },
        Predicate::Side(v) => {
            out.push(11);
            put_text(v.as_str(), out);
            proof {
                lemma_one(old(out)@, 11, v@);
            }
        },
        Predicate::TagsEmpty(s) => {
            out.push(12);
            put_bool(is_parent(*s), out);
            proof {
                lemma_one(old(out)@, 12, *s is Parent);
            }
        },
        Predicate::IsNum(e) => {
            out.push(13);
            put_read(e, out);
            proof {
                lemma_one(old(out)@, 13, e@);
            }
        },
    }
}

fn literal_code(l: &Literal) -> (r: Vec<u64>)
    ensures
        r@ == l@.code(),
{
    reveal(tagged);
    let mut out: Vec<u64> = Vec::new();
    match l {
        Literal::Pos(p) => {
            out.push(0);
            put_atom(p, &mut out);
        },
        Literal::Neg(p) => {
            out.push(1);
            put_atom(p, &mut out);
        },
    }
    proof {
        assert(out@ =~= l@.code());
    }
    out
}

fn code_before(a: &Vec<u64>, b: &Vec<u64>) -> (r: bool)
    ensures
        r == code_lt_from(a@, b@, 0),
{
    let mut i: usize = 0;
    while i < b.len()
        invariant
            0 <= i <= b@.len(),
            code_lt_from(a@, b@, 0) == code_lt_from(a@, b@, i as int),
        decreases b.len() - i,
    {
        if i >= a.len() {
            return true;
        }
        if a[i] != b[i] {
            return a[i] < b[i];
        }
        i = i + 1;
    }
    false
}

proof fn lemma_place(ls: Seq<LiteralV>, l: LiteralV, i: int)
    requires
        0 <= i <= ls.len(),
        forall|k: int| i <= k < ls.len() ==> comes_before(l, #[trigger] ls[k]),
        i > 0 ==> !comes_before(l, ls[i - 1]),
    ensures
        placed(ls, l) == (if i > 0 && ls[i - 1] == l {
            ls
        } else {
            ls.insert(i, l)
        }),
    decreases ls.len(),
{
    if i < ls.len() {
        let rest = ls.drop_last();
        literal_order_is_total(l, ls.last());
        lemma_place(rest, l, i);
        if i > 0 && ls[i - 1] == l {
            assert(rest.push(ls.last()) =~= ls);
        } else {
            assert(rest.insert(i, l).push(ls.last()) =~= ls.insert(i, l));
        }
    } else {
        if i > 0 {
            literal_order_is_total(l, ls.last());
        }
        assert(ls.push(l) =~= ls.insert(i, l));
    }
}

/// The literals of a list in their order, each once.
pub fn arrange(ls: Vec<Literal>) -> (r: Vec<Literal>)
    ensures
        models(r@) == arranged(models(ls@)),
{
    let ghost all = models(ls@);
    let mut out: Vec<Literal> = Vec::new();
    let mut codes: Vec<Vec<u64>> = Vec::new();
    proof {
        assert(models(out@) =~= Seq::<LiteralV>::empty());
    }
    for i in 0..ls.len()
        invariant
            all == models(ls@),
            models(out@) == arranged(all.take(i as int)),
            codes@.len() == out@.len(),
            forall|k: int| 0 <= k < codes@.len() ==> (#[trigger] codes@[k])@ == out@[k]@.code(),
    {
        let ghost before = models(out@);
        let code = literal_code(&ls[i]);
        let mut at: usize = out.len();
        while at > 0 && code_before(&code, &codes[at - 1])
            invariant
                at <= out@.len(),
                before == models(out@),
                codes@.len() == out@.len(),
                forall|k: int|
                    0 <= k < codes@.len() ==> (#[trigger] codes@[k])@ == out@[k]@.code(),
                i < ls@.len(),
                code@ == ls@[i as int]@.code(),
                forall|k: int|
                    at <= k < before.len() ==> comes_before(
                        ls@[i as int]@,
                        #[trigger] before[k],
                    ),
            decreases at,
        {
            proof {
                assert(before[at - 1] == out@[at - 1]@);
            }
            at = at - 1;
        }
        proof {
            if at > 0 {
                assert(before[at - 1] == out@[at - 1]@);
            }
            lemma_place(before, ls@[i as int]@, at as int);
            assert(all.take(i + 1).drop_last() =~= all.take(i as int));
            assert(all.take(i + 1).last() == ls@[i as int]@);
        }
        if !(at > 0 && out[at - 1].same(&ls[i])) {
            out.insert(at, ls[i].copy());
            codes.insert(at, code);
            proof {
                assert(models(out@) =~= before.insert(at as int, ls@[i as int]@));
            }
        }
    }
    proof {
        assert(all.take(all.len() as int) =~= all);
    }
    out
}

} // verus!
