//! Deciding conditions from one known fact, with a third value for what the fact leaves open.
use vstd::prelude::*;

use crate::categorize::expr::{
    clone_expr, decide, expr_holds, exprs, exprs_all_hold, exprs_any_holds, group_exprs,
    has_text, num_matches, text_contains, Expr, ExprV, Literal, LiteralV, NumOp, Predicate,
    PredicateV,
};
use crate::decision_tree::tree::{branch_value, BranchKey, BranchKeyV, ContextKey};
use crate::lang::context::CtxV;
use crate::model::{models, Model};
use crate::number::{le, lt, Readings, ReadingsV};
use crate::text::{contains_str, ends_with, starts_with, str_eq};

verus! {

/// False, unknown or true.
#[derive(Debug, Clone, Copy, PartialEq, Eq, Structural)]
pub enum K {
    F,
    U,
    T,
}

/// A known truth value.
pub open spec fn known(b: bool) -> K {
    if b {
        K::T
    } else {
        K::F
    }
}

pub open spec fn spec_not(k: K) -> K {
    match k {
        K::F => K::T,
        K::U => K::U,
        K::T => K::F,
    }
}

/// False if either is, else unknown if either is.
pub open spec fn spec_min(a: K, b: K) -> K {
    if a == K::F || b == K::F {
        K::F
    } else if a == K::U || b == K::U {
        K::U
    } else {
        K::T
    }
}

/// True if either is, else unknown if either is.
pub open spec fn spec_max(a: K, b: K) -> K {
    if a == K::T || b == K::T {
        K::T
    } else if a == K::U || b == K::U {
        K::U
    } else {
        K::F
    }
}

fn b(cond: bool) -> (r: K)
    ensures
        r == known(cond),
{
    if cond {
        K::T
    } else {
        K::F
    }
}

fn not_k(k: K) -> (r: K)
    ensures
        r == spec_not(k),
{
    match k {
        K::F => K::T,
        K::U => K::U,
        K::T => K::F,
    }
}

fn min_k(a: K, b: K) -> (r: K)
    ensures
        r == spec_min(a, b),
{
    if a == K::F || b == K::F {
        K::F
    } else if a == K::U || b == K::U {
        K::U
    } else {
        K::T
    }
}

fn max_k(a: K, b: K) -> (r: K)
    ensures
        r == spec_max(a, b),
{
    if a == K::T || b == K::T {
        K::T
    } else if a == K::U || b == K::U {
        K::U
    } else {
        K::F
    }
}

/// What is known of an object: what a key reads as, that it reads as none of some texts, or
/// whether an atom is true.
pub enum Fact<'a> {
    Value(&'a BranchKey, &'a str),
    Other(&'a BranchKey, &'a Vec<String>),
    Atom(&'a Predicate, bool),
}

/// What is known of an object.
pub enum FactV {
    Value(BranchKeyV, Seq<char>),
    Other(BranchKeyV, Seq<Seq<char>>),
    Atom(PredicateV, bool),
}

impl<'a> Fact<'a> {
    pub open spec fn view(&self) -> FactV {
        match self {
            Fact::Value(key, v) => FactV::Value((**key)@, v@),
            Fact::Other(key, values) => FactV::Other((**key)@, models(values@)),
            Fact::Atom(p, truth) => FactV::Atom((**p)@, *truth),
        }
    }
}

/// An atom, where `key` is known to read as `v`.
pub open spec fn value_decides(p: PredicateV, key: BranchKeyV, v: Seq<char>, r: ReadingsV) -> K {
    match key {
        BranchKeyV::Sentinel(ContextKey::Side) => match p {
            PredicateV::Side(s) => known(s == v),
            _ => K::U,
        },
        BranchKeyV::Sentinel(ContextKey::HasParent) => match p {
            PredicateV::HasParent => known(v == "true"@),
            _ => K::U,
        },
        BranchKeyV::Sentinel(ContextKey::Prefix) => match p {
            PredicateV::Prefix(s) => known(s == v),
            _ => K::U,
        },
        BranchKeyV::Sentinel(ContextKey::Infix) => match p {
            PredicateV::Infix(s) => known(s == v),
            _ => K::U,
        },
        BranchKeyV::Tag(extract) => match p {
            PredicateV::Eq(e, w) => if e == extract {
                known(w == v)
            } else {
                K::U
            },
            PredicateV::FirstTagIn(e, vals) => if e == extract {
                known(vals.contains(v))
            } else {
                K::U
            },
            PredicateV::Exists(e) => if e == extract {
                K::T
            } else {
                K::U
            },
            PredicateV::Contains(e, s, ci) => if e == extract {
                known(text_contains(v, s, ci))
            } else {
                K::U
            },
            PredicateV::StartsWith(e, s) => if e == extract {
                known(s.is_prefix_of(v))
            } else {
                K::U
            },
            PredicateV::EndsWith(e, s) => if e == extract {
                known(s.is_suffix_of(v))
            } else {
                K::U
            },
            PredicateV::Num(e, op, bits) => if e == extract {
                match r.number(v) {
                    Some(n) => known(num_matches(op, bits, n)),
                    None => K::F,
                }
            } else {
                K::U
            },
            PredicateV::IsNum(e) => if e == extract {
                known(r.number(v) is Some)
            } else {
                K::U
            },
            _ => K::U,
        },
    }
}

/// A text that a key is known not to read as.
pub open spec fn excluded(v: Seq<char>, values: Seq<Seq<char>>) -> K {
    if values.contains(v) {
        K::F
    } else {
        K::U
    }
}

/// Whether every text of `vals` is one of `values`.
pub open spec fn all_among(vals: Seq<Seq<char>>, values: Seq<Seq<char>>) -> bool {
    forall|i: int| 0 <= i < vals.len() ==> values.contains(#[trigger] vals[i])
}

/// An atom, where `key` is known to read as nothing or as none of `values`.
pub open spec fn rest_decides(p: PredicateV, key: BranchKeyV, values: Seq<Seq<char>>) -> K {
    match key {
        BranchKeyV::Sentinel(ContextKey::Side) => match p {
            PredicateV::Side(_) => K::F,
            _ => K::U,
        },
        BranchKeyV::Sentinel(ContextKey::HasParent) => match p {
            PredicateV::HasParent => K::F,
            _ => K::U,
        },
        BranchKeyV::Sentinel(ContextKey::Prefix) => match p {
            PredicateV::Prefix(v) => excluded(v, values),
            _ => K::U,
        },
        BranchKeyV::Sentinel(ContextKey::Infix) => match p {
            PredicateV::Infix(v) => excluded(v, values),
            _ => K::U,
        },
        BranchKeyV::Tag(extract) => match p {
            PredicateV::Eq(e, v) => if e == extract {
                excluded(v, values)
            } else {
                K::U
            },
            PredicateV::FirstTagIn(e, vals) => if e == extract && all_among(vals, values) {
                K::F
            } else {
                K::U
            },
            _ => K::U,
        },
    }
}

/// An atom, where `f` is known.
pub open spec fn fact_decides(p: PredicateV, f: FactV, r: ReadingsV) -> K {
    match f {
        FactV::Value(key, v) => value_decides(p, key, v, r),
        FactV::Other(key, values) => rest_decides(p, key, values),
        FactV::Atom(a, truth) => if p == a {
            known(truth)
        } else {
            K::U
        },
    }
}

/// A literal, where `f` is known.
pub open spec fn literal_decided(l: LiteralV, f: FactV, r: ReadingsV) -> K {
    match l {
        LiteralV::Pos(p) => fact_decides(p, f, r),
        LiteralV::Neg(p) => spec_not(fact_decides(p, f, r)),
    }
}

/// An expression, where `f` is known.
pub open spec fn decided(e: ExprV, f: FactV, r: ReadingsV) -> K
    decreases e, 0int,
{
    match e {
        ExprV::True => K::T,
        ExprV::False => K::F,
        ExprV::Lit(l) => literal_decided(l, f, r),
        ExprV::Not(x) => spec_not(decided(*x, f, r)),
        ExprV::And(xs) => decided_all(xs, xs.len() as int, f, r),
        ExprV::Or(xs) => decided_any(xs, xs.len() as int, f, r),
    }
}

/// The conjunction of the first `n` expressions, where `f` is known.
pub open spec fn decided_all(xs: Seq<ExprV>, n: int, f: FactV, r: ReadingsV) -> K
    decreases xs, n,
{
    if n <= 0 || n > xs.len() {
        K::T
    } else {
        spec_min(decided_all(xs, n - 1, f, r), decided(xs[n - 1], f, r))
    }
}

/// The disjunction of the first `n` expressions, where `f` is known.
pub open spec fn decided_any(xs: Seq<ExprV>, n: int, f: FactV, r: ReadingsV) -> K
    decreases xs, n,
{
    if n <= 0 || n > xs.len() {
        K::F
    } else {
        spec_max(decided_any(xs, n - 1, f, r), decided(xs[n - 1], f, r))
    }
}

/// Whether a constant may be left out of a conjunction, or of a disjunction.
pub open spec fn is_unit(e: ExprV, and: bool) -> bool {
    if and {
        e is True
    } else {
        e is False
    }
}

/// Whether a constant decides a conjunction, or a disjunction.
pub open spec fn is_zero(e: ExprV, and: bool) -> bool {
    if and {
        e is False
    } else {
        e is True
    }
}

/// The constant that decides a conjunction, or a disjunction.
pub open spec fn zero(and: bool) -> ExprV {
    if and {
        ExprV::False
    } else {
        ExprV::True
    }
}

/// A conjunction, or a disjunction, of what is left; one stands for itself.
pub open spec fn collapsed(xs: Seq<ExprV>, and: bool) -> ExprV {
    if xs.len() == 0 {
        if and {
            ExprV::True
        } else {
            ExprV::False
        }
    } else if xs.len() == 1 {
        xs[0]
    } else if and {
        ExprV::And(xs)
    } else {
        ExprV::Or(xs)
    }
}

/// An expression with everything that `f` settles folded in.
pub open spec fn simplified(e: ExprV, f: FactV, r: ReadingsV) -> ExprV
    decreases e, 0int,
{
    match e {
        ExprV::True => ExprV::True,
        ExprV::False => ExprV::False,
        ExprV::Lit(l) => match literal_decided(l, f, r) {
            K::T => ExprV::True,
            K::F => ExprV::False,
            K::U => e,
        },
        ExprV::Not(x) => match simplified(*x, f, r) {
            ExprV::True => ExprV::False,
            ExprV::False => ExprV::True,
            other => ExprV::Not(Box::new(other)),
        },
        ExprV::And(xs) => simplified_list(xs, true, f, r),
        ExprV::Or(xs) => simplified_list(xs, false, f, r),
    }
}

/// A conjunction, or a disjunction, with everything that `f` settles folded in.
pub open spec fn simplified_list(xs: Seq<ExprV>, and: bool, f: FactV, r: ReadingsV) -> ExprV
    decreases xs, xs.len() + 1,
{
    if settles(xs, xs.len() as int, and, f, r) {
        zero(and)
    } else {
        collapsed(left_over(xs, xs.len() as int, and, f, r), and)
    }
}

/// Whether one of the first `n` expressions decides the whole, where `f` is known.
pub open spec fn settles(xs: Seq<ExprV>, n: int, and: bool, f: FactV, r: ReadingsV) -> bool
    decreases xs, n,
{
    if n <= 0 || n > xs.len() {
        false
    } else {
        settles(xs, n - 1, and, f, r) || is_zero(simplified(xs[n - 1], f, r), and)
    }
}

/// What is left of the first `n` expressions, where `f` is known.
pub open spec fn left_over(xs: Seq<ExprV>, n: int, and: bool, f: FactV, r: ReadingsV) -> Seq<ExprV>
    decreases xs, n,
{
    if n <= 0 || n > xs.len() {
        Seq::empty()
    } else {
        let s = simplified(xs[n - 1], f, r);
        let rest = left_over(xs, n - 1, and, f, r);
        if is_unit(s, and) {
            rest
        } else {
            rest.push(s)
        }
    }
}

/// Whether `n` compares with the threshold as the operator says.
pub fn num_satisfies(op: NumOp, threshold: u64, n: u64) -> (r: bool)
    ensures
        r == num_matches(op, threshold, n),
{
    match op {
        NumOp::Lt => lt(n, threshold),
        NumOp::Lte => le(n, threshold),
        NumOp::Gt => lt(threshold, n),
        NumOp::Gte => le(threshold, n),
    }
}

/// An atom, where `key` is known to read as `v`.
pub fn decide_value(p: &Predicate, key: &BranchKey, v: &str, readings: &Readings) -> (r: K)
    ensures
        r == value_decides(p@, key@, v@, readings@),
{
    match key {
        BranchKey::Sentinel(ContextKey::Side) => match p {
            Predicate::Side(s) => b(str_eq(s.as_str(), v)),
            _ => K::U,
        },
        BranchKey::Sentinel(ContextKey::HasParent) => match p {
            Predicate::HasParent => b(str_eq(v, "true")),
            _ => K::U,
        },
        BranchKey::Sentinel(ContextKey::Prefix) => match p {
            Predicate::Prefix(s) => b(str_eq(s.as_str(), v)),
            _ => K::U,
        },
        BranchKey::Sentinel(ContextKey::Infix) => match p {
            Predicate::Infix(s) => b(str_eq(s.as_str(), v)),
            _ => K::U,
        },
        BranchKey::Tag(extract) => match p {
            Predicate::Eq(e, w) => if e.same(extract) {
                b(str_eq(w.as_str(), v))
            } else {
                K::U
            },
            Predicate::FirstTagIn(e, vals) => if e.same(extract) {
                b(contains_str(vals, v))
            } else {
                K::U
            },
            Predicate::Exists(e) => if e.same(extract) {
                K::T
            } else {
                K::U
            },
            Predicate::Contains(e, s, ci) => if e.same(extract) {
                b(has_text(v, s.as_str(), *ci))
            } else {
                K::U
            },
            Predicate::StartsWith(e, s) => if e.same(extract) {
                b(starts_with(v, s.as_str()))
            } else {
                K::U
            },
            Predicate::EndsWith(e, s) => if e.same(extract) {
                b(ends_with(v, s.as_str()))
            } else {
                K::U
            },
            Predicate::Num(e, op, bits) => if e.same(extract) {
                match readings.number(v) {
                    Some(n) => b(num_satisfies(*op, *bits, n)),
                    None => K::F,
                }
            } else {
                K::U
            },
            Predicate::IsNum(e) => if e.same(extract) {
                b(readings.number(v).is_some())
            } else {
                K::U
            },
            _ => K::U,
        },
    }
}

fn enumerated(v: &String, values: &Vec<String>) -> (r: K)
    ensures
        r == excluded(v@, models(values@)),
{
    if contains_str(values, v.as_str()) {
        K::F
    } else {
        K::U
    }
}

fn all_enumerated(vals: &Vec<String>, values: &Vec<String>) -> (r: bool)
    ensures
        r == all_among(models(vals@), models(values@)),
{
    for i in 0..vals.len()
        invariant
            forall|j: int| 0 <= j < i ==> models(values@).contains(#[trigger] models(vals@)[j]),
    {
        if !contains_str(values, vals[i].as_str()) {
            proof {
                assert(!models(values@).contains(models(vals@)[i as int]));
            }
            return false;
        }
    }
    true
}

/// An atom, where `key` is known to read as nothing or as none of `values`.
pub fn decide_wildcard(p: &Predicate, key: &BranchKey, values: &Vec<String>) -> (r: K)
    ensures
        r == rest_decides(p@, key@, models(values@)),
{
    match key {
        BranchKey::Sentinel(ContextKey::Side) => match p {
            Predicate::Side(_) => K::F,
            _ => K::U,
        },
        BranchKey::Sentinel(ContextKey::HasParent) => match p {
            Predicate::HasParent => K::F,
            _ => K::U,
        },
        BranchKey::Sentinel(ContextKey::Prefix) => match p {
            Predicate::Prefix(v) => enumerated(v, values),
            _ => K::U,
        },
        BranchKey::Sentinel(ContextKey::Infix) => match p {
            Predicate::Infix(v) => enumerated(v, values),
            _ => K::U,
        },
        BranchKey::Tag(extract) => match p {
            Predicate::Eq(e, v) => if e.same(extract) {
                enumerated(v, values)
            } else {
                K::U
            },
            Predicate::FirstTagIn(e, vals) => if e.same(extract) && all_enumerated(vals, values) {
                K::F
            } else {
                K::U
            },
            _ => K::U,
        },
    }
}

/// An atom, where `fact` is known.
pub fn decide_fact(p: &Predicate, fact: &Fact, readings: &Readings) -> (r: K)
    ensures
        r == fact_decides(p@, fact@, readings@),
{
    match fact {
        Fact::Value(key, v) => decide_value(p, key, v, readings),
        Fact::Other(key, values) => decide_wildcard(p, key, values),
        Fact::Atom(a, truth) => if p.same(a) {
            b(*truth)
        } else {
            K::U
        },
    }
}

/// An expression, where `fact` is known.
pub fn kleene(e: &Expr, fact: &Fact, readings: &Readings) -> (r: K)
    ensures
        r == decided(e@, fact@, readings@),
    decreases e,
{
    broadcast use group_exprs;

    match e {
        Expr::True => K::T,
        Expr::False => K::F,
        Expr::Lit(Literal::Pos(p)) => decide_fact(p, fact, readings),
        Expr::Lit(Literal::Neg(p)) => not_k(decide_fact(p, fact, readings)),
        Expr::Not(x) => not_k(kleene(x, fact, readings)),
        Expr::And(xs) => {
            let mut acc = K::T;
            for i in 0..xs.len()
                invariant
                    *e is And,
                    e->And_0 == *xs,
                    acc == decided_all(exprs(xs@), i as int, fact@, readings@),
            {
                proof {
                    assert(decreases_to!(xs@ => xs@[i as int]));
                }
                let k = kleene(&xs[i], fact, readings);
                acc = min_k(acc, k);
            }
            acc
        },
        Expr::Or(xs) => {
            let mut acc = K::F;
            for i in 0..xs.len()
                invariant
                    *e is Or,
                    e->Or_0 == *xs,
                    acc == decided_any(exprs(xs@), i as int, fact@, readings@),
            {
                proof {
                    assert(decreases_to!(xs@ => xs@[i as int]));
                }
                let k = kleene(&xs[i], fact, readings);
                acc = max_k(acc, k);
            }
            acc
        },
    }
}

/// Whether an expression may still be true, where `fact` is known.
pub fn keep_for(expr: &Expr, fact: &Fact, readings: &Readings) -> (r: bool)
    ensures
        r == (decided(expr@, fact@, readings@) != K::F),
{
    kleene(expr, fact, readings) != K::F
}

fn collapse(xs: Vec<Expr>, and: bool) -> (r: Expr)
    ensures
        r@ == collapsed(exprs(xs@), and),
{
    broadcast use group_exprs;

    let mut xs = xs;
    if xs.len() == 0 {
        if and {
            Expr::True
        } else {
            Expr::False
        }
    } else if xs.len() == 1 {
        let ghost all = exprs(xs@);
        let x = xs.swap_remove(0);
        proof {
            assert(x@ == all[0]);
        }
        x
    } else if and {
        Expr::And(xs)
    } else {
        Expr::Or(xs)
    }
}

proof fn lemma_settled_early(xs: Seq<ExprV>, m: int, n: int, and: bool, f: FactV, r: ReadingsV)
    requires
        0 <= m <= n <= xs.len(),
        settles(xs, m, and, f, r),
    ensures
        settles(xs, n, and, f, r),
    decreases n - m,
{
    if m < n {
        lemma_settled_early(xs, m, n - 1, and, f, r);
    }
}

fn simplify_list(xs: &Vec<Expr>, and: bool, fact: &Fact, readings: &Readings) -> (r: Expr)
    ensures
        r@ == simplified_list(exprs(xs@), and, fact@, readings@),
    decreases xs,
{
    broadcast use group_exprs;

    let mut kept: Vec<Expr> = Vec::new();
    proof {
        assert(exprs(kept@) =~= Seq::<ExprV>::empty());
    }
    for i in 0..xs.len()
        invariant
            !settles(exprs(xs@), i as int, and, fact@, readings@),
            exprs(kept@) == left_over(exprs(xs@), i as int, and, fact@, readings@),
    {
        let s = simplify(&xs[i], fact, readings);
        let (unit, decisive) = match &s {
            Expr::True => (and, !and),
            Expr::False => (!and, and),
            _ => (false, false),
        };
        proof {
            assert(unit == is_unit(s@, and));
            assert(decisive == is_zero(s@, and));
        }
        if decisive {
            proof {
                lemma_settled_early(
                    exprs(xs@),
                    i + 1,
                    xs@.len() as int,
                    and,
                    fact@,
                    readings@,
                );
            }
            return if and {
                Expr::False
            } else {
                Expr::True
            };
        }
        if !unit {
            let ghost before = kept@;
            kept.push(s);
            proof {
                assert(exprs(kept@) =~= exprs(before).push(s@));
            }
        }
    }
    collapse(kept, and)
}

/// An expression with everything that `fact` settles folded in.
pub fn simplify(e: &Expr, fact: &Fact, readings: &Readings) -> (r: Expr)
    ensures
        r@ == simplified(e@, fact@, readings@),
    decreases e,
{
    match e {
        Expr::True => Expr::True,
        Expr::False => Expr::False,
        Expr::Lit(Literal::Pos(p)) => match decide_fact(p, fact, readings) {
            K::T => Expr::True,
            K::F => Expr::False,
            K::U => clone_expr(e),
        },
        Expr::Lit(Literal::Neg(p)) => match decide_fact(p, fact, readings) {
            K::T => Expr::False,
            K::F => Expr::True,
            K::U => clone_expr(e),
        },
        Expr::Not(x) => match simplify(x, fact, readings) {
            Expr::True => Expr::False,
            Expr::False => Expr::True,
            other => Expr::Not(Box::new(other)),
        },
        Expr::And(xs) => simplify_list(xs, true, fact, readings),
        Expr::Or(xs) => simplify_list(xs, false, fact, readings),
    }
}

// ── What a fact settles is so ───────────────────────────────────────────────────────────────

/// Whether the texts named for a key with a fixed set of readings are all of them.
pub open spec fn covers(key: BranchKeyV, values: Seq<Seq<char>>) -> bool {
    match key {
        BranchKeyV::Sentinel(ContextKey::Side) => values.contains("left"@) && values.contains(
            "right"@,
        ) && values.contains("self"@),
        BranchKeyV::Sentinel(ContextKey::HasParent) => values.contains("true"@) && values.contains(
            "false"@,
        ),
        _ => true,
    }
}

/// Whether the object is on one of the three sides there are.
pub open spec fn side_known(c: CtxV) -> bool {
    c.side() == "left"@ || c.side() == "right"@ || c.side() == "self"@
}

/// Whether a fact is so of an object; `r` must read the text of a tag as the object does.
pub open spec fn fact_holds(f: FactV, c: CtxV, r: ReadingsV) -> bool {
    match f {
        FactV::Value(key, v) => branch_value(key, c) == Some(v) && (key is Tag ==> r.number(v)
            == c.readings.number(v)),
        FactV::Other(key, values) => covers(key, values) && (match branch_value(key, c) {
            Some(v) => !values.contains(v),
            None => true,
        }),
        FactV::Atom(p, truth) => decide(p, c) == truth,
    }
}

/// What a fact that is so says of an atom is so.
pub proof fn fact_is_sound(p: PredicateV, f: FactV, c: CtxV, r: ReadingsV)
    requires
        fact_holds(f, c, r),
        side_known(c),
    ensures
        fact_decides(p, f, r) == K::T ==> decide(p, c),
        fact_decides(p, f, r) == K::F ==> !decide(p, c),
{
    reveal_strlit("true");
    reveal_strlit("false");
    match f {
        FactV::Value(key, v) => {
            assert("true"@ != "false"@) by {
                assert("true"@.len() == 4);
                assert("false"@.len() == 5);
            }
        },
        FactV::Other(key, values) => {},
        FactV::Atom(_, _) => {},
    }
}

/// What is decided of an expression from a fact that is so, is so.
pub proof fn decided_is_sound(e: ExprV, f: FactV, c: CtxV, r: ReadingsV)
    requires
        fact_holds(f, c, r),
        side_known(c),
    ensures
        decided(e, f, r) == K::T ==> expr_holds(e, c),
        decided(e, f, r) == K::F ==> !expr_holds(e, c),
    decreases e, 0int,
{
    match e {
        ExprV::Lit(l) => {
            fact_is_sound(l.atom(), f, c, r);
        },
        ExprV::Not(x) => {
            decided_is_sound(*x, f, c, r);
        },
        ExprV::And(xs) => {
            lemma_decided_all(xs, xs.len() as int, f, c, r);
            assert(exprs_all_hold(xs, c) == (forall|i: int|
                0 <= i < xs.len() ==> expr_holds(#[trigger] xs[i], c)));
        },
        ExprV::Or(xs) => {
            lemma_decided_any(xs, xs.len() as int, f, c, r);
            assert(exprs_any_holds(xs, c) == (exists|i: int|
                0 <= i < xs.len() && expr_holds(#[trigger] xs[i], c)));
        },
        _ => {},
    }
}

proof fn lemma_decided_all(xs: Seq<ExprV>, n: int, f: FactV, c: CtxV, r: ReadingsV)
    requires
        fact_holds(f, c, r),
        side_known(c),
        0 <= n <= xs.len(),
    ensures
        decided_all(xs, n, f, r) == K::T ==> forall|i: int|
            0 <= i < n ==> expr_holds(#[trigger] xs[i], c),
        decided_all(xs, n, f, r) == K::F ==> exists|i: int|
            0 <= i < n && !expr_holds(#[trigger] xs[i], c),
    decreases xs, n,
{
    if n > 0 {
        lemma_decided_all(xs, n - 1, f, c, r);
        decided_is_sound(xs[n - 1], f, c, r);
    }
}

proof fn lemma_decided_any(xs: Seq<ExprV>, n: int, f: FactV, c: CtxV, r: ReadingsV)
    requires
        fact_holds(f, c, r),
        side_known(c),
        0 <= n <= xs.len(),
    ensures
        decided_any(xs, n, f, r) == K::F ==> forall|i: int|
            0 <= i < n ==> !expr_holds(#[trigger] xs[i], c),
        decided_any(xs, n, f, r) == K::T ==> exists|i: int|
            0 <= i < n && expr_holds(#[trigger] xs[i], c),
    decreases xs, n,
{
    if n > 0 {
        lemma_decided_any(xs, n - 1, f, c, r);
        decided_is_sound(xs[n - 1], f, c, r);
    }
}

/// Folding in a fact that is so does not change what an expression says of the object.
pub proof fn simplified_keeps_meaning(e: ExprV, f: FactV, c: CtxV, r: ReadingsV)
    requires
        fact_holds(f, c, r),
        side_known(c),
    ensures
        expr_holds(simplified(e, f, r), c) == expr_holds(e, c),
    decreases e, 0int,
{
    match e {
        ExprV::Lit(l) => {
            fact_is_sound(l.atom(), f, c, r);
        },
        ExprV::Not(x) => {
            simplified_keeps_meaning(*x, f, c, r);
        },
        ExprV::And(xs) => {
            lemma_simplified_and(xs, f, c, r);
        },
        ExprV::Or(xs) => {
            lemma_simplified_or(xs, f, c, r);
        },
        _ => {},
    }
}

proof fn lemma_simplified_and(xs: Seq<ExprV>, f: FactV, c: CtxV, r: ReadingsV)
    requires
        fact_holds(f, c, r),
        side_known(c),
    ensures
        expr_holds(simplified_list(xs, true, f, r), c) == exprs_all_hold(xs, c),
    decreases xs, xs.len() + 1,
{
    let n = xs.len() as int;
    lemma_left_over_and(xs, n, f, c, r);
    let kept = left_over(xs, n, true, f, r);
    assert(exprs_all_hold(xs, c) == (forall|i: int|
        0 <= i < n ==> expr_holds(#[trigger] xs[i], c)));
    if kept.len() == 1 {
        assert(exprs_all_hold(kept, c) == expr_holds(kept[0], c));
    }
    assert(kept.len() > 1 ==> expr_holds(ExprV::And(kept), c) == exprs_all_hold(kept, c));
}

proof fn lemma_simplified_or(xs: Seq<ExprV>, f: FactV, c: CtxV, r: ReadingsV)
    requires
        fact_holds(f, c, r),
        side_known(c),
    ensures
        expr_holds(simplified_list(xs, false, f, r), c) == exprs_any_holds(xs, c),
    decreases xs, xs.len() + 1,
{
    let n = xs.len() as int;
    lemma_left_over_or(xs, n, f, c, r);
    let kept = left_over(xs, n, false, f, r);
    assert(exprs_any_holds(xs, c) == (exists|i: int|
        0 <= i < n && expr_holds(#[trigger] xs[i], c)));
    if kept.len() == 1 {
        assert(expr_holds(kept[0], c) ==> exprs_any_holds(kept, c));
        assert(exprs_any_holds(kept, c) ==> expr_holds(kept[0], c));
    }
    assert(kept.len() > 1 ==> expr_holds(ExprV::Or(kept), c) == exprs_any_holds(kept, c));
}

proof fn lemma_left_over_and(xs: Seq<ExprV>, n: int, f: FactV, c: CtxV, r: ReadingsV)
    requires
        fact_holds(f, c, r),
        side_known(c),
        0 <= n <= xs.len(),
    ensures
        settles(xs, n, true, f, r) ==> exists|i: int|
            0 <= i < n && !expr_holds(#[trigger] xs[i], c),
        exprs_all_hold(left_over(xs, n, true, f, r), c) == (forall|i: int|
            0 <= i < n ==> expr_holds(#[trigger] xs[i], c)),
    decreases xs, n,
{
    if n > 0 {
        lemma_left_over_and(xs, n - 1, f, c, r);
        simplified_keeps_meaning(xs[n - 1], f, c, r);
        let s = simplified(xs[n - 1], f, r);
        let rest = left_over(xs, n - 1, true, f, r);
        if !is_unit(s, true) {
            let all = rest.push(s);
            if exprs_all_hold(all, c) {
                assert forall|i: int| 0 <= i < rest.len() implies expr_holds(
                    #[trigger] rest[i],
                    c,
                ) by {
                    assert(all[i] == rest[i]);
                }
                assert(expr_holds(all[rest.len() as int], c));
            }
            if exprs_all_hold(rest, c) && expr_holds(s, c) {
                assert forall|i: int| 0 <= i < all.len() implies expr_holds(
                    #[trigger] all[i],
                    c,
                ) by {
                    if i < rest.len() {
                        assert(all[i] == rest[i]);
                    }
                }
            }
        }
    }
}

proof fn lemma_left_over_or(xs: Seq<ExprV>, n: int, f: FactV, c: CtxV, r: ReadingsV)
    requires
        fact_holds(f, c, r),
        side_known(c),
        0 <= n <= xs.len(),
    ensures
        settles(xs, n, false, f, r) ==> exists|i: int|
            0 <= i < n && expr_holds(#[trigger] xs[i], c),
        exprs_any_holds(left_over(xs, n, false, f, r), c) == (exists|i: int|
            0 <= i < n && expr_holds(#[trigger] xs[i], c)),
    decreases xs, n,
{
    if n > 0 {
        lemma_left_over_or(xs, n - 1, f, c, r);
        simplified_keeps_meaning(xs[n - 1], f, c, r);
        let s = simplified(xs[n - 1], f, r);
        let rest = left_over(xs, n - 1, false, f, r);
        if !is_unit(s, false) {
            let all = rest.push(s);
            if exprs_any_holds(rest, c) {
                let i = choose|i: int| 0 <= i < rest.len() && expr_holds(#[trigger] rest[i], c);
                assert(expr_holds(all[i], c));
            }
            if expr_holds(s, c) {
                assert(expr_holds(all[rest.len() as int], c));
            }
            if exprs_any_holds(all, c) {
                let i = choose|i: int| 0 <= i < all.len() && expr_holds(#[trigger] all[i], c);
                if i < rest.len() {
                    assert(expr_holds(rest[i], c));
                }
            }
        }
    }
}

} // verus!
