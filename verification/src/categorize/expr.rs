//! Conditions as boolean expressions over atoms, and the normal forms of those.
use vstd::prelude::*;

use crate::lang::context::{value_set, CtxV, ValueSets};
use crate::lang::extract::{text_read, Extract, ExtractV};
use crate::lang::filter::{filters, group_filters, number_read, Filter, FilterV};
use crate::model::{copy_all, models, same_all, Model};
use crate::number::{num_le, num_lt, Bound};
use crate::tags::{some_key_starts_with, untagged};
use crate::text::{
    concat3, contains, lowercase, occurs_in, sorted_set, sorting, str_eq, to_lowercase,
};

verus! {

/// A numeric comparison with a threshold.
#[derive(Debug, Clone, Copy, PartialEq, Eq, Structural)]
pub enum NumOp {
    Lt,
    Lte,
    Gt,
    Gte,
}

/// Whose tags an atom asks for: the object's own, or those of the way it was split from.
#[derive(Debug, Clone, Copy, PartialEq, Eq, Structural)]
pub enum Scope {
    Own,
    Parent,
}

/// A tag read of an object or of its parent way.
#[derive(Debug)]
pub struct TagRead {
    pub extract: Extract,
    pub scope: Scope,
}

/// What a tag read reads.
pub struct TagReadV {
    pub extract: ExtractV,
    pub scope: Scope,
}

impl TagReadV {
    /// The keys that are read, those of the parent way spelled with `parent_` in front.
    pub open spec fn names(self) -> Seq<Seq<char>> {
        match self.scope {
            Scope::Own => self.extract.keys(),
            Scope::Parent => self.extract.prefixed(parent_prefix()).keys(),
        }
    }
}

impl TagRead {
    pub open spec fn view(&self) -> TagReadV {
        TagReadV { extract: self.extract@, scope: self.scope }
    }

    /// A read of the object's own tags.
    pub fn own(extract: Extract) -> (r: TagRead)
        ensures
            r@ == own_read(extract@),
    {
        TagRead { extract, scope: Scope::Own }
    }

    /// The same read of the parent way's tags.
    pub fn of_parent(&self) -> (r: TagRead)
        ensures
            r@ == parent_read(self@),
    {
        TagRead { extract: self.extract.copy(), scope: Scope::Parent }
    }

    /// The keys that are read, those of the parent way spelled with `parent_` in front.
    pub fn tag_names(&self) -> (r: Vec<String>)
        ensures
            models(r@) == self@.names(),
    {
        match self.scope {
            Scope::Own => self.extract.tag_names(),
            Scope::Parent => self.extract.prefixed("parent_").tag_names(),
        }
    }
}

impl Model for TagRead {
    type M = TagReadV;

    open spec fn model(&self) -> TagReadV {
        self.view()
    }

    fn copy(&self) -> (r: Self) {
        TagRead { extract: self.extract.copy(), scope: self.scope }
    }

    fn same(&self, other: &Self) -> (r: bool) {
        self.scope == other.scope && self.extract.same(&other.extract)
    }
}

/// A read of the object's own tags.
pub open spec fn own_read(e: ExtractV) -> TagReadV {
    TagReadV { extract: e, scope: Scope::Own }
}

/// The same read of the parent way's tags.
pub open spec fn parent_read(e: TagReadV) -> TagReadV {
    TagReadV { scope: Scope::Parent, ..e }
}

/// An atom: one question about an object. A threshold is the bit pattern of a double.
#[derive(Debug)]
pub enum Predicate {
    Eq(TagRead, String),
    /// The text, or where the flag is set its lower-case form, contains another.
    Contains(TagRead, String, bool),
    StartsWith(TagRead, String),
    EndsWith(TagRead, String),
    Exists(TagRead),
    FirstTagIn(TagRead, Vec<String>),
    Num(TagRead, NumOp, u64),
    HasKeyPrefix(Scope, String),
    HasParent,
    Prefix(String),
    Infix(String),
    Side(String),
    TagsEmpty(Scope),
    /// The text reads as a number.
    IsNum(TagRead),
}

/// What an atom asks.
pub enum PredicateV {
    Eq(TagReadV, Seq<char>),
    Contains(TagReadV, Seq<char>, bool),
    StartsWith(TagReadV, Seq<char>),
    EndsWith(TagReadV, Seq<char>),
    Exists(TagReadV),
    FirstTagIn(TagReadV, Seq<Seq<char>>),
    Num(TagReadV, NumOp, u64),
    HasKeyPrefix(Scope, Seq<char>),
    HasParent,
    Prefix(Seq<char>),
    Infix(Seq<char>),
    Side(Seq<char>),
    TagsEmpty(Scope),
    IsNum(TagReadV),
}

impl PredicateV {
    /// The tags that the atom looks at; an atom that looks at none names what it looks at instead.
    pub open spec fn tags(self) -> Seq<Seq<char>> {
        match self {
            PredicateV::Eq(e, _) => e.names(),
            PredicateV::Contains(e, _, _) => e.names(),
            PredicateV::StartsWith(e, _) => e.names(),
            PredicateV::EndsWith(e, _) => e.names(),
            PredicateV::Exists(e) => e.names(),
            PredicateV::FirstTagIn(e, _) => e.names(),
            PredicateV::Num(e, _, _) => e.names(),
            PredicateV::HasKeyPrefix(_, p) => seq!["prefix("@ + p + ")"@],
            PredicateV::HasParent => seq!["[parent]"@],
            PredicateV::Prefix(_) => seq!["[prefix]"@],
            PredicateV::Infix(_) => seq!["[infix]"@],
            PredicateV::Side(_) => seq!["[side]"@],
            PredicateV::TagsEmpty(_) => seq!["[tags_empty]"@],
            PredicateV::IsNum(e) => e.names(),
        }
    }

    /// Whose tags the atom asks for.
    pub open spec fn scope(self) -> Scope {
        match self {
            PredicateV::Eq(e, _) => e.scope,
            PredicateV::Contains(e, _, _) => e.scope,
            PredicateV::StartsWith(e, _) => e.scope,
            PredicateV::EndsWith(e, _) => e.scope,
            PredicateV::Exists(e) => e.scope,
            PredicateV::FirstTagIn(e, _) => e.scope,
            PredicateV::Num(e, _, _) => e.scope,
            PredicateV::HasKeyPrefix(s, _) => s,
            PredicateV::TagsEmpty(s) => s,
            PredicateV::IsNum(e) => e.scope,
            _ => Scope::Own,
        }
    }
}

fn single(s: String) -> (r: Vec<String>)
    ensures
        models(r@) == seq![s@],
{
    let mut out: Vec<String> = Vec::new();
    out.push(s);
    proof {
        assert(models(out@) =~= seq![s@]);
    }
    out
}

impl Predicate {
    pub open spec fn view(&self) -> PredicateV {
        match self {
            Predicate::Eq(e, v) => PredicateV::Eq(e@, v@),
            Predicate::Contains(e, v, ci) => PredicateV::Contains(e@, v@, *ci),
            Predicate::StartsWith(e, v) => PredicateV::StartsWith(e@, v@),
            Predicate::EndsWith(e, v) => PredicateV::EndsWith(e@, v@),
            Predicate::Exists(e) => PredicateV::Exists(e@),
            Predicate::FirstTagIn(e, vs) => PredicateV::FirstTagIn(e@, models(vs@)),
            Predicate::Num(e, op, bits) => PredicateV::Num(e@, *op, *bits),
            Predicate::HasKeyPrefix(s, p) => PredicateV::HasKeyPrefix(*s, p@),
            Predicate::HasParent => PredicateV::HasParent,
            Predicate::Prefix(v) => PredicateV::Prefix(v@),
            Predicate::Infix(v) => PredicateV::Infix(v@),
            Predicate::Side(v) => PredicateV::Side(v@),
            Predicate::TagsEmpty(s) => PredicateV::TagsEmpty(*s),
            Predicate::IsNum(e) => PredicateV::IsNum(e@),
        }
    }

    /// The tags that the atom looks at; an atom that looks at none names what it looks at instead.
    pub fn tags_involved(&self) -> (r: Vec<String>)
        ensures
            models(r@) == self@.tags(),
    {
        match self {
            Predicate::Eq(e, _) => e.tag_names(),
            Predicate::Contains(e, _, _) => e.tag_names(),
            Predicate::StartsWith(e, _) => e.tag_names(),
            Predicate::EndsWith(e, _) => e.tag_names(),
            Predicate::Exists(e) => e.tag_names(),
            Predicate::FirstTagIn(e, _) => e.tag_names(),
            Predicate::Num(e, _, _) => e.tag_names(),
            Predicate::HasKeyPrefix(_, p) => single(concat3("prefix(", p.as_str(), ")")),
            Predicate::HasParent => single("[parent]".to_owned()),
            Predicate::Prefix(_) => single("[prefix]".to_owned()),
            Predicate::Infix(_) => single("[infix]".to_owned()),
            Predicate::Side(_) => single("[side]".to_owned()),
            Predicate::TagsEmpty(_) => single("[tags_empty]".to_owned()),
            Predicate::IsNum(e) => e.tag_names(),
        }
    }

    /// Whose tags the atom asks for.
    pub fn scope(&self) -> (r: Scope)
        ensures
            r == self@.scope(),
    {
        match self {
            Predicate::Eq(e, _) => e.scope,
            Predicate::Contains(e, _, _) => e.scope,
            Predicate::StartsWith(e, _) => e.scope,
            Predicate::EndsWith(e, _) => e.scope,
            Predicate::Exists(e) => e.scope,
            Predicate::FirstTagIn(e, _) => e.scope,
            Predicate::Num(e, _, _) => e.scope,
            Predicate::HasKeyPrefix(s, _) => *s,
            Predicate::TagsEmpty(s) => *s,
            Predicate::IsNum(e) => e.scope,
            _ => Scope::Own,
        }
    }
}

impl Model for Predicate {
    type M = PredicateV;

    open spec fn model(&self) -> PredicateV {
        self.view()
    }

    fn copy(&self) -> (r: Self) {
        match self {
            Predicate::Eq(e, v) => Predicate::Eq(e.copy(), v.clone()),
            Predicate::Contains(e, v, ci) => Predicate::Contains(e.copy(), v.clone(), *ci),
            Predicate::StartsWith(e, v) => Predicate::StartsWith(e.copy(), v.clone()),
            Predicate::EndsWith(e, v) => Predicate::EndsWith(e.copy(), v.clone()),
            Predicate::Exists(e) => Predicate::Exists(e.copy()),
            Predicate::FirstTagIn(e, vs) => Predicate::FirstTagIn(e.copy(), copy_all(vs)),
            Predicate::Num(e, op, bits) => Predicate::Num(e.copy(), *op, *bits),
            Predicate::HasKeyPrefix(s, p) => Predicate::HasKeyPrefix(*s, p.clone()),
            Predicate::HasParent => Predicate::HasParent,
            Predicate::Prefix(v) => Predicate::Prefix(v.clone()),
            Predicate::Infix(v) => Predicate::Infix(v.clone()),
            Predicate::Side(v) => Predicate::Side(v.clone()),
            Predicate::TagsEmpty(s) => Predicate::TagsEmpty(*s),
            Predicate::IsNum(e) => Predicate::IsNum(e.copy()),
        }
    }

    fn same(&self, other: &Self) -> (r: bool) {
        match (self, other) {
            (Predicate::Eq(a, v), Predicate::Eq(b, w)) => a.same(b) && v.same(w),
            (Predicate::Contains(a, v, x), Predicate::Contains(b, w, y)) => a.same(b) && v.same(w)
                && *x == *y,
            (Predicate::StartsWith(a, v), Predicate::StartsWith(b, w)) => a.same(b) && v.same(w),
            (Predicate::EndsWith(a, v), Predicate::EndsWith(b, w)) => a.same(b) && v.same(w),
            (Predicate::Exists(a), Predicate::Exists(b)) => a.same(b),
            (Predicate::FirstTagIn(a, v), Predicate::FirstTagIn(b, w)) => a.same(b) && same_all(
                v,
                w,
            ),
            (Predicate::Num(a, o, v), Predicate::Num(b, p, w)) => a.same(b) && *o == *p && *v == *w,
            (Predicate::HasKeyPrefix(s, v), Predicate::HasKeyPrefix(t, w)) => *s == *t && v.same(w),
            (Predicate::HasParent, Predicate::HasParent) => true,
            (Predicate::Prefix(v), Predicate::Prefix(w)) => v.same(w),
            (Predicate::Infix(v), Predicate::Infix(w)) => v.same(w),
            (Predicate::Side(v), Predicate::Side(w)) => v.same(w),
            (Predicate::TagsEmpty(s), Predicate::TagsEmpty(t)) => *s == *t,
            (Predicate::IsNum(a), Predicate::IsNum(b)) => a.same(b),
            _ => false,
        }
    }
}

/// An atom, asserted or denied.
#[derive(Debug)]
pub enum Literal {
    Pos(Predicate),
    Neg(Predicate),
}

/// What a literal says.
pub enum LiteralV {
    Pos(PredicateV),
    Neg(PredicateV),
}

impl LiteralV {
    /// The atom.
    pub open spec fn atom(self) -> PredicateV {
        match self {
            LiteralV::Pos(p) => p,
            LiteralV::Neg(p) => p,
        }
    }

    /// The literal that says the opposite.
    pub open spec fn opposite(self) -> LiteralV {
        match self {
            LiteralV::Pos(p) => LiteralV::Neg(p),
            LiteralV::Neg(p) => LiteralV::Pos(p),
        }
    }
}

impl Literal {
    pub open spec fn view(&self) -> LiteralV {
        match self {
            Literal::Pos(p) => LiteralV::Pos(p@),
            Literal::Neg(p) => LiteralV::Neg(p@),
        }
    }

    /// The atom.
    pub fn atom(&self) -> (r: &Predicate)
        ensures
            r@ == self@.atom(),
    {
        match self {
            Literal::Pos(p) => p,
            Literal::Neg(p) => p,
        }
    }

    /// The literal that says the opposite.
    pub fn opposite(&self) -> (r: Literal)
        ensures
            r@ == self@.opposite(),
    {
        match self {
            Literal::Pos(p) => Literal::Neg(p.copy()),
            Literal::Neg(p) => Literal::Pos(p.copy()),
        }
    }
}

impl Model for Literal {
    type M = LiteralV;

    open spec fn model(&self) -> LiteralV {
        self.view()
    }

    fn copy(&self) -> (r: Self) {
        match self {
            Literal::Pos(p) => Literal::Pos(p.copy()),
            Literal::Neg(p) => Literal::Neg(p.copy()),
        }
    }

    fn same(&self, other: &Self) -> (r: bool) {
        match (self, other) {
            (Literal::Pos(p), Literal::Pos(q)) => p.same(q),
            (Literal::Neg(p), Literal::Neg(q)) => p.same(q),
            _ => false,
        }
    }
}

/// A boolean expression over literals.
#[derive(Debug)]
pub enum Expr {
    True,
    False,
    Lit(Literal),
    Not(Box<Expr>),
    And(Vec<Expr>),
    Or(Vec<Expr>),
}

/// What an expression says.
pub enum ExprV {
    True,
    False,
    Lit(LiteralV),
    Not(Box<ExprV>),
    And(Seq<ExprV>),
    Or(Seq<ExprV>),
}

impl Expr {
    pub open spec fn view(&self) -> ExprV
        decreases self,
    {
        match self {
            Expr::True => ExprV::True,
            Expr::False => ExprV::False,
            Expr::Lit(l) => ExprV::Lit(l@),
            Expr::Not(x) => ExprV::Not(Box::new((**x).view())),
            Expr::And(xs) => ExprV::And(exprs(xs@)),
            Expr::Or(xs) => ExprV::Or(exprs(xs@)),
        }
    }
}

pub open spec fn exprs(v: Seq<Expr>) -> Seq<ExprV>
    decreases v,
{
    Seq::new(
        v.len(),
        |i: int|
            if 0 <= i < v.len() {
                v[i].view()
            } else {
                arbitrary()
            },
    )
}

pub broadcast proof fn exprs_len(v: Seq<Expr>)
    ensures
        #[trigger] exprs(v).len() == v.len(),
{
}

pub broadcast proof fn exprs_index(v: Seq<Expr>, i: int)
    requires
        0 <= i < v.len(),
    ensures
        #[trigger] exprs(v)[i] == v[i].view(),
{
}

pub broadcast group group_exprs {
    exprs_len,
    exprs_index,
}

/// A copy of an expression.
pub fn clone_expr(e: &Expr) -> (r: Expr)
    ensures
        r@ == e@,
    decreases e,
{
    match e {
        Expr::True => Expr::True,
        Expr::False => Expr::False,
        Expr::Lit(l) => Expr::Lit(l.copy()),
        Expr::Not(x) => Expr::Not(Box::new(clone_expr(x))),
        Expr::And(xs) => Expr::And(clone_exprs(xs)),
        Expr::Or(xs) => Expr::Or(clone_exprs(xs)),
    }
}

/// A copy of a list of expressions.
pub fn clone_exprs(v: &Vec<Expr>) -> (r: Vec<Expr>)
    ensures
        exprs(r@) == exprs(v@),
    decreases v,
{
    broadcast use group_exprs;

    let mut out: Vec<Expr> = Vec::new();
    for i in 0..v.len()
        invariant
            out@.len() == i,
            forall|j: int| 0 <= j < i ==> (#[trigger] out@[j])@ == v@[j]@,
    {
        let c = clone_expr(&v[i]);
        out.push(c);
    }
    proof {
        assert(exprs(out@) =~= exprs(v@));
    }
    out
}

// ── What atoms and expressions say of an object ─────────────────────────────────────────────

/// In front of a key, it tells that the key is one of the parent way's tags.
pub open spec fn parent_prefix() -> Seq<char> {
    "parent_"@
}

/// The tags of a scope; none where there is no parent way.
pub open spec fn scoped_tags(s: Scope, c: CtxV) -> Option<Map<Seq<char>, Seq<char>>> {
    match s {
        Scope::Own => Some(c.obj),
        Scope::Parent => c.parent,
    }
}

/// The text that a read gives, of the object's tags or of the parent way's.
pub open spec fn scoped_text(e: TagReadV, c: CtxV) -> Option<Seq<char>> {
    match scoped_tags(e.scope, c) {
        Some(tags) => text_read(e.extract, tags, c.readings),
        None => None,
    }
}

/// The number that a read gives, of the object's tags or of the parent way's.
pub open spec fn scoped_number(e: TagReadV, c: CtxV) -> Option<u64> {
    match scoped_tags(e.scope, c) {
        Some(tags) => number_read(e.extract, tags, c.readings),
        None => None,
    }
}

/// Whether a text, or its lower-case form, contains another.
pub open spec fn text_contains(v: Seq<char>, s: Seq<char>, ci: bool) -> bool {
    occurs_in(
        if ci {
            lowercase(v)
        } else {
            v
        },
        s,
    )
}

/// Whether a text, or its lower-case form, contains another.
pub fn has_text(v: &str, s: &str, ci: bool) -> (r: bool)
    ensures
        r == text_contains(v@, s@, ci),
{
    if ci {
        contains(to_lowercase(v).as_str(), s)
    } else {
        contains(v, s)
    }
}

/// Whether `n` compares with the threshold as the operator says.
pub open spec fn num_matches(op: NumOp, threshold: u64, n: u64) -> bool {
    match op {
        NumOp::Lt => num_lt(n, threshold),
        NumOp::Lte => num_le(n, threshold),
        NumOp::Gt => num_lt(threshold, n),
        NumOp::Gte => num_le(threshold, n),
    }
}

/// Whether an atom is true of an object.
pub open spec fn decide(p: PredicateV, c: CtxV) -> bool {
    match p {
        PredicateV::Eq(e, v) => scoped_text(e, c) == Some(v),
        PredicateV::Contains(e, s, ci) => match scoped_text(e, c) {
            Some(v) => text_contains(v, s, ci),
            None => false,
        },
        PredicateV::StartsWith(e, s) => match scoped_text(e, c) {
            Some(v) => s.is_prefix_of(v),
            None => false,
        },
        PredicateV::EndsWith(e, s) => match scoped_text(e, c) {
            Some(v) => s.is_suffix_of(v),
            None => false,
        },
        PredicateV::Exists(e) => scoped_text(e, c) is Some,
        PredicateV::FirstTagIn(e, vs) => match scoped_text(e, c) {
            Some(v) => vs.contains(v),
            None => false,
        },
        PredicateV::Num(e, op, bits) => match scoped_number(e, c) {
            Some(n) => num_matches(op, bits, n),
            None => false,
        },
        PredicateV::HasKeyPrefix(s, p) => match scoped_tags(s, c) {
            Some(tags) => some_key_starts_with(tags, p),
            None => false,
        },
        PredicateV::HasParent => c.parent is Some,
        PredicateV::Prefix(v) => c.annotation("_prefix"@) == Some(v),
        PredicateV::Infix(v) => c.annotation("_infix"@) == Some(v),
        PredicateV::Side(v) => c.side() == v,
        PredicateV::TagsEmpty(s) => scoped_tags(s, c) == Some(untagged()),
        PredicateV::IsNum(e) => scoped_number(e, c) is Some,
    }
}

/// Whether a literal is true of an object.
pub open spec fn literal_holds(l: LiteralV, c: CtxV) -> bool {
    match l {
        LiteralV::Pos(p) => decide(p, c),
        LiteralV::Neg(p) => !decide(p, c),
    }
}

/// Whether an expression is true of an object.
pub open spec fn expr_holds(e: ExprV, c: CtxV) -> bool
    decreases e,
{
    match e {
        ExprV::True => true,
        ExprV::False => false,
        ExprV::Lit(l) => literal_holds(l, c),
        ExprV::Not(x) => !expr_holds(*x, c),
        ExprV::And(xs) => exprs_all_hold(xs, c),
        ExprV::Or(xs) => exprs_any_holds(xs, c),
    }
}

/// Whether every expression of a list is true of an object.
pub open spec fn exprs_all_hold(xs: Seq<ExprV>, c: CtxV) -> bool
    decreases xs,
{
    forall|i: int| 0 <= i < xs.len() ==> expr_holds(#[trigger] xs[i], c)
}

/// Whether some expression of a list is true of an object.
pub open spec fn exprs_any_holds(xs: Seq<ExprV>, c: CtxV) -> bool
    decreases xs,
{
    exists|i: int| 0 <= i < xs.len() && expr_holds(#[trigger] xs[i], c)
}

// ── Filters as expressions ──────────────────────────────────────────────────────────────────

/// The notes that a filter may ask for, each of which is an atom.
pub open spec fn known_annotation(key: Seq<char>) -> bool {
    key == "_side"@ || key == "_prefix"@ || key == "_infix"@
}

/// Whether a filter asks for no note but the side, the prefix and the infix.
pub open spec fn expressible(f: FilterV) -> bool
    decreases f,
{
    match f {
        FilterV::And(fs) => all_expressible(fs),
        FilterV::Or(fs) => all_expressible(fs),
        FilterV::Not(g) => expressible(*g),
        FilterV::Parent(g) => expressible(*g),
        FilterV::AnnotationEq(key, _) => known_annotation(key),
        _ => true,
    }
}

/// Whether every filter of a list is expressible.
pub open spec fn all_expressible(fs: Seq<FilterV>) -> bool
    decreases fs,
{
    forall|i: int| 0 <= i < fs.len() ==> expressible(#[trigger] fs[i])
}

/// An asserted atom.
pub open spec fn pos(p: PredicateV) -> ExprV {
    ExprV::Lit(LiteralV::Pos(p))
}

/// A denied atom.
pub open spec fn neg(p: PredicateV) -> ExprV {
    ExprV::Lit(LiteralV::Neg(p))
}

/// The read gives one of the texts, as a disjunction.
pub open spec fn any_eq(e: TagReadV, vs: Seq<Seq<char>>) -> Seq<ExprV> {
    vs.map_values(|v: Seq<char>| pos(PredicateV::Eq(e, v)))
}

/// The bounds that an interval sets, as comparisons; where it sets none, that there is a number.
pub open spec fn bound_atoms(e: TagReadV, min: Bound, max: Bound) -> Seq<ExprV> {
    if min is Unbounded && max is Unbounded {
        seq![pos(PredicateV::IsNum(e))]
    } else {
        (match min {
            Bound::Unbounded => Seq::<ExprV>::empty(),
            Bound::Included(a) => seq![pos(PredicateV::Num(e, NumOp::Gte, a))],
            Bound::Excluded(a) => seq![pos(PredicateV::Num(e, NumOp::Gt, a))],
        }) + (match max {
            Bound::Unbounded => Seq::<ExprV>::empty(),
            Bound::Included(b) => seq![pos(PredicateV::Num(e, NumOp::Lte, b))],
            Bound::Excluded(b) => seq![pos(PredicateV::Num(e, NumOp::Lt, b))],
        })
    }
}

/// A conjunction; one conjunct stands for itself.
pub open spec fn and_of(xs: Seq<ExprV>) -> ExprV {
    if xs.len() == 1 {
        xs[0]
    } else {
        ExprV::And(xs)
    }
}

/// A filter as an expression over atoms.
pub open spec fn expr_of(f: FilterV, sets: Seq<(Seq<char>, Seq<Seq<char>>)>) -> ExprV
    decreases f,
{
    match f {
        FilterV::Bool(b) => if b {
            ExprV::True
        } else {
            ExprV::False
        },
        FilterV::And(fs) => ExprV::And(exprs_of(fs, sets)),
        FilterV::Or(fs) => ExprV::Or(exprs_of(fs, sets)),
        FilterV::Not(g) => ExprV::Not(Box::new(expr_of(*g, sets))),
        FilterV::Eq(e, v) => match e {
            ExtractV::Value { .. } => pos(PredicateV::Eq(own_read(e), v)),
            ExtractV::Candidates { .. } => pos(PredicateV::FirstTagIn(own_read(e), seq![v])),
        },
        FilterV::Exists(e, wanted) => if wanted {
            pos(PredicateV::Exists(own_read(e)))
        } else {
            neg(PredicateV::Exists(own_read(e)))
        },
        FilterV::Contains(e, p, ci) => pos(PredicateV::Contains(own_read(e), p, ci)),
        FilterV::StartsWith(e, p) => pos(PredicateV::StartsWith(own_read(e), p)),
        FilterV::EndsWith(e, p) => pos(PredicateV::EndsWith(own_read(e), p)),
        FilterV::In(e, vs) => match e {
            ExtractV::Value { .. } => ExprV::Or(any_eq(own_read(e), vs)),
            ExtractV::Candidates { .. } => pos(PredicateV::FirstTagIn(own_read(e), vs)),
        },
        FilterV::InSet(e, name) => match e {
            ExtractV::Value { .. } => ExprV::Or(any_eq(own_read(e), value_set(sets, name))),
            ExtractV::Candidates { .. } => pos(
                PredicateV::FirstTagIn(own_read(e), sorting(value_set(sets, name))),
            ),
        },
        FilterV::Parent(g) => ExprV::And(
            seq![pos(PredicateV::HasParent), prefixed_expr(expr_of(*g, sets))],
        ),
        FilterV::AnnotationEq(key, eq) => if key == "_side"@ {
            pos(PredicateV::Side(eq))
        } else if key == "_prefix"@ {
            pos(PredicateV::Prefix(eq))
        } else {
            pos(PredicateV::Infix(eq))
        },
        FilterV::NumRange(e, min, max) => and_of(bound_atoms(own_read(e), min, max)),
        FilterV::HasKeyPrefix(p) => pos(PredicateV::HasKeyPrefix(Scope::Own, p)),
        FilterV::HasParent(wanted) => if wanted {
            pos(PredicateV::HasParent)
        } else {
            neg(PredicateV::HasParent)
        },
        FilterV::TagsEmpty(wanted) => if wanted {
            pos(PredicateV::TagsEmpty(Scope::Own))
        } else {
            neg(PredicateV::TagsEmpty(Scope::Own))
        },
    }
}

/// The filters of a list as expressions over atoms.
pub open spec fn exprs_of(
    fs: Seq<FilterV>,
    sets: Seq<(Seq<char>, Seq<Seq<char>>)>,
) -> Seq<ExprV>
    decreases fs,
{
    Seq::new(
        fs.len(),
        |i: int|
            if 0 <= i < fs.len() {
                expr_of(fs[i], sets)
            } else {
                arbitrary()
            },
    )
}

/// An atom about the parent way's tags in place of the object's own. An atom that looks at no tags
/// stays as it is.
pub open spec fn prefixed_atom(p: PredicateV) -> PredicateV {
    match p {
        PredicateV::Eq(e, v) => PredicateV::Eq(parent_read(e), v),
        PredicateV::Contains(e, v, ci) => PredicateV::Contains(parent_read(e), v, ci),
        PredicateV::StartsWith(e, v) => PredicateV::StartsWith(parent_read(e), v),
        PredicateV::EndsWith(e, v) => PredicateV::EndsWith(parent_read(e), v),
        PredicateV::Exists(e) => PredicateV::Exists(parent_read(e)),
        PredicateV::FirstTagIn(e, vs) => PredicateV::FirstTagIn(parent_read(e), vs),
        PredicateV::Num(e, op, bits) => PredicateV::Num(parent_read(e), op, bits),
        PredicateV::HasKeyPrefix(_, v) => PredicateV::HasKeyPrefix(Scope::Parent, v),
        PredicateV::TagsEmpty(_) => PredicateV::TagsEmpty(Scope::Parent),
        PredicateV::IsNum(e) => PredicateV::IsNum(parent_read(e)),
        _ => p,
    }
}

/// A literal about the parent way's tags.
pub open spec fn prefixed_literal(l: LiteralV) -> LiteralV {
    match l {
        LiteralV::Pos(p) => LiteralV::Pos(prefixed_atom(p)),
        LiteralV::Neg(p) => LiteralV::Neg(prefixed_atom(p)),
    }
}

/// An expression about the parent way's tags.
pub open spec fn prefixed_expr(e: ExprV) -> ExprV
    decreases e,
{
    match e {
        ExprV::True => ExprV::True,
        ExprV::False => ExprV::False,
        ExprV::Lit(l) => ExprV::Lit(prefixed_literal(l)),
        ExprV::Not(x) => ExprV::Not(Box::new(prefixed_expr(*x))),
        ExprV::And(xs) => ExprV::And(prefixed_exprs(xs)),
        ExprV::Or(xs) => ExprV::Or(prefixed_exprs(xs)),
    }
}

/// The expressions of a list about the parent way's tags.
pub open spec fn prefixed_exprs(xs: Seq<ExprV>) -> Seq<ExprV>
    decreases xs,
{
    Seq::new(
        xs.len(),
        |i: int|
            if 0 <= i < xs.len() {
                prefixed_expr(xs[i])
            } else {
                arbitrary()
            },
    )
}

fn positive(p: Predicate) -> (r: Expr)
    ensures
        r@ == pos(p@),
{
    Expr::Lit(Literal::Pos(p))
}

fn negative(p: Predicate) -> (r: Expr)
    ensures
        r@ == neg(p@),
{
    Expr::Lit(Literal::Neg(p))
}

fn any_equal(extract: &TagRead, values: &Vec<String>) -> (r: Vec<Expr>)
    ensures
        exprs(r@) == any_eq(extract@, models(values@)),
{
    broadcast use group_exprs;

    let mut out: Vec<Expr> = Vec::new();
    for i in 0..values.len()
        invariant
            out@.len() == i,
            forall|j: int|
                0 <= j < i ==> (#[trigger] out@[j])@ == pos(PredicateV::Eq(extract@, values@[j]@)),
    {
        out.push(positive(Predicate::Eq(extract.copy(), values[i].clone())));
    }
    proof {
        assert(exprs(out@) =~= any_eq(extract@, models(values@)));
    }
    out
}

fn bounds(extract: &TagRead, min: Bound, max: Bound) -> (r: Vec<Expr>)
    ensures
        exprs(r@) == bound_atoms(extract@, min, max),
{
    broadcast use group_exprs;

    let mut out: Vec<Expr> = Vec::new();
    match (min, max) {
        (Bound::Unbounded, Bound::Unbounded) => {
            out.push(positive(Predicate::IsNum(extract.copy())));
        },
        _ => {},
    }
    match min {
        Bound::Unbounded => {},
        Bound::Included(a) => {
            out.push(positive(Predicate::Num(extract.copy(), NumOp::Gte, a)));
        },
        Bound::Excluded(a) => {
            out.push(positive(Predicate::Num(extract.copy(), NumOp::Gt, a)));
        },
    }
    match max {
        Bound::Unbounded => {},
        Bound::Included(b) => {
            out.push(positive(Predicate::Num(extract.copy(), NumOp::Lte, b)));
        },
        Bound::Excluded(b) => {
            out.push(positive(Predicate::Num(extract.copy(), NumOp::Lt, b)));
        },
    }
    proof {
        assert(exprs(out@) =~= bound_atoms(extract@, min, max));
    }
    out
}

fn conjunction(xs: Vec<Expr>) -> (r: Expr)
    ensures
        r@ == and_of(exprs(xs@)),
{
    broadcast use group_exprs;

    let mut xs = xs;
    if xs.len() == 1 {
        let ghost all = exprs(xs@);
        let x = xs.swap_remove(0);
        proof {
            assert(x@ == all[0]);
        }
        x
    } else {
        Expr::And(xs)
    }
}

/// A filter as an expression over atoms. A filter that asks for another note than the side, the
/// prefix and the infix has none.
pub fn filter_to_expr(filter: &Filter, sets: &ValueSets) -> (r: Expr)
    requires
        expressible(filter@),
    ensures
        r@ == expr_of(filter@, sets@),
    decreases filter,
{
    match filter {
        Filter::Bool(b) => if *b {
            Expr::True
        } else {
            Expr::False
        },
        Filter::And { and } => Expr::And(filters_to_exprs(and, sets)),
        Filter::Or { or } => Expr::Or(filters_to_exprs(or, sets)),
        Filter::Not { not } => Expr::Not(Box::new(filter_to_expr(not, sets))),
        Filter::Eq { extract, eq } => match extract {
            Extract::Value { .. } => positive(Predicate::Eq(read(extract), eq.clone())),
            Extract::Candidates { .. } => positive(
                Predicate::FirstTagIn(read(extract), single(eq.clone())),
            ),
        },
        Filter::Exists { extract, exists } => if *exists {
            positive(Predicate::Exists(read(extract)))
        } else {
            negative(Predicate::Exists(read(extract)))
        },
        Filter::Contains { extract, contains, case_insensitive } => positive(
            Predicate::Contains(read(extract), contains.clone(), *case_insensitive),
        ),
        Filter::StartsWith { extract, starts_with } => positive(
            Predicate::StartsWith(read(extract), starts_with.clone()),
        ),
        Filter::EndsWith { extract, ends_with } => positive(
            Predicate::EndsWith(read(extract), ends_with.clone()),
        ),
        Filter::In { extract, within } => match extract {
            Extract::Value { .. } => Expr::Or(any_equal(&read(extract), within)),
            Extract::Candidates { .. } => positive(
                Predicate::FirstTagIn(read(extract), copy_all(within)),
            ),
        },
        Filter::InSet { extract, in_set } => {
            let values = sets.value_set(in_set.as_str());
            match extract {
                Extract::Value { .. } => Expr::Or(any_equal(&read(extract), &values)),
                Extract::Candidates { .. } => positive(
                    Predicate::FirstTagIn(read(extract), sorted_set(&values)),
                ),
            }
        },
        Filter::Parent { parent } => {
            let inner = filter_to_expr(parent, sets);
            of_the_parent(&inner)
        },
        Filter::AnnotationEq { key, eq } => if str_eq(key.as_str(), "_side") {
            positive(Predicate::Side(eq.clone()))
        } else if str_eq(key.as_str(), "_prefix") {
            positive(Predicate::Prefix(eq.clone()))
        } else {
            positive(Predicate::Infix(eq.clone()))
        },
        Filter::NumRange { extract, min, max } => conjunction(bounds(&read(extract), *min, *max)),
        Filter::HasKeyPrefix { has_key_prefix } => positive(
            Predicate::HasKeyPrefix(Scope::Own, has_key_prefix.clone()),
        ),
        Filter::HasParent { has_parent } => if *has_parent {
            positive(Predicate::HasParent)
        } else {
            negative(Predicate::HasParent)
        },
        Filter::TagsEmpty { tags_empty } => if *tags_empty {
            positive(Predicate::TagsEmpty(Scope::Own))
        } else {
            negative(Predicate::TagsEmpty(Scope::Own))
        },
    }
}

fn read(extract: &Extract) -> (r: TagRead)
    ensures
        r@ == own_read(extract@),
{
    TagRead::own(extract.copy())
}

/// There is a parent way, and the expression is true of its tags.
fn of_the_parent(inner: &Expr) -> (r: Expr)
    ensures
        r@ == ExprV::And(seq![pos(PredicateV::HasParent), prefixed_expr(inner@)]),
{
    broadcast use group_exprs;

    let mut parts: Vec<Expr> = Vec::new();
    parts.push(positive(Predicate::HasParent));
    parts.push(prefix_expr_tags(inner));
    proof {
        assert(exprs(parts@) =~= seq![pos(PredicateV::HasParent), prefixed_expr(inner@)]);
    }
    Expr::And(parts)
}

/// The filters of a list as expressions over atoms.
pub fn filters_to_exprs(v: &Vec<Filter>, sets: &ValueSets) -> (r: Vec<Expr>)
    requires
        all_expressible(filters(v@)),
    ensures
        exprs(r@) == exprs_of(filters(v@), sets@),
    decreases v,
{
    broadcast use group_exprs, group_filters;

    let mut out: Vec<Expr> = Vec::new();
    for i in 0..v.len()
        invariant
            all_expressible(filters(v@)),
            out@.len() == i,
            forall|j: int|
                0 <= j < i ==> (#[trigger] out@[j])@ == expr_of(filters(v@)[j], sets@),
    {
        proof {
            assert(expressible(filters(v@)[i as int]));
        }
        let c = filter_to_expr(&v[i], sets);
        out.push(c);
    }
    proof {
        assert(exprs(out@) =~= exprs_of(filters(v@), sets@));
    }
    out
}

fn prefix_predicate(p: &Predicate) -> (r: Predicate)
    ensures
        r@ == prefixed_atom(p@),
{
    match p {
        Predicate::Eq(e, v) => Predicate::Eq(e.of_parent(), v.clone()),
        Predicate::Contains(e, v, ci) => Predicate::Contains(e.of_parent(), v.clone(), *ci),
        Predicate::StartsWith(e, v) => Predicate::StartsWith(e.of_parent(), v.clone()),
        Predicate::EndsWith(e, v) => Predicate::EndsWith(e.of_parent(), v.clone()),
        Predicate::Exists(e) => Predicate::Exists(e.of_parent()),
        Predicate::FirstTagIn(e, vs) => Predicate::FirstTagIn(e.of_parent(), copy_all(vs)),
        Predicate::Num(e, op, bits) => Predicate::Num(e.of_parent(), *op, *bits),
        Predicate::HasKeyPrefix(_, v) => Predicate::HasKeyPrefix(Scope::Parent, v.clone()),
        Predicate::TagsEmpty(_) => Predicate::TagsEmpty(Scope::Parent),
        Predicate::IsNum(e) => Predicate::IsNum(e.of_parent()),
        _ => p.copy(),
    }
}

/// An expression about the parent way's tags in place of the object's own.
pub fn prefix_expr_tags(e: &Expr) -> (r: Expr)
    ensures
        r@ == prefixed_expr(e@),
    decreases e,
{
    match e {
        Expr::True => Expr::True,
        Expr::False => Expr::False,
        Expr::Lit(Literal::Pos(p)) => Expr::Lit(Literal::Pos(prefix_predicate(p))),
        Expr::Lit(Literal::Neg(p)) => Expr::Lit(Literal::Neg(prefix_predicate(p))),
        Expr::Not(x) => Expr::Not(Box::new(prefix_expr_tags(x))),
        Expr::And(xs) => Expr::And(prefix_all_tags(xs)),
        Expr::Or(xs) => Expr::Or(prefix_all_tags(xs)),
    }
}

fn prefix_all_tags(v: &Vec<Expr>) -> (r: Vec<Expr>)
    ensures
        exprs(r@) == prefixed_exprs(exprs(v@)),
    decreases v,
{
    broadcast use group_exprs;

    let mut out: Vec<Expr> = Vec::new();
    for i in 0..v.len()
        invariant
            out@.len() == i,
            forall|j: int| 0 <= j < i ==> (#[trigger] out@[j])@ == prefixed_expr(exprs(v@)[j]),
    {
        let c = prefix_expr_tags(&v[i]);
        out.push(c);
    }
    proof {
        assert(exprs(out@) =~= prefixed_exprs(exprs(v@)));
    }
    out
}

// ── Normal forms ────────────────────────────────────────────────────────────────────────────

/// The negation normal form of an expression, or of its opposite where `flip` is set: the
/// negations are pushed down to the literals.
pub open spec fn nnf(e: ExprV, flip: bool) -> ExprV
    decreases e,
{
    match e {
        ExprV::True => if flip {
            ExprV::False
        } else {
            ExprV::True
        },
        ExprV::False => if flip {
            ExprV::True
        } else {
            ExprV::False
        },
        ExprV::Lit(l) => ExprV::Lit(
            if flip {
                l.opposite()
            } else {
                l
            },
        ),
        ExprV::Not(x) => nnf(*x, !flip),
        ExprV::And(xs) => if flip {
            ExprV::Or(nnf_all(xs, flip))
        } else {
            ExprV::And(nnf_all(xs, flip))
        },
        ExprV::Or(xs) => if flip {
            ExprV::And(nnf_all(xs, flip))
        } else {
            ExprV::Or(nnf_all(xs, flip))
        },
    }
}

/// The negation normal forms of the expressions of a list.
pub open spec fn nnf_all(xs: Seq<ExprV>, flip: bool) -> Seq<ExprV>
    decreases xs,
{
    Seq::new(
        xs.len(),
        |i: int|
            if 0 <= i < xs.len() {
                nnf(xs[i], flip)
            } else {
                arbitrary()
            },
    )
}

/// Whether an expression has no negation but in its literals.
pub open spec fn is_nnf(e: ExprV) -> bool
    decreases e,
{
    match e {
        ExprV::Not(_) => false,
        ExprV::And(xs) => all_nnf(xs),
        ExprV::Or(xs) => all_nnf(xs),
        _ => true,
    }
}

/// Whether every expression of a list has no negation but in its literals.
pub open spec fn all_nnf(xs: Seq<ExprV>) -> bool
    decreases xs,
{
    forall|i: int| 0 <= i < xs.len() ==> is_nnf(#[trigger] xs[i])
}

fn push_down(e: &Expr, flip: bool) -> (r: Expr)
    ensures
        r@ == nnf(e@, flip),
    decreases e,
{
    match e {
        Expr::True => if flip {
            Expr::False
        } else {
            Expr::True
        },
        Expr::False => if flip {
            Expr::True
        } else {
            Expr::False
        },
        Expr::Lit(l) => Expr::Lit(
            if flip {
                l.opposite()
            } else {
                l.copy()
            },
        ),
        Expr::Not(x) => push_down(x, !flip),
        Expr::And(xs) => {
            let ys = push_down_all(xs, flip);
            if flip {
                Expr::Or(ys)
            } else {
                Expr::And(ys)
            }
        },
        Expr::Or(xs) => {
            let ys = push_down_all(xs, flip);
            if flip {
                Expr::And(ys)
            } else {
                Expr::Or(ys)
            }
        },
    }
}

fn push_down_all(v: &Vec<Expr>, flip: bool) -> (r: Vec<Expr>)
    ensures
        exprs(r@) == nnf_all(exprs(v@), flip),
    decreases v,
{
    broadcast use group_exprs;

    let mut out: Vec<Expr> = Vec::new();
    for i in 0..v.len()
        invariant
            out@.len() == i,
            forall|j: int| 0 <= j < i ==> (#[trigger] out@[j])@ == nnf(exprs(v@)[j], flip),
    {
        let c = push_down(&v[i], flip);
        out.push(c);
    }
    proof {
        assert(exprs(out@) =~= nnf_all(exprs(v@), flip));
    }
    out
}

/// The negation normal form of an expression.
pub fn to_nnf(expr: Expr) -> (r: Expr)
    ensures
        r@ == nnf(expr@, false),
        is_nnf(r@),
{
    let r = push_down(&expr, false);
    proof {
        nnf_has_no_negation(expr@, false);
    }
    r
}

/// The negation normal form of the opposite of an expression.
pub fn to_negated_nnf(expr: &Expr) -> (r: Expr)
    ensures
        r@ == nnf(expr@, true),
        is_nnf(r@),
{
    let r = push_down(expr, true);
    proof {
        nnf_has_no_negation(expr@, true);
    }
    r
}

/// A negation normal form has no negation but in its literals.
pub proof fn nnf_has_no_negation(e: ExprV, flip: bool)
    ensures
        is_nnf(nnf(e, flip)),
    decreases e,
{
    match e {
        ExprV::Not(x) => {
            nnf_has_no_negation(*x, !flip);
        },
        ExprV::And(xs) => {
            assert forall|i: int| 0 <= i < xs.len() implies is_nnf(
                #[trigger] nnf_all(xs, flip)[i],
            ) by {
                nnf_has_no_negation(xs[i], flip);
            }
            assert(all_nnf(nnf_all(xs, flip)));
        },
        ExprV::Or(xs) => {
            assert forall|i: int| 0 <= i < xs.len() implies is_nnf(
                #[trigger] nnf_all(xs, flip)[i],
            ) by {
                nnf_has_no_negation(xs[i], flip);
            }
            assert(all_nnf(nnf_all(xs, flip)));
        },
        _ => {},
    }
}

/// A negation normal form is true of the same objects, its flipped form of the others.
pub proof fn nnf_keeps_meaning(e: ExprV, flip: bool, c: CtxV)
    ensures
        expr_holds(nnf(e, flip), c) == (expr_holds(e, c) != flip),
    decreases e,
{
    match e {
        ExprV::Not(x) => {
            nnf_keeps_meaning(*x, !flip, c);
        },
        ExprV::And(xs) => {
            lemma_nnf_all(xs, flip, c);
        },
        ExprV::Or(xs) => {
            lemma_nnf_all(xs, flip, c);
        },
        _ => {},
    }
}

proof fn lemma_nnf_all(xs: Seq<ExprV>, flip: bool, c: CtxV)
    ensures
        exprs_all_hold(nnf_all(xs, flip), c) == (if flip {
            !exprs_any_holds(xs, c)
        } else {
            exprs_all_hold(xs, c)
        }),
        exprs_any_holds(nnf_all(xs, flip), c) == (if flip {
            !exprs_all_hold(xs, c)
        } else {
            exprs_any_holds(xs, c)
        }),
    decreases xs,
{
    let ys = nnf_all(xs, flip);
    assert forall|i: int| 0 <= i < xs.len() implies expr_holds(#[trigger] ys[i], c) == (expr_holds(
        xs[i],
        c,
    ) != flip) by {
        nnf_keeps_meaning(xs[i], flip, c);
    }
    if exprs_all_hold(ys, c) {
        assert forall|i: int| 0 <= i < xs.len() implies expr_holds(#[trigger] xs[i], c) != flip by {
            assert(expr_holds(ys[i], c));
        }
    } else {
        let i = choose|i: int| 0 <= i < ys.len() && !expr_holds(#[trigger] ys[i], c);
        assert(expr_holds(xs[i], c) == flip);
    }
    if exprs_any_holds(ys, c) {
        let i = choose|i: int| 0 <= i < ys.len() && expr_holds(#[trigger] ys[i], c);
        assert(expr_holds(xs[i], c) != flip);
    } else {
        assert forall|i: int| 0 <= i < xs.len() implies expr_holds(#[trigger] xs[i], c) == flip by {
            assert(!expr_holds(ys[i], c));
        }
    }
}

/// The term `t` before every term of `b`.
pub open spec fn row(t: Seq<LiteralV>, b: Seq<Seq<LiteralV>>) -> Seq<Seq<LiteralV>> {
    b.map_values(|u: Seq<LiteralV>| t + u)
}

/// Every term of `a` before every term of `b`.
pub open spec fn product(a: Seq<Seq<LiteralV>>, b: Seq<Seq<LiteralV>>) -> Seq<Seq<LiteralV>>
    decreases a.len(),
{
    if a.len() == 0 {
        Seq::empty()
    } else {
        product(a.drop_last(), b) + row(a.last(), b)
    }
}

/// The disjunctive normal form of an expression in negation normal form: a list of terms, each a
/// list of literals.
pub open spec fn dnf(e: ExprV) -> Seq<Seq<LiteralV>>
    decreases e, 0int,
{
    match e {
        ExprV::True => seq![Seq::<LiteralV>::empty()],
        ExprV::False => Seq::empty(),
        ExprV::Lit(l) => seq![seq![l]],
        ExprV::Or(xs) => dnf_or(xs, xs.len() as int),
        ExprV::And(xs) => dnf_and(xs, xs.len() as int),
        ExprV::Not(_) => Seq::empty(),
    }
}

/// The disjunctive normal form of the disjunction of the first `n` expressions.
pub open spec fn dnf_or(xs: Seq<ExprV>, n: int) -> Seq<Seq<LiteralV>>
    decreases xs, n,
{
    if n <= 0 || n > xs.len() {
        Seq::empty()
    } else {
        dnf_or(xs, n - 1) + dnf(xs[n - 1])
    }
}

/// The disjunctive normal form of the conjunction of the first `n` expressions.
pub open spec fn dnf_and(xs: Seq<ExprV>, n: int) -> Seq<Seq<LiteralV>>
    decreases xs, n,
{
    if n <= 0 || n > xs.len() {
        seq![Seq::<LiteralV>::empty()]
    } else {
        product(dnf_and(xs, n - 1), dnf(xs[n - 1]))
    }
}

/// Every term of `a` before every term of `b`.
fn cross(a: &Vec<Vec<Literal>>, b: &Vec<Vec<Literal>>) -> (r: Vec<Vec<Literal>>)
    ensures
        models(r@) == product(models(a@), models(b@)),
{
    let mut out: Vec<Vec<Literal>> = Vec::new();
    let ghost av = models(a@);
    let ghost bv = models(b@);
    for i in 0..a.len()
        invariant
            av == models(a@),
            bv == models(b@),
            models(out@) == product(av.take(i as int), bv),
    {
        proof {
            assert(av.take(i + 1).drop_last() =~= av.take(i as int));
            assert(av.take(i + 1).last() == models(a@[i as int]@));
        }
        let ghost before = models(out@);
        for j in 0..b.len()
            invariant
                i < a@.len(),
                av == models(a@),
                bv == models(b@),
                models(out@) == before + row(av[i as int], bv.take(j as int)),
        {
            let mut merged = copy_all(&a[i]);
            let mut tail = copy_all(&b[j]);
            let ghost l = merged@;
            let ghost t = tail@;
            merged.append(&mut tail);
            let ghost o = out@;
            out.push(merged);
            proof {
                assert(models(merged@) =~= models(l) + models(t));
                assert(models(out@) =~= models(o).push(av[i as int] + bv[j as int]));
                assert(row(av[i as int], bv.take(j + 1)) =~= row(
                    av[i as int],
                    bv.take(j as int),
                ).push(av[i as int] + bv[j as int]));
            }
        }
        proof {
            assert(bv.take(bv.len() as int) =~= bv);
        }
    }
    proof {
        assert(av.take(av.len() as int) =~= av);
    }
    out
}

/// The disjunctive normal form of an expression in negation normal form.
pub fn to_dnf(expr: &Expr) -> (r: Vec<Vec<Literal>>)
    requires
        is_nnf(expr@),
    ensures
        models(r@) == dnf(expr@),
    decreases expr,
{
    broadcast use group_exprs;

    match expr {
        Expr::True => {
            let mut out: Vec<Vec<Literal>> = Vec::new();
            let term: Vec<Literal> = Vec::new();
            proof {
                assert(models(term@) =~= Seq::<LiteralV>::empty());
            }
            out.push(term);
            proof {
                assert(models(out@) =~= dnf(expr@));
            }
            out
        },
        Expr::False => {
            let out: Vec<Vec<Literal>> = Vec::new();
            proof {
                assert(models(out@) =~= dnf(expr@));
            }
            out
        },
        Expr::Lit(l) => {
            let mut term: Vec<Literal> = Vec::new();
            term.push(l.copy());
            proof {
                assert(models(term@) =~= seq![l@]);
            }
            let mut out: Vec<Vec<Literal>> = Vec::new();
            out.push(term);
            proof {
                assert(models(out@) =~= dnf(expr@));
            }
            out
        },
        Expr::Or(xs) => {
            let mut out: Vec<Vec<Literal>> = Vec::new();
            proof {
                assert(models(out@) =~= Seq::<Seq<LiteralV>>::empty());
                assert(all_nnf(exprs(xs@)));
            }
            for i in 0..xs.len()
                invariant
                    *expr is Or,
                    expr->Or_0 == *xs,
                    all_nnf(exprs(xs@)),
                    models(out@) == dnf_or(exprs(xs@), i as int),
            {
                proof {
                    assert(decreases_to!(xs@ => xs@[i as int]));
                    assert(is_nnf(exprs(xs@)[i as int]));
                }
                let mut part = to_dnf(&xs[i]);
                let ghost o = out@;
                let ghost p = part@;
                out.append(&mut part);
                proof {
                    assert(models(out@) =~= models(o) + models(p));
                }
            }
            out
        },
        Expr::And(xs) => {
            let mut out: Vec<Vec<Literal>> = Vec::new();
            let term: Vec<Literal> = Vec::new();
            proof {
                assert(models(term@) =~= Seq::<LiteralV>::empty());
            }
            out.push(term);
            proof {
                assert(models(out@) =~= seq![Seq::<LiteralV>::empty()]);
                assert(all_nnf(exprs(xs@)));
            }
            for i in 0..xs.len()
                invariant
                    *expr is And,
                    expr->And_0 == *xs,
                    all_nnf(exprs(xs@)),
                    models(out@) == dnf_and(exprs(xs@), i as int),
            {
                proof {
                    assert(decreases_to!(xs@ => xs@[i as int]));
                    assert(is_nnf(exprs(xs@)[i as int]));
                }
                let part = to_dnf(&xs[i]);
                out = cross(&out, &part);
            }
            out
        },
        Expr::Not(_) => {
            proof {
                assert(false);
            }
            Vec::new()
        },
    }
}

/// Whether every literal of a term is true of an object.
pub open spec fn term_holds(t: Seq<LiteralV>, c: CtxV) -> bool {
    forall|i: int| 0 <= i < t.len() ==> literal_holds(#[trigger] t[i], c)
}

/// Whether some term of a list is true of an object.
pub open spec fn some_term_holds(ts: Seq<Seq<LiteralV>>, c: CtxV) -> bool {
    exists|i: int| 0 <= i < ts.len() && term_holds(#[trigger] ts[i], c)
}

proof fn lemma_terms_concat(a: Seq<Seq<LiteralV>>, b: Seq<Seq<LiteralV>>, c: CtxV)
    ensures
        some_term_holds(a + b, c) == (some_term_holds(a, c) || some_term_holds(b, c)),
{
    if some_term_holds(a, c) {
        let i = choose|i: int| 0 <= i < a.len() && term_holds(#[trigger] a[i], c);
        assert((a + b)[i] == a[i]);
    }
    if some_term_holds(b, c) {
        let i = choose|i: int| 0 <= i < b.len() && term_holds(#[trigger] b[i], c);
        assert((a + b)[a.len() + i] == b[i]);
    }
    if some_term_holds(a + b, c) {
        let i = choose|i: int| 0 <= i < (a + b).len() && term_holds(#[trigger] (a + b)[i], c);
        if i < a.len() {
            assert(term_holds(a[i], c));
        } else {
            assert(term_holds(b[i - a.len()], c));
        }
    }
}

proof fn lemma_term_concat(a: Seq<LiteralV>, b: Seq<LiteralV>, c: CtxV)
    ensures
        term_holds(a + b, c) == (term_holds(a, c) && term_holds(b, c)),
{
    if term_holds(a + b, c) {
        assert forall|i: int| 0 <= i < a.len() implies literal_holds(#[trigger] a[i], c) by {
            assert((a + b)[i] == a[i]);
        }
        assert forall|i: int| 0 <= i < b.len() implies literal_holds(#[trigger] b[i], c) by {
            assert((a + b)[a.len() + i] == b[i]);
        }
    }
}

proof fn lemma_row(t: Seq<LiteralV>, b: Seq<Seq<LiteralV>>, c: CtxV)
    ensures
        some_term_holds(row(t, b), c) == (term_holds(t, c) && some_term_holds(b, c)),
{
    let r = row(t, b);
    if some_term_holds(r, c) {
        let i = choose|i: int| 0 <= i < r.len() && term_holds(#[trigger] r[i], c);
        lemma_term_concat(t, b[i], c);
        assert(term_holds(b[i], c));
    }
    if term_holds(t, c) && some_term_holds(b, c) {
        let i = choose|i: int| 0 <= i < b.len() && term_holds(#[trigger] b[i], c);
        lemma_term_concat(t, b[i], c);
        assert(term_holds(r[i], c));
    }
}

proof fn lemma_product(a: Seq<Seq<LiteralV>>, b: Seq<Seq<LiteralV>>, c: CtxV)
    ensures
        some_term_holds(product(a, b), c) == (some_term_holds(a, c) && some_term_holds(b, c)),
    decreases a.len(),
{
    if a.len() > 0 {
        lemma_product(a.drop_last(), b, c);
        lemma_row(a.last(), b, c);
        lemma_terms_concat(product(a.drop_last(), b), row(a.last(), b), c);
        lemma_terms_concat(a.drop_last(), seq![a.last()], c);
        assert(a.drop_last() + seq![a.last()] =~= a);
        let last = seq![a.last()];
        if some_term_holds(last, c) {
            let i = choose|i: int| 0 <= i < last.len() && term_holds(#[trigger] last[i], c);
            assert(term_holds(a.last(), c));
        }
        if term_holds(a.last(), c) {
            assert(term_holds(last[0], c));
        }
    }
}

/// A disjunctive normal form is true of the same objects as the expression.
pub proof fn dnf_keeps_meaning(e: ExprV, c: CtxV)
    requires
        is_nnf(e),
    ensures
        some_term_holds(dnf(e), c) == expr_holds(e, c),
    decreases e, 0int,
{
    match e {
        ExprV::True => {
            assert(term_holds(dnf(e)[0], c));
        },
        ExprV::Lit(l) => {
            let t = seq![l];
            if literal_holds(l, c) {
                assert(term_holds(dnf(e)[0], c));
            }
            if some_term_holds(dnf(e), c) {
                assert(term_holds(t, c));
                assert(literal_holds(t[0], c));
            }
        },
        ExprV::Or(xs) => {
            assert(all_nnf(xs));
            lemma_dnf_or(xs, xs.len() as int, c);
            assert(exprs_any_holds(xs, c) == (exists|i: int|
                0 <= i < xs.len() && expr_holds(#[trigger] xs[i], c)));
        },
        ExprV::And(xs) => {
            assert(all_nnf(xs));
            lemma_dnf_and(xs, xs.len() as int, c);
            assert(exprs_all_hold(xs, c) == (forall|i: int|
                0 <= i < xs.len() ==> expr_holds(#[trigger] xs[i], c)));
        },
        _ => {},
    }
}

proof fn lemma_dnf_or(xs: Seq<ExprV>, n: int, c: CtxV)
    requires
        all_nnf(xs),
        0 <= n <= xs.len(),
    ensures
        some_term_holds(dnf_or(xs, n), c) == (exists|i: int|
            0 <= i < n && expr_holds(#[trigger] xs[i], c)),
    decreases xs, n,
{
    if n > 0 {
        lemma_dnf_or(xs, n - 1, c);
        assert(is_nnf(xs[n - 1]));
        dnf_keeps_meaning(xs[n - 1], c);
        lemma_terms_concat(dnf_or(xs, n - 1), dnf(xs[n - 1]), c);
    }
}

proof fn lemma_dnf_and(xs: Seq<ExprV>, n: int, c: CtxV)
    requires
        all_nnf(xs),
        0 <= n <= xs.len(),
    ensures
        some_term_holds(dnf_and(xs, n), c) == (forall|i: int|
            0 <= i < n ==> expr_holds(#[trigger] xs[i], c)),
    decreases xs, n,
{
    if n > 0 {
        lemma_dnf_and(xs, n - 1, c);
        assert(is_nnf(xs[n - 1]));
        dnf_keeps_meaning(xs[n - 1], c);
        lemma_product(dnf_and(xs, n - 1), dnf(xs[n - 1]), c);
    } else {
        assert(term_holds(dnf_and(xs, n)[0], c));
    }
}

} // verus!
