//! What the literals of an expression offer to branch on.
use vstd::prelude::*;

use crate::categorize::expr::{exprs, group_exprs, Expr, ExprV, Literal, LiteralV, Predicate, PredicateV};
use crate::decision_tree::tree::{BranchKey, BranchKeyV, ContextKey};
use crate::model::{copy_all, models, Model};

verus! {

/// The literals of an expression, from left to right.
pub open spec fn literals(e: ExprV) -> Seq<LiteralV>
    decreases e, 0int,
{
    match e {
        ExprV::True => Seq::empty(),
        ExprV::False => Seq::empty(),
        ExprV::Lit(l) => seq![l],
        ExprV::Not(x) => literals(*x),
        ExprV::And(xs) => literals_in(xs, xs.len() as int),
        ExprV::Or(xs) => literals_in(xs, xs.len() as int),
    }
}

/// The literals of the first `n` expressions.
pub open spec fn literals_in(xs: Seq<ExprV>, n: int) -> Seq<LiteralV>
    decreases xs, n,
{
    if n <= 0 || n > xs.len() {
        Seq::empty()
    } else {
        literals_in(xs, n - 1) + literals(xs[n - 1])
    }
}

/// The key that a literal offers to branch on: what an asserted equality reads, or what any
/// literal about the engine's notes looks at.
pub open spec fn literal_key(l: LiteralV) -> Option<BranchKeyV> {
    match l {
        LiteralV::Pos(PredicateV::Eq(e, _)) => Some(BranchKeyV::Tag(e)),
        LiteralV::Pos(PredicateV::FirstTagIn(e, _)) => Some(BranchKeyV::Tag(e)),
        _ => match l.atom() {
            PredicateV::Side(_) => Some(BranchKeyV::Sentinel(ContextKey::Side)),
            PredicateV::HasParent => Some(BranchKeyV::Sentinel(ContextKey::HasParent)),
            PredicateV::Prefix(_) => Some(BranchKeyV::Sentinel(ContextKey::Prefix)),
            PredicateV::Infix(_) => Some(BranchKeyV::Sentinel(ContextKey::Infix)),
            _ => None,
        },
    }
}

/// Whether an atom can be a two-way branch of its own.
pub open spec fn is_total_atom(p: PredicateV) -> bool {
    match p {
        PredicateV::Contains(_, _, _) => true,
        PredicateV::StartsWith(_, _) => true,
        PredicateV::EndsWith(_, _) => true,
        PredicateV::Exists(_) => true,
        PredicateV::Num(_, _, _) => true,
        PredicateV::HasKeyPrefix(_, _) => true,
        PredicateV::IsNum(_) => true,
        _ => false,
    }
}

/// The texts that a literal names for a key.
pub open spec fn literal_values(l: LiteralV, key: BranchKeyV) -> Seq<Seq<char>> {
    match l {
        LiteralV::Pos(PredicateV::Eq(e, v)) => if key == BranchKeyV::Tag(e) {
            seq![v]
        } else {
            Seq::empty()
        },
        LiteralV::Pos(PredicateV::FirstTagIn(e, vs)) => if key == BranchKeyV::Tag(e) {
            vs
        } else {
            Seq::empty()
        },
        LiteralV::Pos(PredicateV::Prefix(v)) => if key == BranchKeyV::Sentinel(
            ContextKey::Prefix,
        ) {
            seq![v]
        } else {
            Seq::empty()
        },
        LiteralV::Pos(PredicateV::Infix(v)) => if key == BranchKeyV::Sentinel(ContextKey::Infix) {
            seq![v]
        } else {
            Seq::empty()
        },
        _ => Seq::empty(),
    }
}

/// Whether one of the first `n` literals offers the key.
pub open spec fn offers_key(ls: Seq<LiteralV>, n: int, key: BranchKeyV) -> bool {
    exists|i: int| 0 <= i < n && literal_key(#[trigger] ls[i]) == Some(key)
}

/// Whether one of the first `n` literals is about the atom, and the atom can be branched on.
pub open spec fn offers_atom(ls: Seq<LiteralV>, n: int, p: PredicateV) -> bool {
    is_total_atom(p) && exists|i: int| 0 <= i < n && (#[trigger] ls[i]).atom() == p
}

/// Whether one of the first `n` literals names the text for the key.
pub open spec fn offers_value(ls: Seq<LiteralV>, n: int, key: BranchKeyV, v: Seq<char>) -> bool {
    exists|i: int| 0 <= i < n && literal_values(#[trigger] ls[i], key).contains(v)
}

/// Whether an expression offers the key to branch on.
pub open spec fn mentions_key(e: ExprV, key: BranchKeyV) -> bool {
    offers_key(literals(e), literals(e).len() as int, key)
}

/// Whether an expression offers the atom to branch on.
pub open spec fn mentions_atom(e: ExprV, p: PredicateV) -> bool {
    offers_atom(literals(e), literals(e).len() as int, p)
}

/// Whether an expression names the text for the key.
pub open spec fn mentions_value(e: ExprV, key: BranchKeyV, v: Seq<char>) -> bool {
    offers_value(literals(e), literals(e).len() as int, key, v)
}

/// Appends the literals of an expression, from left to right.
pub fn walk_literals(e: &Expr, out: &mut Vec<Literal>)
    ensures
        models(final(out)@) == models(old(out)@) + literals(e@),
    decreases e,
{
    match e {
        Expr::True => {
            proof {
                assert(models(out@) + literals(e@) =~= models(out@));
            }
        },
        Expr::False => {
            proof {
                assert(models(out@) + literals(e@) =~= models(out@));
            }
        },
        Expr::Lit(l) => {
            let ghost before = out@;
            out.push(l.copy());
            proof {
                assert(models(out@) =~= models(before) + seq![l@]);
            }
        },
        Expr::Not(x) => {
            walk_literals(x, out);
        },
        Expr::And(xs) => {
            walk_all(xs, out);
        },
        Expr::Or(xs) => {
            walk_all(xs, out);
        },
    }
}

fn walk_all(v: &Vec<Expr>, out: &mut Vec<Literal>)
    ensures
        models(final(out)@) == models(old(out)@) + literals_in(exprs(v@), v@.len() as int),
    decreases v,
{
    broadcast use group_exprs;

    let ghost before = models(out@);
    proof {
        assert(before + literals_in(exprs(v@), 0) =~= before);
    }
    for i in 0..v.len()
        invariant
            models(out@) == before + literals_in(exprs(v@), i as int),
    {
        walk_literals(&v[i], out);
        proof {
            assert(models(out@) =~= before + literals_in(exprs(v@), i + 1));
        }
    }
}

/// The key that a literal offers to branch on.
pub fn key_of(l: &Literal) -> (r: Option<BranchKey>)
    ensures
        r.model() == literal_key(l@),
{
    match l {
        Literal::Pos(Predicate::Eq(e, _)) => Some(BranchKey::Tag(e.copy())),
        Literal::Pos(Predicate::FirstTagIn(e, _)) => Some(BranchKey::Tag(e.copy())),
        _ => match l.atom() {
            Predicate::Side(_) => Some(BranchKey::Sentinel(ContextKey::Side)),
            Predicate::HasParent => Some(BranchKey::Sentinel(ContextKey::HasParent)),
            Predicate::Prefix(_) => Some(BranchKey::Sentinel(ContextKey::Prefix)),
            Predicate::Infix(_) => Some(BranchKey::Sentinel(ContextKey::Infix)),
            _ => None,
        },
    }
}

/// Whether an atom can be a two-way branch of its own.
pub fn total_atom(p: &Predicate) -> (r: bool)
    ensures
        r == is_total_atom(p@),
{
    match p {
        Predicate::Contains(_, _, _) => true,
        Predicate::StartsWith(_, _) => true,
        Predicate::EndsWith(_, _) => true,
        Predicate::Exists(_) => true,
        Predicate::Num(_, _, _) => true,
        Predicate::HasKeyPrefix(_, _) => true,
        Predicate::IsNum(_) => true,
        _ => false,
    }
}

/// The texts that a literal names for a key.
pub fn values_of_literal(l: &Literal, key: &BranchKey) -> (r: Vec<String>)
    ensures
        models(r@) == literal_values(l@, key@),
{
    let none: Vec<String> = Vec::new();
    proof {
        assert(models(none@) =~= Seq::<Seq<char>>::empty());
    }
    match (l, key) {
        (Literal::Pos(Predicate::Eq(e, v)), BranchKey::Tag(k)) => if e.same(k) {
            one(v)
        } else {
            none
        },
        (Literal::Pos(Predicate::FirstTagIn(e, vs)), BranchKey::Tag(k)) => if e.same(k) {
            copy_all(vs)
        } else {
            none
        },
        (Literal::Pos(Predicate::Prefix(v)), BranchKey::Sentinel(ContextKey::Prefix)) => one(v),
        (Literal::Pos(Predicate::Infix(v)), BranchKey::Sentinel(ContextKey::Infix)) => one(v),
        _ => none,
    }
}

fn one(v: &String) -> (r: Vec<String>)
    ensures
        models(r@) == seq![v@],
{
    let mut out: Vec<String> = Vec::new();
    out.push(v.clone());
    proof {
        assert(models(out@) =~= seq![v@]);
    }
    out
}

/// The literals of an expression, from left to right.
pub fn literals_of(e: &Expr) -> (r: Vec<Literal>)
    ensures
        models(r@) == literals(e@),
{
    let mut out: Vec<Literal> = Vec::new();
    walk_literals(e, &mut out);
    proof {
        assert(models(Seq::<Literal>::empty()) + literals(e@) =~= literals(e@));
    }
    out
}

/// The keys that the literals of an expression offer to branch on.
pub fn collect_branch_keys(e: &Expr) -> (r: Vec<BranchKey>)
    ensures
        forall|k: BranchKeyV| models(r@).contains(k) <==> #[trigger] mentions_key(e@, k),
{
    let ls = literals_of(e);
    let ghost all = models(ls@);
    let mut out: Vec<BranchKey> = Vec::new();
    let mut i: usize = 0;
    while i < ls.len()
        invariant
            0 <= i <= ls.len(),
            all == models(ls@),
            forall|k: BranchKeyV|
                models(out@).contains(k) <==> #[trigger] offers_key(all, i as int, k),
        decreases ls.len() - i,
    {
        let ghost before = models(out@);
        let key = key_of(&ls[i]);
        let ghost found = key.model();
        match key {
            Some(k) => {
                out.push(k);
            },
            None => {},
        }
        proof {
            assert(literal_key(all[i as int]) == found);
            assert(models(out@) =~= (match found {
                Some(k) => before.push(k),
                None => before,
            }));
            assert forall|k: BranchKeyV|
                models(out@).contains(k) <==> #[trigger] offers_key(all, i + 1, k) by {
                assert(before.contains(k) <==> offers_key(all, i as int, k));
                if models(out@).contains(k) {
                    let j = models(out@).index_of(k);
                    if j < before.len() {
                        assert(before[j] == k);
                    }
                }
                if before.contains(k) {
                    let j = before.index_of(k);
                    assert(models(out@)[j] == k);
                }
                if found == Some(k) {
                    assert(models(out@)[before.len() as int] == k);
                }
            }
        }
        i = i + 1;
    }
    out
}

/// The atoms of an expression that can be branched on.
pub fn collect_atom_candidates(e: &Expr) -> (r: Vec<Predicate>)
    ensures
        forall|p: PredicateV| models(r@).contains(p) <==> #[trigger] mentions_atom(e@, p),
{
    let ls = literals_of(e);
    let ghost all = models(ls@);
    let mut out: Vec<Predicate> = Vec::new();
    let mut i: usize = 0;
    while i < ls.len()
        invariant
            0 <= i <= ls.len(),
            all == models(ls@),
            forall|p: PredicateV|
                models(out@).contains(p) <==> #[trigger] offers_atom(all, i as int, p),
        decreases ls.len() - i,
    {
        let ghost before = models(out@);
        let atom = ls[i].atom();
        let ghost a = atom@;
        if total_atom(atom) {
            out.push(atom.copy());
        }
        proof {
            assert(all[i as int].atom() == a);
            assert(models(out@) =~= (if is_total_atom(a) {
                before.push(a)
            } else {
                before
            }));
            assert forall|p: PredicateV|
                models(out@).contains(p) <==> #[trigger] offers_atom(all, i + 1, p) by {
                assert(before.contains(p) <==> offers_atom(all, i as int, p));
                if models(out@).contains(p) {
                    let j = models(out@).index_of(p);
                    if j < before.len() {
                        assert(before[j] == p);
                    }
                }
                if before.contains(p) {
                    let j = before.index_of(p);
                    assert(models(out@)[j] == p);
                }
                if p == a && is_total_atom(a) {
                    assert(models(out@)[before.len() as int] == p);
                }
            }
        }
        i = i + 1;
    }
    out
}

/// The texts that the literals of an expression name for a key.
pub fn collect_eq_values(e: &Expr, key: &BranchKey) -> (r: Vec<String>)
    ensures
        forall|v: Seq<char>| models(r@).contains(v) <==> #[trigger] mentions_value(e@, key@, v),
{
    let ls = literals_of(e);
    let ghost all = models(ls@);
    let mut out: Vec<String> = Vec::new();
    let mut i: usize = 0;
    while i < ls.len()
        invariant
            0 <= i <= ls.len(),
            all == models(ls@),
            forall|v: Seq<char>|
                models(out@).contains(v) <==> #[trigger] offers_value(all, i as int, key@, v),
        decreases ls.len() - i,
    {
        let ghost before = models(out@);
        let mut vs = values_of_literal(&ls[i], key);
        let ghost new = models(vs@);
        out.append(&mut vs);
        proof {
            assert(literal_values(all[i as int], key@) == new);
            assert(models(out@) =~= before + new);
            assert forall|v: Seq<char>|
                models(out@).contains(v) <==> #[trigger] offers_value(all, i + 1, key@, v) by {
                assert(before.contains(v) <==> offers_value(all, i as int, key@, v));
                if models(out@).contains(v) {
                    let j = models(out@).index_of(v);
                    if j < before.len() {
                        assert(before[j] == v);
                    } else {
                        assert(new[j - before.len()] == v);
                    }
                }
                if before.contains(v) {
                    let j = before.index_of(v);
                    assert(models(out@)[j] == v);
                }
                if new.contains(v) {
                    let j = new.index_of(v);
                    assert(models(out@)[before.len() + j] == v);
                }
            }
        }
        i = i + 1;
    }
    out
}

} // verus!
