//! Conditions on their way down a net, and what they offer to branch on.
use vstd::prelude::*;
use vstd::seq_lib::{lemma_seq_concat_contains_all_elements, lemma_seq_contains_after_push};

use crate::categorize::expr::{
    clone_expr, exprs, group_exprs, Expr, ExprV, Literal, LiteralV, Predicate, PredicateV,
};
use crate::categorize::rank::{
    arrange, arranged, arranging_keeps_the_literals, strictly_ordered,
};
use crate::decision_tree::kleene::{
    collapsed, decided, keep_for, simplified, simplify, Fact, FactV, K,
};
use crate::decision_tree::tree::{leaf_view, BranchKey, BranchKeyV, ContextKey};
use crate::decision_tree::walkers::{
    collect_atom_candidates, collect_branch_keys, collect_eq_values, literal_values, literals,
    mentions_atom, mentions_key, mentions_value, offers_value,
};
use crate::model::{holds, models, Model};
use crate::number::{Readings, ReadingsV};
use crate::text::{
    insert_sorted, sorted_lists_are_unique, sorting, sorting_keeps_the_texts, strictly_sorted,
};

verus! {

/// A leaf of this many conditions is not split further.
pub const LEAF_MAX: usize = 2;

/// Above this many conditions, a branch that helps only together with a second one is looked for.
pub const LOOKAHEAD_MIN_CANDIDATES: usize = 6;

/// A condition on its way down the net: its place in the list, what it says beyond the conditions
/// before it, and what it says by itself, both simplified by the branches above.
#[derive(Debug)]
pub struct Candidate {
    pub index: usize,
    pub residual: Expr,
    pub own: Expr,
}

/// What a condition on its way down the net says.
pub struct CandidateV {
    pub index: usize,
    pub residual: ExprV,
    pub own: ExprV,
}

impl Candidate {
    pub open spec fn view(&self) -> CandidateV {
        CandidateV { index: self.index, residual: self.residual@, own: self.own@ }
    }
}

/// What the conditions of a list say.
pub open spec fn cands(v: Seq<Candidate>) -> Seq<CandidateV> {
    v.map_values(|c: Candidate| c@)
}

// ── Conjunctions ────────────────────────────────────────────────────────────────────────────

/// The conjuncts of an expression, nested conjunctions taken apart, from the last to the first.
pub open spec fn conjuncts(e: ExprV) -> Seq<ExprV>
    decreases e, 0int,
{
    match e {
        ExprV::True => Seq::empty(),
        ExprV::And(xs) => conjuncts_of(xs, xs.len() as int),
        _ => seq![e],
    }
}

/// The conjuncts of the first `n` expressions, from the last to the first.
pub open spec fn conjuncts_of(xs: Seq<ExprV>, n: int) -> Seq<ExprV>
    decreases xs, n,
{
    if n <= 0 || n > xs.len() {
        Seq::empty()
    } else {
        conjuncts(xs[n - 1]) + conjuncts_of(xs, n - 1)
    }
}

/// The literals among the conjuncts.
pub open spec fn only_literals(xs: Seq<ExprV>) -> Seq<LiteralV>
    decreases xs.len(),
{
    if xs.len() == 0 {
        Seq::empty()
    } else {
        match xs.last() {
            ExprV::Lit(l) => only_literals(xs.drop_last()).push(l),
            _ => only_literals(xs.drop_last()),
        }
    }
}

/// The conjuncts that are no literals.
pub open spec fn no_literals(xs: Seq<ExprV>) -> Seq<ExprV>
    decreases xs.len(),
{
    if xs.len() == 0 {
        Seq::empty()
    } else {
        match xs.last() {
            ExprV::Lit(_) => no_literals(xs.drop_last()),
            _ => no_literals(xs.drop_last()).push(xs.last()),
        }
    }
}

/// Whether one of the conjuncts is false.
pub open spec fn has_false(xs: Seq<ExprV>) -> bool {
    exists|i: int| 0 <= i < xs.len() && (#[trigger] xs[i]) is False
}

/// Whether two of the literals are opposites.
pub open spec fn clash(ls: Seq<LiteralV>) -> bool {
    exists|i: int| 0 <= i < ls.len() && ls.contains((#[trigger] ls[i]).opposite())
}

/// The literals as expressions.
pub open spec fn lits(ls: Seq<LiteralV>) -> Seq<ExprV> {
    ls.map_values(|l: LiteralV| ExprV::Lit(l))
}

/// The conjunction of `parts`: nested conjunctions are taken apart, and two opposite literals make
/// the whole false. The literals come first, in their order and each once.
pub open spec fn conjoined(parts: Seq<ExprV>) -> ExprV {
    let fs = conjuncts_of(parts, parts.len() as int);
    let ls = only_literals(fs);
    if has_false(fs) || clash(ls) {
        ExprV::False
    } else {
        collapsed(lits(arranged(ls)) + no_literals(fs), true)
    }
}

proof fn lemma_parts_concat(a: Seq<ExprV>, b: Seq<ExprV>)
    ensures
        only_literals(a + b) == only_literals(a) + only_literals(b),
        no_literals(a + b) == no_literals(a) + no_literals(b),
        has_false(a + b) == (has_false(a) || has_false(b)),
    decreases b.len(),
{
    if has_false(a) {
        let i = choose|i: int| 0 <= i < a.len() && (#[trigger] a[i]) is False;
        assert((a + b)[i] is False);
    }
    if has_false(b) {
        let i = choose|i: int| 0 <= i < b.len() && (#[trigger] b[i]) is False;
        assert((a + b)[a.len() + i] is False);
    }
    if has_false(a + b) {
        let i = choose|i: int| 0 <= i < (a + b).len() && (#[trigger] (a + b)[i]) is False;
        if i < a.len() {
            assert(a[i] is False);
        } else {
            assert(b[i - a.len()] is False);
        }
    }
    if b.len() == 0 {
        assert(a + b =~= a);
        assert(only_literals(a) + only_literals(b) =~= only_literals(a));
        assert(no_literals(a) + no_literals(b) =~= no_literals(a));
    } else {
        lemma_parts_concat(a, b.drop_last());
        assert((a + b).drop_last() =~= a + b.drop_last());
        assert((a + b).last() == b.last());
        match b.last() {
            ExprV::Lit(l) => {
                assert(only_literals(a + b) =~= only_literals(a) + only_literals(b));
            },
            _ => {
                assert(no_literals(a + b) =~= no_literals(a) + no_literals(b));
            },
        }
    }
}

proof fn lemma_single(e: ExprV)
    ensures
        only_literals(seq![e]) == (match e {
            ExprV::Lit(l) => seq![l],
            _ => Seq::<LiteralV>::empty(),
        }),
        no_literals(seq![e]) == (match e {
            ExprV::Lit(_) => Seq::<ExprV>::empty(),
            _ => seq![e],
        }),
        has_false(seq![e]) == (e is False),
{
    reveal_with_fuel(only_literals, 2);
    reveal_with_fuel(no_literals, 2);
    let one = seq![e];
    assert(one.drop_last() =~= Seq::<ExprV>::empty());
    assert(one.last() == e);
    assert(one[0] == e);
    assert(only_literals(one.drop_last()) =~= Seq::<LiteralV>::empty());
    assert(no_literals(one.drop_last()) =~= Seq::<ExprV>::empty());
    match e {
        ExprV::Lit(l) => {
            assert(only_literals(one) =~= seq![l]);
        },
        _ => {
            assert(no_literals(one) =~= seq![e]);
        },
    }
}

/// Takes the conjuncts of an expression apart; false where one of them is false.
fn take_apart(e: &Expr, lits: &mut Vec<Literal>, rest: &mut Vec<Expr>) -> (r: bool)
    ensures
        r == !has_false(conjuncts(e@)),
        r ==> models(final(lits)@) == models(old(lits)@) + only_literals(conjuncts(e@)),
        r ==> exprs(final(rest)@) == exprs(old(rest)@) + no_literals(conjuncts(e@)),
    decreases e,
{
    broadcast use group_exprs;

    match e {
        Expr::True => {
            proof {
                assert(models(lits@) + only_literals(conjuncts(e@)) =~= models(lits@));
                assert(exprs(rest@) + no_literals(conjuncts(e@)) =~= exprs(rest@));
            }
            true
        },
        Expr::False => {
            proof {
                assert(conjuncts(e@)[0] is False);
            }
            false
        },
        Expr::Lit(l) => {
            let ghost before = lits@;
            lits.push(l.copy());
            proof {
                let one = seq![e@];
                lemma_single(e@);
                assert(models(lits@) =~= models(before) + seq![l@]);
                assert(exprs(rest@) + no_literals(one) =~= exprs(rest@));
            }
            true
        },
        Expr::And(xs) => take_all_apart(xs, lits, rest),
        _ => {
            let ghost before = rest@;
            rest.push(clone_expr(e));
            proof {
                let one = seq![e@];
                lemma_single(e@);
                assert(exprs(rest@) =~= exprs(before) + seq![e@]);
                assert(models(lits@) + only_literals(one) =~= models(lits@));
            }
            true
        },
    }
}

/// The conjuncts of the expressions from `m` to `n`, from the last to the first.
spec fn conjuncts_between(xs: Seq<ExprV>, m: int, n: int) -> Seq<ExprV>
    decreases n - m,
{
    if n <= m || n > xs.len() || m < 0 {
        Seq::empty()
    } else {
        conjuncts(xs[n - 1]) + conjuncts_between(xs, m, n - 1)
    }
}

proof fn lemma_between(xs: Seq<ExprV>, m: int, n: int)
    requires
        0 <= m < n <= xs.len(),
    ensures
        conjuncts_between(xs, m, n) == conjuncts_between(xs, m + 1, n) + conjuncts(xs[m]),
    decreases n - m,
{
    if m + 1 == n {
        assert(conjuncts_between(xs, m, n - 1) =~= Seq::<ExprV>::empty());
        assert(conjuncts_between(xs, m + 1, n) =~= Seq::<ExprV>::empty());
        assert(conjuncts_between(xs, m, n) =~= conjuncts(xs[m]));
        assert(conjuncts_between(xs, m + 1, n) + conjuncts(xs[m]) =~= conjuncts(xs[m]));
    } else {
        lemma_between(xs, m, n - 1);
        assert(conjuncts(xs[n - 1]) + (conjuncts_between(xs, m + 1, n - 1) + conjuncts(xs[m]))
            =~= (conjuncts(xs[n - 1]) + conjuncts_between(xs, m + 1, n - 1)) + conjuncts(xs[m]));
    }
}

proof fn lemma_between_all(xs: Seq<ExprV>, n: int)
    requires
        0 <= n <= xs.len(),
    ensures
        conjuncts_between(xs, 0, n) == conjuncts_of(xs, n),
    decreases n,
{
    if n > 0 {
        lemma_between_all(xs, n - 1);
    }
}

proof fn lemma_false_between(xs: Seq<ExprV>, m: int, n: int)
    requires
        0 <= m < n <= xs.len(),
        has_false(conjuncts(xs[m])),
    ensures
        has_false(conjuncts_of(xs, n)),
    decreases n,
{
    lemma_parts_concat(conjuncts(xs[n - 1]), conjuncts_of(xs, n - 1));
    if m < n - 1 {
        lemma_false_between(xs, m, n - 1);
    }
}

fn take_all_apart(v: &Vec<Expr>, lits: &mut Vec<Literal>, rest: &mut Vec<Expr>) -> (r: bool)
    ensures
        r == !has_false(conjuncts_of(exprs(v@), v@.len() as int)),
        r ==> models(final(lits)@) == models(old(lits)@) + only_literals(
            conjuncts_of(exprs(v@), v@.len() as int),
        ),
        r ==> exprs(final(rest)@) == exprs(old(rest)@) + no_literals(
            conjuncts_of(exprs(v@), v@.len() as int),
        ),
    decreases v,
{
    broadcast use group_exprs;

    let ghost xs = exprs(v@);
    let ghost n = v@.len() as int;
    let ghost l0 = models(lits@);
    let ghost r0 = exprs(rest@);
    let mut i: usize = v.len();
    proof {
        assert(conjuncts_between(xs, n, n) =~= Seq::<ExprV>::empty());
        assert(l0 + only_literals(conjuncts_between(xs, n, n)) =~= l0);
        assert(r0 + no_literals(conjuncts_between(xs, n, n)) =~= r0);
    }
    while i > 0
        invariant
            0 <= i <= v@.len(),
            n == v@.len(),
            xs == exprs(v@),
            !has_false(conjuncts_between(xs, i as int, n)),
            models(lits@) == l0 + only_literals(conjuncts_between(xs, i as int, n)),
            exprs(rest@) == r0 + no_literals(conjuncts_between(xs, i as int, n)),
        decreases i,
    {
        i = i - 1;
        proof {
            lemma_between(xs, i as int, n);
            lemma_parts_concat(conjuncts_between(xs, i + 1, n), conjuncts(xs[i as int]));
        }
        let ok = take_apart(&v[i], lits, rest);
        if !ok {
            proof {
                lemma_false_between(xs, i as int, n);
            }
            return false;
        }
        proof {
            assert(models(lits@) =~= l0 + only_literals(conjuncts_between(xs, i as int, n)));
            assert(exprs(rest@) =~= r0 + no_literals(conjuncts_between(xs, i as int, n)));
        }
    }
    proof {
        lemma_between_all(xs, n);
    }
    true
}

fn has_clash(ls: &Vec<Literal>) -> (r: bool)
    ensures
        r == clash(models(ls@)),
{
    for i in 0..ls.len()
        invariant
            forall|j: int|
                0 <= j < i ==> !models(ls@).contains((#[trigger] models(ls@)[j]).opposite()),
    {
        let o = ls[i].opposite();
        if holds(ls, &o) {
            proof {
                assert(models(ls@).contains(models(ls@)[i as int].opposite()));
            }
            return true;
        }
    }
    false
}

/// Whether an expression is a conjunct: no conjunction, and not true.
pub open spec fn is_conjunct(e: ExprV) -> bool {
    !(e is And) && !(e is True)
}

proof fn lemma_are_conjuncts(e: ExprV)
    ensures
        forall|i: int| 0 <= i < conjuncts(e).len() ==> is_conjunct(#[trigger] conjuncts(e)[i]),
    decreases e, 0int,
{
    match e {
        ExprV::And(xs) => {
            lemma_all_are_conjuncts(xs, xs.len() as int);
            assert(conjuncts(e) == conjuncts_of(xs, xs.len() as int));
        },
        _ => {},
    }
}

proof fn lemma_all_are_conjuncts(xs: Seq<ExprV>, n: int)
    ensures
        forall|i: int|
            0 <= i < conjuncts_of(xs, n).len() ==> is_conjunct(#[trigger] conjuncts_of(xs, n)[i]),
    decreases xs, n,
{
    if 0 < n <= xs.len() {
        lemma_are_conjuncts(xs[n - 1]);
        lemma_all_are_conjuncts(xs, n - 1);
        let a = conjuncts(xs[n - 1]);
        let b = conjuncts_of(xs, n - 1);
        assert forall|i: int| 0 <= i < (a + b).len() implies is_conjunct(#[trigger] (a + b)[i]) by {
            if i < a.len() {
                assert((a + b)[i] == a[i]);
            } else {
                assert((a + b)[i] == b[i - a.len()]);
            }
        }
    }
}

proof fn lemma_rest_members(xs: Seq<ExprV>)
    ensures
        forall|i: int|
            0 <= i < no_literals(xs).len() ==> xs.contains(#[trigger] no_literals(xs)[i])
                && !(no_literals(xs)[i] is Lit),
    decreases xs.len(),
{
    if xs.len() > 0 {
        let rest = xs.drop_last();
        lemma_rest_members(rest);
        assert forall|i: int| 0 <= i < no_literals(xs).len() implies xs.contains(
            #[trigger] no_literals(xs)[i],
        ) && !(no_literals(xs)[i] is Lit) by {
            if i < no_literals(rest).len() {
                assert(no_literals(xs)[i] == no_literals(rest)[i]);
                assert(xs[rest.index_of(no_literals(rest)[i])] == no_literals(rest)[i]);
            } else {
                assert(xs[xs.len() - 1] == xs.last());
            }
        }
    }
}

proof fn lemma_literals_of_lits(ls: Seq<LiteralV>)
    ensures
        only_literals(lits(ls)) == ls,
    decreases ls.len(),
{
    if ls.len() > 0 {
        lemma_literals_of_lits(ls.drop_last());
        assert(lits(ls).drop_last() =~= lits(ls.drop_last()));
        assert(lits(ls).last() == ExprV::Lit(ls.last()));
        assert(ls.drop_last().push(ls.last()) =~= ls);
    } else {
        assert(only_literals(lits(ls)) =~= ls);
    }
}

proof fn lemma_no_more_literals(xs: Seq<ExprV>)
    requires
        forall|i: int| 0 <= i < xs.len() ==> !((#[trigger] xs[i]) is Lit),
    ensures
        only_literals(xs) == Seq::<LiteralV>::empty(),
    decreases xs.len(),
{
    if xs.len() > 0 {
        assert(!(xs[xs.len() - 1] is Lit));
        assert forall|i: int| 0 <= i < xs.drop_last().len() implies !((
        #[trigger] xs.drop_last()[i]) is Lit) by {
            assert(xs.drop_last()[i] == xs[i]);
        }
        lemma_no_more_literals(xs.drop_last());
    }
}

/// Whether a conjunction is flat: no part is a conjunction, true or false, and its literals are in
/// their order, each once.
pub open spec fn is_flat(e: ExprV) -> bool {
    e matches ExprV::And(xs) ==> {
        &&& forall|i: int|
            0 <= i < xs.len() ==> is_conjunct(#[trigger] xs[i]) && !(xs[i] is False)
        &&& strictly_ordered(only_literals(xs))
    }
}

/// A conjunction is flat, and it is false exactly where a part is, or where two literals among the
/// parts are opposites.
pub proof fn conjunctions_are_flat(parts: Seq<ExprV>)
    ensures
        is_flat(conjoined(parts)),
        conjoined(parts) is False <==> has_false(conjuncts_of(parts, parts.len() as int)) || clash(
            only_literals(conjuncts_of(parts, parts.len() as int)),
        ),
{
    let fs = conjuncts_of(parts, parts.len() as int);
    let ls = only_literals(fs);
    if !has_false(fs) && !clash(ls) {
        let a = lits(arranged(ls));
        let b = no_literals(fs);
        let all = a + b;
        lemma_all_are_conjuncts(parts, parts.len() as int);
        lemma_rest_members(fs);
        arranging_keeps_the_literals(ls);
        assert forall|i: int| 0 <= i < all.len() implies is_conjunct(#[trigger] all[i]) && !(all[i]
            is False) by {
            if i < a.len() {
                assert(all[i] == a[i]);
            } else {
                let x = b[i - a.len()];
                assert(all[i] == x);
                let k = fs.index_of(x);
                assert(is_conjunct(fs[k]));
                assert(!(fs[k] is False));
            }
        }
        lemma_parts_concat(a, b);
        lemma_literals_of_lits(arranged(ls));
        lemma_no_more_literals(b);
        assert(only_literals(all) =~= arranged(ls));
        if all.len() == 1 {
            assert(is_conjunct(all[0]) && !(all[0] is False));
        }
    }
}

/// The conjunction of `parts`.
pub fn conjoin(parts: Vec<Expr>) -> (r: Expr)
    ensures
        r@ == conjoined(exprs(parts@)),
        is_flat(r@),
{
    broadcast use group_exprs;

    proof {
        conjunctions_are_flat(exprs(parts@));
    }

    let mut ls: Vec<Literal> = Vec::new();
    let mut rest: Vec<Expr> = Vec::new();
    let ghost fs = conjuncts_of(exprs(parts@), parts@.len() as int);
    proof {
        assert(models(ls@) + only_literals(fs) =~= only_literals(fs));
        assert(exprs(rest@) + no_literals(fs) =~= no_literals(fs));
    }
    if !take_all_apart(&parts, &mut ls, &mut rest) {
        return Expr::False;
    }
    if has_clash(&ls) {
        return Expr::False;
    }
    let ls = arrange(ls);
    let mut out: Vec<Expr> = Vec::new();
    for i in 0..ls.len()
        invariant
            out@.len() == i,
            forall|j: int| 0 <= j < i ==> (#[trigger] out@[j])@ == ExprV::Lit(models(ls@)[j]),
    {
        out.push(Expr::Lit(ls[i].copy()));
    }
    let ghost o = exprs(out@);
    let ghost w = exprs(rest@);
    out.append(&mut rest);
    proof {
        assert(o =~= lits(models(ls@)));
        assert(exprs(out@) =~= o + w);
    }
    if out.len() == 0 {
        Expr::True
    } else if out.len() == 1 {
        let ghost all = exprs(out@);
        let x = out.swap_remove(0);
        proof {
            assert(x@ == all[0]);
        }
        x
    } else {
        Expr::And(out)
    }
}

// ── Folding a fact into the conditions ──────────────────────────────────────────────────────

/// The conditions that a fact leaves, simplified by it.
pub open spec fn folded(cs: Seq<CandidateV>, f: FactV, r: ReadingsV) -> Seq<CandidateV>
    decreases cs.len(),
{
    if cs.len() == 0 {
        Seq::empty()
    } else {
        let rest = folded(cs.drop_last(), f, r);
        let c = cs.last();
        let residual = simplified(c.residual, f, r);
        if residual is False {
            rest
        } else {
            rest.push(CandidateV { index: c.index, residual, own: simplified(c.own, f, r) })
        }
    }
}

/// How many conditions a fact leaves.
pub open spec fn kept(cs: Seq<CandidateV>, f: FactV, r: ReadingsV) -> int
    decreases cs.len(),
{
    if cs.len() == 0 {
        0
    } else {
        kept(cs.drop_last(), f, r) + (if decided(cs.last().residual, f, r) != K::F {
            1int
        } else {
            0int
        })
    }
}

/// The conditions that a fact leaves, simplified by it.
pub fn fold_candidates(v: &Vec<Candidate>, fact: &Fact, readings: &Readings) -> (r: Vec<Candidate>)
    ensures
        cands(r@) == folded(cands(v@), fact@, readings@),
{
    let ghost cs = cands(v@);
    let mut out: Vec<Candidate> = Vec::new();
    proof {
        assert(cands(out@) =~= Seq::<CandidateV>::empty());
    }
    for i in 0..v.len()
        invariant
            cs == cands(v@),
            cands(out@) == folded(cs.take(i as int), fact@, readings@),
    {
        proof {
            assert(cs.take(i + 1).drop_last() =~= cs.take(i as int));
            assert(cs.take(i + 1).last() == cs[i as int]);
        }
        let residual = simplify(&v[i].residual, fact, readings);
        let dead = match &residual {
            Expr::False => true,
            _ => false,
        };
        proof {
            assert(dead == (residual@ is False));
        }
        if !dead {
            let own = simplify(&v[i].own, fact, readings);
            let ghost before = out@;
            let c = Candidate { index: v[i].index, residual, own };
            let ghost cv = c@;
            out.push(c);
            proof {
                assert(cands(out@) =~= cands(before).push(cv));
            }
        }
    }
    proof {
        assert(cs.take(cs.len() as int) =~= cs);
    }
    out
}

/// How many conditions a fact leaves.
pub fn count_kept(v: &Vec<Candidate>, fact: &Fact, readings: &Readings) -> (r: usize)
    ensures
        r == kept(cands(v@), fact@, readings@),
{
    let ghost cs = cands(v@);
    let mut n: usize = 0;
    for i in 0..v.len()
        invariant
            cs == cands(v@),
            n <= i,
            n == kept(cs.take(i as int), fact@, readings@),
    {
        proof {
            assert(cs.take(i + 1).drop_last() =~= cs.take(i as int));
            assert(cs.take(i + 1).last() == cs[i as int]);
        }
        if keep_for(&v[i].residual, fact, readings) {
            n = n + 1;
        }
    }
    proof {
        assert(cs.take(cs.len() as int) =~= cs);
    }
    n
}

/// The conditions of a leaf: what each says by itself.
pub open spec fn leaf_of(cs: Seq<CandidateV>) -> Seq<(usize, ExprV)> {
    cs.map_values(|c: CandidateV| (c.index, c.own))
}

/// The conditions of a leaf: what each says by itself.
pub fn into_leaf(v: &Vec<Candidate>) -> (r: Vec<(usize, Expr)>)
    ensures
        leaf_view(r@) == leaf_of(cands(v@)),
{
    let mut out: Vec<(usize, Expr)> = Vec::new();
    for i in 0..v.len()
        invariant
            out@.len() == i,
            forall|j: int|
                0 <= j < i ==> (#[trigger] out@[j]).0 == v@[j].index && out@[j].1@ == v@[j].own@,
    {
        let e = clone_expr(&v[i].own);
        out.push((v[i].index, e));
    }
    proof {
        assert(leaf_view(out@) =~= leaf_of(cands(v@)));
    }
    out
}

// ── What can be branched on ─────────────────────────────────────────────────────────────────

/// Whether the conditions offer a key that was not branched on above.
pub open spec fn eligible_key(
    cs: Seq<CandidateV>,
    used: Seq<BranchKeyV>,
    key: BranchKeyV,
) -> bool {
    !used.contains(key) && exists|i: int|
        0 <= i < cs.len() && mentions_key((#[trigger] cs[i]).residual, key)
}

/// Whether the conditions offer an atom that was not branched on above.
pub open spec fn eligible_atom(
    cs: Seq<CandidateV>,
    used_atoms: Seq<PredicateV>,
    p: PredicateV,
) -> bool {
    !used_atoms.contains(p) && exists|i: int|
        0 <= i < cs.len() && mentions_atom((#[trigger] cs[i]).residual, p)
}

/// Whether a condition names the text for the key.
pub open spec fn named_value(cs: Seq<CandidateV>, key: BranchKeyV, v: Seq<char>) -> bool {
    exists|i: int| 0 <= i < cs.len() && mentions_value((#[trigger] cs[i]).residual, key, v)
}

/// The three sides there are.
pub open spec fn sides() -> Seq<Seq<char>> {
    seq!["left"@, "right"@, "self"@]
}

/// Whether there is a parent, as texts.
pub open spec fn truths() -> Seq<Seq<char>> {
    seq!["false"@, "true"@]
}

/// Whether `values` are the texts that a branch on `key` has children for: all that there are for
/// the side and for the parent, else all that the conditions name, sorted.
pub open spec fn is_values(
    cs: Seq<CandidateV>,
    key: BranchKeyV,
    values: Seq<Seq<char>>,
) -> bool {
    match key {
        BranchKeyV::Sentinel(ContextKey::Side) => values == sides(),
        BranchKeyV::Sentinel(ContextKey::HasParent) => values == truths(),
        _ => strictly_sorted(values) && forall|v: Seq<char>|
            values.contains(v) <==> #[trigger] named_value(cs, key, v),
    }
}

/// The texts that a branch on `key` has children for.
pub open spec fn values_of(cs: Seq<CandidateV>, key: BranchKeyV) -> Seq<Seq<char>> {
    choose|values: Seq<Seq<char>>| is_values(cs, key, values)
}

/// There is one list of values.
pub proof fn lemma_values_unique(
    cs: Seq<CandidateV>,
    key: BranchKeyV,
    a: Seq<Seq<char>>,
    b: Seq<Seq<char>>,
)
    requires
        is_values(cs, key, a),
        is_values(cs, key, b),
    ensures
        a == b,
{
    match key {
        BranchKeyV::Sentinel(ContextKey::Side) => {},
        BranchKeyV::Sentinel(ContextKey::HasParent) => {},
        _ => {
            assert forall|v: Seq<char>| #[trigger] a.to_set().contains(v) <==> b.to_set().contains(
                v,
            ) by {
                assert(a.contains(v) <==> named_value(cs, key, v));
                assert(b.contains(v) <==> named_value(cs, key, v));
            }
            assert(a.to_set() =~= b.to_set());
            sorted_lists_are_unique(a, b);
        },
    }
}

proof fn lemma_offered_values(ls: Seq<LiteralV>, n: int, key: BranchKeyV) -> (vs: Seq<Seq<char>>)
    requires
        0 <= n <= ls.len(),
    ensures
        forall|v: Seq<char>| #[trigger] vs.contains(v) <==> offers_value(ls, n, key, v),
    decreases n,
{
    if n == 0 {
        Seq::empty()
    } else {
        let a = lemma_offered_values(ls, n - 1, key);
        let b = literal_values(ls[n - 1], key);
        assert forall|v: Seq<char>| #[trigger] (a + b).contains(v) <==> offers_value(
            ls,
            n,
            key,
            v,
        ) by {
            lemma_seq_concat_contains_all_elements(a, b, v);
            assert(a.contains(v) <==> offers_value(ls, n - 1, key, v));
        }
        a + b
    }
}

proof fn lemma_named_values(cs: Seq<CandidateV>, key: BranchKeyV) -> (vs: Seq<Seq<char>>)
    ensures
        forall|v: Seq<char>| #[trigger] vs.contains(v) <==> named_value(cs, key, v),
    decreases cs.len(),
{
    if cs.len() == 0 {
        Seq::empty()
    } else {
        let rest = cs.drop_last();
        let a = lemma_named_values(rest, key);
        let ls = literals(cs.last().residual);
        let b = lemma_offered_values(ls, ls.len() as int, key);
        assert forall|v: Seq<char>| #[trigger] (a + b).contains(v) <==> named_value(
            cs,
            key,
            v,
        ) by {
            lemma_seq_concat_contains_all_elements(a, b, v);
            assert(a.contains(v) <==> named_value(rest, key, v));
            assert(b.contains(v) <==> mentions_value(cs.last().residual, key, v));
            if named_value(rest, key, v) {
                let i = choose|i: int|
                    0 <= i < rest.len() && mentions_value((#[trigger] rest[i]).residual, key, v);
                assert(mentions_value(cs[i].residual, key, v));
            }
            if named_value(cs, key, v) {
                let i = choose|i: int|
                    0 <= i < cs.len() && mentions_value((#[trigger] cs[i]).residual, key, v);
                if i < rest.len() {
                    assert(mentions_value(rest[i].residual, key, v));
                }
            }
            if mentions_value(cs.last().residual, key, v) {
                assert(mentions_value(cs[cs.len() - 1].residual, key, v));
            }
        }
        a + b
    }
}

/// A branch on a key has a child for every side, for both answers about a parent, or for every text
/// that the conditions name for the key; in order and each once.
pub proof fn values_are_those_named(cs: Seq<CandidateV>, key: BranchKeyV)
    ensures
        is_values(cs, key, values_of(cs, key)),
{
    match key {
        BranchKeyV::Sentinel(ContextKey::Side) => {
            assert(is_values(cs, key, sides()));
        },
        BranchKeyV::Sentinel(ContextKey::HasParent) => {
            assert(is_values(cs, key, truths()));
        },
        _ => {
            let vs = lemma_named_values(cs, key);
            sorting_keeps_the_texts(vs);
            assert forall|v: Seq<char>| sorting(vs).contains(v) <==> #[trigger] named_value(
                cs,
                key,
                v,
            ) by {
                assert(sorting(vs).contains(v) <==> vs.contains(v));
            }
            assert(is_values(cs, key, sorting(vs)));
        },
    }
}

/// Whether one of the first `n` lists holds `x`.
spec fn listed<T: Model>(lists: Seq<Vec<T>>, n: int, x: T::M) -> bool {
    exists|i: int| 0 <= i < n && models((#[trigger] lists[i])@).contains(x)
}

/// What the lists hold and `used` does not, each once.
fn fresh_of<T: Model>(lists: &Vec<Vec<T>>, used: &Vec<T>) -> (r: Vec<T>)
    ensures
        models(r@).no_duplicates(),
        forall|x: T::M| #[trigger]
            models(r@).contains(x) <==> !models(used@).contains(x) && listed(
                lists@,
                lists@.len() as int,
                x,
            ),
{
    let ghost u = models(used@);
    let mut out: Vec<T> = Vec::new();
    for i in 0..lists.len()
        invariant
            u == models(used@),
            models(out@).no_duplicates(),
            forall|x: T::M| #[trigger]
                models(out@).contains(x) <==> !u.contains(x) && listed(lists@, i as int, x),
    {
        let ghost before = models(out@);
        let list = &lists[i];
        let ghost xs = models(list@);
        for j in 0..list.len()
            invariant
                u == models(used@),
                xs == models(list@),
                models(out@).no_duplicates(),
                forall|x: T::M| #[trigger]
                    models(out@).contains(x) <==> before.contains(x) || (!u.contains(x)
                        && xs.take(j as int).contains(x)),
        {
            let ghost o = models(out@);
            let ghost x0 = xs[j as int];
            let fresh = !holds(used, &list[j]) && !holds(&out, &list[j]);
            if fresh {
                out.push(list[j].copy());
                proof {
                    assert(models(out@) =~= o.push(x0));
                }
            }
            proof {
                assert(xs.take(j + 1) =~= xs.take(j as int).push(x0));
                assert forall|x: T::M| #[trigger]
                    models(out@).contains(x) <==> before.contains(x) || (!u.contains(x)
                        && xs.take(j + 1).contains(x)) by {
                    lemma_seq_contains_after_push(o, x0, x);
                    lemma_seq_contains_after_push(xs.take(j as int), x0, x);
                    assert(o.contains(x) <==> before.contains(x) || (!u.contains(x) && xs.take(
                        j as int,
                    ).contains(x)));
                }
            }
        }
        proof {
            assert(xs.take(xs.len() as int) =~= xs);
            assert forall|x: T::M| #[trigger]
                models(out@).contains(x) <==> !u.contains(x) && listed(lists@, i + 1, x) by {
                assert(before.contains(x) <==> !u.contains(x) && listed(lists@, i as int, x));
                if xs.contains(x) {
                    assert(models(lists@[i as int]@).contains(x));
                }
            }
        }
    }
    out
}

/// The keys that the conditions offer and that were not branched on above, each once.
pub fn branch_key_candidates(v: &Vec<Candidate>, used: &Vec<BranchKey>) -> (r: Vec<BranchKey>)
    ensures
        models(r@).no_duplicates(),
        forall|k: BranchKeyV|
            models(r@).contains(k) <==> #[trigger] eligible_key(cands(v@), models(used@), k),
{
    let ghost cs = cands(v@);
    let mut lists: Vec<Vec<BranchKey>> = Vec::new();
    for i in 0..v.len()
        invariant
            cs == cands(v@),
            lists@.len() == i,
            forall|j: int, k: BranchKeyV|
                0 <= j < i ==> (#[trigger] models(lists@[j]@).contains(k) <==> mentions_key(
                    cs[j].residual,
                    k,
                )),
    {
        lists.push(collect_branch_keys(&v[i].residual));
    }
    let out = fresh_of(&lists, used);
    proof {
        assert forall|k: BranchKeyV|
            models(out@).contains(k) <==> #[trigger] eligible_key(cs, models(used@), k) by {
            if listed(lists@, lists@.len() as int, k) {
                let j = choose|j: int|
                    0 <= j < lists@.len() && models((#[trigger] lists@[j])@).contains(k);
                assert(mentions_key(cs[j].residual, k));
            }
            if eligible_key(cs, models(used@), k) {
                let j = choose|j: int|
                    0 <= j < cs.len() && mentions_key((#[trigger] cs[j]).residual, k);
                assert(models(lists@[j]@).contains(k));
            }
        }
    }
    out
}

/// The atoms that the conditions offer and that were not branched on above, each once.
pub fn eligible_atoms(v: &Vec<Candidate>, used_atoms: &Vec<Predicate>) -> (r: Vec<Predicate>)
    ensures
        models(r@).no_duplicates(),
        forall|p: PredicateV|
            models(r@).contains(p) <==> #[trigger] eligible_atom(
                cands(v@),
                models(used_atoms@),
                p,
            ),
{
    let ghost cs = cands(v@);
    let mut lists: Vec<Vec<Predicate>> = Vec::new();
    for i in 0..v.len()
        invariant
            cs == cands(v@),
            lists@.len() == i,
            forall|j: int, p: PredicateV|
                0 <= j < i ==> (#[trigger] models(lists@[j]@).contains(p) <==> mentions_atom(
                    cs[j].residual,
                    p,
                )),
    {
        lists.push(collect_atom_candidates(&v[i].residual));
    }
    let out = fresh_of(&lists, used_atoms);
    proof {
        assert forall|p: PredicateV|
            models(out@).contains(p) <==> #[trigger] eligible_atom(cs, models(used_atoms@), p) by {
            if listed(lists@, lists@.len() as int, p) {
                let j = choose|j: int|
                    0 <= j < lists@.len() && models((#[trigger] lists@[j])@).contains(p);
                assert(mentions_atom(cs[j].residual, p));
            }
            if eligible_atom(cs, models(used_atoms@), p) {
                let j = choose|j: int|
                    0 <= j < cs.len() && mentions_atom((#[trigger] cs[j]).residual, p);
                assert(models(lists@[j]@).contains(p));
            }
        }
    }
    out
}

fn three(a: &str, b: &str, c: &str) -> (r: Vec<String>)
    ensures
        models(r@) == seq![a@, b@, c@],
{
    let mut out: Vec<String> = Vec::new();
    out.push(a.to_owned());
    out.push(b.to_owned());
    out.push(c.to_owned());
    proof {
        assert(models(out@) =~= seq![a@, b@, c@]);
    }
    out
}

fn two(a: &str, b: &str) -> (r: Vec<String>)
    ensures
        models(r@) == seq![a@, b@],
{
    let mut out: Vec<String> = Vec::new();
    out.push(a.to_owned());
    out.push(b.to_owned());
    proof {
        assert(models(out@) =~= seq![a@, b@]);
    }
    out
}

/// The texts that a branch on `key` has children for.
pub fn eligible_values(v: &Vec<Candidate>, key: &BranchKey) -> (r: Vec<String>)
    ensures
        is_values(cands(v@), key@, models(r@)),
        models(r@) == values_of(cands(v@), key@),
{
    let r = match key {
        BranchKey::Sentinel(ContextKey::Side) => three("left", "right", "self"),
        BranchKey::Sentinel(ContextKey::HasParent) => two("false", "true"),
        _ => named_values(v, key),
    };
    proof {
        lemma_values_unique(cands(v@), key@, models(r@), values_of(cands(v@), key@));
    }
    r
}

fn named_values(v: &Vec<Candidate>, key: &BranchKey) -> (r: Vec<String>)
    ensures
        strictly_sorted(models(r@)),
        forall|x: Seq<char>|
            models(r@).contains(x) <==> #[trigger] named_value(cands(v@), key@, x),
{
    let ghost cs = cands(v@);
    let mut out: Vec<String> = Vec::new();
    let mut i: usize = 0;
    proof {
        assert(cs.take(0) =~= Seq::<CandidateV>::empty());
    }
    let ghost mut seen = cs.take(0);
    while i < v.len()
        invariant
            0 <= i <= v@.len(),
            cs == cands(v@),
            seen == cs.take(i as int),
            strictly_sorted(models(out@)),
            forall|x: Seq<char>|
                models(out@).contains(x) <==> #[trigger] named_value(seen, key@, x),
        decreases v.len() - i,
    {
        let vals = collect_eq_values(&v[i].residual, key);
        let ghost vs = models(vals@);
        let ghost before = models(out@);
        let ghost next = cs.take(i + 1);
        let mut j: usize = 0;
        while j < vals.len()
            invariant
                0 <= j <= vals@.len(),
                vs == models(vals@),
                strictly_sorted(models(out@)),
                forall|x: Seq<char>| #[trigger]
                    models(out@).contains(x) <==> before.contains(x) || vs.take(j as int).contains(
                        x,
                    ),
            decreases vals.len() - j,
        {
            let ghost o = models(out@);
            insert_sorted(&mut out, vals[j].as_str());
            proof {
                let v0 = vs[j as int];
                assert(vs.take(j + 1) =~= vs.take(j as int).push(v0));
                assert forall|x: Seq<char>| #[trigger]
                    models(out@).contains(x) <==> before.contains(x) || vs.take(j + 1).contains(
                        x,
                    ) by {
                    assert(models(out@).to_set().contains(x) <==> o.to_set().insert(v0).contains(
                        x,
                    ));
                    assert(o.contains(x) <==> before.contains(x) || vs.take(j as int).contains(x));
                    if vs.take(j as int).contains(x) {
                        let m = vs.take(j as int).index_of(x);
                        assert(vs.take(j + 1)[m] == x);
                    }
                    if vs.take(j + 1).contains(x) {
                        let m = vs.take(j + 1).index_of(x);
                        if m < j {
                            assert(vs.take(j as int)[m] == x);
                        }
                    }
                    assert(vs.take(j + 1)[j as int] == v0);
                }
            }
            j = j + 1;
        }
        proof {
            assert(vs.take(vs.len() as int) =~= vs);
            assert(next =~= seen.push(cs[i as int]));
            assert forall|x: Seq<char>|
                models(out@).contains(x) <==> #[trigger] named_value(next, key@, x) by {
                assert(before.contains(x) <==> named_value(seen, key@, x));
                assert(vs.contains(x) <==> mentions_value(cs[i as int].residual, key@, x));
                if named_value(seen, key@, x) {
                    let m = choose|m: int|
                        0 <= m < seen.len() && mentions_value(
                            (#[trigger] seen[m]).residual,
                            key@,
                            x,
                        );
                    assert(mentions_value(next[m].residual, key@, x));
                }
                if vs.contains(x) {
                    assert(mentions_value(next[i as int].residual, key@, x));
                }
                if named_value(next, key@, x) {
                    let m = choose|m: int|
                        0 <= m < next.len() && mentions_value(
                            (#[trigger] next[m]).residual,
                            key@,
                            x,
                        );
                    if m < i {
                        assert(mentions_value(seen[m].residual, key@, x));
                    }
                }
            }
            seen = next;
        }
        i = i + 1;
    }
    proof {
        assert(cs.take(cs.len() as int) =~= cs);
    }
    out
}

} // verus!
