//! Which branch to take next.
use vstd::prelude::*;

use crate::categorize::expr::{Predicate, PredicateV};
use crate::decision_tree::candidates::{
    branch_key_candidates, cands, count_kept, eligible_atom, eligible_atoms, eligible_key,
    eligible_values, fold_candidates, folded, kept, values_of, Candidate, CandidateV,
    LOOKAHEAD_MIN_CANDIDATES,
};
use crate::decision_tree::kleene::{Fact, FactV};
use crate::decision_tree::tree::{BranchKey, BranchKeyV};
use crate::model::{copy_all, models, Model};
use crate::number::{Readings, ReadingsV};

verus! {

/// A branch: on a key, or on one atom.
#[derive(Debug)]
pub enum BranchChoice {
    Key(BranchKey),
    Atom(Predicate),
}

/// What a branch is on.
pub enum ChoiceV {
    Key(BranchKeyV),
    Atom(PredicateV),
}

impl BranchChoice {
    pub open spec fn view(&self) -> ChoiceV {
        match self {
            BranchChoice::Key(k) => ChoiceV::Key(k@),
            BranchChoice::Atom(p) => ChoiceV::Atom(p@),
        }
    }
}

/// What an optional branch is on.
pub open spec fn opt_choice(c: Option<BranchChoice>) -> Option<ChoiceV> {
    match c {
        Some(b) => Some(b@),
        None => None,
    }
}

/// The larger of two numbers.
pub open spec fn larger(a: int, b: int) -> int {
    if a >= b {
        a
    } else {
        b
    }
}

/// The size of the largest child of a branch on `key`, of the child for the rest and of those for
/// the first `n` of `values`.
pub open spec fn worst_over(
    cs: Seq<CandidateV>,
    key: BranchKeyV,
    values: Seq<Seq<char>>,
    n: int,
    r: ReadingsV,
) -> int
    decreases n,
{
    if n <= 0 || n > values.len() {
        kept(cs, FactV::Other(key, values), r)
    } else {
        larger(
            worst_over(cs, key, values, n - 1, r),
            kept(cs, FactV::Value(key, values[n - 1]), r),
        )
    }
}

/// The size of the largest child of a branch on `key`.
pub open spec fn worst_of_key(cs: Seq<CandidateV>, key: BranchKeyV, r: ReadingsV) -> int {
    worst_over(cs, key, values_of(cs, key), values_of(cs, key).len() as int, r)
}

/// The size of the larger child of a branch on an atom.
pub open spec fn worst_of_atom(cs: Seq<CandidateV>, p: PredicateV, r: ReadingsV) -> int {
    larger(kept(cs, FactV::Atom(p, true), r), kept(cs, FactV::Atom(p, false), r))
}

/// Whether `w` is the smallest size of a largest child that one branch can give, or the number of
/// conditions where no branch makes it smaller.
pub open spec fn is_min_worst(
    cs: Seq<CandidateV>,
    used: Seq<BranchKeyV>,
    used_atoms: Seq<PredicateV>,
    r: ReadingsV,
    w: int,
) -> bool {
    &&& 0 <= w <= cs.len()
    &&& w < cs.len() ==> (exists|k: BranchKeyV| #[trigger]
        eligible_key(cs, used, k) && worst_of_key(cs, k, r) == w) || (exists|p: PredicateV|
     #[trigger]
        eligible_atom(cs, used_atoms, p) && worst_of_atom(cs, p, r) == w)
    &&& forall|k: BranchKeyV| #[trigger] eligible_key(cs, used, k) ==> w <= worst_of_key(cs, k, r)
    &&& forall|p: PredicateV| #[trigger]
        eligible_atom(cs, used_atoms, p) ==> w <= worst_of_atom(cs, p, r)
}

/// The smallest size of a largest child that one branch can give, or the number of conditions
/// where no branch makes it smaller.
pub open spec fn min_worst(
    cs: Seq<CandidateV>,
    used: Seq<BranchKeyV>,
    used_atoms: Seq<PredicateV>,
    r: ReadingsV,
) -> int {
    choose|w: int| is_min_worst(cs, used, used_atoms, r, w)
}

proof fn lemma_kept_is_nonnegative(cs: Seq<CandidateV>, f: FactV, r: ReadingsV)
    ensures
        0 <= kept(cs, f, r),
    decreases cs.len(),
{
    if cs.len() > 0 {
        lemma_kept_is_nonnegative(cs.drop_last(), f, r);
    }
}

proof fn lemma_worst_is_nonnegative(
    cs: Seq<CandidateV>,
    key: BranchKeyV,
    values: Seq<Seq<char>>,
    n: int,
    r: ReadingsV,
)
    ensures
        0 <= worst_over(cs, key, values, n, r),
    decreases n,
{
    if n <= 0 || n > values.len() {
        lemma_kept_is_nonnegative(cs, FactV::Other(key, values), r);
    } else {
        lemma_worst_is_nonnegative(cs, key, values, n - 1, r);
    }
}

proof fn lemma_some_min_worst(
    cs: Seq<CandidateV>,
    used: Seq<BranchKeyV>,
    used_atoms: Seq<PredicateV>,
    r: ReadingsV,
    w: int,
) -> (m: int)
    requires
        0 <= w <= cs.len(),
        w < cs.len() ==> (exists|k: BranchKeyV| #[trigger]
            eligible_key(cs, used, k) && worst_of_key(cs, k, r) == w) || (exists|p: PredicateV|
         #[trigger]
            eligible_atom(cs, used_atoms, p) && worst_of_atom(cs, p, r) == w),
    ensures
        is_min_worst(cs, used, used_atoms, r, m),
    decreases w,
{
    if exists|k: BranchKeyV| #[trigger]
        eligible_key(cs, used, k) && worst_of_key(cs, k, r) < w {
        let k = choose|k: BranchKeyV| #[trigger]
            eligible_key(cs, used, k) && worst_of_key(cs, k, r) < w;
        let vs = values_of(cs, k);
        lemma_worst_is_nonnegative(cs, k, vs, vs.len() as int, r);
        lemma_some_min_worst(cs, used, used_atoms, r, worst_of_key(cs, k, r))
    } else if exists|p: PredicateV| #[trigger]
        eligible_atom(cs, used_atoms, p) && worst_of_atom(cs, p, r) < w {
        let p = choose|p: PredicateV| #[trigger]
            eligible_atom(cs, used_atoms, p) && worst_of_atom(cs, p, r) < w;
        lemma_kept_is_nonnegative(cs, FactV::Atom(p, true), r);
        lemma_some_min_worst(cs, used, used_atoms, r, worst_of_atom(cs, p, r))
    } else {
        w
    }
}

/// There is a smallest size of a largest child: no branch on a key or on an atom does better, and one
/// gives it where it is less than the number of conditions.
pub proof fn least_worst_is_least(
    cs: Seq<CandidateV>,
    used: Seq<BranchKeyV>,
    used_atoms: Seq<PredicateV>,
    r: ReadingsV,
)
    ensures
        is_min_worst(cs, used, used_atoms, r, min_worst(cs, used, used_atoms, r)),
{
    let m = lemma_some_min_worst(cs, used, used_atoms, r, cs.len() as int);
}

proof fn lemma_min_worst_unique(
    cs: Seq<CandidateV>,
    used: Seq<BranchKeyV>,
    used_atoms: Seq<PredicateV>,
    r: ReadingsV,
    a: int,
    b: int,
)
    requires
        is_min_worst(cs, used, used_atoms, r, a),
        is_min_worst(cs, used, used_atoms, r, b),
    ensures
        a == b,
{
}

/// Whether a branch is the best single one: its largest child is smallest, and smaller than the
/// whole. An atom is taken only where it is better than every key.
pub open spec fn best_single(
    cs: Seq<CandidateV>,
    used: Seq<BranchKeyV>,
    used_atoms: Seq<PredicateV>,
    r: ReadingsV,
    choice: ChoiceV,
) -> bool {
    let w = min_worst(cs, used, used_atoms, r);
    &&& w < cs.len()
    &&& match choice {
        ChoiceV::Key(k) => eligible_key(cs, used, k) && worst_of_key(cs, k, r) == w,
        ChoiceV::Atom(p) => eligible_atom(cs, used_atoms, p) && worst_of_atom(cs, p, r) == w && (
        forall|k: BranchKeyV| #[trigger] eligible_key(cs, used, k) ==> w < worst_of_key(cs, k, r)),
    }
}

/// The size of the largest grandchild of a branch on `key` whose children are each split by their
/// best single branch; of the child for the rest and of those for the first `n` of `values`.
pub open spec fn ahead_over(
    cs: Seq<CandidateV>,
    key: BranchKeyV,
    values: Seq<Seq<char>>,
    n: int,
    used: Seq<BranchKeyV>,
    used_atoms: Seq<PredicateV>,
    r: ReadingsV,
) -> int
    decreases n,
{
    if n <= 0 || n > values.len() {
        min_worst(folded(cs, FactV::Other(key, values), r), used.push(key), used_atoms, r)
    } else {
        larger(
            ahead_over(cs, key, values, n - 1, used, used_atoms, r),
            min_worst(
                folded(cs, FactV::Value(key, values[n - 1]), r),
                used.push(key),
                used_atoms,
                r,
            ),
        )
    }
}

/// The size of the largest grandchild of a branch on `key`.
pub open spec fn ahead_of_key(
    cs: Seq<CandidateV>,
    key: BranchKeyV,
    used: Seq<BranchKeyV>,
    used_atoms: Seq<PredicateV>,
    r: ReadingsV,
) -> int {
    ahead_over(
        cs,
        key,
        values_of(cs, key),
        values_of(cs, key).len() as int,
        used,
        used_atoms,
        r,
    )
}

/// Whether a branch on `key` is the best one together with a second branch.
pub open spec fn best_ahead(
    cs: Seq<CandidateV>,
    used: Seq<BranchKeyV>,
    used_atoms: Seq<PredicateV>,
    r: ReadingsV,
    key: BranchKeyV,
) -> bool {
    &&& eligible_key(cs, used, key)
    &&& ahead_of_key(cs, key, used, used_atoms, r) < cs.len()
    &&& forall|k: BranchKeyV| #[trigger]
        eligible_key(cs, used, k) ==> ahead_of_key(cs, key, used, used_atoms, r) <= ahead_of_key(
            cs,
            k,
            used,
            used_atoms,
            r,
        )
}

/// Whether no key helps even together with a second branch.
pub open spec fn none_ahead(
    cs: Seq<CandidateV>,
    used: Seq<BranchKeyV>,
    used_atoms: Seq<PredicateV>,
    r: ReadingsV,
) -> bool {
    forall|k: BranchKeyV| #[trigger]
        eligible_key(cs, used, k) ==> ahead_of_key(cs, k, used, used_atoms, r) >= cs.len()
}

/// Whether `choice` is the branch to take, or none is.
#[verifier::opaque]
pub open spec fn is_choice(
    cs: Seq<CandidateV>,
    used: Seq<BranchKeyV>,
    used_atoms: Seq<PredicateV>,
    r: ReadingsV,
    choice: Option<ChoiceV>,
) -> bool {
    if min_worst(cs, used, used_atoms, r) < cs.len() {
        choice is Some && best_single(cs, used, used_atoms, r, choice->0)
    } else if cs.len() > LOOKAHEAD_MIN_CANDIDATES {
        match choice {
            Some(ChoiceV::Key(k)) => best_ahead(cs, used, used_atoms, r, k),
            Some(ChoiceV::Atom(_)) => false,
            None => none_ahead(cs, used, used_atoms, r),
        }
    } else {
        choice is None
    }
}

fn worst_child(v: &Vec<Candidate>, key: &BranchKey, readings: &Readings) -> (r: usize)
    ensures
        r == worst_of_key(cands(v@), key@, readings@),
{
    let values = eligible_values(v, key);
    let ghost cs = cands(v@);
    let ghost vs = models(values@);
    let mut worst: usize = count_kept(v, &Fact::Other(key, &values), readings);
    for i in 0..values.len()
        invariant
            cs == cands(v@),
            vs == models(values@),
            worst == worst_over(cs, key@, vs, i as int, readings@),
    {
        let c: usize = count_kept(v, &Fact::Value(key, values[i].as_str()), readings);
        proof {
            assert(vs[i as int] == values@[i as int]@);
        }
        if c > worst {
            worst = c;
        }
    }
    worst
}

fn worst_half(v: &Vec<Candidate>, atom: &Predicate, readings: &Readings) -> (r: usize)
    ensures
        r == worst_of_atom(cands(v@), atom@, readings@),
{
    let t: usize = count_kept(v, &Fact::Atom(atom, true), readings);
    let f: usize = count_kept(v, &Fact::Atom(atom, false), readings);
    if t >= f {
        t
    } else {
        f
    }
}

/// The best single branch, where one makes the conditions fewer, and the size of its largest
/// child; else the number of conditions.
pub fn best_single_branch(
    v: &Vec<Candidate>,
    used: &Vec<BranchKey>,
    used_atoms: &Vec<Predicate>,
    readings: &Readings,
) -> (r: (Option<BranchChoice>, usize))
    ensures
        r.1 == min_worst(cands(v@), models(used@), models(used_atoms@), readings@),
        is_min_worst(cands(v@), models(used@), models(used_atoms@), readings@, r.1 as int),
        r.0 is Some <==> r.1 < v@.len(),
        r.0 is Some ==> best_single(
            cands(v@),
            models(used@),
            models(used_atoms@),
            readings@,
            r.0->0@,
        ),
        r.1 <= v@.len(),
{
    let ghost cs = cands(v@);
    let ghost u = models(used@);
    let ghost ua = models(used_atoms@);
    let mut best: Option<BranchChoice> = None;
    let mut best_worst: usize = v.len();
    let tags = branch_key_candidates(v, used);
    let ghost ks = models(tags@);
    let mut i: usize = 0;
    while i < tags.len()
        invariant
            0 <= i <= tags@.len(),
            cs == cands(v@),
            u == models(used@),
            ks == models(tags@),
            forall|k: BranchKeyV| ks.contains(k) <==> #[trigger] eligible_key(cs, u, k),
            best_worst <= v@.len(),
            best is None ==> best_worst == v@.len(),
            best is Some ==> best_worst < v@.len() && best->0@ is Key && eligible_key(
                cs,
                u,
                best->0@->Key_0,
            ) && worst_of_key(cs, best->0@->Key_0, readings@) == best_worst,
            forall|j: int|
                0 <= j < i ==> best_worst <= worst_of_key(cs, #[trigger] ks[j], readings@),
        decreases tags.len() - i,
    {
        let worst: usize = worst_child(v, &tags[i], readings);
        proof {
            assert(ks[i as int] == tags@[i as int]@);
            assert(ks.contains(ks[i as int]));
            assert(eligible_key(cs, u, ks[i as int]));
        }
        if worst < best_worst {
            best_worst = worst;
            best = Some(BranchChoice::Key(tags[i].copy()));
        }
        i = i + 1;
    }
    proof {
        assert forall|k: BranchKeyV| #[trigger] eligible_key(cs, u, k) implies best_worst
            <= worst_of_key(cs, k, readings@) by {
            assert(ks.contains(k));
            let j = ks.index_of(k);
            assert(ks[j] == k);
        }
    }
    let ghost key_worst = best_worst;
    let atoms = eligible_atoms(v, used_atoms);
    let ghost ps = models(atoms@);
    let mut j: usize = 0;
    while j < atoms.len()
        invariant
            0 <= j <= atoms@.len(),
            cs == cands(v@),
            ua == models(used_atoms@),
            ps == models(atoms@),
            forall|p: PredicateV| ps.contains(p) <==> #[trigger] eligible_atom(cs, ua, p),
            best_worst <= key_worst <= v@.len(),
            best is None ==> best_worst == v@.len(),
            best is Some ==> best_worst < v@.len(),
            best is Some && best->0@ is Key ==> best_worst == key_worst && eligible_key(
                cs,
                u,
                best->0@->Key_0,
            ) && worst_of_key(cs, best->0@->Key_0, readings@) == best_worst,
            best is Some && best->0@ is Atom ==> best_worst < key_worst && eligible_atom(
                cs,
                ua,
                best->0@->Atom_0,
            ) && worst_of_atom(cs, best->0@->Atom_0, readings@) == best_worst,
            forall|m: int|
                0 <= m < j ==> best_worst <= worst_of_atom(cs, #[trigger] ps[m], readings@),
            forall|k: BranchKeyV| #[trigger]
                eligible_key(cs, u, k) ==> key_worst <= worst_of_key(cs, k, readings@),
        decreases atoms.len() - j,
    {
        let worst: usize = worst_half(v, &atoms[j], readings);
        proof {
            assert(ps[j as int] == atoms@[j as int]@);
            assert(ps.contains(ps[j as int]));
            assert(eligible_atom(cs, ua, ps[j as int]));
        }
        if worst < best_worst {
            best_worst = worst;
            best = Some(BranchChoice::Atom(atoms[j].copy()));
        }
        j = j + 1;
    }
    proof {
        assert forall|p: PredicateV| #[trigger] eligible_atom(cs, ua, p) implies best_worst
            <= worst_of_atom(cs, p, readings@) by {
            assert(ps.contains(p));
            let m = ps.index_of(p);
            assert(ps[m] == p);
        }
        assert(is_min_worst(cs, u, ua, readings@, best_worst as int));
        lemma_min_worst_unique(
            cs,
            u,
            ua,
            readings@,
            best_worst as int,
            min_worst(cs, u, ua, readings@),
        );
    }
    (best, best_worst)
}

fn worst_ahead(
    v: &Vec<Candidate>,
    key: &BranchKey,
    used: &Vec<BranchKey>,
    used_atoms: &Vec<Predicate>,
    readings: &Readings,
) -> (r: usize)
    ensures
        r == ahead_of_key(cands(v@), key@, models(used@), models(used_atoms@), readings@),
{
    let values = eligible_values(v, key);
    let ghost cs = cands(v@);
    let ghost vs = models(values@);
    let ghost u = models(used@);
    let ghost ua = models(used_atoms@);
    let mut used1 = copy_all(used);
    used1.push(key.copy());
    proof {
        assert(models(used1@) =~= u.push(key@));
    }
    let rest = fold_candidates(v, &Fact::Other(key, &values), readings);
    let mut worst: usize = best_single_branch(&rest, &used1, used_atoms, readings).1;
    for i in 0..values.len()
        invariant
            cs == cands(v@),
            vs == models(values@),
            ua == models(used_atoms@),
            models(used1@) == u.push(key@),
            worst == ahead_over(cs, key@, vs, i as int, u, ua, readings@),
    {
        let child = fold_candidates(v, &Fact::Value(key, values[i].as_str()), readings);
        let c: usize = best_single_branch(&child, &used1, used_atoms, readings).1;
        proof {
            assert(vs[i as int] == values@[i as int]@);
        }
        if c > worst {
            worst = c;
        }
    }
    worst
}

/// The key that helps most together with a second branch, where one does.
pub fn lookahead_branch(
    v: &Vec<Candidate>,
    used: &Vec<BranchKey>,
    used_atoms: &Vec<Predicate>,
    readings: &Readings,
) -> (r: Option<BranchChoice>)
    ensures
        match r {
            Some(b) => b@ is Key && best_ahead(
                cands(v@),
                models(used@),
                models(used_atoms@),
                readings@,
                b@->Key_0,
            ),
            None => none_ahead(cands(v@), models(used@), models(used_atoms@), readings@),
        },
{
    let ghost cs = cands(v@);
    let ghost u = models(used@);
    let ghost ua = models(used_atoms@);
    let mut best: Option<BranchChoice> = None;
    let mut best_worst: usize = v.len();
    let tags = branch_key_candidates(v, used);
    let ghost ks = models(tags@);
    let mut i: usize = 0;
    while i < tags.len()
        invariant
            0 <= i <= tags@.len(),
            cs == cands(v@),
            u == models(used@),
            ua == models(used_atoms@),
            ks == models(tags@),
            forall|k: BranchKeyV| ks.contains(k) <==> #[trigger] eligible_key(cs, u, k),
            best_worst <= v@.len(),
            best is None ==> best_worst == v@.len(),
            best is Some ==> best_worst < v@.len() && best->0@ is Key && eligible_key(
                cs,
                u,
                best->0@->Key_0,
            ) && ahead_of_key(cs, best->0@->Key_0, u, ua, readings@) == best_worst,
            forall|j: int|
                0 <= j < i ==> best_worst <= ahead_of_key(
                    cs,
                    #[trigger] ks[j],
                    u,
                    ua,
                    readings@,
                ),
        decreases tags.len() - i,
    {
        let worst: usize = worst_ahead(v, &tags[i], used, used_atoms, readings);
        proof {
            assert(ks[i as int] == tags@[i as int]@);
            assert(ks.contains(ks[i as int]));
            assert(eligible_key(cs, u, ks[i as int]));
        }
        if worst < best_worst {
            best_worst = worst;
            best = Some(BranchChoice::Key(tags[i].copy()));
        }
        i = i + 1;
    }
    proof {
        assert forall|k: BranchKeyV| #[trigger] eligible_key(cs, u, k) implies best_worst
            <= ahead_of_key(cs, k, u, ua, readings@) by {
            assert(ks.contains(k));
            let j = ks.index_of(k);
            assert(ks[j] == k);
        }
    }
    best
}

/// The branch to take: the best single one; where none makes the conditions fewer and there are
/// many of them, the key that helps most together with a second branch.
pub fn choose_branch(
    v: &Vec<Candidate>,
    used: &Vec<BranchKey>,
    used_atoms: &Vec<Predicate>,
    readings: &Readings,
) -> (r: Option<BranchChoice>)
    ensures
        is_choice(cands(v@), models(used@), models(used_atoms@), readings@, opt_choice(r)),
{
    proof {
        reveal(is_choice);
    }
    let (choice, _worst) = best_single_branch(v, used, used_atoms, readings);
    match choice {
        Some(c) => Some(c),
        None => if v.len() > LOOKAHEAD_MIN_CANDIDATES {
            lookahead_branch(v, used, used_atoms, readings)
        } else {
            None
        },
    }
}

} // verus!
