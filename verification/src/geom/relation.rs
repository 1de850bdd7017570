//! Chaining the ways of a relation end to end.
//!
//! The outline of an area is often split over several ways, and the ways of a route are listed in
//! any order. Both are reconnected where two ends have the same position.
use vstd::prelude::*;

use crate::geom::primitives::{same, same_point, Pt, Vertex};

verus! {

/// The vertices of a list of ways.
pub open spec fn tracks(segments: Seq<Vec<Vertex>>) -> Seq<Seq<Vertex>> {
    segments.map_values(|s: Vec<Vertex>| s@)
}

/// Whether a ring ends where it starts.
pub open spec fn is_closed(ring: Seq<Vertex>) -> bool {
    ring.len() == 0 || same(ring.first().place, ring.last().place)
}

/// Whether a way starts or ends at a position.
pub open spec fn joins(segment: Seq<Vertex>, at: Pt) -> bool {
    segment.len() > 0 && (same(segment.first().place, at) || same(segment.last().place, at))
}

/// The first way from `from` on that starts or ends at a position; the number of ways where none
/// does.
pub open spec fn first_joining(segments: Seq<Seq<Vertex>>, at: Pt, from: int) -> int
    decreases segments.len() - from,
{
    if from >= segments.len() || joins(segments[from], at) {
        from
    } else {
        first_joining(segments, at, from + 1)
    }
}

/// The way in the direction in which it starts at a position.
pub open spec fn starting(segment: Seq<Vertex>, at: Pt) -> Seq<Vertex> {
    if same(segment.first().place, at) {
        segment
    } else {
        segment.reverse()
    }
}

/// What a ring grows to, and the ways that are left: as long as it is open, the first way that
/// continues it is appended.
pub open spec fn grown(ring: Seq<Vertex>, segments: Seq<Seq<Vertex>>) -> (
    Seq<Vertex>,
    Seq<Seq<Vertex>>,
)
    decreases segments.len(),
{
    let i = first_joining(segments, ring.last().place, 0);
    if is_closed(ring) || !(0 <= i < segments.len()) {
        (ring, segments)
    } else {
        grown(ring + starting(segments[i], ring.last().place).skip(1), segments.remove(i))
    }
}

/// The rings that ways chain to: each starts with the last way that is left.
pub open spec fn assembled(segments: Seq<Seq<Vertex>>) -> Seq<Seq<Vertex>>
    decreases segments.len(),
{
    if segments.len() == 0 {
        Seq::empty()
    } else {
        proof {
            lemma_grown_len(segments.last(), segments.drop_last());
        }
        let (ring, rest) = grown(segments.last(), segments.drop_last());
        seq![ring] + assembled(rest)
    }
}

/// A ring grows by using up ways.
pub proof fn lemma_grown_len(ring: Seq<Vertex>, segments: Seq<Seq<Vertex>>)
    ensures
        grown(ring, segments).1.len() <= segments.len(),
    decreases segments.len(),
{
    let i = first_joining(segments, ring.last().place, 0);
    if !(is_closed(ring) || !(0 <= i < segments.len())) {
        lemma_grown_len(
            ring + starting(segments[i], ring.last().place).skip(1),
            segments.remove(i),
        );
    }
}

proof fn lemma_first_joining(segments: Seq<Seq<Vertex>>, at: Pt, from: int)
    requires
        0 <= from <= segments.len(),
    ensures
        from <= first_joining(segments, at, from) <= segments.len(),
        first_joining(segments, at, from) < segments.len() ==> joins(
            segments[first_joining(segments, at, from)],
            at,
        ),
    decreases segments.len() - from,
{
    if from < segments.len() && !joins(segments[from], at) {
        lemma_first_joining(segments, at, from + 1);
    }
}

/// Whether two vertices are one, or have the same position.
pub open spec fn meets(a: Vertex, b: Vertex) -> bool {
    a == b || same(a.place, b.place)
}

/// Whether the step from `a` to `b` is taken by the `k`-th way at its `j`-th vertex, in one
/// direction or the other.
pub open spec fn steps(a: Vertex, b: Vertex, segments: Seq<Seq<Vertex>>, k: int, j: int) -> bool {
    &&& 0 <= k < segments.len()
    &&& 0 <= j < segments[k].len() - 1
    &&& (meets(a, segments[k][j]) && b == segments[k][j + 1]) || (meets(a, segments[k][j + 1]) && b
        == segments[k][j])
}

/// Whether the `i`-th step of a ring is a step of one of the ways.
pub open spec fn is_taken(ring: Seq<Vertex>, i: int, segments: Seq<Seq<Vertex>>) -> bool {
    exists|k: int, j: int| #[trigger] steps(ring[i], ring[i + 1], segments, k, j)
}

/// Every step of a ring is a step of one of the ways.
pub open spec fn follows(ring: Seq<Vertex>, segments: Seq<Seq<Vertex>>) -> bool {
    forall|i: int| 0 <= i < ring.len() - 1 ==> #[trigger] is_taken(ring, i, segments)
}

/// How many steps the ways take together.
pub open spec fn step_count(segments: Seq<Seq<Vertex>>) -> int
    decreases segments.len(),
{
    if segments.len() == 0 {
        0
    } else {
        step_count(segments.drop_last()) + if segments.last().len() == 0 {
            0
        } else {
            segments.last().len() - 1
        }
    }
}

proof fn lemma_step_count_remove(segments: Seq<Seq<Vertex>>, i: int)
    requires
        0 <= i < segments.len(),
    ensures
        step_count(segments) == step_count(segments.remove(i)) + if segments[i].len() == 0 {
            0
        } else {
            segments[i].len() - 1
        },
    decreases segments.len(),
{
    if i == segments.len() - 1 {
        assert(segments.remove(i) =~= segments.drop_last());
    } else {
        lemma_step_count_remove(segments.drop_last(), i);
        assert(segments.remove(i).drop_last() =~= segments.drop_last().remove(i));
    }
}

proof fn lemma_step_count_front(first: Seq<Vertex>, rest: Seq<Seq<Vertex>>)
    ensures
        step_count(seq![first] + rest) == step_count(rest) + if first.len() == 0 {
            0
        } else {
            first.len() - 1
        },
{
    lemma_step_count_remove(seq![first] + rest, 0);
    assert((seq![first] + rest).remove(0) =~= rest);
}

proof fn lemma_grown_steps(ring: Seq<Vertex>, segments: Seq<Seq<Vertex>>)
    ensures
        grown(ring, segments).0.len() >= ring.len(),
        ring.len() > 0 ==> grown(ring, segments).0.len() - 1 + step_count(grown(ring, segments).1)
            == ring.len() - 1 + step_count(segments),
        ring.len() == 0 ==> grown(ring, segments) == (ring, segments),
    decreases segments.len(),
{
    let at = ring.last().place;
    let i = first_joining(segments, at, 0);
    if !(is_closed(ring) || !(0 <= i < segments.len())) {
        lemma_first_joining(segments, at, 0);
        lemma_step_count_remove(segments, i);
        lemma_grown_steps(ring + starting(segments[i], at).skip(1), segments.remove(i));
    }
}

/// Chaining loses no part of a way: the rings take as many steps as the ways do.
pub proof fn rings_take_every_step(segments: Seq<Seq<Vertex>>)
    ensures
        step_count(assembled(segments)) == step_count(segments),
    decreases segments.len(),
{
    if segments.len() > 0 {
        let (ring, rest) = grown(segments.last(), segments.drop_last());
        lemma_grown_len(segments.last(), segments.drop_last());
        lemma_grown_steps(segments.last(), segments.drop_last());
        rings_take_every_step(rest);
        lemma_step_count_front(ring, assembled(rest));
    }
}

proof fn lemma_follows_more(
    ring: Seq<Vertex>,
    segment: Seq<Vertex>,
    all: Seq<Seq<Vertex>>,
    k: int,
)
    requires
        ring.len() > 0,
        follows(ring, all),
        0 <= k < all.len(),
        all[k] == segment,
        joins(segment, ring.last().place),
    ensures
        follows(ring + starting(segment, ring.last().place).skip(1), all),
{
    let at = ring.last().place;
    let turned = starting(segment, at);
    let n = segment.len() as int;
    let longer = ring + turned.skip(1);
    assert forall|i: int| 0 <= i < longer.len() - 1 implies #[trigger] is_taken(longer, i, all) by {
        if i < ring.len() - 1 {
            assert(is_taken(ring, i, all));
            let (a, b) = choose|k: int, j: int| #[trigger] steps(ring[i], ring[i + 1], all, k, j);
            assert(steps(longer[i], longer[i + 1], all, a, b));
        } else {
            let t = i - (ring.len() - 1);
            assert(longer[i + 1] == turned[t + 1]);
            if t > 0 {
                assert(longer[i] == turned[t]);
            }
            if same(segment.first().place, at) {
                lemma_same_symmetric(segment.first().place, at);
                assert(steps(longer[i], longer[i + 1], all, k, t));
            } else {
                assert(turned[t] == segment[n - 1 - t]);
                assert(turned[t + 1] == segment[n - 2 - t]);
                lemma_same_symmetric(segment.last().place, at);
                assert(steps(longer[i], longer[i + 1], all, k, n - 2 - t));
            }
        }
    }
}

proof fn lemma_same_symmetric(a: Pt, b: Pt)
    requires
        same(a, b),
    ensures
        same(b, a),
{
}

proof fn lemma_grown_follows(ring: Seq<Vertex>, segments: Seq<Seq<Vertex>>, all: Seq<Seq<Vertex>>)
    requires
        follows(ring, all),
        forall|i: int| 0 <= i < segments.len() ==> all.contains(#[trigger] segments[i]),
    ensures
        follows(grown(ring, segments).0, all),
        forall|i: int|
            0 <= i < grown(ring, segments).1.len() ==> all.contains(
                #[trigger] grown(ring, segments).1[i],
            ),
    decreases segments.len(),
{
    let at = ring.last().place;
    let i = first_joining(segments, at, 0);
    if !(is_closed(ring) || !(0 <= i < segments.len())) {
        lemma_first_joining(segments, at, 0);
        assert(all.contains(segments[i]));
        let k = all.index_of(segments[i]);
        lemma_follows_more(ring, segments[i], all, k);
        let rest = segments.remove(i);
        assert forall|j: int| 0 <= j < rest.len() implies all.contains(#[trigger] rest[j]) by {
            assert(rest[j] == segments[if j < i {
                j
            } else {
                j + 1
            }]);
        }
        lemma_grown_follows(ring + starting(segments[i], at).skip(1), rest, all);
    }
}

proof fn lemma_assembled_follows(segments: Seq<Seq<Vertex>>, all: Seq<Seq<Vertex>>)
    requires
        forall|i: int| 0 <= i < segments.len() ==> all.contains(#[trigger] segments[i]),
    ensures
        forall|r: int|
            0 <= r < assembled(segments).len() ==> follows(#[trigger] assembled(segments)[r], all),
    decreases segments.len(),
{
    if segments.len() > 0 {
        let first = segments.last();
        let others = segments.drop_last();
        let k = all.index_of(first);
        assert(all.contains(segments[segments.len() - 1]));
        assert forall|i: int| 0 <= i < first.len() - 1 implies #[trigger] is_taken(first, i, all) by {
            assert(steps(first[i], first[i + 1], all, k, i));
        }
        assert forall|i: int| 0 <= i < others.len() implies all.contains(#[trigger] others[i]) by {
            assert(others[i] == segments[i]);
        }
        lemma_grown_follows(first, others, all);
        lemma_grown_len(first, others);
        let (ring, rest) = grown(first, others);
        lemma_assembled_follows(rest, all);
        assert forall|r: int| 0 <= r < assembled(segments).len() implies follows(
            #[trigger] assembled(segments)[r],
            all,
        ) by {
            if r > 0 {
                assert(assembled(segments)[r] == assembled(rest)[r - 1]);
            }
        }
    }
}

/// Chaining only connects ways that are adjacent: every step of every ring is a step of one of the
/// ways, in one direction or the other.
pub proof fn rings_follow_the_ways(segments: Seq<Seq<Vertex>>)
    ensures
        forall|r: int|
            0 <= r < assembled(segments).len() ==> follows(
                #[trigger] assembled(segments)[r],
                segments,
            ),
{
    assert forall|i: int| 0 <= i < segments.len() implies segments.contains(
        #[trigger] segments[i],
    ) by {}
    lemma_assembled_follows(segments, segments);
}

/// Whether a way starts or ends at a position.
fn joins_at(segment: &Vec<Vertex>, at: Pt) -> (r: bool)
    ensures
        r == joins(segment@, at),
{
    let n: usize = segment.len();
    n > 0 && (same_point(segment[0].place, at) || same_point(segment[n - 1].place, at))
}

/// Appends the rest of a way that starts or ends where the ring ends.
fn extend(ring: &mut Vec<Vertex>, segment: &Vec<Vertex>, at: Pt)
    requires
        segment@.len() > 0,
    ensures
        final(ring)@ == old(ring)@ + starting(segment@, at).skip(1),
{
    let ghost before = ring@;
    let n: usize = segment.len();
    let forward: bool = same_point(segment[0].place, at);
    let ghost turned = starting(segment@, at);
    let mut i: usize = 1;
    assert(turned.subrange(1, 1) =~= Seq::<Vertex>::empty());
    while i < n
        invariant
            1 <= i <= n,
            n == segment@.len(),
            turned == starting(segment@, at),
            forward == same(segment@.first().place, at),
            ring@ =~= before + turned.subrange(1, i as int),
        decreases n - i,
    {
        if forward {
            ring.push(segment[i]);
        } else {
            ring.push(segment[n - 1 - i]);
        }
        assert(turned.subrange(1, i + 1) =~= turned.subrange(1, i as int).push(turned[i as int]));
        i = i + 1;
    }
    assert(turned.subrange(1, n as int) =~= turned.skip(1));
}

/// Chains ways end to end into rings.
pub fn assemble_rings(segments: Vec<Vec<Vertex>>) -> (r: Vec<Vec<Vertex>>)
    ensures
        tracks(r@) == assembled(tracks(segments@)),
{
    let ghost all = tracks(segments@);
    let mut left: Vec<Vec<Vertex>> = segments;
    let mut rings: Vec<Vec<Vertex>> = Vec::new();
    assert(tracks(rings@) + assembled(all) =~= assembled(all));
    while left.len() > 0
        invariant
            tracks(rings@) + assembled(tracks(left@)) == assembled(all),
        decreases left@.len(),
    {
        let ghost old_left = tracks(left@);
        let ghost done = tracks(rings@);
        let mut ring: Vec<Vertex> = match left.pop() {
            Some(first) => first,
            None => Vec::new(),
        };
        proof {
            assert(tracks(left@) =~= old_left.drop_last());
            assert(ring@ == old_left.last());
            lemma_grown_len(ring@, tracks(left@));
        }
        let ghost whole = grown(ring@, tracks(left@));
        let mut i: usize = 0;
        while ring.len() > 0 && i < left.len() && !same_point(
            ring[0].place,
            ring[ring.len() - 1].place,
        )
            invariant
                i <= left@.len(),
                left@.len() <= old_left.len() - 1,
                whole == grown(ring@, tracks(left@)),
                ring@.len() > 0 ==> first_joining(tracks(left@), ring@.last().place, 0)
                    == first_joining(tracks(left@), ring@.last().place, i as int),
            decreases left@.len(), left@.len() - i,
        {
            let at: Pt = ring[ring.len() - 1].place;
            assert(tracks(left@)[i as int] == left@[i as int]@);
            if joins_at(&left[i], at) {
                let ghost before = tracks(left@);
                let segment: Vec<Vertex> = left.remove(i);
                assert(tracks(left@) =~= before.remove(i as int));
                extend(&mut ring, &segment, at);
                i = 0;
            } else {
                i = i + 1;
            }
        }
        assert(whole == (ring@, tracks(left@)));
        let ghost last = ring@;
        rings.push(ring);
        proof {
            assert(tracks(rings@) =~= done.push(last));
            assert(done + (seq![last] + assembled(tracks(left@))) =~= done.push(last) + assembled(
                tracks(left@),
            ));
        }
    }
    proof {
        assert(tracks(rings@) + assembled(tracks(left@)) =~= tracks(rings@));
    }
    rings
}

} // verus!
