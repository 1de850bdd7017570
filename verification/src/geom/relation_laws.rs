//! What becomes of ways and of the members of relations: which ways are chained, which shapes are
//! built of them, and which topic gets which row.
use vstd::prelude::*;

use crate::engine::topic_runner::ElementKind;
use crate::geom::builders::{
    drawable, edges, edges_of, points, pooled, relation_area, row_of, OsmWay, WayMeasures,
};
use crate::geom::laws::{
    areas_have_a_hole_for_each_inner_ring, decoded_rings, is_ring_of, lemma_drawable,
    way_areas_have_one_ring,
};
use crate::geom::materialize::{
    gathered, is_way_geometry, relation_shapes, routed, MemberRole, Pick, RelationGeometry,
    RelationMeasures, RelationRequest, RelationShapes, WayGeometry,
};
use crate::geom::plan::{
    has_bit, is_plan, paired, shape_for, wanting, wanting_topics_are_listed, GeometryOutput,
    GeometryPlan, GeometryShape,
};
use crate::geom::primitives::{
    decoded_line, decoded_point, same, written_line_is_read, written_point_is_read, EwkbError, Pt,
    Vertex,
};
use crate::geom::relation::{
    assembled, first_joining, grown, is_closed, joins, lemma_grown_len, rings_take_every_step,
    starting, step_count,
};
use crate::geom::rows::GeomRow;

verus! {

// ── Chaining ────────────────────────────────────────────────────────────────────────────────

/// Ways that are closed are not chained to others: each is a ring of its own, the last way first.
pub proof fn closed_ways_stand_alone(segments: Seq<Seq<Vertex>>)
    requires
        forall|i: int| 0 <= i < segments.len() ==> is_closed(#[trigger] segments[i]),
    ensures
        assembled(segments) == segments.reverse(),
    decreases segments.len(),
{
    if segments.len() > 0 {
        let rest = segments.drop_last();
        assert forall|i: int| 0 <= i < rest.len() implies is_closed(#[trigger] rest[i]) by {
            assert(rest[i] == segments[i]);
        }
        assert(is_closed(segments[segments.len() - 1]));
        closed_ways_stand_alone(rest);
        assert(seq![segments.last()] + rest.reverse() =~= segments.reverse());
    } else {
        assert(assembled(segments) =~= segments.reverse());
    }
}

proof fn lemma_none_joins(segments: Seq<Seq<Vertex>>, at: Pt, from: int)
    requires
        0 <= from <= segments.len(),
        first_joining(segments, at, from) >= segments.len(),
    ensures
        forall|i: int| from <= i < segments.len() ==> !joins(#[trigger] segments[i], at),
    decreases segments.len() - from,
{
    if from < segments.len() {
        lemma_none_joins(segments, at, from + 1);
    }
}

proof fn lemma_first_joins(segments: Seq<Seq<Vertex>>, at: Pt, from: int)
    requires
        0 <= from <= segments.len(),
    ensures
        from <= first_joining(segments, at, from) <= segments.len(),
        first_joining(segments, at, from) < segments.len() ==> joins(
            segments[first_joining(segments, at, from)],
            at,
        ),
    decreases segments.len() - from,
{
    if from < segments.len() && !joins(segments[from], at) {
        lemma_first_joins(segments, at, from + 1);
    }
}

proof fn lemma_removed(segments: Seq<Seq<Vertex>>, i: int, at: Pt)
    requires
        0 <= i < segments.len(),
        forall|k: int| 0 <= k < segments.len() ==> !joins(#[trigger] segments[k], at),
    ensures
        forall|k: int| 0 <= k < segments.remove(i).len() ==> !joins(
            #[trigger] segments.remove(i)[k],
            at,
        ),
{
    assert forall|k: int| 0 <= k < segments.remove(i).len() implies !joins(
        #[trigger] segments.remove(i)[k],
        at,
    ) by {
        let j = if k < i {
            k
        } else {
            k + 1
        };
        assert(segments.remove(i)[k] == segments[j]);
    }
}

proof fn lemma_grown_ends(ring: Seq<Vertex>, segments: Seq<Seq<Vertex>>)
    ensures
        !is_closed(grown(ring, segments).0) ==> forall|i: int|
            0 <= i < grown(ring, segments).1.len() ==> !joins(
                #[trigger] grown(ring, segments).1[i],
                grown(ring, segments).0.last().place,
            ),
    decreases segments.len(),
{
    let at = ring.last().place;
    let i = first_joining(segments, at, 0);
    lemma_first_joins(segments, at, 0);
    if is_closed(ring) || !(0 <= i < segments.len()) {
        if !is_closed(ring) {
            lemma_none_joins(segments, at, 0);
        }
    } else {
        lemma_grown_ends(ring + starting(segments[i], at).skip(1), segments.remove(i));
    }
}

proof fn lemma_grown_apart(ring: Seq<Vertex>, segments: Seq<Seq<Vertex>>, at: Pt)
    requires
        !joins(ring, at),
        forall|k: int| 0 <= k < segments.len() ==> !joins(#[trigger] segments[k], at),
    ensures
        !joins(grown(ring, segments).0, at),
        forall|k: int|
            0 <= k < grown(ring, segments).1.len() ==> !joins(
                #[trigger] grown(ring, segments).1[k],
                at,
            ),
    decreases segments.len(),
{
    let end = ring.last().place;
    let i = first_joining(segments, end, 0);
    lemma_first_joins(segments, end, 0);
    if !(is_closed(ring) || !(0 <= i < segments.len())) {
        let more = starting(segments[i], end).skip(1);
        let longer = ring + more;
        assert(!joins(segments[i], at));
        assert(longer.first() == ring.first());
        if more.len() > 0 {
            assert(longer.last() == starting(segments[i], end).last());
        } else {
            assert(longer =~= ring);
        }
        lemma_removed(segments, i, at);
        lemma_grown_apart(longer, segments.remove(i), at);
    }
}

proof fn lemma_assembled_apart(segments: Seq<Seq<Vertex>>, at: Pt)
    requires
        forall|k: int| 0 <= k < segments.len() ==> !joins(#[trigger] segments[k], at),
    ensures
        forall|r: int|
            0 <= r < assembled(segments).len() ==> !joins(#[trigger] assembled(segments)[r], at),
    decreases segments.len(),
{
    if segments.len() > 0 {
        let first = segments.last();
        let others = segments.drop_last();
        assert(!joins(segments[segments.len() - 1], at));
        assert forall|k: int| 0 <= k < others.len() implies !joins(#[trigger] others[k], at) by {
            assert(others[k] == segments[k]);
        }
        lemma_grown_len(first, others);
        lemma_grown_apart(first, others, at);
        let (ring, rest) = grown(first, others);
        lemma_assembled_apart(rest, at);
        assert forall|r: int| 0 <= r < assembled(segments).len() implies !joins(
            #[trigger] assembled(segments)[r],
            at,
        ) by {
            if r > 0 {
                assert(assembled(segments)[r] == assembled(rest)[r - 1]);
            }
        }
    }
}

/// A chain is only left open where nothing carries it on: no chain behind it starts or ends where an
/// open chain ends.
pub proof fn open_chains_cannot_be_carried_on(segments: Seq<Seq<Vertex>>, r: int, s: int)
    requires
        0 <= r < s < assembled(segments).len(),
        !is_closed(assembled(segments)[r]),
    ensures
        !joins(assembled(segments)[s], assembled(segments)[r].last().place),
    decreases segments.len(),
{
    let first = segments.last();
    let others = segments.drop_last();
    lemma_grown_len(first, others);
    let (ring, rest) = grown(first, others);
    assert(assembled(segments)[s] == assembled(rest)[s - 1]);
    if r == 0 {
        lemma_grown_ends(first, others);
        lemma_assembled_apart(rest, ring.last().place);
    } else {
        assert(assembled(segments)[r] == assembled(rest)[r - 1]);
        open_chains_cannot_be_carried_on(rest, r - 1, s - 1);
    }
}

proof fn lemma_is_first(segments: Seq<Seq<Vertex>>, at: Pt, from: int, i: int)
    requires
        0 <= from <= i < segments.len(),
        joins(segments[i], at),
        forall|j: int| from <= j < i ==> !joins(#[trigger] segments[j], at),
    ensures
        first_joining(segments, at, from) == i,
    decreases i - from,
{
    if from < i {
        assert(!joins(segments[from], at));
        lemma_is_first(segments, at, from + 1, i);
    }
}

/// Chaining begins with the last way. The first way that starts or ends where it ends carries it on,
/// turned round where it ends there: the chains are those of the ways with the two made one.
pub proof fn first_way_that_fits_carries_on(segments: Seq<Seq<Vertex>>, i: int)
    requires
        0 <= i < segments.len() - 1,
        segments.last().len() > 0,
        !is_closed(segments.last()),
        joins(segments[i], segments.last().last().place),
        forall|j: int|
            0 <= j < i ==> !joins(#[trigger] segments[j], segments.last().last().place),
    ensures
        ({
            let chain = segments.last();
            let way = segments[i];
            let turned = if same(way.first().place, chain.last().place) {
                way
            } else {
                way.reverse()
            };
            assembled(segments) == assembled(
                segments.drop_last().remove(i).push(chain + turned.skip(1)),
            )
        }),
{
    let chain = segments.last();
    let rest = segments.drop_last();
    let at = chain.last().place;
    assert forall|j: int| 0 <= j < i implies !joins(#[trigger] rest[j], at) by {
        assert(rest[j] == segments[j]);
    }
    assert(rest[i] == segments[i]);
    lemma_is_first(rest, at, 0, i);
    let longer = chain + starting(rest[i], at).skip(1);
    let other = rest.remove(i).push(longer);
    assert(other.drop_last() =~= rest.remove(i));
    assert(other.last() == longer);
    lemma_grown_len(chain, rest);
    lemma_grown_len(longer, rest.remove(i));
}

// ── Members ─────────────────────────────────────────────────────────────────────────────────

/// Members are gathered one after the other.
pub proof fn gathering_goes_member_by_member(
    a: Seq<(i64, MemberRole)>,
    b: Seq<(i64, MemberRole)>,
    ways: Map<i64, Seq<Vertex>>,
    pick: Pick,
)
    ensures
        gathered(a + b, ways, pick) == gathered(a, ways, pick) + gathered(b, ways, pick),
    decreases b.len(),
{
    if b.len() == 0 {
        assert(a + b =~= a);
        assert(gathered(b, ways, pick) =~= Seq::<Seq<Vertex>>::empty());
        assert(gathered(a, ways, pick) + gathered(b, ways, pick) =~= gathered(a, ways, pick));
    } else {
        gathering_goes_member_by_member(a, b.drop_last(), ways, pick);
        assert((a + b).drop_last() =~= a + b.drop_last());
        assert((a + b).last() == b.last());
        assert(gathered(a + b, ways, pick) =~= gathered(a, ways, pick) + gathered(b, ways, pick));
    }
}

/// A member whose way is not known is passed over. One that is known counts as a member whatever its
/// role; it is part of a hole where its role is inner, and of an outline where it is anything else.
pub proof fn members_count_by_their_role(member: (i64, MemberRole), ways: Map<i64, Seq<Vertex>>)
    ensures
        !ways.dom().contains(member.0) ==> {
            &&& gathered(seq![member], ways, Pick::All).len() == 0
            &&& gathered(seq![member], ways, Pick::Outer).len() == 0
            &&& gathered(seq![member], ways, Pick::Inner).len() == 0
        },
        ways.dom().contains(member.0) ==> gathered(seq![member], ways, Pick::All) == seq![
            ways[member.0],
        ],
        ways.dom().contains(member.0) && member.1 == MemberRole::Inner ==> {
            &&& gathered(seq![member], ways, Pick::Inner) == seq![ways[member.0]]
            &&& gathered(seq![member], ways, Pick::Outer).len() == 0
        },
        ways.dom().contains(member.0) && member.1 != MemberRole::Inner ==> {
            &&& gathered(seq![member], ways, Pick::Outer) == seq![ways[member.0]]
            &&& gathered(seq![member], ways, Pick::Inner).len() == 0
        },
{
    reveal_with_fuel(gathered, 3);
    let none = Seq::<Seq<Vertex>>::empty();
    assert(seq![member].drop_last() =~= Seq::<(i64, MemberRole)>::empty());
    assert(none.push(ways[member.0]) =~= seq![ways[member.0]]);
}

proof fn lemma_gathered(
    members: Seq<(i64, MemberRole)>,
    ways: Map<i64, Seq<Vertex>>,
    pick: Pick,
)
    ensures
        gathered(members, ways, pick).len() <= members.len(),
        forall|k: int|
            0 <= k < gathered(members, ways, pick).len() ==> exists|i: int|
                {
                    &&& 0 <= i < members.len()
                    &&& ways.dom().contains((#[trigger] members[i]).0)
                    &&& (#[trigger] gathered(members, ways, pick)[k]) == ways[members[i].0]
                    &&& pick is Inner ==> members[i].1 == MemberRole::Inner
                    &&& pick is Outer ==> members[i].1 != MemberRole::Inner
                },
        forall|i: int|
            0 <= i < members.len() && ways.dom().contains((#[trigger] members[i]).0) && (pick is All
                || (pick is Inner && members[i].1 == MemberRole::Inner) || (pick is Outer
                && members[i].1 != MemberRole::Inner)) ==> gathered(members, ways, pick).contains(
                ways[members[i].0],
            ),
    decreases members.len(),
{
    if members.len() > 0 {
        let rest = members.drop_last();
        let m = members.last();
        lemma_gathered(rest, ways, pick);
        members_count_by_their_role(m, ways);
        gathering_goes_member_by_member(rest, seq![m], ways, pick);
        assert(rest + seq![m] =~= members);
        let before = gathered(rest, ways, pick);
        let new = gathered(seq![m], ways, pick);
        let now = gathered(members, ways, pick);
        assert(now == before + new);
        assert forall|k: int| 0 <= k < now.len() implies exists|i: int|
            {
                &&& 0 <= i < members.len()
                &&& ways.dom().contains((#[trigger] members[i]).0)
                &&& (#[trigger] now[k]) == ways[members[i].0]
                &&& pick is Inner ==> members[i].1 == MemberRole::Inner
                &&& pick is Outer ==> members[i].1 != MemberRole::Inner
            } by {
            if k < before.len() {
                assert(now[k] == before[k]);
                let i = choose|i: int|
                    {
                        &&& 0 <= i < rest.len()
                        &&& ways.dom().contains((#[trigger] rest[i]).0)
                        &&& before[k] == ways[rest[i].0]
                        &&& pick is Inner ==> rest[i].1 == MemberRole::Inner
                        &&& pick is Outer ==> rest[i].1 != MemberRole::Inner
                    };
                assert(members[i] == rest[i]);
            } else {
                assert(members[members.len() - 1] == m);
                assert(now[k] == new[k - before.len()]);
            }
        }
        assert forall|i: int|
            0 <= i < members.len() && ways.dom().contains((#[trigger] members[i]).0) && (pick is All
                || (pick is Inner && members[i].1 == MemberRole::Inner) || (pick is Outer
                && members[i].1 != MemberRole::Inner)) implies now.contains(
            ways[members[i].0],
        ) by {
            if i < rest.len() {
                assert(rest[i] == members[i]);
                let k = before.index_of(ways[members[i].0]);
                assert(now[k] == ways[members[i].0]);
            } else {
                assert(new[0] == ways[m.0]);
                assert(now[before.len() as int] == ways[m.0]);
            }
        }
    }
}

// ── Shapes ──────────────────────────────────────────────────────────────────────────────────

/// The shapes that were built of a relation.
pub open spec fn built(r: RelationGeometry) -> RelationShapes {
    RelationShapes { line: row_of(r.line), point: row_of(r.point), polygon: row_of(r.polygon) }
}

/// A shape that no topic asks for is not built.
pub proof fn only_wanted_shapes_are_built(
    r: RelationGeometry,
    members: Seq<(i64, MemberRole)>,
    ways: Map<i64, Seq<Vertex>>,
    rel_id: i64,
    wanted: Seq<GeometryShape>,
    m: RelationMeasures,
)
    requires
        built(r) == relation_shapes(members, ways, rel_id, wanted, m),
    ensures
        r.line is Some ==> wanted.contains(GeometryShape::Line),
        r.point is Some ==> wanted.contains(GeometryShape::Point),
        r.polygon is Some ==> wanted.contains(GeometryShape::Polygon),
{
}

proof fn lemma_pooled(lists: Seq<Seq<Vertex>>)
    ensures
        pooled(lists).len() > 0 <==> exists|i: int|
            0 <= i < lists.len() && (#[trigger] lists[i]).len() > 0,
    decreases lists.len(),
{
    if lists.len() > 0 {
        let rest = lists.drop_last();
        lemma_pooled(rest);
        if exists|i: int| 0 <= i < lists.len() && (#[trigger] lists[i]).len() > 0 {
            let i = choose|i: int| 0 <= i < lists.len() && (#[trigger] lists[i]).len() > 0;
            if i < rest.len() {
                assert(rest[i] == lists[i]);
            }
        }
        if pooled(lists).len() > 0 {
            if lists.last().len() > 0 {
                assert(lists[lists.len() - 1].len() > 0);
            } else {
                let i = choose|i: int| 0 <= i < rest.len() && (#[trigger] rest[i]).len() > 0;
                assert(lists[i] == rest[i]);
            }
        }
    }
}

/// The point of a relation is the centre that was found, where any known way of it has a vertex.
pub proof fn relation_points_are_centres(
    r: RelationGeometry,
    members: Seq<(i64, MemberRole)>,
    ways: Map<i64, Seq<Vertex>>,
    rel_id: i64,
    wanted: Seq<GeometryShape>,
    m: RelationMeasures,
)
    requires
        built(r) == relation_shapes(members, ways, rel_id, wanted, m),
        wanted.contains(GeometryShape::Point),
    ensures
        r.point is Some <==> m.centroid is Some && exists|i: int|
            0 <= i < members.len() && ways.dom().contains((#[trigger] members[i]).0)
                && ways[members[i].0].len() > 0,
        r.point is Some ==> {
            &&& r.point->0.osm_id == rel_id
            &&& r.point->0.geom_type@ == "Point"@
            &&& r.point->0.length_m is None
            &&& decoded_point(r.point->0.geom_ewkb@) == Ok::<Pt, EwkbError>(m.centroid->0)
        },
{
    let all = gathered(members, ways, Pick::All);
    lemma_pooled(all);
    lemma_gathered(members, ways, Pick::All);
    if exists|k: int| 0 <= k < all.len() && (#[trigger] all[k]).len() > 0 {
        let k = choose|k: int| 0 <= k < all.len() && (#[trigger] all[k]).len() > 0;
        let i = choose|i: int|
            {
                &&& 0 <= i < members.len()
                &&& ways.dom().contains((#[trigger] members[i]).0)
                &&& all[k] == ways[members[i].0]
            };
        assert(ways[members[i].0].len() > 0);
    }
    if exists|i: int|
        0 <= i < members.len() && ways.dom().contains((#[trigger] members[i]).0)
            && ways[members[i].0].len() > 0 {
        let i = choose|i: int|
            0 <= i < members.len() && ways.dom().contains((#[trigger] members[i]).0)
                && ways[members[i].0].len() > 0;
        let k = all.index_of(ways[members[i].0]);
        assert(all[k].len() > 0);
    }
    if m.centroid is Some {
        written_point_is_read(m.centroid->0);
    }
}

proof fn lemma_steps_taken(lists: Seq<Seq<Vertex>>)
    ensures
        step_count(lists) >= 0,
        step_count(lists) > 0 <==> exists|i: int|
            0 <= i < lists.len() && (#[trigger] lists[i]).len() >= 2,
    decreases lists.len(),
{
    if lists.len() > 0 {
        let rest = lists.drop_last();
        lemma_steps_taken(rest);
        if exists|i: int| 0 <= i < lists.len() && (#[trigger] lists[i]).len() >= 2 {
            let i = choose|i: int| 0 <= i < lists.len() && (#[trigger] lists[i]).len() >= 2;
            if i < rest.len() {
                assert(rest[i] == lists[i]);
            }
        }
        if step_count(lists) > 0 {
            if lists.last().len() >= 2 {
                assert(lists[lists.len() - 1].len() >= 2);
            } else {
                let i = choose|i: int| 0 <= i < rest.len() && (#[trigger] rest[i]).len() >= 2;
                assert(lists[i] == rest[i]);
            }
        }
    }
}

/// A relation has a line exactly where one of its known ways, of any role, has two vertices.
pub proof fn relations_with_a_step_have_a_line(
    r: RelationGeometry,
    members: Seq<(i64, MemberRole)>,
    ways: Map<i64, Seq<Vertex>>,
    rel_id: i64,
    wanted: Seq<GeometryShape>,
    m: RelationMeasures,
)
    requires
        built(r) == relation_shapes(members, ways, rel_id, wanted, m),
        wanted.contains(GeometryShape::Line),
    ensures
        r.line is Some <==> exists|i: int|
            0 <= i < members.len() && ways.dom().contains((#[trigger] members[i]).0)
                && ways[members[i].0].len() >= 2,
        r.line is Some ==> {
            &&& r.line->0.osm_id == rel_id
            &&& r.line->0.geom_type@ == "MultiLineString"@
            &&& r.line->0.length_m == Some(m.length_m)
        },
{
    let all = gathered(members, ways, Pick::All);
    lemma_gathered(members, ways, Pick::All);
    lemma_steps_taken(all);
    lemma_steps_taken(assembled(all));
    rings_take_every_step(all);
    lemma_drawable(assembled(all));
    let kept = drawable(assembled(all));
    if kept.len() > 0 {
        assert(kept[0].len() >= 2 && assembled(all).contains(kept[0]));
        let k = assembled(all).index_of(kept[0]);
        assert(assembled(all)[k].len() >= 2);
    }
    if step_count(assembled(all)) > 0 {
        let k = choose|k: int|
            0 <= k < assembled(all).len() && (#[trigger] assembled(all)[k]).len() >= 2;
        assert(kept.contains(assembled(all)[k]));
    }
    if step_count(all) > 0 {
        let k = choose|k: int| 0 <= k < all.len() && (#[trigger] all[k]).len() >= 2;
        let i = choose|i: int|
            {
                &&& 0 <= i < members.len()
                &&& ways.dom().contains((#[trigger] members[i]).0)
                &&& all[k] == ways[members[i].0]
            };
        assert(ways[members[i].0].len() >= 2);
    }
    if exists|i: int|
        0 <= i < members.len() && ways.dom().contains((#[trigger] members[i]).0)
            && ways[members[i].0].len() >= 2 {
        let i = choose|i: int|
            0 <= i < members.len() && ways.dom().contains((#[trigger] members[i]).0)
                && ways[members[i].0].len() >= 2;
        let k = all.index_of(ways[members[i].0]);
        assert(all[k].len() >= 2);
    }
}

/// The area of a relation whose ways are all closed: its outline is one of its ways that are not
/// inner, with as many vertices as any of them, and each of its inner ways is a hole.
pub proof fn inner_ways_are_holes(
    r: RelationGeometry,
    members: Seq<(i64, MemberRole)>,
    ways: Map<i64, Seq<Vertex>>,
    rel_id: i64,
    wanted: Seq<GeometryShape>,
    m: RelationMeasures,
)
    requires
        built(r) == relation_shapes(members, ways, rel_id, wanted, m),
        wanted.contains(GeometryShape::Polygon),
        members.len() < u32::MAX,
        forall|i: int|
            #![trigger members[i]]
            0 <= i < members.len() && ways.dom().contains(members[i].0) ==> {
                &&& is_closed(ways[members[i].0])
                &&& 0 < ways[members[i].0].len() < u32::MAX - 1
            },
    ensures
        r.polygon is Some <==> exists|i: int|
            0 <= i < members.len() && ways.dom().contains((#[trigger] members[i]).0) && members[i].1
                != MemberRole::Inner,
        r.polygon is Some ==> {
            let rings = decoded_rings(r.polygon->0.geom_ewkb@);
            &&& r.polygon->0.osm_id == rel_id
            &&& rings.len() >= 1
            &&& exists|i: int|
                {
                    &&& 0 <= i < members.len()
                    &&& ways.dom().contains((#[trigger] members[i]).0)
                    &&& members[i].1 != MemberRole::Inner
                    &&& is_ring_of(rings[0], ways[members[i].0])
                    &&& forall|l: int|
                        0 <= l < members.len() && ways.dom().contains((#[trigger] members[l]).0)
                            && members[l].1 != MemberRole::Inner ==> ways[members[l].0].len()
                            <= ways[members[i].0].len()
                }
            &&& forall|i: int|
                0 <= i < members.len() && ways.dom().contains((#[trigger] members[i]).0)
                    && members[i].1 == MemberRole::Inner ==> exists|k: int|
                    1 <= k < rings.len() && is_ring_of(#[trigger] rings[k], ways[members[i].0])
            &&& forall|k: int|
                1 <= k < rings.len() ==> exists|i: int|
                    {
                        &&& 0 <= i < members.len()
                        &&& ways.dom().contains((#[trigger] members[i]).0)
                        &&& members[i].1 == MemberRole::Inner
                        &&& is_ring_of(#[trigger] rings[k], ways[members[i].0])
                    }
        },
{
    let outer = gathered(members, ways, Pick::Outer);
    let inner = gathered(members, ways, Pick::Inner);
    lemma_gathered(members, ways, Pick::Outer);
    lemma_gathered(members, ways, Pick::Inner);
    assert forall|k: int| 0 <= k < outer.len() implies is_closed(#[trigger] outer[k]) && 0
        < outer[k].len() < u32::MAX - 1 by {
        let i = choose|i: int|
            {
                &&& 0 <= i < members.len()
                &&& ways.dom().contains((#[trigger] members[i]).0)
                &&& outer[k] == ways[members[i].0]
            };
        assert(is_closed(ways[members[i].0]));
    }
    assert forall|k: int| 0 <= k < inner.len() implies is_closed(#[trigger] inner[k]) && 0
        < inner[k].len() < u32::MAX - 1 by {
        let i = choose|i: int|
            {
                &&& 0 <= i < members.len()
                &&& ways.dom().contains((#[trigger] members[i]).0)
                &&& inner[k] == ways[members[i].0]
            };
        assert(is_closed(ways[members[i].0]));
    }
    closed_ways_stand_alone(outer);
    closed_ways_stand_alone(inner);
    let a = assembled(outer);
    let b = assembled(inner);
    assert forall|k: int| 0 <= k < a.len() implies 0 < (#[trigger] a[k]).len() < u32::MAX - 1 by {
        assert(a[k] == outer[outer.len() - 1 - k]);
    }
    assert forall|k: int| 0 <= k < b.len() implies 0 < (#[trigger] b[k]).len() < u32::MAX - 1 by {
        assert(b[k] == inner[inner.len() - 1 - k]);
    }
    assert(row_of(r.polygon) == relation_area(rel_id, a, b));
    areas_have_a_hole_for_each_inner_ring(r.polygon, rel_id, a, b);
    if outer.len() > 0 {
        assert(exists|i: int|
            0 <= i < members.len() && ways.dom().contains((#[trigger] members[i]).0) && members[i].1
                != MemberRole::Inner) by {
            let first = outer[0];
            let i = choose|i: int|
                {
                    &&& 0 <= i < members.len()
                    &&& ways.dom().contains((#[trigger] members[i]).0)
                    &&& first == ways[members[i].0]
                    &&& members[i].1 != MemberRole::Inner
                };
            assert(ways.dom().contains(members[i].0));
        }
    }
    if r.polygon is Some {
        let rings = decoded_rings(r.polygon->0.geom_ewkb@);
        let x = choose|i: int|
            {
                &&& 0 <= i < a.len()
                &&& is_ring_of(rings[0], #[trigger] a[i])
                &&& forall|j: int| 0 <= j < a.len() ==> (#[trigger] a[j]).len() <= a[i].len()
                &&& forall|j: int| i < j < a.len() ==> (#[trigger] a[j]).len() < a[i].len()
            };
        let drawn = outer[outer.len() - 1 - x];
        assert(a[x] == drawn);
        let own = choose|i: int|
            {
                &&& 0 <= i < members.len()
                &&& ways.dom().contains((#[trigger] members[i]).0)
                &&& drawn == ways[members[i].0]
                &&& members[i].1 != MemberRole::Inner
            };
        assert forall|l: int|
            0 <= l < members.len() && ways.dom().contains((#[trigger] members[l]).0) && members[l].1
                != MemberRole::Inner implies ways[members[l].0].len()
            <= ways[members[own].0].len() by {
            let j = outer.index_of(ways[members[l].0]);
            assert(a[outer.len() - 1 - j] == outer[j]);
        }
        assert(is_ring_of(rings[0], ways[members[own].0]));
        assert forall|i: int|
            0 <= i < members.len() && ways.dom().contains((#[trigger] members[i]).0) && members[i].1
                == MemberRole::Inner implies exists|k: int|
            1 <= k < rings.len() && is_ring_of(#[trigger] rings[k], ways[members[i].0]) by {
            let j = inner.index_of(ways[members[i].0]);
            let y = inner.len() - 1 - j;
            assert(b[y] == inner[j]);
            assert(is_ring_of(rings[1 + y], b[y]));
        }
        assert forall|k: int| 1 <= k < rings.len() implies exists|i: int|
            {
                &&& 0 <= i < members.len()
                &&& ways.dom().contains((#[trigger] members[i]).0)
                &&& members[i].1 == MemberRole::Inner
                &&& is_ring_of(#[trigger] rings[k], ways[members[i].0])
            } by {
            let y = k - 1;
            assert(is_ring_of(rings[1 + y], b[y]));
            let found = inner[inner.len() - 1 - y];
            assert(b[y] == found);
            let i = choose|i: int|
                {
                    &&& 0 <= i < members.len()
                    &&& ways.dom().contains((#[trigger] members[i]).0)
                    &&& found == ways[members[i].0]
                    &&& members[i].1 == MemberRole::Inner
                };
            assert(is_ring_of(rings[k], ways[members[i].0]));
        }
    }
}

/// A way has a line, a point, an area and edges exactly where they are wanted, the point only where a
/// centre was found. Its line has every vertex, its area the one ring that the way is, and its point
/// is the centre.
pub proof fn ways_have_the_wanted_shapes(
    r: WayGeometry,
    way: OsmWay,
    m: WayMeasures,
    ids: Map<i64, i64>,
    plan: GeometryPlan,
)
    requires
        is_way_geometry(r, way, m, ids, plan),
        0 < way.coords@.len() < u32::MAX - 1,
    ensures
        r.edges is Some <==> plan.any_way_graph,
        r.edges matches Some(v) ==> edges(v@) == edges_of(way, m, ids),
        r.line is Some <==> plan.way_shape@.contains(GeometryShape::Line),
        r.point is Some <==> plan.way_shape@.contains(GeometryShape::Point) && m.centroid is Some,
        r.polygon is Some <==> plan.way_shape@.contains(GeometryShape::Polygon),
        r.line matches Some(row) ==> {
            let line = decoded_line(row.geom_ewkb@)->Ok_0;
            &&& row.osm_id == way.id
            &&& row.geom_type@ == "LineString"@
            &&& row.length_m == Some(m.length_m)
            &&& decoded_line(row.geom_ewkb@) is Ok
            &&& line.len() == way.coords@.len()
            &&& forall|j: int|
                0 <= j < way.coords@.len() ==> #[trigger] line[j] == way.coords@[j].point
        },
        r.point matches Some(row) ==> {
            &&& row.osm_id == way.id
            &&& row.geom_type@ == "Point"@
            &&& row.length_m is None
            &&& decoded_point(row.geom_ewkb@) == Ok::<Pt, EwkbError>(m.centroid->0)
        },
        r.polygon matches Some(row) ==> {
            &&& row.osm_id == way.id
            &&& row.geom_type@ == "Polygon"@
            &&& row.length_m is None
            &&& decoded_rings(row.geom_ewkb@).len() == 1
            &&& is_ring_of(decoded_rings(row.geom_ewkb@)[0], way.coords@)
        },
{
    written_line_is_read(points(way.coords@));
    if let Some(row) = r.polygon {
        way_areas_have_one_ring(row, way);
    }
    if m.centroid is Some {
        written_point_is_read(m.centroid->0);
    }
}

// ── Routing ─────────────────────────────────────────────────────────────────────────────────

/// Every row that a topic gets has the shape it asks for.
pub proof fn topics_get_the_shape_they_ask_for(
    requests: Seq<RelationRequest>,
    ways: Map<i64, Seq<Vertex>>,
    wanted: Seq<GeometryShape>,
    measures: Seq<RelationMeasures>,
    topic: u32,
    shape: GeometryShape,
)
    ensures
        forall|j: int|
            0 <= j < routed(requests, ways, wanted, measures, topic, shape).len() ==> (
            #[trigger] routed(requests, ways, wanted, measures, topic, shape)[j]).geom_type
                == match shape {
                GeometryShape::Point => "Point"@,
                GeometryShape::Line => "MultiLineString"@,
                GeometryShape::Polygon => "Polygon"@,
            },
    decreases requests.len(),
{
    if requests.len() > 0 {
        topics_get_the_shape_they_ask_for(
            requests.drop_last(),
            ways,
            wanted,
            measures,
            topic,
            shape,
        );
    }
}

/// A relation that a topic kept and that has the shape has its row, behind those of the relations
/// before it.
pub proof fn kept_relations_have_their_row(
    requests: Seq<RelationRequest>,
    ways: Map<i64, Seq<Vertex>>,
    wanted: Seq<GeometryShape>,
    measures: Seq<RelationMeasures>,
    topic: u32,
    shape: GeometryShape,
    i: int,
    r: RelationGeometry,
    row: Option<GeomRow>,
)
    requires
        0 <= i < requests.len(),
        has_bit(requests[i].mask, topic),
        built(r) == relation_shapes(
            requests[i].members@,
            ways,
            requests[i].rel_id,
            wanted,
            measures[i],
        ),
        shape is Line ==> row == r.line,
        shape is Point ==> row == r.point,
        shape is Polygon ==> row == r.polygon,
        row is Some,
    ensures
        ({
            let before = routed(requests.take(i), ways, wanted, measures, topic, shape).len();
            let rows = routed(requests, ways, wanted, measures, topic, shape);
            before < rows.len() && rows[before as int] == row->0@
        }),
    decreases requests.len(),
{
    if i == requests.len() - 1 {
        assert(requests.take(i) =~= requests.drop_last());
    } else {
        let rest = requests.drop_last();
        kept_relations_have_their_row(rest, ways, wanted, measures, topic, shape, i, r, row);
        assert(rest.take(i) =~= requests.take(i));
    }
}

// ── The plan ────────────────────────────────────────────────────────────────────────────────

/// Whether a list of topics and one of shapes beside it name a topic with a shape.
pub open spec fn names(
    topics: Seq<usize>,
    shapes: Seq<GeometryShape>,
    i: int,
    shape: GeometryShape,
) -> bool {
    exists|j: int| 0 <= j < topics.len() && #[trigger] topics[j] == i && shapes[j] == shape
}

proof fn lemma_names(
    listed: Seq<usize>,
    shapes: Seq<GeometryShape>,
    topics: Seq<GeometryOutput>,
    kind: ElementKind,
    i: int,
    shape: GeometryShape,
)
    requires
        listed.len() == shapes.len(),
        paired(listed, shapes) == wanting(topics, kind, topics.len()),
        0 <= i < topics.len(),
    ensures
        names(listed, shapes, i, shape) <==> shape_for(topics[i], kind) == Some(
            shape,
        ),
{
    let all = wanting(topics, kind, topics.len());
    wanting_topics_are_listed(topics, kind, topics.len());
    if names(listed, shapes, i, shape) {
        let j = choose|j: int|
            0 <= j < listed.len() && #[trigger] listed[j] == i && shapes[j] == shape;
        assert(paired(listed, shapes)[j] == (i, shape));
        assert(all[j] == (i, shape));
    }
    if shape_for(topics[i], kind) == Some(shape) {
        assert(all.contains((i, shape)));
        let j = all.index_of((i, shape));
        assert(paired(listed, shapes)[j] == (i, shape));
        assert(listed[j] == i);
    }
}

/// A plan names each topic with the shape that it asks for of ways, and of relations, and names no
/// other; it has a mark for each topic that asks for a shape of relations, and for each topic whose
/// nodes cut ways.
pub proof fn plans_name_what_topics_ask_for(
    plan: GeometryPlan,
    topics: Seq<GeometryOutput>,
    i: int,
    shape: GeometryShape,
)
    requires
        is_plan(plan, topics),
        0 <= i < topics.len() <= 32,
    ensures
        names(plan.way_geom_topics@, plan.way_shape@, i, shape) <==> topics[i].way == Some(shape),
        names(plan.relation_geom_topics@, plan.relation_shape@, i, shape) <==> topics[i].relation
            == Some(shape),
        plan.node_geom_topics@.contains(i as usize) <==> topics[i].node is Some,
        has_bit(plan.relation_geom_mask, i as u32) <==> topics[i].relation is Some,
        has_bit(plan.node_graph_mask, i as u32) <==> topics[i].node_graph,
        topics[i].way_graph ==> plan.any_way_graph,
        plan.any_way_graph ==> exists|k: int| 0 <= k < topics.len() && (#[trigger] topics[k]).way_graph,
{
    lemma_names(plan.way_geom_topics@, plan.way_shape@, topics, ElementKind::Way, i, shape);
    lemma_names(
        plan.relation_geom_topics@,
        plan.relation_shape@,
        topics,
        ElementKind::Relation,
        i,
        shape,
    );
    let listed = plan.node_geom_topics@;
    let shapes = Seq::new(listed.len(), |j: int| topics[listed[j] as int].node->0);
    if topics[i].node is Some {
        lemma_names(listed, shapes, topics, ElementKind::Node, i, topics[i].node->0);
        let j = choose|j: int|
            0 <= j < listed.len() && #[trigger] listed[j] == i && shapes[j] == topics[i].node->0;
        assert(listed[j] == i as usize);
    }
    if listed.contains(i as usize) {
        let j = listed.index_of(i as usize);
        lemma_names(listed, shapes, topics, ElementKind::Node, i, shapes[j]);
        assert(names(listed, shapes, i, shapes[j]));
    }
    assert(has_bit(plan.node_graph_mask, i as u32) <==> topics[i].node_graph);
}

/// The first topic is the lowest bit of a mask, and each next topic the next higher bit.
pub proof fn topics_are_bits_from_the_lowest(mask: u32, i: u32)
    requires
        i < 31,
    ensures
        has_bit(mask, 0) <==> mask % 2 == 1,
        has_bit(mask, (i + 1) as u32) <==> has_bit(mask / 2, i),
{
    let k = (i + 1) as u32;
    assert((mask & (1u32 << 0u32) != 0) <==> mask % 2 == 1) by (bit_vector);
    assert(i < 31 && k == i + 1 ==> ((mask & (1u32 << k) != 0) <==> ((mask / 2) & (1u32 << i)
        != 0))) by (bit_vector);
}

} // verus!
