//! Which shapes of an object are wanted, and all their rows.
use rustc_hash::FxHashMap;
use vstd::prelude::*;

use crate::geom::builders::{
    area_row, build_edges, build_node_point_row, build_relation_line_row, build_relation_point_row,
    build_relation_polygon_row, build_way, build_way_point_row, build_way_polygon_row, cuts_fit,
    cuts_numbered, edges, edges_of, line_row, node_id_map, outline, point_row, relation_area,
    relation_line, relation_point, row_of, NodeIds, OsmWay, WayMeasures,
};
use crate::geom::plan::{has_bit, test_bit, GeometryPlan, GeometryShape};
use crate::geom::primitives::{Pt, Vertex};
use crate::geom::relation::{assemble_rings, assembled, tracks};
use crate::geom::rows::{EdgeRow, EdgeV, GeomRow, GeomV};

verus! {

/// The vertices of ways, by way.
pub type WayCoords = FxHashMap<i64, Vec<Vertex>>;

/// What the vertices are.
pub uninterp spec fn way_map(ways: FxHashMap<i64, Vec<Vertex>>) -> Map<i64, Seq<Vertex>>;

/// `FxHashMap::get`: the vertices of a way, where they are known.
#[verifier::external_body]
fn coords_of(ways: &WayCoords, id: i64) -> (r: Option<&Vec<Vertex>>)
    ensures
        r is Some <==> way_map(*ways).dom().contains(id),
        r is Some ==> r->0@ == way_map(*ways)[id],
{
    ways.get(&id)
}

/// What a way is to a relation.
#[derive(Debug, Clone, Copy, PartialEq, Eq, Structural)]
pub enum MemberRole {
    Outer,
    Inner,
    Other,
}

/// What was measured of a relation, as bit patterns of doubles: the length of its chained ways, and
/// the centre of its vertices.
#[derive(Debug)]
pub struct RelationMeasures {
    pub length_m: u64,
    pub centroid: Option<Pt>,
}

/// The wanted shapes of a way.
#[derive(Debug)]
pub struct WayGeometry {
    pub edges: Option<Vec<EdgeRow>>,
    pub line: Option<GeomRow>,
    pub point: Option<GeomRow>,
    pub polygon: Option<GeomRow>,
}

/// The wanted shapes of a relation.
#[derive(Debug)]
pub struct RelationGeometry {
    pub line: Option<GeomRow>,
    pub point: Option<GeomRow>,
    pub polygon: Option<GeomRow>,
}

/// The wanted shapes of a relation, as contracts speak of them.
pub struct RelationShapes {
    pub line: Option<GeomV>,
    pub point: Option<GeomV>,
    pub polygon: Option<GeomV>,
}

/// A kept relation: its number, its ways and their roles, and the topics that kept it, one bit
/// each.
#[derive(Debug)]
pub struct RelationRequest {
    pub rel_id: i64,
    pub members: Vec<(i64, MemberRole)>,
    pub mask: u32,
}

/// The rows of all relations, one list for each topic that wants any.
#[derive(Debug)]
pub struct RelationGeomBatch {
    pub rows: Vec<Vec<GeomRow>>,
}

/// Which members of a relation count.
#[derive(Debug, Clone, Copy)]
pub enum Pick {
    All,
    Outer,
    Inner,
}

/// Whether a member of a role counts; whatever is not inner is outer.
pub open spec fn picks(pick: Pick, role: MemberRole) -> bool {
    match pick {
        Pick::All => true,
        Pick::Outer => role != MemberRole::Inner,
        Pick::Inner => role == MemberRole::Inner,
    }
}

/// The vertices of the members that count and are known, in order.
pub open spec fn gathered(
    members: Seq<(i64, MemberRole)>,
    ways: Map<i64, Seq<Vertex>>,
    pick: Pick,
) -> Seq<Seq<Vertex>>
    decreases members.len(),
{
    if members.len() == 0 {
        Seq::empty()
    } else {
        let before = gathered(members.drop_last(), ways, pick);
        let (id, role) = members.last();
        if picks(pick, role) && ways.dom().contains(id) {
            before.push(ways[id])
        } else {
            before
        }
    }
}

/// The wanted shapes of a relation.
pub open spec fn relation_shapes(
    members: Seq<(i64, MemberRole)>,
    ways: Map<i64, Seq<Vertex>>,
    rel_id: i64,
    wanted: Seq<GeometryShape>,
    m: RelationMeasures,
) -> RelationShapes {
    let all = gathered(members, ways, Pick::All);
    RelationShapes {
        line: if wanted.contains(GeometryShape::Line) {
            relation_line(rel_id, all, m.length_m)
        } else {
            None
        },
        point: if wanted.contains(GeometryShape::Point) {
            relation_point(rel_id, all, m.centroid)
        } else {
            None
        },
        polygon: if wanted.contains(GeometryShape::Polygon) {
            relation_area(
                rel_id,
                assembled(gathered(members, ways, Pick::Outer)),
                assembled(gathered(members, ways, Pick::Inner)),
            )
        } else {
            None
        },
    }
}

/// The shape a topic asks for, of all shapes of a relation.
pub open spec fn shape_of(g: RelationShapes, shape: GeometryShape) -> Option<GeomV> {
    match shape {
        GeometryShape::Line => g.line,
        GeometryShape::Point => g.point,
        GeometryShape::Polygon => g.polygon,
    }
}

/// The rows of the relations that a topic kept, in the shape it asks for.
pub open spec fn routed(
    requests: Seq<RelationRequest>,
    ways: Map<i64, Seq<Vertex>>,
    wanted: Seq<GeometryShape>,
    measures: Seq<RelationMeasures>,
    topic: u32,
    shape: GeometryShape,
) -> Seq<GeomV>
    decreases requests.len(),
{
    if requests.len() == 0 {
        Seq::empty()
    } else {
        let before = routed(requests.drop_last(), ways, wanted, measures, topic, shape);
        let last = requests.last();
        let shapes = relation_shapes(
            last.members@,
            ways,
            last.rel_id,
            wanted,
            measures[requests.len() - 1],
        );
        match shape_of(shapes, shape) {
            Some(row) if has_bit(last.mask, topic) => before.push(row),
            _ => before,
        }
    }
}

/// The rows of a list.
pub open spec fn rows_of(v: Seq<GeomRow>) -> Seq<GeomV> {
    v.map_values(|r: GeomRow| r@)
}

/// The rows of several lists.
pub open spec fn batch(v: Seq<Vec<GeomRow>>) -> Seq<Seq<GeomV>> {
    v.map_values(|l: Vec<GeomRow>| rows_of(l@))
}

/// Edges, as contracts speak of them.
pub open spec fn edges_in(r: Option<Vec<EdgeRow>>) -> Option<Seq<EdgeV>> {
    match r {
        Some(v) => Some(edges(v@)),
        None => None,
    }
}

/// Whether these are the wanted shapes of a way: its edges where any topic wants the graph, and its
/// line, its centre and its area where a topic wants that shape.
pub open spec fn is_way_geometry(
    r: WayGeometry,
    osm: OsmWay,
    measures: WayMeasures,
    ids: Map<i64, i64>,
    plan: GeometryPlan,
) -> bool {
    &&& edges_in(r.edges) == if plan.any_way_graph {
        Some(edges_of(osm, measures, ids))
    } else {
        None
    }
    &&& row_of(r.line) == if plan.way_shape@.contains(GeometryShape::Line) {
        Some(line_row(osm, measures.length_m))
    } else {
        None
    }
    &&& row_of(r.point) == match measures.centroid {
        Some(p) if plan.way_shape@.contains(GeometryShape::Point) => Some(point_row(osm.id, p)),
        _ => None,
    }
    &&& row_of(r.polygon) == if plan.way_shape@.contains(GeometryShape::Polygon) {
        Some(area_row(osm.id, seq![outline(osm.coords@)]))
    } else {
        None
    }
}

/// No relation that a topic did not keep reaches its rows, and a row carries its relation's number.
pub proof fn rows_belong_to_kept_relations(
    requests: Seq<RelationRequest>,
    ways: Map<i64, Seq<Vertex>>,
    wanted: Seq<GeometryShape>,
    measures: Seq<RelationMeasures>,
    topic: u32,
    shape: GeometryShape,
)
    ensures
        forall|j: int|
            0 <= j < routed(requests, ways, wanted, measures, topic, shape).len() ==> exists|i: int|
                {
                    &&& 0 <= i < requests.len()
                    &&& has_bit((#[trigger] requests[i]).mask, topic)
                    &&& requests[i].rel_id == (#[trigger] routed(
                        requests,
                        ways,
                        wanted,
                        measures,
                        topic,
                        shape,
                    )[j]).osm_id
                },
    decreases requests.len(),
{
    if requests.len() > 0 {
        let first = requests.drop_last();
        rows_belong_to_kept_relations(first, ways, wanted, measures, topic, shape);
        let before = routed(first, ways, wanted, measures, topic, shape);
        let now = routed(requests, ways, wanted, measures, topic, shape);
        assert forall|j: int| 0 <= j < now.len() implies exists|i: int|
            {
                &&& 0 <= i < requests.len()
                &&& has_bit((#[trigger] requests[i]).mask, topic)
                &&& requests[i].rel_id == (#[trigger] now[j]).osm_id
            } by {
            if j < before.len() {
                assert(now[j] == before[j]);
                let i = choose|i: int|
                    {
                        &&& 0 <= i < first.len()
                        &&& has_bit((#[trigger] first[i]).mask, topic)
                        &&& first[i].rel_id == before[j].osm_id
                    };
                assert(requests[i] == first[i]);
            } else {
                assert(requests[requests.len() - 1] == requests.last());
            }
        }
    }
}

fn wants(shapes: &Vec<GeometryShape>, shape: GeometryShape) -> (r: bool)
    ensures
        r == shapes@.contains(shape),
{
    let mut i: usize = 0;
    while i < shapes.len()
        invariant
            i <= shapes@.len(),
            forall|j: int| 0 <= j < i ==> shapes@[j] != shape,
        decreases shapes.len() - i,
    {
        if shapes[i] == shape {
            assert(shapes@[i as int] == shape);
            return true;
        }
        i = i + 1;
    }
    false
}

/// Builds every wanted shape of a way.
pub fn way(
    osm: &OsmWay,
    measures: &WayMeasures,
    node_ids: &NodeIds,
    plan: &GeometryPlan,
) -> (r: WayGeometry)
    requires
        plan.any_way_graph ==> {
            &&& cuts_fit(*osm)
            &&& cuts_numbered(*osm, node_id_map(*node_ids))
            &&& osm.cut_points@.len() > 2 ==> measures.part_lengths@.len() >= osm.cut_points@.len()
                - 1
        },
    ensures
        edges_in(r.edges) == if plan.any_way_graph {
            Some(edges_of(*osm, *measures, node_id_map(*node_ids)))
        } else {
            None
        },
        row_of(r.line) == if plan.way_shape@.contains(GeometryShape::Line) {
            Some(line_row(*osm, measures.length_m))
        } else {
            None
        },
        row_of(r.point) == match measures.centroid {
            Some(p) if plan.way_shape@.contains(GeometryShape::Point) => Some(point_row(osm.id, p)),
            _ => None,
        },
        row_of(r.polygon) == if plan.way_shape@.contains(GeometryShape::Polygon) {
            Some(area_row(osm.id, seq![outline(osm.coords@)]))
        } else {
            None
        },
        is_way_geometry(r, *osm, *measures, node_id_map(*node_ids), *plan),
{
    let edges: Option<Vec<EdgeRow>> = if plan.any_way_graph {
        Some(build_edges(osm, measures, node_ids))
    } else {
        None
    };
    let line: Option<GeomRow> = if wants(&plan.way_shape, GeometryShape::Line) {
        Some(build_way(osm, measures.length_m))
    } else {
        None
    };
    let point: Option<GeomRow> = if wants(&plan.way_shape, GeometryShape::Point) {
        build_way_point_row(osm, measures.centroid)
    } else {
        None
    };
    let polygon: Option<GeomRow> = if wants(&plan.way_shape, GeometryShape::Polygon) {
        Some(build_way_polygon_row(osm))
    } else {
        None
    };
    WayGeometry { edges, line, point, polygon }
}

/// Builds the point of a node at a projected position, where any topic wants one.
pub fn node_point(osm_id: i64, x: u64, y: u64, plan: &GeometryPlan) -> (r: Option<GeomRow>)
    ensures
        row_of(r) == if plan.node_geom_topics@.len() > 0 {
            Some(point_row(osm_id, (x, y)))
        } else {
            None
        },
{
    if plan.node_geom_topics.len() > 0 {
        Some(build_node_point_row(osm_id, x, y))
    } else {
        None
    }
}

fn copy_vertices(v: &Vec<Vertex>) -> (r: Vec<Vertex>)
    ensures
        r@ == v@,
{
    let mut out: Vec<Vertex> = Vec::new();
    let mut i: usize = 0;
    while i < v.len()
        invariant
            i <= v@.len(),
            out@ =~= v@.take(i as int),
        decreases v.len() - i,
    {
        out.push(v[i]);
        i = i + 1;
    }
    assert(v@.take(i as int) =~= v@);
    out
}

/// The vertices of the members that count and are known, in order.
pub fn gather(members: &Vec<(i64, MemberRole)>, way_coords: &WayCoords, pick: Pick) -> (r: Vec<
    Vec<Vertex>,
>)
    ensures
        tracks(r@) == gathered(members@, way_map(*way_coords), pick),
{
    let ghost ways = way_map(*way_coords);
    let mut out: Vec<Vec<Vertex>> = Vec::new();
    let mut i: usize = 0;
    assert(gathered(members@.take(0), ways, pick) =~= tracks(out@));
    while i < members.len()
        invariant
            i <= members@.len(),
            ways == way_map(*way_coords),
            tracks(out@) == gathered(members@.take(i as int), ways, pick),
        decreases members.len() - i,
    {
        let member: (i64, MemberRole) = members[i];
        let counts: bool = match pick {
            Pick::All => true,
            Pick::Outer => member.1 != MemberRole::Inner,
            Pick::Inner => member.1 == MemberRole::Inner,
        };
        proof {
            assert(members@.take(i + 1).drop_last() =~= members@.take(i as int));
            assert(members@.take(i + 1).last() == member);
        }
        let ghost before = tracks(out@);
        if counts {
            if let Some(coords) = coords_of(way_coords, member.0) {
                let copy: Vec<Vertex> = copy_vertices(coords);
                out.push(copy);
                assert(tracks(out@) =~= before.push(copy@));
            }
        }
        i = i + 1;
    }
    assert(members@.take(i as int) =~= members@);
    out
}

/// Builds every wanted shape of a relation from the vertices of its ways.
pub fn relation(
    members: &Vec<(i64, MemberRole)>,
    way_coords: &WayCoords,
    rel_id: i64,
    plan: &GeometryPlan,
    measures: &RelationMeasures,
) -> (r: RelationGeometry)
    ensures
        (RelationShapes {
            line: row_of(r.line),
            point: row_of(r.point),
            polygon: row_of(r.polygon),
        }) == relation_shapes(
            members@,
            way_map(*way_coords),
            rel_id,
            plan.relation_shape@,
            *measures,
        ),
{
    let line: Option<GeomRow> = if wants(&plan.relation_shape, GeometryShape::Line) {
        build_relation_line_row(rel_id, gather(members, way_coords, Pick::All), measures.length_m)
    } else {
        None
    };
    let point: Option<GeomRow> = if wants(&plan.relation_shape, GeometryShape::Point) {
        build_relation_point_row(rel_id, &gather(members, way_coords, Pick::All), measures.centroid)
    } else {
        None
    };
    let polygon: Option<GeomRow> = if wants(&plan.relation_shape, GeometryShape::Polygon) {
        let outer: Vec<Vec<Vertex>> = assemble_rings(gather(members, way_coords, Pick::Outer));
        let inner: Vec<Vec<Vertex>> = assemble_rings(gather(members, way_coords, Pick::Inner));
        build_relation_polygon_row(rel_id, &outer, &inner)
    } else {
        None
    };
    RelationGeometry { line, point, polygon }
}

/// Builds the rows of all kept relations: each topic gets the relations it kept, in the shape it
/// asks for, in the order of the relations.
pub fn relations(
    requests: &Vec<RelationRequest>,
    way_coords: &WayCoords,
    plan: &GeometryPlan,
    measures: &Vec<RelationMeasures>,
) -> (r: RelationGeomBatch)
    requires
        measures@.len() == requests@.len(),
        plan.relation_geom_topics@.len() == plan.relation_shape@.len(),
        forall|i: int|
            0 <= i < plan.relation_geom_topics@.len() ==> #[trigger] plan.relation_geom_topics@[i]
                < 32,
    ensures
        batch(r.rows@) == Seq::new(
            plan.relation_geom_topics@.len(),
            |i: int|
                routed(
                    requests@,
                    way_map(*way_coords),
                    plan.relation_shape@,
                    measures@,
                    plan.relation_geom_topics@[i] as u32,
                    plan.relation_shape@[i],
                ),
        ),
{
    let ghost ways = way_map(*way_coords);
    let n: usize = plan.relation_geom_topics.len();
    let mut rows: Vec<Vec<GeomRow>> = Vec::new();
    let mut i: usize = 0;
    while i < n
        invariant
            i <= n,
            rows@.len() == i,
            forall|t: int| 0 <= t < i ==> rows_of((#[trigger] rows@[t])@) == Seq::<GeomV>::empty(),
        decreases n - i,
    {
        let empty: Vec<GeomRow> = Vec::new();
        assert(rows_of(empty@) =~= Seq::<GeomV>::empty());
        rows.push(empty);
        i = i + 1;
    }
    let mut k: usize = 0;
    while k < requests.len()
        invariant
            k <= requests@.len(),
            measures@.len() == requests@.len(),
            n == plan.relation_geom_topics@.len(),
            n == plan.relation_shape@.len(),
            rows@.len() == n,
            ways == way_map(*way_coords),
            forall|i: int| 0 <= i < n ==> #[trigger] plan.relation_geom_topics@[i] < 32,
            forall|t: int|
                0 <= t < n ==> rows_of((#[trigger] rows@[t])@) == routed(
                    requests@.take(k as int),
                    ways,
                    plan.relation_shape@,
                    measures@,
                    plan.relation_geom_topics@[t] as u32,
                    plan.relation_shape@[t],
                ),
        decreases requests.len() - k,
    {
        let request: &RelationRequest = &requests[k];
        let g: RelationGeometry = relation(
            &request.members,
            way_coords,
            request.rel_id,
            plan,
            &measures[k],
        );
        let ghost shapes = relation_shapes(
            request.members@,
            ways,
            request.rel_id,
            plan.relation_shape@,
            measures@[k as int],
        );
        proof {
            assert(requests@.take(k + 1).drop_last() =~= requests@.take(k as int));
            assert(requests@.take(k + 1).last() == *request);
        }
        let mut t: usize = 0;
        while t < n
            invariant
                t <= n,
                k < requests@.len(),
                *request == requests@[k as int],
                requests@.take(k + 1).drop_last() == requests@.take(k as int),
                requests@.take(k + 1).last() == *request,
                n == plan.relation_geom_topics@.len(),
                n == plan.relation_shape@.len(),
                rows@.len() == n,
                shapes == (RelationShapes {
                    line: row_of(g.line),
                    point: row_of(g.point),
                    polygon: row_of(g.polygon),
                }),
                shapes == relation_shapes(
                    request.members@,
                    ways,
                    request.rel_id,
                    plan.relation_shape@,
                    measures@[k as int],
                ),
                forall|i: int| 0 <= i < n ==> #[trigger] plan.relation_geom_topics@[i] < 32,
                forall|s: int|
                    0 <= s < n ==> rows_of((#[trigger] rows@[s])@) == routed(
                        requests@.take(if s < t {
                            k + 1
                        } else {
                            k as int
                        }),
                        ways,
                        plan.relation_shape@,
                        measures@,
                        plan.relation_geom_topics@[s] as u32,
                        plan.relation_shape@[s],
                    ),
            decreases n - t,
        {
            let topic: usize = plan.relation_geom_topics[t];
            let ghost before = rows@;
            let ghost list = rows_of(rows@[t as int]@);
            if test_bit(request.mask, topic) {
                let row: &Option<GeomRow> = match plan.relation_shape[t] {
                    GeometryShape::Line => &g.line,
                    GeometryShape::Point => &g.point,
                    GeometryShape::Polygon => &g.polygon,
                };
                if let Some(found) = row {
                    let copy: GeomRow = found.copy();
                    let mut mine: Vec<GeomRow> = Vec::new();
                    std::mem::swap(&mut mine, &mut rows[t]);
                    mine.push(copy);
                    assert(rows_of(mine@) =~= list.push(copy@));
                    rows.set(t, mine);
                }
            }
            proof {
                assert(rows_of(rows@[t as int]@) == routed(
                    requests@.take(k + 1),
                    ways,
                    plan.relation_shape@,
                    measures@,
                    plan.relation_geom_topics@[t as int] as u32,
                    plan.relation_shape@[t as int],
                ));
                assert forall|s: int| 0 <= s < n && s != t implies rows@[s] == before[s] by {}
            }
            t = t + 1;
        }
        k = k + 1;
    }
    proof {
        assert(requests@.take(k as int) =~= requests@);
        assert(batch(rows@) =~= Seq::new(
            plan.relation_geom_topics@.len(),
            |i: int|
                routed(
                    requests@,
                    ways,
                    plan.relation_shape@,
                    measures@,
                    plan.relation_geom_topics@[i] as u32,
                    plan.relation_shape@[i],
                ),
        ));
    }
    RelationGeomBatch { rows }
}

} // verus!
