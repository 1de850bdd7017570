//! Rows of one object: the edges, lines, points and polygons of a way, a node or a relation.
//!
//! Lengths and centres are measured by the caller; what is built around them is decided here.
use rustc_hash::FxHashMap;
use vstd::prelude::*;

use crate::geom::primitives::{
    header, line_bytes, multi_bytes, point_bytes, point_to_ewkb, polygon_bytes, polygon_to_ewkb,
    runs, same, same_point, to_ewkb, to_multi_ewkb, Polygon, Pt, Vertex, POINT_TYPE,
};
use crate::geom::relation::{assemble_rings, assembled, is_closed, tracks};
use crate::geom::rows::{EdgeRow, EdgeV, GeomRow, GeomV, NodeRow, NodeV};

verus! {

/// The numbers of the graph's vertices, by node.
pub type NodeIds = FxHashMap<i64, i64>;

/// What the numbers are.
pub uninterp spec fn node_id_map(ids: FxHashMap<i64, i64>) -> Map<i64, i64>;

/// `FxHashMap::get`: the number of a node, where it has one.
#[verifier::external_body]
fn node_id(ids: &NodeIds, node: i64) -> (r: Option<i64>)
    ensures
        r is Some <==> node_id_map(*ids).dom().contains(node),
        r is Some ==> r->0 == node_id_map(*ids)[node],
{
    ids.get(&node).copied()
}

/// A way: its vertices, and where it is cut: the vertex and the node there.
#[derive(Debug)]
pub struct OsmWay {
    pub id: i64,
    pub coords: Vec<Vertex>,
    pub cut_points: Vec<(u32, i64)>,
}

/// What was measured of a way, as bit patterns of doubles: its length, the length of each part
/// between two cuts, and its centre.
#[derive(Debug)]
pub struct WayMeasures {
    pub length_m: u64,
    pub part_lengths: Vec<u64>,
    pub centroid: Option<Pt>,
}

/// The projected points of vertices.
pub open spec fn points(vertices: Seq<Vertex>) -> Seq<Pt> {
    vertices.map_values(|v: Vertex| v.point)
}

/// A ring that ends where it starts: the first vertex is repeated where it does not.
pub open spec fn closed(ring: Seq<Vertex>) -> Seq<Vertex> {
    if is_closed(ring) {
        ring
    } else {
        ring.push(ring[0])
    }
}

/// A projected ring that ends where it starts.
pub open spec fn shut(ring: Seq<Pt>) -> Seq<Pt> {
    if ring.len() == 0 || same(ring.first(), ring.last()) {
        ring
    } else {
        ring.push(ring[0])
    }
}

/// The outline of a ring of vertices: closed on the globe, projected, and closed in the projection.
pub open spec fn outline(ring: Seq<Vertex>) -> Seq<Pt> {
    shut(points(closed(ring)))
}

/// A cut-point can be used: its part lies inside the way.
pub open spec fn cuts_fit(way: OsmWay) -> bool {
    way.cut_points@.len() > 2 ==> forall|i: int|
        0 <= i < way.cut_points@.len() - 1 ==> {
            &&& (#[trigger] way.cut_points@[i]).0 <= way.cut_points@[i + 1].0 + 1
            &&& way.cut_points@[i + 1].0 < way.coords@.len()
        }
}

/// Every cut-point's node has a number.
pub open spec fn cuts_numbered(way: OsmWay, ids: Map<i64, i64>) -> bool {
    forall|i: int|
        0 <= i < way.cut_points@.len() ==> ids.dom().contains((#[trigger] way.cut_points@[i]).1)
}

/// The `i`-th part of a way that is cut inside.
pub open spec fn part(way: OsmWay, m: WayMeasures, ids: Map<i64, i64>, i: int) -> EdgeV {
    let a = way.cut_points@[i];
    let b = way.cut_points@[i + 1];
    EdgeV {
        osm_id: way.id,
        seg_idx: i,
        start_id: ids[a.1],
        end_id: ids[b.1],
        geom_ewkb: line_bytes(points(way.coords@.subrange(a.0 as int, b.0 + 1))),
        length_m: m.part_lengths@[i],
        total_length_m: m.length_m,
        cost: m.part_lengths@[i],
        reverse_cost: m.part_lengths@[i],
    }
}

/// The edges of a way: one for each part between two cuts where it is cut inside, the whole way
/// otherwise.
pub open spec fn edges_of(way: OsmWay, m: WayMeasures, ids: Map<i64, i64>) -> Seq<EdgeV> {
    let cuts = way.cut_points@;
    if cuts.len() > 2 {
        Seq::new((cuts.len() - 1) as nat, |i: int| part(way, m, ids, i))
    } else {
        seq![
            EdgeV {
                osm_id: way.id,
                seg_idx: 0,
                start_id: if cuts.len() == 0 {
                    0
                } else {
                    ids[cuts.first().1]
                },
                end_id: if cuts.len() == 0 {
                    0
                } else {
                    ids[cuts.last().1]
                },
                geom_ewkb: line_bytes(points(way.coords@)),
                length_m: m.length_m,
                total_length_m: m.length_m,
                cost: m.length_m,
                reverse_cost: m.length_m,
            },
        ]
    }
}

/// Every edge of a way carries the way's number and whole length, is numbered by its place, and
/// costs its own length in both directions.
pub proof fn edges_cost_their_length(way: OsmWay, m: WayMeasures, ids: Map<i64, i64>, i: int)
    requires
        0 <= i < edges_of(way, m, ids).len(),
    ensures
        edges_of(way, m, ids)[i].osm_id == way.id,
        edges_of(way, m, ids)[i].seg_idx == i,
        edges_of(way, m, ids)[i].cost == edges_of(way, m, ids)[i].length_m,
        edges_of(way, m, ids)[i].reverse_cost == edges_of(way, m, ids)[i].length_m,
        edges_of(way, m, ids)[i].total_length_m == m.length_m,
{
}

/// Edges begin and end at numbered vertices of the graph.
pub proof fn edges_join_numbered_vertices(way: OsmWay, m: WayMeasures, ids: Map<i64, i64>, i: int)
    requires
        0 <= i < edges_of(way, m, ids).len(),
        way.cut_points@.len() > 0,
        cuts_numbered(way, ids),
    ensures
        ids.values().contains(edges_of(way, m, ids)[i].start_id),
        ids.values().contains(edges_of(way, m, ids)[i].end_id),
{
    let cuts = way.cut_points@;
    let (a, b) = if cuts.len() > 2 {
        (i, i + 1)
    } else {
        (0, cuts.len() - 1)
    };
    assert(ids.dom().contains(cuts[a].1) && ids.dom().contains(cuts[b].1));
}

/// The edges of a list of rows.
pub open spec fn edges(v: Seq<EdgeRow>) -> Seq<EdgeV> {
    v.map_values(|r: EdgeRow| r@)
}

/// A point of an object.
pub open spec fn point_row(osm_id: i64, p: Pt) -> GeomV {
    GeomV {
        osm_id,
        geom_type: "Point"@,
        geom_ewkb: header(POINT_TYPE) + point_bytes(p),
        length_m: None,
    }
}

/// The line of a way.
pub open spec fn line_row(way: OsmWay, length_m: u64) -> GeomV {
    GeomV {
        osm_id: way.id,
        geom_type: "LineString"@,
        geom_ewkb: line_bytes(points(way.coords@)),
        length_m: Some(length_m),
    }
}

/// The area of an object with these rings, the outline first.
pub open spec fn area_row(osm_id: i64, rings: Seq<Seq<Pt>>) -> GeomV {
    GeomV {
        osm_id,
        geom_type: "Polygon"@,
        geom_ewkb: polygon_bytes(rings),
        length_m: None,
    }
}

/// The runs that can be drawn: those of at least two vertices.
pub open spec fn drawable(rings: Seq<Seq<Vertex>>) -> Seq<Seq<Vertex>>
    decreases rings.len(),
{
    if rings.len() == 0 {
        Seq::empty()
    } else {
        let before = drawable(rings.drop_last());
        if rings.last().len() >= 2 {
            before.push(rings.last())
        } else {
            before
        }
    }
}

/// The projected points of several lists.
pub open spec fn all_points(lists: Seq<Seq<Vertex>>) -> Seq<Seq<Pt>> {
    lists.map_values(|l: Seq<Vertex>| points(l))
}

/// The line of a relation: its ways chained, without what cannot be drawn.
pub open spec fn relation_line(
    rel_id: i64,
    members: Seq<Seq<Vertex>>,
    length_m: u64,
) -> Option<GeomV> {
    let lines = drawable(assembled(members));
    if lines.len() == 0 {
        None
    } else {
        Some(
            GeomV {
                osm_id: rel_id,
                geom_type: "MultiLineString"@,
                geom_ewkb: multi_bytes(all_points(lines)),
                length_m: Some(length_m),
            },
        )
    }
}

/// The longest of several rings; of equally long ones the last.
pub open spec fn longest(rings: Seq<Seq<Vertex>>) -> Seq<Vertex>
    decreases rings.len(),
{
    if rings.len() <= 1 {
        rings[0]
    } else {
        let best = longest(rings.drop_last());
        if rings.last().len() >= best.len() {
            rings.last()
        } else {
            best
        }
    }
}

/// The area of a relation: the longest outer ring, with every inner ring as a hole.
pub open spec fn relation_area(
    rel_id: i64,
    outer: Seq<Seq<Vertex>>,
    inner: Seq<Seq<Vertex>>,
) -> Option<GeomV> {
    if outer.len() == 0 {
        None
    } else {
        Some(
            area_row(
                rel_id,
                seq![outline(longest(outer))] + inner.map_values(|r: Seq<Vertex>| outline(r)),
            ),
        )
    }
}

/// All vertices of several ways, one way after the other.
pub open spec fn pooled(members: Seq<Seq<Vertex>>) -> Seq<Vertex>
    decreases members.len(),
{
    if members.len() == 0 {
        Seq::empty()
    } else {
        pooled(members.drop_last()) + members.last()
    }
}

/// The centre of a relation, where any of its ways has a vertex and the centre was found.
pub open spec fn relation_point(
    rel_id: i64,
    members: Seq<Seq<Vertex>>,
    centroid: Option<Pt>,
) -> Option<GeomV> {
    match centroid {
        Some(p) if pooled(members).len() > 0 => Some(point_row(rel_id, p)),
        _ => None,
    }
}

/// A row, as contracts speak of it.
pub open spec fn row_of(r: Option<GeomRow>) -> Option<GeomV> {
    match r {
        Some(row) => Some(row@),
        None => None,
    }
}

/// Of several rings the longest is at least as long as each.
pub proof fn no_ring_is_longer(rings: Seq<Seq<Vertex>>)
    requires
        rings.len() > 0,
    ensures
        rings.contains(longest(rings)),
        forall|i: int| 0 <= i < rings.len() ==> (#[trigger] rings[i]).len() <= longest(rings).len(),
    decreases rings.len(),
{
    if rings.len() > 1 {
        let before = rings.drop_last();
        no_ring_is_longer(before);
        let i = before.index_of(longest(before));
        assert(rings[i] == longest(before));
        assert(rings[rings.len() - 1] == rings.last());
        assert forall|i: int| 0 <= i < rings.len() implies (#[trigger] rings[i]).len() <= longest(
            rings,
        ).len() by {
            if i < rings.len() - 1 {
                assert(before[i] == rings[i]);
            }
        }
    }
}

/// The parts of a cut way carry on where the one before ends: each starts at the vertex the one
/// before ends at.
pub proof fn parts_share_their_ends(way: OsmWay, m: WayMeasures, ids: Map<i64, i64>, i: int)
    requires
        way.cut_points@.len() > 2,
        0 <= i < way.cut_points@.len() - 2,
    ensures
        edges_of(way, m, ids)[i].end_id == edges_of(way, m, ids)[i + 1].start_id,
        edges_of(way, m, ids)[i].seg_idx + 1 == edges_of(way, m, ids)[i + 1].seg_idx,
{
}

/// The projected points of the vertices from `start` up to `end`.
pub fn points_of(vertices: &Vec<Vertex>, start: usize, end: usize) -> (r: Vec<Pt>)
    requires
        start <= end <= vertices@.len(),
    ensures
        r@ == points(vertices@.subrange(start as int, end as int)),
{
    let mut out: Vec<Pt> = Vec::new();
    let mut i: usize = start;
    while i < end
        invariant
            start <= i <= end <= vertices@.len(),
            out@ =~= points(vertices@.subrange(start as int, i as int)),
        decreases end - i,
    {
        out.push(vertices[i].point);
        i = i + 1;
    }
    out
}

/// The projected points of all vertices.
pub fn whole(vertices: &Vec<Vertex>) -> (r: Vec<Pt>)
    ensures
        r@ == points(vertices@),
{
    assert(vertices@.subrange(0, vertices@.len() as int) =~= vertices@);
    points_of(vertices, 0, vertices.len())
}

/// The number of a node that has one.
fn number_of(ids: &NodeIds, node: i64) -> (r: i64)
    requires
        node_id_map(*ids).dom().contains(node),
    ensures
        r == node_id_map(*ids)[node],
{
    match node_id(ids, node) {
        Some(id) => id,
        None => 0,
    }
}

/// Whether a way can be cut where it says: at vertices that it has, and at nodes that have a number.
pub fn can_be_cut(way: &OsmWay, ids: &NodeIds) -> (r: bool)
    ensures
        r == (cuts_fit(*way) && cuts_numbered(*way, node_id_map(*ids))),
{
    let n: usize = way.cut_points.len();
    for i in 0..n
        invariant
            n == way.cut_points@.len(),
            forall|j: int|
                0 <= j < i ==> node_id_map(*ids).dom().contains(
                    (#[trigger] way.cut_points@[j]).1,
                ),
    {
        if node_id(ids, way.cut_points[i].1).is_none() {
            assert(!node_id_map(*ids).dom().contains(way.cut_points@[i as int].1));
            return false;
        }
    }
    if n <= 2 {
        return true;
    }
    for i in 0..n - 1
        invariant
            n == way.cut_points@.len(),
            n > 2,
            forall|j: int|
                0 <= j < i ==> {
                    &&& (#[trigger] way.cut_points@[j]).0 <= way.cut_points@[j + 1].0 + 1
                    &&& way.cut_points@[j + 1].0 < way.coords@.len()
                },
    {
        let from: u32 = way.cut_points[i].0;
        let to: u32 = way.cut_points[i + 1].0;
        if from as u64 > to as u64 + 1 || to as usize >= way.coords.len() {
            assert(way.cut_points@[i as int].0 == from);
            return false;
        }
    }
    true
}

/// Builds the edges of a way.
pub fn build_edges(way: &OsmWay, measures: &WayMeasures, node_ids: &NodeIds) -> (r: Vec<EdgeRow>)
    requires
        cuts_fit(*way),
        cuts_numbered(*way, node_id_map(*node_ids)),
        way.cut_points@.len() > 2 ==> measures.part_lengths@.len() >= way.cut_points@.len() - 1,
    ensures
        edges(r@) == edges_of(*way, *measures, node_id_map(*node_ids)),
{
    let ghost ids = node_id_map(*node_ids);
    let ghost expected = edges_of(*way, *measures, ids);
    let n: usize = way.cut_points.len();
    let mut rows: Vec<EdgeRow> = Vec::new();
    if n > 2 {
        let mut i: usize = 0;
        while i < n - 1
            invariant
                n == way.cut_points@.len(),
                2 < n,
                i <= n - 1,
                cuts_fit(*way),
                cuts_numbered(*way, ids),
                ids == node_id_map(*node_ids),
                measures.part_lengths@.len() >= n - 1,
                expected == edges_of(*way, *measures, ids),
                edges(rows@) == expected.take(i as int),
            decreases n - i,
        {
            let a: (u32, i64) = way.cut_points[i];
            let b: (u32, i64) = way.cut_points[i + 1];
            assert(way.cut_points@[i as int] == a);
            assert(way.cut_points@[i + 1] == b);
            let size: usize = way.coords.len();
            assert(b.0 < size);
            let line: Vec<Pt> = points_of(&way.coords, a.0 as usize, b.0 as usize + 1);
            let length: u64 = measures.part_lengths[i];
            let ghost before = edges(rows@);
            let row: EdgeRow = EdgeRow {
                osm_id: way.id,
                seg_idx: i,
                start_id: number_of(node_ids, a.1),
                end_id: number_of(node_ids, b.1),
                geom_ewkb: to_ewkb(&line),
                length_m: length,
                total_length_m: measures.length_m,
                cost: length,
                reverse_cost: length,
            };
            assert(row@ == part(*way, *measures, ids, i as int));
            rows.push(row);
            assert(edges(rows@) =~= before.push(row@));
            i = i + 1;
            assert(edges(rows@) =~= expected.take(i as int));
        }
        assert(expected.take(i as int) =~= expected);
    } else {
        let mut start_id: i64 = 0;
        let mut end_id: i64 = 0;
        if n > 0 {
            assert(way.cut_points@[0] == way.cut_points@.first());
            assert(way.cut_points@[n - 1] == way.cut_points@.last());
            start_id = number_of(node_ids, way.cut_points[0].1);
            end_id = number_of(node_ids, way.cut_points[n - 1].1);
        }
        let row: EdgeRow = EdgeRow {
            osm_id: way.id,
            seg_idx: 0,
            start_id,
            end_id,
            geom_ewkb: to_ewkb(&whole(&way.coords)),
            length_m: measures.length_m,
            total_length_m: measures.length_m,
            cost: measures.length_m,
            reverse_cost: measures.length_m,
        };
        assert(row@ == expected[0]);
        rows.push(row);
        assert(edges(rows@) =~= expected);
    }
    rows
}

/// Builds the line of a way.
pub fn build_way(way: &OsmWay, length_m: u64) -> (r: GeomRow)
    ensures
        r@ == line_row(*way, length_m),
{
    GeomRow {
        osm_id: way.id,
        geom_type: "LineString",
        geom_ewkb: to_ewkb(&whole(&way.coords)),
        length_m: Some(length_m),
    }
}

/// Builds the row of a vertex of the graph at a projected position.
pub fn build_node_row(id: i64, osm_id: i64, x: u64, y: u64) -> (r: NodeRow)
    ensures
        r@ == (NodeV { id, osm_id, geom_ewkb: header(POINT_TYPE) + point_bytes((x, y)) }),
{
    NodeRow { id, osm_id, geom_ewkb: point_to_ewkb(x, y) }
}

/// Builds the point of a node at a projected position.
pub fn build_node_point_row(osm_id: i64, x: u64, y: u64) -> (r: GeomRow)
    ensures
        r@ == point_row(osm_id, (x, y)),
{
    GeomRow { osm_id, geom_type: "Point", geom_ewkb: point_to_ewkb(x, y), length_m: None }
}

/// Builds the centre of a way, where one was found.
pub fn build_way_point_row(way: &OsmWay, centroid: Option<Pt>) -> (r: Option<GeomRow>)
    ensures
        row_of(r) == match centroid {
            Some(p) => Some(point_row(way.id, p)),
            None => None,
        },
{
    match centroid {
        Some(p) => Some(build_node_point_row(way.id, p.0, p.1)),
        None => None,
    }
}

/// The outline of a ring of vertices.
pub fn project_ring(ring: &Vec<Vertex>) -> (r: Vec<Pt>)
    ensures
        r@ == outline(ring@),
{
    let mut out: Vec<Pt> = whole(ring);
    let n: usize = ring.len();
    if n > 0 && !same_point(ring[0].place, ring[n - 1].place) {
        out.push(ring[0].point);
    }
    assert(out@ =~= points(closed(ring@)));
    let m: usize = out.len();
    if m > 0 && !same_point(out[0], out[m - 1]) {
        let first: Pt = out[0];
        out.push(first);
    }
    out
}

/// Builds the area inside a way.
pub fn build_way_polygon_row(way: &OsmWay) -> (r: GeomRow)
    ensures
        r@ == area_row(way.id, seq![outline(way.coords@)]),
{
    let mut rings: Vec<Vec<Pt>> = Vec::new();
    rings.push(project_ring(&way.coords));
    assert(runs(rings@) =~= seq![outline(way.coords@)]);
    GeomRow {
        osm_id: way.id,
        geom_type: "Polygon",
        geom_ewkb: polygon_to_ewkb(&Polygon { rings }),
        length_m: None,
    }
}

/// The chained ways of a relation, without what cannot be drawn.
pub fn relation_runs(members: Vec<Vec<Vertex>>) -> (r: Vec<Vec<Vertex>>)
    ensures
        tracks(r@) == drawable(assembled(tracks(members@))),
{
    let mut rings: Vec<Vec<Vertex>> = assemble_rings(members);
    let ghost all = tracks(rings@);
    let mut out: Vec<Vec<Vertex>> = Vec::new();
    let ghost mut done: int = 0;
    assert(drawable(all.take(0)) =~= tracks(out@));
    while rings.len() > 0
        invariant
            0 <= done <= all.len(),
            tracks(rings@) == all.skip(done),
            tracks(out@) == drawable(all.take(done)),
        decreases rings@.len(),
    {
        let ghost left = tracks(rings@);
        let ring: Vec<Vertex> = rings.remove(0);
        proof {
            assert(tracks(rings@) =~= left.remove(0));
            assert(left[0] == all[done]);
            assert(ring@ == left[0]);
            assert(all.take(done + 1).drop_last() =~= all.take(done));
            assert(tracks(rings@) =~= all.skip(done + 1));
        }
        let ghost before = tracks(out@);
        if ring.len() >= 2 {
            let ghost last = ring@;
            out.push(ring);
            assert(tracks(out@) =~= before.push(last));
        }
        proof {
            done = done + 1;
        }
    }
    assert(all.take(done) =~= all) by {
        assert(tracks(rings@).len() == 0);
    }
    out
}

fn project_all(lists: &Vec<Vec<Vertex>>) -> (r: Vec<Vec<Pt>>)
    ensures
        runs(r@) == all_points(tracks(lists@)),
{
    let mut out: Vec<Vec<Pt>> = Vec::new();
    let mut i: usize = 0;
    while i < lists.len()
        invariant
            i <= lists@.len(),
            runs(out@) =~= all_points(tracks(lists@)).take(i as int),
        decreases lists.len() - i,
    {
        let line: Vec<Pt> = whole(&lists[i]);
        let ghost before = runs(out@);
        out.push(line);
        proof {
            assert(runs(out@) =~= before.push(line@));
            assert(tracks(lists@)[i as int] == lists@[i as int]@);
            assert(all_points(tracks(lists@))[i as int] == line@);
        }
        i = i + 1;
    }
    assert(all_points(tracks(lists@)).take(i as int) =~= all_points(tracks(lists@)));
    out
}

/// Builds the line of a relation from the vertices of its ways; `length_m` is the length of the
/// chained ways together.
pub fn build_relation_line_row(rel_id: i64, members: Vec<Vec<Vertex>>, length_m: u64) -> (r: Option<
    GeomRow,
>)
    ensures
        row_of(r) == relation_line(rel_id, tracks(members@), length_m),
{
    let lines: Vec<Vec<Vertex>> = relation_runs(members);
    assert(tracks(lines@).len() == lines@.len());
    if lines.len() == 0 {
        return None;
    }
    Some(
        GeomRow {
            osm_id: rel_id,
            geom_type: "MultiLineString",
            geom_ewkb: to_multi_ewkb(&project_all(&lines)),
            length_m: Some(length_m),
        },
    )
}

fn longest_of(rings: &Vec<Vec<Vertex>>) -> (r: usize)
    requires
        rings@.len() > 0,
    ensures
        r < rings@.len(),
        rings@[r as int]@ == longest(tracks(rings@)),
{
    let ghost all = tracks(rings@);
    let mut best: usize = 0;
    let mut i: usize = 1;
    while i < rings.len()
        invariant
            1 <= i <= rings@.len(),
            best < i,
            all == tracks(rings@),
            rings@[best as int]@ == longest(all.take(i as int)),
        decreases rings.len() - i,
    {
        proof {
            assert(all.take(i + 1).drop_last() =~= all.take(i as int));
            assert(all.take(i + 1).last() == rings@[i as int]@);
        }
        if rings[i].len() >= rings[best].len() {
            best = i;
        }
        i = i + 1;
    }
    assert(all.take(i as int) =~= all);
    best
}

/// Builds the area of a relation from its chained outer and inner rings.
pub fn build_relation_polygon_row(
    rel_id: i64,
    outer_rings: &Vec<Vec<Vertex>>,
    inner_rings: &Vec<Vec<Vertex>>,
) -> (r: Option<GeomRow>)
    ensures
        row_of(r) == relation_area(rel_id, tracks(outer_rings@), tracks(inner_rings@)),
{
    assert(tracks(outer_rings@).len() == outer_rings@.len());
    if outer_rings.len() == 0 {
        return None;
    }
    let best: usize = longest_of(outer_rings);
    let mut rings: Vec<Vec<Pt>> = Vec::new();
    rings.push(project_ring(&outer_rings[best]));
    let ghost holes = tracks(inner_rings@).map_values(|r: Seq<Vertex>| outline(r));
    let ghost first = seq![outline(longest(tracks(outer_rings@)))];
    let mut i: usize = 0;
    assert(runs(rings@) =~= first + holes.take(0));
    while i < inner_rings.len()
        invariant
            i <= inner_rings@.len(),
            holes == tracks(inner_rings@).map_values(|r: Seq<Vertex>| outline(r)),
            first.len() == 1,
            runs(rings@) =~= first + holes.take(i as int),
        decreases inner_rings.len() - i,
    {
        let ring: Vec<Pt> = project_ring(&inner_rings[i]);
        assert(holes[i as int] == ring@);
        let ghost before = runs(rings@);
        rings.push(ring);
        assert(runs(rings@) =~= before.push(ring@));
        i = i + 1;
        assert(runs(rings@) =~= first + holes.take(i as int));
    }
    assert(holes.take(i as int) =~= holes);
    Some(
        GeomRow {
            osm_id: rel_id,
            geom_type: "Polygon",
            geom_ewkb: polygon_to_ewkb(&Polygon { rings }),
            length_m: None,
        },
    )
}

/// All vertices of several ways, one way after the other.
pub fn pool(members: &Vec<Vec<Vertex>>) -> (r: Vec<Vertex>)
    ensures
        r@ == pooled(tracks(members@)),
{
    let ghost all = tracks(members@);
    let mut out: Vec<Vertex> = Vec::new();
    let mut i: usize = 0;
    assert(pooled(all.take(0)) =~= Seq::<Vertex>::empty());
    while i < members.len()
        invariant
            i <= members@.len(),
            all == tracks(members@),
            out@ == pooled(all.take(i as int)),
        decreases members.len() - i,
    {
        let way: &Vec<Vertex> = &members[i];
        let ghost before = out@;
        let mut j: usize = 0;
        while j < way.len()
            invariant
                j <= way@.len(),
                out@ =~= before + way@.take(j as int),
            decreases way.len() - j,
        {
            out.push(way[j]);
            j = j + 1;
        }
        proof {
            assert(way@.take(j as int) =~= way@);
            assert(all.take(i + 1).drop_last() =~= all.take(i as int));
            assert(all.take(i + 1).last() == way@);
        }
        i = i + 1;
    }
    assert(all.take(i as int) =~= all);
    out
}

/// Builds the centre of a relation from the vertices of its ways; `centroid` is the centre of all of
/// them together, where one was found.
pub fn build_relation_point_row(
    rel_id: i64,
    members: &Vec<Vec<Vertex>>,
    centroid: Option<Pt>,
) -> (r: Option<GeomRow>)
    ensures
        row_of(r) == relation_point(rel_id, tracks(members@), centroid),
{
    let all: Vec<Vertex> = pool(members);
    if all.len() == 0 {
        return None;
    }
    match centroid {
        Some(p) => Some(build_node_point_row(rel_id, p.0, p.1)),
        None => None,
    }
}

} // verus!
