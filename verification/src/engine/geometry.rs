//! The geometry rows of a way and of a node, with the numbers of the map's own nodes.
use vstd::prelude::*;

use crate::geom::builders::{cuts_fit, points, OsmWay, WayMeasures};
use crate::geom::primitives::{
    header, line_bytes, point_bytes, point_to_ewkb, to_ewkb, Pt, POINT_TYPE,
};

verus! {

/// One edge of the graph: the part of a way between two of its nodes.
#[derive(Debug)]
pub struct GeomRow {
    pub osm_id: i64,
    pub seg_idx: usize,
    pub start_id: i64,
    pub end_id: i64,
    pub geom_ewkb: Vec<u8>,
    pub length_m: u64,
    pub total_length_m: u64,
}

/// The line of a way.
#[derive(Debug)]
pub struct WayGeomRow {
    pub osm_id: i64,
    pub geom_ewkb: Vec<u8>,
    pub length_m: u64,
}

/// The point of a node.
#[derive(Debug)]
pub struct NodeGeomRow {
    pub osm_id: i64,
    pub geom_ewkb: Vec<u8>,
}

/// One edge of the graph, as contracts speak of it.
pub struct GeomV {
    pub osm_id: i64,
    pub seg_idx: int,
    pub start_id: i64,
    pub end_id: i64,
    pub geom_ewkb: Seq<u8>,
    pub length_m: u64,
    pub total_length_m: u64,
}

impl GeomRow {
    pub open spec fn view(&self) -> GeomV {
        GeomV {
            osm_id: self.osm_id,
            seg_idx: self.seg_idx as int,
            start_id: self.start_id,
            end_id: self.end_id,
            geom_ewkb: self.geom_ewkb@,
            length_m: self.length_m,
            total_length_m: self.total_length_m,
        }
    }
}

/// The `i`-th part of a way that is cut inside.
pub open spec fn segment(way: OsmWay, m: WayMeasures, i: int) -> GeomV {
    let a = way.cut_points@[i];
    let b = way.cut_points@[i + 1];
    GeomV {
        osm_id: way.id,
        seg_idx: i,
        start_id: a.1,
        end_id: b.1,
        geom_ewkb: line_bytes(points(way.coords@.subrange(a.0 as int, b.0 + 1))),
        length_m: m.part_lengths@[i],
        total_length_m: m.length_m,
    }
}

/// The edges of a way: one for each part between two cuts where it is cut inside, the whole way
/// otherwise.
pub open spec fn segments(way: OsmWay, m: WayMeasures) -> Seq<GeomV> {
    let cuts = way.cut_points@;
    if cuts.len() > 2 {
        Seq::new((cuts.len() - 1) as nat, |i: int| segment(way, m, i))
    } else {
        seq![
            GeomV {
                osm_id: way.id,
                seg_idx: 0,
                start_id: if cuts.len() == 0 {
                    0
                } else {
                    cuts.first().1
                },
                end_id: if cuts.len() == 0 {
                    0
                } else {
                    cuts.last().1
                },
                geom_ewkb: line_bytes(points(way.coords@)),
                length_m: m.length_m,
                total_length_m: m.length_m,
            },
        ]
    }
}

/// Edges, as contracts speak of them.
pub open spec fn geoms(v: Seq<GeomRow>) -> Seq<GeomV> {
    v.map_values(|r: GeomRow| r@)
}

/// Builds the edges of a way.
pub fn build_geom_rows(way: &OsmWay, measures: &WayMeasures) -> (r: Vec<GeomRow>)
    requires
        cuts_fit(*way),
        way.cut_points@.len() > 2 ==> measures.part_lengths@.len() >= way.cut_points@.len() - 1,
    ensures
        geoms(r@) == segments(*way, *measures),
{
    let ghost expected = segments(*way, *measures);
    let n: usize = way.cut_points.len();
    let mut rows: Vec<GeomRow> = Vec::new();
    if n > 2 {
        let mut i: usize = 0;
        while i < n - 1
            invariant
                n == way.cut_points@.len(),
                2 < n,
                i <= n - 1,
                cuts_fit(*way),
                measures.part_lengths@.len() >= n - 1,
                expected == segments(*way, *measures),
                geoms(rows@) == expected.take(i as int),
            decreases n - i,
        {
            let a: (u32, i64) = way.cut_points[i];
            let b: (u32, i64) = way.cut_points[i + 1];
            assert(way.cut_points@[i as int] == a);
            assert(way.cut_points@[i + 1] == b);
            let size: usize = way.coords.len();
            assert(b.0 < size);
            let line: Vec<Pt> = crate::geom::builders::points_of(
                &way.coords,
                a.0 as usize,
                b.0 as usize + 1,
            );
            let ghost before = geoms(rows@);
            let row: GeomRow = GeomRow {
                osm_id: way.id,
                seg_idx: i,
                start_id: a.1,
                end_id: b.1,
                geom_ewkb: to_ewkb(&line),
                length_m: measures.part_lengths[i],
                total_length_m: measures.length_m,
            };
            assert(row@ == segment(*way, *measures, i as int));
            rows.push(row);
            assert(geoms(rows@) =~= before.push(row@));
            i = i + 1;
            assert(geoms(rows@) =~= expected.take(i as int));
        }
        assert(expected.take(i as int) =~= expected);
    } else {
        let mut start_id: i64 = 0;
        let mut end_id: i64 = 0;
        if n > 0 {
            start_id = way.cut_points[0].1;
            end_id = way.cut_points[n - 1].1;
        }
        let row: GeomRow = GeomRow {
            osm_id: way.id,
            seg_idx: 0,
            start_id,
            end_id,
            geom_ewkb: to_ewkb(&crate::geom::builders::whole(&way.coords)),
            length_m: measures.length_m,
            total_length_m: measures.length_m,
        };
        assert(row@ == expected[0]);
        rows.push(row);
        assert(geoms(rows@) =~= expected);
    }
    rows
}

/// Builds the line of a way.
pub fn build_way_geom_row(way: &OsmWay, length_m: u64) -> (r: WayGeomRow)
    ensures
        r.osm_id == way.id,
        r.geom_ewkb@ == line_bytes(points(way.coords@)),
        r.length_m == length_m,
{
    WayGeomRow {
        osm_id: way.id,
        geom_ewkb: to_ewkb(&crate::geom::builders::whole(&way.coords)),
        length_m,
    }
}

/// Builds the point of a node at a projected position.
pub fn build_node_geom_row(id: i64, x: u64, y: u64) -> (r: NodeGeomRow)
    ensures
        r.osm_id == id,
        r.geom_ewkb@ == header(POINT_TYPE) + point_bytes((x, y)),
{
    NodeGeomRow { osm_id: id, geom_ewkb: point_to_ewkb(x, y) }
}

} // verus!
