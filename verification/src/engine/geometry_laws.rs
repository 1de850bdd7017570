//! What the geometry rows with the map's own nodes say of a way.
use vstd::prelude::*;

use crate::engine::geometry::{geoms, segments, GeomRow};
use crate::geom::builders::{cuts_fit, points, OsmWay, WayMeasures};
use crate::geom::primitives::{decoded_line, written_line_is_read, Pt};

verus! {

/// The line that an edge is drawn as.
pub open spec fn drawn(row: GeomRow) -> Seq<Pt> {
    decoded_line(row.geom_ewkb@)->Ok_0
}

/// A way that is cut at more than two places has one edge for each two cuts that follow each other.
/// The edge runs between the nodes at the two cuts, its line has every vertex of the way from the
/// one cut to the other, in order, and its length is that of the part.
pub proof fn segments_run_from_cut_to_cut(rows: Seq<GeomRow>, way: OsmWay, m: WayMeasures)
    requires
        geoms(rows) == segments(way, m),
        cuts_fit(way),
        way.cut_points@.len() > 2,
        way.coords@.len() <= u32::MAX,
    ensures
        rows.len() == way.cut_points@.len() - 1,
        forall|i: int|
            #![trigger rows[i]]
            0 <= i < rows.len() ==> {
                let a = way.cut_points@[i];
                let b = way.cut_points@[i + 1];
                &&& rows[i].osm_id == way.id
                &&& rows[i].seg_idx == i
                &&& rows[i].start_id == a.1
                &&& rows[i].end_id == b.1
                &&& rows[i].length_m == m.part_lengths@[i]
                &&& rows[i].total_length_m == m.length_m
                &&& decoded_line(rows[i].geom_ewkb@) is Ok
                &&& drawn(rows[i]).len() == b.0 + 1 - a.0
                &&& forall|j: int|
                    0 <= j <= b.0 - a.0 ==> #[trigger] drawn(rows[i])[j] == way.coords@[a.0
                        + j].point
            },
{
    assert(geoms(rows).len() == rows.len());
    assert forall|i: int| 0 <= i < rows.len() implies ({
        let a = way.cut_points@[i];
        let b = way.cut_points@[i + 1];
        &&& (#[trigger] rows[i]).osm_id == way.id
        &&& rows[i].seg_idx == i
        &&& rows[i].start_id == a.1
        &&& rows[i].end_id == b.1
        &&& rows[i].length_m == m.part_lengths@[i]
        &&& rows[i].total_length_m == m.length_m
        &&& decoded_line(rows[i].geom_ewkb@) is Ok
        &&& drawn(rows[i]).len() == b.0 + 1 - a.0
        &&& forall|j: int|
            0 <= j <= b.0 - a.0 ==> #[trigger] drawn(rows[i])[j] == way.coords@[a.0 + j].point
    }) by {
        assert(geoms(rows)[i] == rows[i]@);
        let a = way.cut_points@[i];
        let b = way.cut_points@[i + 1];
        let line = points(way.coords@.subrange(a.0 as int, b.0 + 1));
        written_line_is_read(line);
    }
}

/// Edges of a way that follow each other share the node and the point between them.
pub proof fn segments_share_their_ends(rows: Seq<GeomRow>, way: OsmWay, m: WayMeasures, i: int)
    requires
        geoms(rows) == segments(way, m),
        cuts_fit(way),
        way.cut_points@.len() > 2,
        way.coords@.len() <= u32::MAX,
        0 <= i < rows.len() - 1,
        way.cut_points@[i].0 <= way.cut_points@[i + 1].0 <= way.cut_points@[i + 2].0,
    ensures
        rows[i].end_id == rows[i + 1].start_id,
        drawn(rows[i]).last() == drawn(rows[i + 1]).first(),
{
    segments_run_from_cut_to_cut(rows, way, m);
    let a = way.cut_points@[i];
    let b = way.cut_points@[i + 1];
    assert(drawn(rows[i])[b.0 - a.0] == way.coords@[a.0 + (b.0 - a.0)].point);
    assert(drawn(rows[i + 1])[0] == way.coords@[b.0 + 0].point);
}

/// A way that is cut at no more than its ends is one edge: the whole line of the way, from the node
/// of its first cut to that of its last.
pub proof fn uncut_way_is_one_segment(rows: Seq<GeomRow>, way: OsmWay, m: WayMeasures)
    requires
        geoms(rows) == segments(way, m),
        way.cut_points@.len() <= 2,
        way.coords@.len() <= u32::MAX,
    ensures
        rows.len() == 1,
        rows[0].osm_id == way.id,
        rows[0].seg_idx == 0,
        way.cut_points@.len() > 0 ==> rows[0].start_id == way.cut_points@[0].1 && rows[0].end_id
            == way.cut_points@[way.cut_points@.len() - 1].1,
        way.cut_points@.len() == 0 ==> rows[0].start_id == 0 && rows[0].end_id == 0,
        rows[0].length_m == m.length_m,
        rows[0].total_length_m == m.length_m,
        decoded_line(rows[0].geom_ewkb@) is Ok,
        drawn(rows[0]).len() == way.coords@.len(),
        forall|j: int|
            0 <= j < way.coords@.len() ==> #[trigger] drawn(rows[0])[j] == way.coords@[j].point,
{
    assert(geoms(rows).len() == rows.len());
    assert(geoms(rows)[0] == rows[0]@);
    written_line_is_read(points(way.coords@));
}

} // verus!
