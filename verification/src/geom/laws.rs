//! What the geometries say: where edges lie, what the rings of an area are, and how the bytes spell
//! it.
use vstd::prelude::*;

use crate::geom::builders::{
    all_points, area_row, closed, cuts_fit, drawable, edges, edges_of, line_row, longest, outline,
    point_row, points, relation_area, relation_line, row_of, OsmWay, WayMeasures,
};
use crate::geom::bytes::{le, lemma_le_len, lemma_number_inside, lemma_spans, number, number_at};
use crate::geom::primitives::{
    countable, counted, decoded_line, decoded_multi, decoded_point, header, lemma_header_len,
    lemma_points_inside, lemma_points_len, line_bytes, member_bytes, multi_bytes, point_bytes,
    points_at, points_bytes, polygon_bytes, rings_bytes, same, written_bundle_is_read,
    written_line_is_read, written_point_is_read, EwkbError, Pt, Vertex, LINE_TYPE, MULTI_LINE_TYPE,
    POINT_TYPE, POLYGON_TYPE,
};
use crate::geom::relation::{assembled, is_closed};
use crate::geom::rows::{
    edge_csv, geom_csv, hex_text, node_csv, EdgeRow, EdgeV, GeomRow, GeomV, NodeV,
};
use crate::lang::filter::{spelled, Spelling};
use crate::text;

verus! {

// ── Bytes ───────────────────────────────────────────────────────────────────────────────────

/// Numbers stand in bytes with the lowest byte first.
pub proof fn low_bytes_come_first(a: u8, b: u8, c: u8, d: u8)
    ensures
        number(seq![a, b, c, d]) == a + 0x100 * b + 0x1_0000 * c + 0x100_0000 * d,
        le(0x12345678, 4) == seq![0x78u8, 0x56u8, 0x34u8, 0x12u8],
{
    reveal_with_fuel(number, 5);
    reveal_with_fuel(le, 5);
    let s = seq![a, b, c, d];
    assert(s.skip(1) =~= seq![b, c, d]);
    assert(s.skip(1).skip(1) =~= seq![c, d]);
    assert(s.skip(1).skip(1).skip(1) =~= seq![d]);
    assert(s.skip(1).skip(1).skip(1).skip(1) =~= Seq::<u8>::empty());
    assert(le(0x12345678, 4) =~= seq![0x78u8, 0x56u8, 0x34u8, 0x12u8]);
}

proof fn lemma_header(shape: u32, low: u8)
    requires
        shape == 0x2000_0000 + low,
    ensures
        header(shape) == seq![1u8, low, 0u8, 0u8, 0x20u8, 0x11u8, 0x0fu8, 0u8, 0u8],
{
    reveal_with_fuel(le, 5);
    assert(header(shape) =~= seq![1u8, low, 0u8, 0u8, 0x20u8, 0x11u8, 0x0fu8, 0u8, 0u8]);
}

/// Every geometry starts with the mark of little-endian bytes, its shape (a point, a line, a polygon
/// or a bundle of lines), and the projection 3857.
pub proof fn geometries_name_their_shape(p: Pt, ps: Seq<Pt>, lines: Seq<Seq<Pt>>)
    ensures
        (header(POINT_TYPE) + point_bytes(p)).take(9) == seq![
            1u8,
            1u8,
            0u8,
            0u8,
            0x20u8,
            0x11u8,
            0x0fu8,
            0u8,
            0u8,
        ],
        line_bytes(ps).take(9) == seq![
            1u8,
            2u8,
            0u8,
            0u8,
            0x20u8,
            0x11u8,
            0x0fu8,
            0u8,
            0u8,
        ],
        polygon_bytes(lines).take(9) == seq![
            1u8,
            3u8,
            0u8,
            0u8,
            0x20u8,
            0x11u8,
            0x0fu8,
            0u8,
            0u8,
        ],
        multi_bytes(lines).take(9) == seq![
            1u8,
            5u8,
            0u8,
            0u8,
            0x20u8,
            0x11u8,
            0x0fu8,
            0u8,
            0u8,
        ],
        member_bytes(ps).take(5) == seq![1u8, 2u8, 0u8, 0u8, 0u8],
{
    lemma_header(POINT_TYPE, 1);
    lemma_header(LINE_TYPE, 2);
    lemma_header(POLYGON_TYPE, 3);
    lemma_header(MULTI_LINE_TYPE, 5);
    assert((header(POINT_TYPE) + point_bytes(p)).take(9) =~= header(POINT_TYPE));
    assert(line_bytes(ps).take(9) =~= header(LINE_TYPE));
    assert(polygon_bytes(lines).take(9) =~= header(POLYGON_TYPE));
    assert(multi_bytes(lines).take(9) =~= header(MULTI_LINE_TYPE));
    reveal_with_fuel(le, 5);
    assert(member_bytes(ps).take(5) =~= seq![1u8, 2u8, 0u8, 0u8, 0u8]);
}

/// A point is its first coordinate followed by its second, eight bytes each, behind the header.
pub proof fn first_coordinate_comes_first(p: Pt)
    ensures
        ({
            let bytes = header(POINT_TYPE) + point_bytes(p);
            &&& bytes.len() == 25
            &&& number_at(bytes, 9, 8) == p.0
            &&& number_at(bytes, 17, 8) == p.1
        }),
{
    let bytes = header(POINT_TYPE) + point_bytes(p);
    let x = le(p.0 as nat, 8);
    let y = le(p.1 as nat, 8);
    lemma_header_len(POINT_TYPE);
    lemma_le_len(p.0 as nat, 8);
    lemma_le_len(p.1 as nat, 8);
    lemma_spans();
    lemma_number_inside(header(POINT_TYPE), p.0 as nat, 8, y);
    assert(header(POINT_TYPE) + x + y =~= bytes);
    lemma_number_inside(header(POINT_TYPE) + x, p.1 as nat, 8, Seq::empty());
    assert(header(POINT_TYPE) + x + y + Seq::<u8>::empty() =~= bytes);
}

// ── Polygons ────────────────────────────────────────────────────────────────────────────────

/// The `n` rings that bytes from `at` on spell: each the number of its points and the points.
pub open spec fn rings_at(bytes: Seq<u8>, at: int, n: nat) -> Seq<Seq<Pt>>
    decreases n,
{
    if n == 0 {
        Seq::empty()
    } else {
        let k = number_at(bytes, at, 4);
        seq![points_at(bytes, at + 4, k)] + rings_at(bytes, at + 4 + 16 * k, (n - 1) as nat)
    }
}

/// The rings that the bytes of a polygon spell, the outline first.
pub open spec fn decoded_rings(bytes: Seq<u8>) -> Seq<Seq<Pt>> {
    rings_at(bytes, 13, number_at(bytes, 9, 4))
}

proof fn lemma_rings_front(rings: Seq<Seq<Pt>>)
    requires
        rings.len() > 0,
    ensures
        rings_bytes(rings) == counted(rings[0]) + rings_bytes(rings.skip(1)),
    decreases rings.len(),
{
    if rings.len() == 1 {
        assert(rings.drop_last() =~= Seq::<Seq<Pt>>::empty());
        assert(rings.skip(1) =~= Seq::<Seq<Pt>>::empty());
        assert(rings_bytes(rings) =~= counted(rings[0]) + rings_bytes(rings.skip(1)));
    } else {
        lemma_rings_front(rings.drop_last());
        assert(rings.drop_last().skip(1) =~= rings.skip(1).drop_last());
        assert(rings_bytes(rings) =~= counted(rings[0]) + rings_bytes(rings.skip(1)));
    }
}

proof fn lemma_rings_inside(before: Seq<u8>, rings: Seq<Seq<Pt>>)
    requires
        countable(rings),
    ensures
        rings_at(before + rings_bytes(rings), before.len() as int, rings.len()) == rings,
    decreases rings.len(),
{
    if rings.len() > 0 {
        let ring = rings[0];
        let rest = rings.skip(1);
        let bytes = before + rings_bytes(rings);
        let count = le(ring.len(), 4);
        let tail = rings_bytes(rest);
        lemma_rings_front(rings);
        lemma_le_len(ring.len(), 4);
        lemma_points_len(ring);
        lemma_spans();
        assert(ring.len() <= u32::MAX);
        lemma_number_inside(before, ring.len(), 4, points_bytes(ring) + tail);
        assert(before + count + (points_bytes(ring) + tail) =~= bytes);
        lemma_points_inside(before + count, ring, tail);
        assert(before + count + points_bytes(ring) + tail =~= bytes);
        assert forall|i: int| 0 <= i < rest.len() implies (#[trigger] rest[i]).len()
            <= u32::MAX by {
            assert(rest[i] == rings[i + 1]);
        }
        lemma_rings_inside(before + counted(ring), rest);
        assert(before + counted(ring) + tail =~= bytes);
        assert(seq![ring] + rest =~= rings);
    } else {
        assert(rings =~= Seq::<Seq<Pt>>::empty());
    }
}

/// The rings that were written are read back, and the bytes behind the header count them.
pub proof fn written_rings_are_read(rings: Seq<Seq<Pt>>)
    requires
        countable(rings),
    ensures
        number_at(polygon_bytes(rings), 9, 4) == rings.len(),
        decoded_rings(polygon_bytes(rings)) == rings,
{
    let head = header(POLYGON_TYPE);
    let count = le(rings.len(), 4);
    lemma_header_len(POLYGON_TYPE);
    lemma_le_len(rings.len(), 4);
    lemma_spans();
    lemma_number_inside(head, rings.len(), 4, rings_bytes(rings));
    lemma_rings_inside(head + count, rings);
}

// ── Edges ───────────────────────────────────────────────────────────────────────────────────

/// The points of lines that share their ends, each shared end once.
pub open spec fn chained(lines: Seq<Seq<Pt>>) -> Seq<Pt>
    decreases lines.len(),
{
    if lines.len() == 0 {
        Seq::empty()
    } else if lines.len() == 1 {
        lines[0]
    } else {
        chained(lines.drop_last()) + lines.last().skip(1)
    }
}

/// The line that an edge is drawn as.
pub open spec fn drawn(row: EdgeRow) -> Seq<Pt> {
    decoded_line(row.geom_ewkb@)->Ok_0
}

/// A way that is cut at more than two places has one edge for each two cuts that follow each other.
/// The edge runs between the vertices of the graph at the two cuts, its line has every vertex of the
/// way from the one cut to the other, in order, and its length is that of the part.
pub proof fn edges_run_from_cut_to_cut(
    rows: Seq<EdgeRow>,
    way: OsmWay,
    m: WayMeasures,
    ids: Map<i64, i64>,
)
    requires
        edges(rows) == edges_of(way, m, ids),
        cuts_fit(way),
        way.cut_points@.len() > 2,
        way.coords@.len() <= u32::MAX,
    ensures
        rows.len() == way.cut_points@.len() - 1,
        forall|i: int|
            #![trigger rows[i]]
            0 <= i < rows.len() ==> {
                let a = way.cut_points@[i];
                let b = way.cut_points@[i + 1];
                &&& rows[i].osm_id == way.id
                &&& rows[i].seg_idx == i
                &&& rows[i].start_id == ids[a.1]
                &&& rows[i].end_id == ids[b.1]
                &&& rows[i].length_m == m.part_lengths@[i]
                &&& rows[i].cost == m.part_lengths@[i]
                &&& rows[i].reverse_cost == m.part_lengths@[i]
                &&& rows[i].total_length_m == m.length_m
                &&& decoded_line(rows[i].geom_ewkb@) is Ok
                &&& drawn(rows[i]).len() == b.0 + 1 - a.0
                &&& forall|j: int|
                    0 <= j <= b.0 - a.0 ==> #[trigger] drawn(rows[i])[j] == way.coords@[a.0
                        + j].point
            },
{
    assert(edges(rows).len() == rows.len());
    assert forall|i: int| 0 <= i < rows.len() implies ({
        let a = way.cut_points@[i];
        let b = way.cut_points@[i + 1];
        &&& (#[trigger] rows[i]).osm_id == way.id
        &&& rows[i].seg_idx == i
        &&& rows[i].start_id == ids[a.1]
        &&& rows[i].end_id == ids[b.1]
        &&& rows[i].length_m == m.part_lengths@[i]
        &&& rows[i].cost == m.part_lengths@[i]
        &&& rows[i].reverse_cost == m.part_lengths@[i]
        &&& rows[i].total_length_m == m.length_m
        &&& decoded_line(rows[i].geom_ewkb@) is Ok
        &&& drawn(rows[i]).len() == b.0 + 1 - a.0
        &&& forall|j: int|
            0 <= j <= b.0 - a.0 ==> #[trigger] drawn(rows[i])[j] == way.coords@[a.0 + j].point
    }) by {
        assert(edges(rows)[i] == rows[i]@);
        let a = way.cut_points@[i];
        let b = way.cut_points@[i + 1];
        let line = points(way.coords@.subrange(a.0 as int, b.0 + 1));
        written_line_is_read(line);
    }
}

/// The edges of a way whose cuts follow its direction carry on where the one before ends, and their
/// lines joined at the shared points are the line of the way from its first cut to its last.
pub proof fn edges_make_up_the_way(
    rows: Seq<EdgeRow>,
    way: OsmWay,
    m: WayMeasures,
    ids: Map<i64, i64>,
)
    requires
        edges(rows) == edges_of(way, m, ids),
        cuts_fit(way),
        way.cut_points@.len() > 2,
        way.coords@.len() <= u32::MAX,
        forall|i: int, j: int|
            0 <= i <= j < way.cut_points@.len() ==> (#[trigger] way.cut_points@[i]).0 <= (
            #[trigger] way.cut_points@[j]).0,
    ensures
        forall|i: int|
            0 <= i < rows.len() - 1 ==> {
                &&& (#[trigger] rows[i]).end_id == rows[i + 1].start_id
                &&& drawn(rows[i]).last() == drawn(rows[i + 1]).first()
            },
        ({
            let from = way.cut_points@.first().0;
            let all = chained(rows.map_values(|r: EdgeRow| drawn(r)));
            &&& all.len() == way.cut_points@.last().0 - from + 1
            &&& forall|j: int| 0 <= j < all.len() ==> #[trigger] all[j] == way.coords@[from
                + j].point
        }),
{
    edges_run_from_cut_to_cut(rows, way, m, ids);
    assert forall|i: int| 0 <= i < rows.len() - 1 implies {
        &&& (#[trigger] rows[i]).end_id == rows[i + 1].start_id
        &&& drawn(rows[i]).last() == drawn(rows[i + 1]).first()
    } by {
        let a = way.cut_points@[i];
        let b = way.cut_points@[i + 1];
        let next = rows[i + 1];
        assert(drawn(rows[i])[b.0 - a.0] == way.coords@[a.0 + (b.0 - a.0)].point);
        assert(drawn(next)[0] == way.coords@[b.0 + 0].point);
    }
    lemma_chained(rows, way, m, ids, rows.len() as int);
    assert(rows.take(rows.len() as int) =~= rows);
}

proof fn lemma_chained(
    rows: Seq<EdgeRow>,
    way: OsmWay,
    m: WayMeasures,
    ids: Map<i64, i64>,
    n: int,
)
    requires
        edges(rows) == edges_of(way, m, ids),
        cuts_fit(way),
        way.cut_points@.len() > 2,
        way.coords@.len() <= u32::MAX,
        1 <= n <= rows.len(),
        forall|i: int, j: int|
            0 <= i <= j < way.cut_points@.len() ==> (#[trigger] way.cut_points@[i]).0 <= (
            #[trigger] way.cut_points@[j]).0,
    ensures
        ({
            let from = way.cut_points@.first().0;
            let all = chained(rows.take(n).map_values(|r: EdgeRow| drawn(r)));
            &&& way.cut_points@[n].0 >= from
            &&& all.len() == way.cut_points@[n].0 - from + 1
            &&& forall|j: int| 0 <= j < all.len() ==> #[trigger] all[j] == way.coords@[from
                + j].point
        }),
    decreases n,
{
    edges_run_from_cut_to_cut(rows, way, m, ids);
    let lines = rows.take(n).map_values(|r: EdgeRow| drawn(r));
    let from = way.cut_points@.first().0;
    assert(lines.last() == drawn(rows[n - 1]));
    assert(way.cut_points@[n - 1].0 <= way.cut_points@[n].0);
    if n > 1 {
        lemma_chained(rows, way, m, ids, n - 1);
        assert(lines.drop_last() =~= rows.take(n - 1).map_values(|r: EdgeRow| drawn(r)));
        let before = chained(lines.drop_last());
        let all = chained(lines);
        let a = way.cut_points@[n - 1].0;
        assert(all =~= before + lines.last().skip(1));
        assert forall|j: int| 0 <= j < all.len() implies #[trigger] all[j] == way.coords@[from
            + j].point by {
            if j >= before.len() {
                let k = j - before.len() + 1;
                assert(all[j] == drawn(rows[n - 1])[k]);
                assert(a + k == from + j);
            }
        }
    } else {
        assert(lines[0] == drawn(rows[0]));
    }
}

/// A way that is cut at no more than its ends is one edge: the whole line of the way, from the vertex
/// of its first cut to that of its last.
pub proof fn uncut_way_is_one_edge(
    rows: Seq<EdgeRow>,
    way: OsmWay,
    m: WayMeasures,
    ids: Map<i64, i64>,
)
    requires
        edges(rows) == edges_of(way, m, ids),
        way.cut_points@.len() <= 2,
        way.coords@.len() <= u32::MAX,
    ensures
        rows.len() == 1,
        rows[0].osm_id == way.id,
        rows[0].seg_idx == 0,
        way.cut_points@.len() > 0 ==> rows[0].start_id == ids[way.cut_points@[0].1],
        way.cut_points@.len() > 0 ==> rows[0].end_id == ids[way.cut_points@[way.cut_points@.len()
            - 1].1],
        way.cut_points@.len() == 0 ==> rows[0].start_id == 0 && rows[0].end_id == 0,
        rows[0].length_m == m.length_m,
        rows[0].total_length_m == m.length_m,
        rows[0].cost == m.length_m,
        rows[0].reverse_cost == m.length_m,
        decoded_line(rows[0].geom_ewkb@) is Ok,
        drawn(rows[0]).len() == way.coords@.len(),
        forall|j: int|
            0 <= j < way.coords@.len() ==> #[trigger] drawn(rows[0])[j] == way.coords@[j].point,
{
    assert(edges(rows).len() == rows.len());
    assert(edges(rows)[0] == rows[0]@);
    written_line_is_read(points(way.coords@));
}

// ── Lines and points ────────────────────────────────────────────────────────────────────────

/// The line of a way has every vertex of the way, in order.
pub proof fn line_has_every_vertex(row: GeomRow, way: OsmWay, length_m: u64)
    requires
        row@ == line_row(way, length_m),
        way.coords@.len() <= u32::MAX,
    ensures
        row.osm_id == way.id,
        row.geom_type@ == "LineString"@,
        row.length_m == Some(length_m),
        decoded_line(row.geom_ewkb@) is Ok,
        decoded_line(row.geom_ewkb@)->Ok_0.len() == way.coords@.len(),
        forall|j: int|
            0 <= j < way.coords@.len() ==> #[trigger] decoded_line(row.geom_ewkb@)->Ok_0[j]
                == way.coords@[j].point,
{
    written_line_is_read(points(way.coords@));
}

/// The point of an object is read back as it was given, and has no length.
pub proof fn point_is_read_back(row: GeomRow, osm_id: i64, p: Pt)
    requires
        row@ == point_row(osm_id, p),
    ensures
        row.osm_id == osm_id,
        row.geom_type@ == "Point"@,
        row.length_m is None,
        decoded_point(row.geom_ewkb@) == Ok::<Pt, EwkbError>(p),
{
    written_point_is_read(p);
}

/// The line of a relation is a bundle of lines with at least two points each. Each is one of the
/// chains of the member ways, and every chain of two vertices or more is drawn.
pub proof fn relation_lines_are_chains(
    r: Option<GeomRow>,
    rel_id: i64,
    members: Seq<Seq<Vertex>>,
    length_m: u64,
)
    requires
        row_of(r) == relation_line(rel_id, members, length_m),
        assembled(members).len() <= u32::MAX,
        forall|i: int|
            0 <= i < assembled(members).len() ==> (#[trigger] assembled(members)[i]).len()
                <= u32::MAX,
    ensures
        r is Some <==> exists|i: int|
            0 <= i < assembled(members).len() && (#[trigger] assembled(members)[i]).len() >= 2,
        r is Some ==> {
            let lines = decoded_multi(r->0.geom_ewkb@)->Ok_0;
            &&& r->0.osm_id == rel_id
            &&& r->0.geom_type@ == "MultiLineString"@
            &&& r->0.length_m == Some(length_m)
            &&& decoded_multi(r->0.geom_ewkb@) is Ok
            &&& forall|k: int|
                0 <= k < lines.len() ==> (#[trigger] lines[k]).len() >= 2 && exists|i: int|
                    0 <= i < assembled(members).len() && lines[k] == points(
                        #[trigger] assembled(members)[i],
                    )
            &&& forall|i: int|
                0 <= i < assembled(members).len() && (#[trigger] assembled(members)[i]).len() >= 2
                    ==> lines.contains(points(assembled(members)[i]))
        },
{
    let chains = assembled(members);
    let kept = drawable(chains);
    lemma_drawable(chains);
    let lines = all_points(kept);
    assert forall|k: int| 0 <= k < kept.len() implies (#[trigger] lines[k]).len() <= u32::MAX by {
        assert(chains.contains(kept[k]));
        let i = chains.index_of(kept[k]);
        assert(chains[i].len() <= u32::MAX);
    }
    assert(kept.len() <= chains.len());
    written_bundle_is_read(lines);
    if kept.len() > 0 {
        assert(chains.contains(kept[0]));
        let i = chains.index_of(kept[0]);
        assert(chains[i].len() >= 2);
    }
    if exists|i: int| 0 <= i < chains.len() && (#[trigger] chains[i]).len() >= 2 {
        let i = choose|i: int| 0 <= i < chains.len() && (#[trigger] chains[i]).len() >= 2;
        assert(kept.contains(chains[i]));
    }
    if r is Some {
        assert forall|k: int| 0 <= k < lines.len() implies (#[trigger] lines[k]).len() >= 2
            && exists|i: int| 0 <= i < chains.len() && lines[k] == points(#[trigger] chains[i]) by {
            assert(chains.contains(kept[k]));
            let i = chains.index_of(kept[k]);
            assert(lines[k] == points(chains[i]));
        }
        assert forall|i: int|
            0 <= i < chains.len() && (#[trigger] chains[i]).len() >= 2 implies lines.contains(
            points(chains[i]),
        ) by {
            let k = kept.index_of(chains[i]);
            assert(lines[k] == points(chains[i]));
        }
    }
}

pub proof fn lemma_drawable(rings: Seq<Seq<Vertex>>)
    ensures
        drawable(rings).len() <= rings.len(),
        forall|k: int|
            0 <= k < drawable(rings).len() ==> (
            #[trigger] drawable(rings)[k]).len() >= 2 && rings.contains(
                drawable(rings)[k],
            ),
        forall|i: int|
            0 <= i < rings.len() && (#[trigger] rings[i]).len() >= 2
                ==> drawable(rings).contains(rings[i]),
    decreases rings.len(),
{
    if rings.len() > 0 {
        let rest = rings.drop_last();
        lemma_drawable(rest);
        let before = drawable(rest);
        let now = drawable(rings);
        assert forall|k: int| 0 <= k < now.len() implies (#[trigger] now[k]).len() >= 2
            && rings.contains(now[k]) by {
            if k < before.len() {
                assert(now[k] == before[k]);
                let i = rest.index_of(before[k]);
                assert(rings[i] == before[k]);
            } else {
                assert(rings[rings.len() - 1] == now[k]);
            }
        }
        assert forall|i: int| 0 <= i < rings.len() && (#[trigger] rings[i]).len() >= 2 implies now.contains(
            rings[i],
        ) by {
            if i < rest.len() {
                assert(rest[i] == rings[i]);
                let k = before.index_of(rings[i]);
                assert(now[k] == rings[i]);
            } else {
                assert(now[before.len() as int] == rings[i]);
            }
        }
    }
}

// ── Areas ───────────────────────────────────────────────────────────────────────────────────

/// Whether `drawn` is the ring of the vertices `ring`, closed: every vertex in order, and behind the
/// last one nothing but the first again, where the ring does not end where it starts.
pub open spec fn is_ring_of(drawn: Seq<Pt>, ring: Seq<Vertex>) -> bool {
    &&& ring.len() <= drawn.len() <= ring.len() + 2
    &&& forall|j: int| 0 <= j < ring.len() ==> #[trigger] drawn[j] == ring[j].point
    &&& forall|j: int| ring.len() <= j < drawn.len() ==> #[trigger] drawn[j] == ring[0].point
    &&& ring.len() > 0 ==> same(drawn.first(), drawn.last()) || drawn.first() == drawn.last()
    &&& is_closed(ring) && ring.len() > 0 && same(ring.first().point, ring.last().point)
        ==> drawn.len() == ring.len()
}

proof fn lemma_outline(ring: Seq<Vertex>)
    ensures
        ring.len() > 0 ==> is_ring_of(outline(ring), ring),
        ring.len() == 0 ==> outline(ring).len() == 0,
{
    let c = closed(ring);
    let p = points(c);
    if ring.len() > 0 {
        assert(c[0] == ring[0]);
        assert(outline(ring)[0] == ring[0].point);
    }
}

proof fn lemma_longest(rings: Seq<Seq<Vertex>>) -> (i: int)
    requires
        rings.len() > 0,
    ensures
        0 <= i < rings.len(),
        rings[i] == longest(rings),
        forall|j: int| 0 <= j < rings.len() ==> (#[trigger] rings[j]).len() <= rings[i].len(),
        forall|j: int| i < j < rings.len() ==> (#[trigger] rings[j]).len() < rings[i].len(),
    decreases rings.len(),
{
    if rings.len() == 1 {
        0
    } else {
        let before = rings.drop_last();
        let k = lemma_longest(before);
        let n = rings.len() - 1;
        assert(rings[n] == rings.last());
        assert forall|j: int| 0 <= j < n implies (#[trigger] rings[j]).len() <= before[k].len() by {
            assert(rings[j] == before[j]);
        }
        if rings.last().len() >= before[k].len() {
            n
        } else {
            assert forall|j: int| k < j < rings.len() implies (#[trigger] rings[j]).len()
                < rings[k].len() by {
                if j < n {
                    assert(rings[j] == before[j]);
                }
            }
            k
        }
    }
}

/// A relation with an outer ring has an area: one outline, which is an outer ring that no other
/// outer ring has more vertices than, the last of those there are, and behind it exactly one hole
/// for each inner ring, in order.
/// The bytes count the rings.
pub proof fn areas_have_a_hole_for_each_inner_ring(
    r: Option<GeomRow>,
    rel_id: i64,
    outer: Seq<Seq<Vertex>>,
    inner: Seq<Seq<Vertex>>,
)
    requires
        row_of(r) == relation_area(rel_id, outer, inner),
        inner.len() < u32::MAX,
        forall|i: int| 0 <= i < outer.len() ==> 0 < (#[trigger] outer[i]).len() < u32::MAX - 1,
        forall|i: int| 0 <= i < inner.len() ==> 0 < (#[trigger] inner[i]).len() < u32::MAX - 1,
    ensures
        r is Some <==> outer.len() > 0,
        r is Some ==> {
            let rings = decoded_rings(r->0.geom_ewkb@);
            &&& r->0.osm_id == rel_id
            &&& r->0.geom_type@ == "Polygon"@
            &&& r->0.length_m is None
            &&& number_at(r->0.geom_ewkb@, 9, 4) == 1 + inner.len()
            &&& rings.len() == 1 + inner.len()
            &&& exists|i: int|
                {
                    &&& 0 <= i < outer.len()
                    &&& is_ring_of(rings[0], #[trigger] outer[i])
                    &&& forall|j: int|
                        0 <= j < outer.len() ==> (#[trigger] outer[j]).len() <= outer[i].len()
                    &&& forall|j: int|
                        i < j < outer.len() ==> (#[trigger] outer[j]).len() < outer[i].len()
                }
            &&& forall|k: int|
                0 <= k < inner.len() ==> is_ring_of(rings[1 + k], #[trigger] inner[k])
        },
{
    if outer.len() > 0 {
        let all = seq![outline(longest(outer))] + inner.map_values(
            |r: Seq<Vertex>| outline(r),
        );
        let i = lemma_longest(outer);
        lemma_outline(outer[i]);
        assert forall|k: int| 0 <= k < inner.len() implies is_ring_of(
            all[1 + k],
            #[trigger] inner[k],
        ) by {
            lemma_outline(inner[k]);
        }
        assert forall|k: int| 0 <= k < all.len() implies (#[trigger] all[k]).len() <= u32::MAX by {
            if k > 0 {
                assert(is_ring_of(all[1 + (k - 1)], inner[k - 1]));
            }
        }
        written_rings_are_read(all);
        assert(is_ring_of(all[0], outer[i]));
    }
}

/// The area inside a way has one ring, that of the way.
pub proof fn way_areas_have_one_ring(row: GeomRow, way: OsmWay)
    requires
        row@ == area_row(way.id, seq![outline(way.coords@)]),
        0 < way.coords@.len() < u32::MAX - 1,
    ensures
        row.osm_id == way.id,
        row.geom_type@ == "Polygon"@,
        row.length_m is None,
        decoded_rings(row.geom_ewkb@).len() == 1,
        is_ring_of(decoded_rings(row.geom_ewkb@)[0], way.coords@),
{
    lemma_outline(way.coords@);
    written_rings_are_read(seq![outline(way.coords@)]);
}

// ── Columns ─────────────────────────────────────────────────────────────────────────────────

/// A line of edges holds, in order: the way and the place of the edge in it, where the edge begins and
/// ends, its geometry, its length and that of the way, and what it costs in both directions.
pub proof fn edge_lines_hold_the_columns_in_order(r: EdgeV, list: Seq<Spelling>)
    ensures
        ({
            let line = edge_csv(r, list);
            &&& line.len() == 9
            &&& line[0] == text::spelled(r.osm_id as int)
            &&& line[1] == text::decimal(r.seg_idx as nat)
            &&& line[2] == text::spelled(r.start_id as int)
            &&& line[3] == text::spelled(r.end_id as int)
            &&& line[4] == hex_text(r.geom_ewkb)
            &&& line[5] == spelled(list, r.length_m).0
            &&& line[6] == spelled(list, r.total_length_m).0
            &&& line[7] == spelled(list, r.cost).0
            &&& line[8] == spelled(list, r.reverse_cost).0
        }),
{
}

/// A line of geometries holds, in order: the object, the name of the shape, the geometry and its
/// length, which is left empty where there is none. A line of vertices holds the vertex, the node and
/// the geometry.
pub proof fn geometry_lines_hold_the_columns_in_order(r: GeomV, n: NodeV, list: Seq<Spelling>)
    ensures
        ({
            let line = geom_csv(r, list);
            &&& line.len() == 4
            &&& line[0] == text::spelled(r.osm_id as int)
            &&& line[1] == r.geom_type
            &&& line[2] == hex_text(r.geom_ewkb)
            &&& r.length_m is None ==> line[3].len() == 0
            &&& r.length_m matches Some(bits) ==> line[3] == spelled(list, bits).0
        }),
        ({
            let line = node_csv(n);
            &&& line.len() == 3
            &&& line[0] == text::spelled(n.id as int)
            &&& line[1] == text::spelled(n.osm_id as int)
            &&& line[2] == hex_text(n.geom_ewkb)
        }),
{
}

/// A double is spelled as the first entry for it spells it.
pub proof fn first_spelling_counts(list: Seq<Spelling>, i: int)
    requires
        0 <= i < list.len(),
        forall|j: int| 0 <= j < i ==> (#[trigger] list[j]).bits != list[i].bits,
    ensures
        spelled(list, list[i].bits) == (list[i].plain@, list[i].exact@, list[i].json@),
    decreases list.len(),
{
    if i > 0 {
        let rest = list.skip(1);
        assert(list[0].bits != list[i].bits);
        assert(rest[i - 1] == list[i]);
        assert forall|j: int| 0 <= j < i - 1 implies (#[trigger] rest[j]).bits
            != rest[i - 1].bits by {
            assert(rest[j] == list[j + 1]);
        }
        first_spelling_counts(rest, i - 1);
    }
}

} // verus!
