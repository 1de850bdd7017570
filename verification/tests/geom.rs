use osmnexus::geom::builders::{
    build_edges, build_relation_polygon_row, can_be_cut, project_ring, relation_runs, NodeIds, OsmWay,
    WayMeasures,
};
use osmnexus::geom::materialize::{
    node_point, relations, way, MemberRole, RelationMeasures, RelationRequest, WayCoords,
};
use osmnexus::geom::plan::{GeometryOutput, GeometryPlan, GeometryShape};
use osmnexus::geom::primitives::{
    linestring_from_ewkb, multilinestring_from_ewkb, point_from_ewkb, point_to_ewkb,
    polygon_to_ewkb, to_ewkb, to_multi_ewkb, EwkbError, Polygon, Pt, Vertex,
};
use osmnexus::geom::relation::assemble_rings;
use osmnexus::geom::rows::{
    geom_type_from_str, BinaryField, EdgeRow, GeomRow, NodeRow, StageError, EDGE_COLUMNS,
};
use osmnexus::lang::filter::Spelling;

fn wgs84_to_3857(lon: f64, lat: f64) -> (f64, f64) {
    let r = 6_378_137.0;
    let x = r * lon.to_radians();
    let y = r * (std::f64::consts::FRAC_PI_4 + lat.to_radians() / 2.0).tan().ln();
    (x, y)
}

fn project_line(coords: &[(f64, f64)]) -> Vec<Pt> {
    coords
        .iter()
        .map(|&(lon, lat)| {
            let (x, y) = wgs84_to_3857(lon, lat);
            (x.to_bits(), y.to_bits())
        })
        .collect()
}

fn vertex(lon: f64, lat: f64) -> Vertex {
    let (x, y) = wgs84_to_3857(lon, lat);
    Vertex { place: (lon.to_bits(), lat.to_bits()), point: (x.to_bits(), y.to_bits()) }
}

fn vertices(coords: &[(f64, f64)]) -> Vec<Vertex> {
    coords.iter().map(|&(lon, lat)| vertex(lon, lat)).collect()
}

fn places(ring: &[Vertex]) -> Vec<(f64, f64)> {
    ring.iter().map(|v| (f64::from_bits(v.place.0), f64::from_bits(v.place.1))).collect()
}

#[test]
fn round_trips_multiple_runs() {
    let lines = vec![
        project_line(&[(1.0, 2.0), (3.0, 4.0), (5.0, 6.0)]),
        project_line(&[(10.0, 20.0), (30.0, 40.0)]),
    ];
    let encoded = to_multi_ewkb(&lines);
    let decoded = multilinestring_from_ewkb(&encoded).ok().unwrap();
    assert_eq!(decoded, lines);
}

#[test]
fn round_trips_single_run() {
    let lines = vec![project_line(&[(0.0, 0.0), (1.0, 1.0)])];
    let encoded = to_multi_ewkb(&lines);
    let decoded = multilinestring_from_ewkb(&encoded).ok().unwrap();
    assert_eq!(decoded.len(), 1);
    assert_eq!(decoded[0].len(), 2);
}

#[test]
fn rejects_wrong_type() {
    let line = project_line(&[(0.0, 0.0), (1.0, 1.0)]);
    let single_line_ewkb = to_ewkb(&line);
    assert!(multilinestring_from_ewkb(&single_line_ewkb).is_err());
}

#[test]
fn a_point_is_twenty_five_bytes() {
    let bytes = point_to_ewkb(1.0f64.to_bits(), 2.0f64.to_bits());
    assert_eq!(
        bytes,
        vec![
            1, 1, 0, 0, 0x20, 0x11, 0x0f, 0, 0, 0, 0, 0, 0, 0, 0, 0xf0, 0x3f, 0, 0, 0, 0, 0, 0, 0,
            0x40
        ]
    );
    let (x, y) = point_from_ewkb(&bytes).ok().unwrap();
    assert_eq!((f64::from_bits(x), f64::from_bits(y)), (1.0, 2.0));
}

#[test]
fn a_line_reads_back() {
    let line = vec![(7u64, 8u64), (9, 10)];
    assert_eq!(linestring_from_ewkb(&to_ewkb(&line)).ok().unwrap(), line);
    let none: Vec<Pt> = Vec::new();
    assert_eq!(linestring_from_ewkb(&to_ewkb(&none)).ok().unwrap(), none);
}

#[test]
fn damaged_bytes_are_refused_for_what_is_wrong() {
    let good = to_ewkb(&vec![(7u64, 8u64), (9, 10)]);
    assert!(matches!(
        linestring_from_ewkb(&good[..12].to_vec()),
        Err(EwkbError::TooShort)
    ));
    let mut big = good.clone();
    big[0] = 0;
    assert!(matches!(linestring_from_ewkb(&big), Err(EwkbError::NotLittleEndian)));
    assert!(matches!(
        linestring_from_ewkb(&point_to_ewkb(0, 0)),
        Err(EwkbError::WrongType { found: 0x2000_0001 })
    ));
    assert!(matches!(
        linestring_from_ewkb(&good[..30].to_vec()),
        Err(EwkbError::Truncated)
    ));

    let bundle = to_multi_ewkb(&vec![vec![(1u64, 2u64), (3, 4)]]);
    assert!(matches!(
        multilinestring_from_ewkb(&bundle[..20].to_vec()),
        Err(EwkbError::MemberHeaderTruncated)
    ));
    assert!(matches!(
        multilinestring_from_ewkb(&bundle[..40].to_vec()),
        Err(EwkbError::MemberPointsTruncated)
    ));
    let mut odd = bundle.clone();
    odd[14] = 3;
    assert!(matches!(
        multilinestring_from_ewkb(&odd),
        Err(EwkbError::WrongMemberType { found: 3 })
    ));
    let mut turned = bundle.clone();
    turned[13] = 0;
    assert!(matches!(multilinestring_from_ewkb(&turned), Err(EwkbError::NotLittleEndian)));
    assert!(matches!(
        multilinestring_from_ewkb(&bundle[..8].to_vec()),
        Err(EwkbError::TooShort)
    ));
}

#[test]
fn a_polygon_counts_its_rings_and_their_points() {
    let ring = vec![(1u64, 1u64), (2, 2), (3, 3), (1, 1)];
    let hole = vec![(4u64, 4u64)];
    let bytes = polygon_to_ewkb(&Polygon { rings: vec![ring, hole] });
    assert_eq!(bytes.len(), 13 + 4 + 4 * 16 + 4 + 16);
    assert_eq!(&bytes[1..5], &[3, 0, 0, 0x20]);
    assert_eq!(&bytes[9..17], &[2, 0, 0, 0, 4, 0, 0, 0]);
}

#[test]
fn segments_chain_into_a_ring() {
    let rings = assemble_rings(vec![
        vertices(&[(0.0, 0.0), (1.0, 0.0)]),
        vertices(&[(0.0, 0.0), (0.0, 1.0), (1.0, 1.0)]),
        vertices(&[(1.0, 1.0), (1.0, 0.0)]),
    ]);
    assert_eq!(rings.len(), 1);
    assert_eq!(
        places(&rings[0]),
        vec![(1.0, 1.0), (1.0, 0.0), (0.0, 0.0), (0.0, 1.0), (1.0, 1.0)]
    );
}

#[test]
fn separate_segments_stay_separate() {
    let rings = assemble_rings(vec![
        vertices(&[(0.0, 0.0), (1.0, 0.0)]),
        vertices(&[(5.0, 5.0), (6.0, 6.0)]),
        Vec::new(),
    ]);
    assert_eq!(rings.len(), 3);
    assert_eq!(rings[0].len(), 0);
    assert_eq!(places(&rings[1]), vec![(5.0, 5.0), (6.0, 6.0)]);
}

#[test]
fn zeros_of_either_sign_meet() {
    let rings = assemble_rings(vec![
        vertices(&[(1.0, 1.0), (0.0, -0.0)]),
        vertices(&[(2.0, 2.0), (-0.0, 0.0)]),
    ]);
    assert_eq!(rings.len(), 1);
    assert_eq!(rings[0].len(), 3);
}

#[test]
fn runs_of_one_vertex_are_not_drawn() {
    let runs = relation_runs(vec![vertices(&[(1.0, 1.0)]), vertices(&[(2.0, 2.0), (3.0, 3.0)])]);
    assert_eq!(runs.len(), 1);
    assert_eq!(places(&runs[0]), vec![(2.0, 2.0), (3.0, 3.0)]);
}

#[test]
fn an_open_ring_is_closed() {
    let open = vertices(&[(0.0, 0.0), (1.0, 0.0), (1.0, 1.0)]);
    let outline = project_ring(&open);
    assert_eq!(outline.len(), 4);
    assert_eq!(outline[0], outline[3]);
    let shut = vertices(&[(0.0, 0.0), (1.0, 0.0), (0.0, 0.0)]);
    assert_eq!(project_ring(&shut).len(), 3);
}

#[test]
fn the_longest_outer_ring_is_the_outline() {
    let small = vertices(&[(0.0, 0.0), (1.0, 0.0), (0.0, 0.0)]);
    let large = vertices(&[(0.0, 0.0), (1.0, 0.0), (1.0, 1.0), (0.0, 0.0)]);
    let row = build_relation_polygon_row(9, &vec![large, small], &Vec::new()).unwrap();
    assert_eq!(row.osm_id, 9);
    assert_eq!(row.geom_type, "Polygon");
    assert_eq!(&row.geom_ewkb[9..17], &[1, 0, 0, 0, 4, 0, 0, 0]);
    assert!(build_relation_polygon_row(9, &Vec::new(), &Vec::new()).is_none());
}

fn edge_row() -> EdgeRow {
    EdgeRow {
        osm_id: 1,
        seg_idx: 2,
        start_id: 10,
        end_id: 20,
        geom_ewkb: vec![1, 2, 3, 4],
        length_m: 12.5f64.to_bits(),
        total_length_m: 30.0f64.to_bits(),
        cost: 12.5f64.to_bits(),
        reverse_cost: 12.5f64.to_bits(),
    }
}

fn spelling(v: f64) -> Spelling {
    Spelling {
        bits: v.to_bits(),
        plain: v.to_string(),
        exact: format!("{v:?}"),
        json: format!("{v:?}"),
    }
}

#[test]
fn edge_row_stage_round_trips() {
    let mut buf = Vec::new();
    edge_row().stage_encode(&mut buf);
    let (decoded, end) = EdgeRow::stage_decode(&buf, 0).ok().unwrap();
    assert_eq!(end, buf.len());
    assert_eq!(decoded.osm_id, 1);
    assert_eq!(decoded.seg_idx, 2);
    assert_eq!(decoded.start_id, 10);
    assert_eq!(decoded.end_id, 20);
    assert_eq!(decoded.geom_ewkb, vec![1, 2, 3, 4]);
    assert_eq!(f64::from_bits(decoded.length_m), 12.5);
    assert_eq!(f64::from_bits(decoded.total_length_m), 30.0);
    assert_eq!(f64::from_bits(decoded.cost), 12.5);
    assert_eq!(f64::from_bits(decoded.reverse_cost), 12.5);
}

#[test]
fn geom_row_stage_round_trips_with_and_without_length() {
    let row = GeomRow {
        osm_id: 5,
        geom_type: "LineString",
        geom_ewkb: vec![9, 8, 7],
        length_m: Some(4.0f64.to_bits()),
    };
    let mut buf = Vec::new();
    row.stage_encode(&mut buf);
    let (decoded, next) = GeomRow::stage_decode(&buf, 0).ok().unwrap();
    assert_eq!(decoded.osm_id, 5);
    assert_eq!(decoded.geom_type, "LineString");
    assert_eq!(decoded.geom_ewkb, vec![9, 8, 7]);
    assert_eq!(decoded.length_m.map(f64::from_bits), Some(4.0));

    let row = GeomRow { osm_id: 6, geom_type: "Point", geom_ewkb: vec![1], length_m: None };
    row.stage_encode(&mut buf);
    let (decoded, _) = GeomRow::stage_decode(&buf, next).ok().unwrap();
    assert_eq!(decoded.length_m, None);
}

#[test]
fn csv_fields_match_the_column_lists() {
    let list = vec![spelling(12.5), spelling(30.0)];
    let mut edge = Vec::new();
    edge_row().csv_fields(&mut edge, &list);
    assert_eq!(edge.len(), EDGE_COLUMNS.split(',').count());
    assert_eq!(edge, vec!["1", "2", "10", "20", "01020304", "12.5", "30", "12.5", "12.5"]);

    let mut geom = Vec::new();
    GeomRow { osm_id: 5, geom_type: "Point", geom_ewkb: vec![0xab], length_m: None }
        .csv_fields(&mut geom, &list);
    assert_eq!(geom, vec!["5".to_owned(), "Point".to_owned(), "ab".to_owned(), String::new()]);

    let mut node = Vec::new();
    NodeRow { id: 3, osm_id: 77, geom_ewkb: vec![0x01, 0xff] }.csv_fields(&mut node);
    assert_eq!(node, vec!["3".to_owned(), "77".to_owned(), "01ff".to_owned()]);
}

#[test]
fn binary_fields_follow_the_columns() {
    let fields = edge_row().binary_fields();
    assert_eq!(fields.len(), 9);
    assert!(matches!(fields[1], BinaryField::Int4(2)));
    assert!(matches!(&fields[4], BinaryField::Bytea(b) if b.len() == 4));
    let row = GeomRow { osm_id: 5, geom_type: "Point", geom_ewkb: vec![], length_m: None };
    assert!(matches!(row.binary_fields()[3], BinaryField::Null));
}

#[test]
fn staged_bytes_that_are_no_row_are_refused() {
    let mut buf = Vec::new();
    edge_row().stage_encode(&mut buf);
    buf.pop();
    assert!(matches!(EdgeRow::stage_decode(&buf, 0), Err(StageError::Truncated)));
    let row = GeomRow { osm_id: 6, geom_type: "Point", geom_ewkb: vec![1], length_m: None };
    let mut buf = Vec::new();
    row.stage_encode(&mut buf);
    buf[16] = b'X';
    assert!(matches!(GeomRow::stage_decode(&buf, 0), Err(StageError::UnknownGeomType)));
    assert!(matches!(geom_type_from_str("Circle"), Err(StageError::UnknownGeomType)));
    assert_eq!(geom_type_from_str("Polygon").ok(), Some("Polygon"));
}

fn output(
    node: Option<GeometryShape>,
    way: Option<GeometryShape>,
    relation: Option<GeometryShape>,
) -> GeometryOutput {
    GeometryOutput { node, way, relation, way_graph: false, node_graph: false }
}

#[test]
fn a_plan_lists_who_wants_what() {
    let mut third = output(None, Some(GeometryShape::Polygon), Some(GeometryShape::Line));
    third.way_graph = true;
    third.node_graph = true;
    let topics = vec![
        output(Some(GeometryShape::Point), None, None),
        output(None, Some(GeometryShape::Line), None),
        third,
    ];
    let plan = GeometryPlan::build(&topics);
    assert!(plan.any_way_graph);
    assert_eq!(plan.node_graph_mask, 0b100);
    assert_eq!(plan.node_geom_topics, vec![0]);
    assert_eq!(plan.way_geom_topics, vec![1, 2]);
    assert!(plan.way_shape == vec![GeometryShape::Line, GeometryShape::Polygon]);
    assert_eq!(plan.relation_geom_topics, vec![2]);
    assert_eq!(plan.relation_geom_mask, 0b100);
}

fn cut_way() -> (OsmWay, WayMeasures, NodeIds) {
    let osm = OsmWay {
        id: 42,
        coords: vertices(&[(0.0, 0.0), (1.0, 0.0), (2.0, 0.0), (3.0, 0.0)]),
        cut_points: vec![(0, 100), (2, 200), (3, 300)],
    };
    let measures = WayMeasures {
        length_m: 30.0f64.to_bits(),
        part_lengths: vec![20.0f64.to_bits(), 10.0f64.to_bits()],
        centroid: Some((1, 2)),
    };
    let ids: NodeIds = [(100, 1), (200, 2), (300, 3)].into_iter().collect();
    (osm, measures, ids)
}

#[test]
fn a_cut_way_becomes_connected_edges() {
    let (osm, measures, ids) = cut_way();
    let rows = build_edges(&osm, &measures, &ids);
    assert_eq!(rows.len(), 2);
    assert_eq!((rows[0].start_id, rows[0].end_id), (1, 2));
    assert_eq!((rows[1].start_id, rows[1].end_id), (2, 3));
    assert_eq!(linestring_from_ewkb(&rows[0].geom_ewkb).ok().unwrap().len(), 3);
    assert_eq!(linestring_from_ewkb(&rows[1].geom_ewkb).ok().unwrap().len(), 2);
    assert_eq!(f64::from_bits(rows[1].cost), 10.0);
    assert!(rows.iter().all(|r| r.cost == r.length_m && r.reverse_cost == r.length_m));
    assert_eq!(f64::from_bits(rows[1].total_length_m), 30.0);
}

#[test]
fn a_way_is_cut_at_its_own_numbered_vertices() {
    let (mut osm, _, mut ids) = cut_way();
    assert!(can_be_cut(&osm, &ids));
    osm.cut_points[2] = (4, 300);
    assert!(!can_be_cut(&osm, &ids));
    osm.cut_points[2] = (0, 300);
    assert!(!can_be_cut(&osm, &ids));
    osm.cut_points[2] = (1, 300);
    assert!(can_be_cut(&osm, &ids));
    ids.remove(&300);
    assert!(!can_be_cut(&osm, &ids));
    osm.cut_points = vec![(0, 100), (9, 200)];
    assert!(can_be_cut(&osm, &ids));
}

#[test]
fn a_way_without_inner_cuts_is_one_edge() {
    let (mut osm, measures, ids) = cut_way();
    osm.cut_points = vec![(0, 100), (3, 300)];
    let rows = build_edges(&osm, &measures, &ids);
    assert_eq!(rows.len(), 1);
    assert_eq!((rows[0].start_id, rows[0].end_id), (1, 3));
    assert_eq!(f64::from_bits(rows[0].length_m), 30.0);
    osm.cut_points = Vec::new();
    let rows = build_edges(&osm, &measures, &ids);
    assert_eq!((rows[0].start_id, rows[0].end_id), (0, 0));
}

#[test]
fn only_wanted_shapes_of_a_way_are_built() {
    let (osm, measures, ids) = cut_way();
    let plan = GeometryPlan::build(&vec![
        output(None, Some(GeometryShape::Point), None),
        output(None, Some(GeometryShape::Polygon), None),
    ]);
    let g = way(&osm, &measures, &ids, &plan);
    assert!(g.edges.is_none());
    assert!(g.line.is_none());
    assert_eq!(g.point.unwrap().geom_type, "Point");
    assert_eq!(g.polygon.unwrap().geom_type, "Polygon");
    assert!(node_point(1, 0, 0, &plan).is_none());
}

#[test]
fn a_topic_gets_the_relations_it_kept_in_its_shape() {
    let plan = GeometryPlan::build(&vec![
        output(None, None, Some(GeometryShape::Line)),
        output(None, None, Some(GeometryShape::Point)),
    ]);
    let ways: WayCoords =
        [(7, vertices(&[(0.0, 0.0), (1.0, 1.0)])), (8, vertices(&[(1.0, 1.0), (2.0, 2.0)]))]
            .into_iter()
            .collect();
    let requests = vec![
        RelationRequest {
            rel_id: 1,
            members: vec![(8, MemberRole::Other), (9, MemberRole::Other), (7, MemberRole::Other)],
            mask: 0b11,
        },
        RelationRequest { rel_id: 2, members: vec![(8, MemberRole::Inner)], mask: 0b10 },
    ];
    let measures = vec![
        RelationMeasures { length_m: 5.0f64.to_bits(), centroid: Some((3, 4)) },
        RelationMeasures { length_m: 0, centroid: Some((5, 6)) },
    ];
    let batch = relations(&requests, &ways, &plan, &measures);
    assert_eq!(batch.rows.len(), 2);
    assert_eq!(batch.rows[0].len(), 1);
    assert_eq!(batch.rows[0][0].geom_type, "MultiLineString");
    let lines = multilinestring_from_ewkb(&batch.rows[0][0].geom_ewkb).ok().unwrap();
    assert_eq!(lines.len(), 1);
    assert_eq!(lines[0].len(), 3);
    let ids: Vec<i64> = batch.rows[1].iter().map(|r| r.osm_id).collect();
    assert_eq!(ids, vec![1, 2]);
    assert_eq!(point_from_ewkb(&batch.rows[1][1].geom_ewkb).ok(), Some((5, 6)));
}
