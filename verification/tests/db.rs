use osmnexus::config::{
    Config, ConfigError, CoordPrecision, Output, Source, TopicEdgeMode, DEFAULT_TREE_MAX_DEPTH,
};
use osmnexus::db::backend::{
    extra_tables, finalize_edges, finalize_indexes, plan_geometry_tables, pool_size,
    setup_statements,
};
use osmnexus::db::live::ways_in_rectangle;
use osmnexus::db::relations::relation_geometry_statements;
use osmnexus::db::schema::{
    all_tables, create_geom_table_sql, create_statements, create_tag_table_sql,
    drop_index_statements, index_units, tag_index_stmts, truncate_statement, GeomTableShape,
};
use osmnexus::db::tiles::{tile_table_statements, tile_view_statement};
use osmnexus::db::topic_edges::topic_edge_statements;
use osmnexus::db::topic_geometries::{
    drop_way_geom_staging_sql, ensure_way_geom_staging_sql, relation_linestring_statements,
};
use osmnexus::geom::plan::{GeometryOutput, GeometryShape};

fn config() -> Config {
    Config {
        pbf_file: "area.osm.pbf".to_owned(),
        config_dir: "configs/tilda".to_owned(),
        db_host: String::new(),
        db_name: "postgres".to_owned(),
        db_user: "postgres".to_owned(),
        db_password: String::new(),
        db_port: 5432,
        truncate: true,
        threads: 1,
        left_hand_traffic: false,
        create_index: true,
        db_writers: 4,
        output: Output::Pg,
        out_dir: "out".to_owned(),
        coordinate_precision: 21,
        tree_max_depth: DEFAULT_TREE_MAX_DEPTH,
        topic_edges: TopicEdgeMode::Pgrouting,
        source: Source::Pbf,
    }
}

#[test]
fn settings_that_do_not_fit_are_refused() {
    assert!(config().check().is_ok());
    let mut c = config();
    c.pbf_file = String::new();
    assert!(matches!(c.check(), Err(ConfigError::MissingFile)));
    c.source = Source::Csv;
    assert!(matches!(c.check(), Err(ConfigError::CsvNeedsCsvOutput)));
    c.output = Output::Csv;
    assert!(c.check().is_ok());
}

#[test]
fn there_is_always_a_writer() {
    let mut c = config();
    assert_eq!(c.writers(), 4);
    assert_eq!(pool_size(&c, 2, 3), 22);
    c.db_writers = 0;
    assert_eq!(c.writers(), 1);
    assert_eq!(pool_size(&c, 2, 3), 7);
}

#[test]
fn large_precisions_round_nothing() {
    assert!(CoordPrecision(17).is_passthrough() && CoordPrecision(21).is_passthrough());
    assert!(!CoordPrecision(16).is_passthrough());
}

fn tag_tables() -> Vec<(String, bool)> {
    vec![("roads".to_owned(), true), ("rails".to_owned(), false)]
}

fn geom_tables() -> Vec<(String, GeomTableShape)> {
    vec![("roads_geom".to_owned(), GeomTableShape::LineString)]
}

#[test]
fn tables_have_the_columns_of_their_kind() {
    assert_eq!(
        create_tag_table_sql("roads", true),
        "\nCREATE TABLE IF NOT EXISTS roads (\n  osm_id    bigint,\n  osm_type  text,\n  id        text NOT NULL,\n  category  text,\n  produced    jsonb,\n  annotations jsonb,\n  meta        jsonb\n)"
    );
    assert!(!create_tag_table_sql("roads", false).contains("NOT NULL"));
    assert_eq!(
        create_geom_table_sql("roads_geom", GeomTableShape::LineString),
        "\nCREATE TABLE IF NOT EXISTS roads_geom (\n  osm_id bigint,\n  geom   geometry(LineString, 3857),\n  length_m double precision\n)"
    );
    assert_eq!(
        create_geom_table_sql("roads_point", GeomTableShape::Point),
        "\nCREATE TABLE IF NOT EXISTS roads_point (\n  osm_id bigint,\n  geom   geometry(Point, 3857)\n)"
    );
    assert!(GeomTableShape::MultiLineString.has_length() && !GeomTableShape::Polygon.has_length());
    assert_eq!(
        tag_index_stmts("rails", false)[0],
        "CREATE UNIQUE INDEX IF NOT EXISTS rails_id_idx ON rails (osm_type, osm_id)"
    );
}

#[test]
fn every_table_is_created_emptied_and_indexed() {
    assert_eq!(
        all_tables(&tag_tables(), &geom_tables(), true),
        vec!["roads", "rails", "edges", "nodes", "relation_members", "roads_geom"]
    );
    assert_eq!(
        truncate_statement(&tag_tables(), &geom_tables(), false),
        "TRUNCATE TABLE roads, rails, relation_members, roads_geom"
    );
    assert_eq!(create_statements(&tag_tables(), &geom_tables(), true).len(), 6);
    assert_eq!(drop_index_statements(&tag_tables(), &geom_tables(), true).len(), 6);
    let units = index_units(&tag_tables(), &geom_tables(), true);
    assert_eq!(units.iter().map(|u| u.len()).sum::<usize>(), 2 + 2 + 2 + 3 + 2 + 2);
}

#[test]
fn a_run_sets_up_and_finishes_what_it_was_asked_for() {
    let mut c = config();
    let setup = setup_statements(&c, &tag_tables(), &geom_tables(), false);
    assert_eq!(setup.len(), 4 + 1 + 4);
    assert!(setup[4].starts_with("TRUNCATE TABLE roads"));
    assert!(!finalize_indexes(&c, &tag_tables(), &geom_tables(), false).is_empty());
    c.truncate = false;
    c.create_index = false;
    assert_eq!(setup_statements(&c, &tag_tables(), &geom_tables(), false).len(), 8);
    assert!(finalize_indexes(&c, &tag_tables(), &geom_tables(), false).is_empty());
}

fn topics() -> (Vec<String>, Vec<GeometryOutput>) {
    (
        vec!["roads".to_owned(), "rails".to_owned()],
        vec![
            GeometryOutput {
                node: Some(GeometryShape::Point),
                way: Some(GeometryShape::Line),
                relation: None,
                way_graph: true,
                node_graph: false,
            },
            GeometryOutput {
                node: None,
                way: None,
                relation: Some(GeometryShape::Polygon),
                way_graph: false,
                node_graph: false,
            },
        ],
    )
}

#[test]
fn topics_get_the_tables_of_their_shapes() {
    let (tables, outputs) = topics();
    let planned = plan_geometry_tables(&tables, &outputs);
    let mut names: Vec<&str> = planned.iter().map(|(n, _)| n.as_str()).collect();
    names.sort();
    assert_eq!(names, vec!["rails_relation_polygon", "roads_geom", "roads_point"]);
    assert_eq!(extra_tables(&tables, &outputs, true), Some(2 + 3));
    assert_eq!(extra_tables(&tables, &outputs, false), Some(2 + 1));
    let edges = finalize_edges(&config(), &tables, &outputs);
    assert_eq!(edges.len(), 3);
    assert!(edges[0].contains("CREATE TABLE roads_edge AS"));
}

#[test]
fn edge_tables_take_tag_columns_on_request() {
    let plain = topic_edge_statements("roads", TopicEdgeMode::Pgrouting, false);
    assert_eq!(plain.len(), 1);
    assert!(plain[0].contains("END AS reverse_cost\nFROM edges e\nJOIN roads t"));
    let all = topic_edge_statements("roads", TopicEdgeMode::All, true);
    assert_eq!(all.len(), 3);
    assert!(all[0].contains("AS reverse_cost, t.osm_type, t.id, t.derived, t.private, t.meta\n"));
    assert_eq!(all[1], "CREATE INDEX ON roads_edge USING GIST (geom)");
}

#[test]
fn tiles_join_tags_to_edges() {
    assert_eq!(
        tile_view_statement("roads"),
        "CREATE OR REPLACE VIEW roads_tiles AS SELECT t.id, t.osm_id, t.osm_type, t.osm, t.derived, t.meta, t.minzoom, g.seg_idx, g.start_id, g.end_id, g.length_m, g.total_length_m, g.geom FROM roads AS t JOIN edges AS g ON g.osm_id = t.osm_id"
    );
    let stmts = tile_table_statements("roads");
    assert_eq!(stmts[0], "SET maintenance_work_mem = '1GB'; SET max_parallel_maintenance_workers = 4");
    assert_eq!(stmts[1], "DROP TABLE IF EXISTS roads_tiles");
    assert!(stmts[2].starts_with("CREATE TABLE roads_tiles AS SELECT t.id"));
    assert_eq!(
        stmts[3],
        "CREATE INDEX ON roads_tiles USING GIST (geom); CREATE INDEX ON roads_tiles (minzoom); ANALYZE roads_tiles"
    );
}

#[test]
fn relation_geometries_come_from_member_ways() {
    let kept = relation_geometry_statements("way_geoms", "relation_geoms", true);
    assert_eq!(kept.len(), 2);
    let built = relation_geometry_statements("way_geoms", "relation_geoms", false);
    assert_eq!(built.len(), 4);
    assert!(built[0].starts_with("DROP TABLE IF EXISTS way_geoms; CREATE TABLE way_geoms AS SELECT"));
    assert_eq!(built[3], "DROP TABLE way_geoms");
    assert_eq!(built[1], kept[0]);

    assert_eq!(
        ensure_way_geom_staging_sql(),
        "DROP TABLE IF EXISTS _way_geom_staging; CREATE TABLE _way_geom_staging AS SELECT osm_id, ST_LineMerge(ST_Collect(geom)) AS geom FROM edges GROUP BY osm_id"
    );
    assert_eq!(drop_way_geom_staging_sql(), "DROP TABLE IF EXISTS _way_geom_staging");
    let lines = relation_linestring_statements("roads", true);
    assert_eq!(lines.len(), 2);
    assert!(lines[0].contains("JOIN roads t ON t.osm_id = rm.relation_osm_id AND t.osm_type = 'R'"));
    assert_eq!(
        lines[1],
        "CREATE INDEX ON roads_relation_geom USING GIST (geom); CREATE INDEX ON roads_relation_geom (osm_id)"
    );
}

#[test]
fn ways_are_read_back_by_rectangle() {
    let sql = ways_in_rectangle("roads");
    assert!(sql.contains("FROM roads t JOIN roads_geom g ON g.osm_id = t.osm_id"));
    assert!(sql.ends_with("ST_MakeEnvelope($1, $2, $3, $4, 4326), 3857))"));
}
