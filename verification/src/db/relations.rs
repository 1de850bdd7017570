//! The lines of all relations, merged by the database from whole ways.
use vstd::prelude::*;

use crate::db::schema::{EDGE_TABLE, MEMBER_TABLE};
use crate::text::strs;

verus! {

/// Makes the table of whole ways from the shared edges.
pub open spec fn whole_ways(way_table: Seq<char>) -> Seq<char> {
    "DROP TABLE IF EXISTS "@
        + way_table
        + "; CREATE TABLE "@
        + way_table
        + " AS SELECT osm_id, ST_LineMerge(ST_Collect(geom)) AS geom, sum(length_m) AS length_m FROM "@
        + EDGE_TABLE@
        + " GROUP BY osm_id"@
}

/// Makes the table of whole ways from the shared edges.
fn whole_ways_text(way_table: &str) -> (r: String)
    ensures
        r@ == whole_ways(way_table@),
{
    let mut sql: String = "DROP TABLE IF EXISTS ".to_owned();
    sql.append(way_table);
    sql.append("; CREATE TABLE ");
    sql.append(way_table);
    sql.append(" AS SELECT osm_id, ST_LineMerge(ST_Collect(geom)) AS geom, sum(length_m) AS length_m FROM ");
    sql.append(EDGE_TABLE);
    sql.append(" GROUP BY osm_id");
    sql
}

/// Makes the table of merged lines, one for each relation.
pub open spec fn relation_lines(relation_table: Seq<char>, way_table: Seq<char>) -> Seq<char> {
    "DROP TABLE IF EXISTS "@
        + relation_table
        + "; CREATE TABLE "@
        + relation_table
        + " AS SELECT rm.relation_osm_id AS osm_id, ST_LineMerge(ST_Collect(w.geom)) AS geom FROM "@
        + MEMBER_TABLE@
        + " AS rm JOIN "@
        + way_table
        + " AS w ON w.osm_id = rm.way_osm_id GROUP BY rm.relation_osm_id"@
}

/// Makes the table of merged lines, one for each relation.
fn relation_lines_text(relation_table: &str, way_table: &str) -> (r: String)
    ensures
        r@ == relation_lines(relation_table@, way_table@),
{
    let mut sql: String = "DROP TABLE IF EXISTS ".to_owned();
    sql.append(relation_table);
    sql.append("; CREATE TABLE ");
    sql.append(relation_table);
    sql.append(" AS SELECT rm.relation_osm_id AS osm_id, ST_LineMerge(ST_Collect(w.geom)) AS geom FROM ");
    sql.append(MEMBER_TABLE);
    sql.append(" AS rm JOIN ");
    sql.append(way_table);
    sql.append(" AS w ON w.osm_id = rm.way_osm_id GROUP BY rm.relation_osm_id");
    sql
}

/// Indexes the table of merged lines.
pub open spec fn relation_indexes(relation_table: Seq<char>) -> Seq<char> {
    "CREATE INDEX ON "@
        + relation_table
        + " USING GIST (geom); CREATE INDEX ON "@
        + relation_table
        + " (osm_id)"@
}

/// Indexes the table of merged lines.
fn relation_indexes_text(relation_table: &str) -> (r: String)
    ensures
        r@ == relation_indexes(relation_table@),
{
    let mut sql: String = "CREATE INDEX ON ".to_owned();
    sql.append(relation_table);
    sql.append(" USING GIST (geom); CREATE INDEX ON ");
    sql.append(relation_table);
    sql.append(" (osm_id)");
    sql
}

/// Drops the table of whole ways.
pub open spec fn way_drop(way_table: Seq<char>) -> Seq<char> {
    "DROP TABLE "@
        + way_table
}

/// Drops the table of whole ways.
fn way_drop_text(way_table: &str) -> (r: String)
    ensures
        r@ == way_drop(way_table@),
{
    let mut sql: String = "DROP TABLE ".to_owned();
    sql.append(way_table);
    sql
}

/// The statements that merge the lines of relations. A table of whole ways that is not there is
/// made first and dropped last.
pub open spec fn relation_steps(
    way_table: Seq<char>,
    relation_table: Seq<char>,
    has_way_geometries: bool,
) -> Seq<Seq<char>> {
    let merge = seq![relation_lines(relation_table, way_table), relation_indexes(relation_table)];
    if has_way_geometries {
        merge
    } else {
        seq![whole_ways(way_table)] + merge + seq![way_drop(way_table)]
    }
}

/// The statements that merge the lines of relations.
pub fn relation_geometry_statements(
    way_table: &str,
    relation_table: &str,
    has_way_geometries: bool,
) -> (r: Vec<String>)
    ensures
        strs(r@) == relation_steps(way_table@, relation_table@, has_way_geometries),
{
    let mut r: Vec<String> = Vec::new();
    if !has_way_geometries {
        r.push(whole_ways_text(way_table));
    }
    r.push(relation_lines_text(relation_table, way_table));
    r.push(relation_indexes_text(relation_table));
    if !has_way_geometries {
        r.push(way_drop_text(way_table));
    }
    assert(strs(r@) =~= relation_steps(way_table@, relation_table@, has_way_geometries));
    r
}

} // verus!
