//! A topic's relation lines, merged by the database from the shared edges.
use vstd::prelude::*;

use crate::db::schema::{relation_geom_table, EDGE_TABLE, MEMBER_TABLE};
use crate::text::strs;

verus! {

/// Where the whole ways are kept while relations are merged.
pub const STAGING_TABLE: &'static str = "_way_geom_staging";

/// Makes the table of whole ways from the shared edges.
pub open spec fn staging() -> Seq<char> {
    "DROP TABLE IF EXISTS "@
        + STAGING_TABLE@
        + "; CREATE TABLE "@
        + STAGING_TABLE@
        + " AS SELECT osm_id, ST_LineMerge(ST_Collect(geom)) AS geom FROM "@
        + EDGE_TABLE@
        + " GROUP BY osm_id"@
}

/// Makes the table of whole ways from the shared edges.
pub fn ensure_way_geom_staging_sql() -> (r: String)
    ensures
        r@ == staging(),
{
    let mut sql: String = "DROP TABLE IF EXISTS ".to_owned();
    sql.append(STAGING_TABLE);
    sql.append("; CREATE TABLE ");
    sql.append(STAGING_TABLE);
    sql.append(" AS SELECT osm_id, ST_LineMerge(ST_Collect(geom)) AS geom FROM ");
    sql.append(EDGE_TABLE);
    sql.append(" GROUP BY osm_id");
    sql
}

/// Drops the table of whole ways.
pub open spec fn staging_drop() -> Seq<char> {
    "DROP TABLE IF EXISTS "@
        + STAGING_TABLE@
}

/// Drops the table of whole ways.
pub fn drop_way_geom_staging_sql() -> (r: String)
    ensures
        r@ == staging_drop(),
{
    let mut sql: String = "DROP TABLE IF EXISTS ".to_owned();
    sql.append(STAGING_TABLE);
    sql
}

/// Makes the table `out` of merged lines, one for each relation of a topic.
pub open spec fn merged_relations(out: Seq<char>, table: Seq<char>) -> Seq<char> {
    "DROP TABLE IF EXISTS "@
        + out
        + "; CREATE TABLE "@
        + out
        + " AS SELECT rm.relation_osm_id AS osm_id, ST_LineMerge(ST_Collect(w.geom)) AS geom FROM "@
        + MEMBER_TABLE@
        + " rm JOIN "@
        + STAGING_TABLE@
        + " w ON w.osm_id = rm.way_osm_id JOIN "@
        + table
        + " t ON t.osm_id = rm.relation_osm_id AND t.osm_type = 'R' GROUP BY rm.relation_osm_id"@
}

/// Makes the table `out` of merged lines, one for each relation of a topic.
fn merged_relations_text(out: &str, table: &str) -> (r: String)
    ensures
        r@ == merged_relations(out@, table@),
{
    let mut sql: String = "DROP TABLE IF EXISTS ".to_owned();
    sql.append(out);
    sql.append("; CREATE TABLE ");
    sql.append(out);
    sql.append(" AS SELECT rm.relation_osm_id AS osm_id, ST_LineMerge(ST_Collect(w.geom)) AS geom FROM ");
    sql.append(MEMBER_TABLE);
    sql.append(" rm JOIN ");
    sql.append(STAGING_TABLE);
    sql.append(" w ON w.osm_id = rm.way_osm_id JOIN ");
    sql.append(table);
    sql.append(" t ON t.osm_id = rm.relation_osm_id AND t.osm_type = 'R' GROUP BY rm.relation_osm_id");
    sql
}

/// Indexes a table of merged lines.
pub open spec fn merged_indexes(out: Seq<char>) -> Seq<char> {
    "CREATE INDEX ON "@
        + out
        + " USING GIST (geom); CREATE INDEX ON "@
        + out
        + " (osm_id)"@
}

/// Indexes a table of merged lines.
fn merged_indexes_text(out: &str) -> (r: String)
    ensures
        r@ == merged_indexes(out@),
{
    let mut sql: String = "CREATE INDEX ON ".to_owned();
    sql.append(out);
    sql.append(" USING GIST (geom); CREATE INDEX ON ");
    sql.append(out);
    sql.append(" (osm_id)");
    sql
}

/// The statements that make a topic's table of merged relation lines, with its indexes where they
/// are wanted.
pub fn relation_linestring_statements(table: &str, create_index: bool) -> (r: Vec<String>)
    ensures
        ({
            let out = table@ + "_relation_geom"@;
            strs(r@) == if create_index {
                seq![merged_relations(out, table@), merged_indexes(out)]
            } else {
                seq![merged_relations(out, table@)]
            }
        }),
{
    let out: String = relation_geom_table(table);
    let mut r: Vec<String> = vec![merged_relations_text(out.as_str(), table)];
    assert(strs(r@) =~= seq![merged_relations(out@, table@)]);
    if create_index {
        r.push(merged_indexes_text(out.as_str()));
        assert(strs(r@) =~= seq![merged_relations(out@, table@), merged_indexes(out@)]);
    }
    r
}

} // verus!
