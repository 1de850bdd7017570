//! A topic's rows joined with their geometry, for a tile server.
use vstd::prelude::*;

use crate::db::schema::EDGE_TABLE;
use crate::text::strs;

verus! {

/// What a session is allowed while it builds indexes.
pub const BUILD_SETTINGS: &'static str =
    "SET maintenance_work_mem = '1GB'; SET max_parallel_maintenance_workers = 4";

/// Joins a topic's rows with the shared edges.
pub open spec fn tile_select(table: Seq<char>) -> Seq<char> {
    "SELECT t.id, t.osm_id, t.osm_type, t.osm, t.derived, t.meta, t.minzoom, g.seg_idx, g.start_id, g.end_id, g.length_m, g.total_length_m, g.geom FROM "@
        + table
        + " AS t JOIN "@
        + EDGE_TABLE@
        + " AS g ON g.osm_id = t.osm_id"@
}

/// Joins a topic's rows with the shared edges.
pub fn tile_select_sql(table: &str) -> (r: String)
    ensures
        r@ == tile_select(table@),
{
    let mut sql: String = "SELECT t.id, t.osm_id, t.osm_type, t.osm, t.derived, t.meta, t.minzoom, g.seg_idx, g.start_id, g.end_id, g.length_m, g.total_length_m, g.geom FROM ".to_owned();
    sql.append(table);
    sql.append(" AS t JOIN ");
    sql.append(EDGE_TABLE);
    sql.append(" AS g ON g.osm_id = t.osm_id");
    sql
}

/// Creates a topic's tile view over a selection.
pub open spec fn tile_view_sql(table: Seq<char>, select: Seq<char>) -> Seq<char> {
    "CREATE OR REPLACE VIEW "@
        + table
        + "_tiles AS "@
        + select
}

/// Creates a topic's tile view over a selection.
fn tile_view_text(table: &str, select: &str) -> (r: String)
    ensures
        r@ == tile_view_sql(table@, select@),
{
    let mut sql: String = "CREATE OR REPLACE VIEW ".to_owned();
    sql.append(table);
    sql.append("_tiles AS ");
    sql.append(select);
    sql
}

/// The statement that creates a topic's tile view.
pub fn tile_view_statement(table: &str) -> (r: String)
    ensures
        r@ == tile_view_sql(table@, tile_select(table@)),
{
    tile_view_text(table, tile_select_sql(table).as_str())
}

/// Drops a topic's tile table.
pub open spec fn tile_drop(table: Seq<char>) -> Seq<char> {
    "DROP TABLE IF EXISTS "@
        + table
        + "_tiles"@
}

/// Drops a topic's tile table.
fn tile_drop_text(table: &str) -> (r: String)
    ensures
        r@ == tile_drop(table@),
{
    let mut sql: String = "DROP TABLE IF EXISTS ".to_owned();
    sql.append(table);
    sql.append("_tiles");
    sql
}

/// Creates a topic's tile table from a selection.
pub open spec fn tile_table(table: Seq<char>, select: Seq<char>) -> Seq<char> {
    "CREATE TABLE "@
        + table
        + "_tiles AS "@
        + select
}

/// Creates a topic's tile table from a selection.
fn tile_table_text(table: &str, select: &str) -> (r: String)
    ensures
        r@ == tile_table(table@, select@),
{
    let mut sql: String = "CREATE TABLE ".to_owned();
    sql.append(table);
    sql.append("_tiles AS ");
    sql.append(select);
    sql
}

/// Indexes a topic's tile table and gathers its statistics.
pub open spec fn tile_indexes(table: Seq<char>) -> Seq<char> {
    "CREATE INDEX ON "@
        + table
        + "_tiles USING GIST (geom); CREATE INDEX ON "@
        + table
        + "_tiles (minzoom); ANALYZE "@
        + table
        + "_tiles"@
}

/// Indexes a topic's tile table and gathers its statistics.
fn tile_indexes_text(table: &str) -> (r: String)
    ensures
        r@ == tile_indexes(table@),
{
    let mut sql: String = "CREATE INDEX ON ".to_owned();
    sql.append(table);
    sql.append("_tiles USING GIST (geom); CREATE INDEX ON ");
    sql.append(table);
    sql.append("_tiles (minzoom); ANALYZE ");
    sql.append(table);
    sql.append("_tiles");
    sql
}

/// The statements that make a topic's tile table, in order.
pub open spec fn tile_steps(table: Seq<char>) -> Seq<Seq<char>> {
    seq![
        BUILD_SETTINGS@,
        tile_drop(table),
        tile_table(table, tile_select(table)),
        tile_indexes(table),
    ]
}

/// The statements that make a topic's tile table, in order.
pub fn tile_table_statements(table: &str) -> (r: Vec<String>)
    ensures
        strs(r@) == tile_steps(table@),
{
    let r: Vec<String> = vec![
        BUILD_SETTINGS.to_owned(),
        tile_drop_text(table),
        tile_table_text(table, tile_select_sql(table).as_str()),
        tile_indexes_text(table),
    ];
    assert(strs(r@) =~= tile_steps(table@));
    r
}

} // verus!
