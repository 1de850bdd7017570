//! A topic's own routing table, made from its rows and the shared edges.
use vstd::prelude::*;

use crate::config::TopicEdgeMode;
use crate::db::schema::EDGE_TABLE;
use crate::text::strs;

verus! {

/// Creates a topic's routing table; `extra` are the columns beside the routing columns. A row without a cost is left out; a directed row cannot be used backwards.
pub open spec fn edge_projection(table: Seq<char>, extra: Seq<char>) -> Seq<char> {
    "\nDROP TABLE IF EXISTS "@
        + table
        + "_edge;\nCREATE TABLE "@
        + table
        + "_edge AS\nSELECT e.osm_id, e.seg_idx, e.start_id, e.end_id, e.geom, e.length_m, e.total_length_m,\n       (t.derived->>'cost')::double precision\n         * (e.length_m / NULLIF(e.total_length_m, 0)) AS cost,\n       CASE WHEN COALESCE((t.derived->>'is_directed')::boolean, false) THEN -1\n            ELSE (t.derived->>'cost')::double precision\n                 * (e.length_m / NULLIF(e.total_length_m, 0))\n       END AS reverse_cost"@
        + extra
        + "\nFROM "@
        + EDGE_TABLE@
        + " e\nJOIN "@
        + table
        + " t ON t.osm_id = e.osm_id\nWHERE t.derived ? 'cost'\n"@
}

/// Creates a topic's routing table; `extra` are the columns beside the routing columns. A row without a cost is left out; a directed row cannot be used backwards.
fn edge_projection_text(table: &str, extra: &str) -> (r: String)
    ensures
        r@ == edge_projection(table@, extra@),
{
    let mut sql: String = "\nDROP TABLE IF EXISTS ".to_owned();
    sql.append(table);
    sql.append("_edge;\nCREATE TABLE ");
    sql.append(table);
    sql.append("_edge AS\nSELECT e.osm_id, e.seg_idx, e.start_id, e.end_id, e.geom, e.length_m, e.total_length_m,\n       (t.derived->>'cost')::double precision\n         * (e.length_m / NULLIF(e.total_length_m, 0)) AS cost,\n       CASE WHEN COALESCE((t.derived->>'is_directed')::boolean, false) THEN -1\n            ELSE (t.derived->>'cost')::double precision\n                 * (e.length_m / NULLIF(e.total_length_m, 0))\n       END AS reverse_cost");
    sql.append(extra);
    sql.append("\nFROM ");
    sql.append(EDGE_TABLE);
    sql.append(" e\nJOIN ");
    sql.append(table);
    sql.append(" t ON t.osm_id = e.osm_id\nWHERE t.derived ? 'cost'\n");
    sql
}

/// The columns beside the routing columns.
pub open spec fn extra_columns(mode: TopicEdgeMode) -> Seq<char> {
    match mode {
        TopicEdgeMode::Pgrouting => ""@,
        TopicEdgeMode::All => ", t.osm_type, t.id, t.derived, t.private, t.meta"@,
    }
}

/// Creates a topic's routing table.
pub fn create_topic_edge_table_sql(table: &str, mode: TopicEdgeMode) -> (r: String)
    ensures
        r@ == edge_projection(table@, extra_columns(mode)),
{
    match mode {
        TopicEdgeMode::Pgrouting => edge_projection_text(table, ""),
        TopicEdgeMode::All => edge_projection_text(
            table,
            ", t.osm_type, t.id, t.derived, t.private, t.meta",
        ),
    }
}

/// Indexes a routing table by place.
pub open spec fn edge_place_index(table: Seq<char>) -> Seq<char> {
    "CREATE INDEX ON "@
        + table
        + "_edge USING GIST (geom)"@
}

/// Indexes a routing table by place.
fn edge_place_index_text(table: &str) -> (r: String)
    ensures
        r@ == edge_place_index(table@),
{
    let mut sql: String = "CREATE INDEX ON ".to_owned();
    sql.append(table);
    sql.append("_edge USING GIST (geom)");
    sql
}

/// Indexes a routing table by object.
pub open spec fn edge_id_index(table: Seq<char>) -> Seq<char> {
    "CREATE INDEX ON "@
        + table
        + "_edge (osm_id)"@
}

/// Indexes a routing table by object.
fn edge_id_index_text(table: &str) -> (r: String)
    ensures
        r@ == edge_id_index(table@),
{
    let mut sql: String = "CREATE INDEX ON ".to_owned();
    sql.append(table);
    sql.append("_edge (osm_id)");
    sql
}

/// The indexes of a topic's routing table.
pub fn topic_edge_index_stmts(table: &str) -> (r: Vec<String>)
    ensures
        strs(r@) == seq![edge_place_index(table@), edge_id_index(table@)],
{
    let r: Vec<String> = vec![edge_place_index_text(table), edge_id_index_text(table)];
    assert(strs(r@) =~= seq![edge_place_index(table@), edge_id_index(table@)]);
    r
}

/// The statements that make a topic's routing table, with its indexes where they are wanted.
pub fn topic_edge_statements(table: &str, mode: TopicEdgeMode, create_index: bool) -> (r: Vec<
    String,
>)
    ensures
        strs(r@) == if create_index {
            seq![
                edge_projection(table@, extra_columns(mode)),
                edge_place_index(table@),
                edge_id_index(table@),
            ]
        } else {
            seq![edge_projection(table@, extra_columns(mode))]
        },
{
    let mut r: Vec<String> = vec![create_topic_edge_table_sql(table, mode)];
    assert(strs(r@) =~= seq![edge_projection(table@, extra_columns(mode))]);
    if create_index {
        let mut indexes: Vec<String> = topic_edge_index_stmts(table);
        let ghost more = strs(indexes@);
        let ghost first = strs(r@);
        r.append(&mut indexes);
        assert(strs(r@) =~= first + more);
    }
    r
}

} // verus!
