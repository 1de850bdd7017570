//! Ways read back from the database inside a rectangle.
use vstd::prelude::*;

use crate::db::schema::way_geom_table;

verus! {

/// Selects the ways of a table and its geometry table that touch a rectangle.
pub open spec fn ways_query(tags: Seq<char>, geom: Seq<char>) -> Seq<char> {
    "SELECT t.osm_id, t.produced, ST_AsEWKB(g.geom) AS geom_ewkb, ST_Length(g.geom) AS length_m FROM "@
        + tags
        + " t JOIN "@
        + geom
        + " g ON g.osm_id = t.osm_id WHERE ST_Intersects(g.geom, ST_Transform(ST_MakeEnvelope($1, $2, $3, $4, 4326), 3857))"@
}

/// Selects the ways of a table and its geometry table that touch a rectangle.
fn ways_query_text(tags: &str, geom: &str) -> (r: String)
    ensures
        r@ == ways_query(tags@, geom@),
{
    let mut sql: String = "SELECT t.osm_id, t.produced, ST_AsEWKB(g.geom) AS geom_ewkb, ST_Length(g.geom) AS length_m FROM ".to_owned();
    sql.append(tags);
    sql.append(" t JOIN ");
    sql.append(geom);
    sql.append(" g ON g.osm_id = t.osm_id WHERE ST_Intersects(g.geom, ST_Transform(ST_MakeEnvelope($1, $2, $3, $4, 4326), 3857))");
    sql
}

/// The query for the ways of a table that touch a rectangle; its corners are parameters.
pub fn ways_in_rectangle(table: &str) -> (r: String)
    ensures
        r@ == ways_query(table@, table@ + "_geom"@),
{
    ways_query_text(table, way_geom_table(table).as_str())
}

} // verus!
