//! The tables of the database and the statements that create, empty and index them.
use vstd::prelude::*;

use crate::text::{concat2, join, joined, strs};

verus! {

/// The edges of the graph, shared by all topics.
pub const EDGE_TABLE: &'static str = "edges";

/// The ways of each relation.
pub const MEMBER_TABLE: &'static str = "relation_members";

/// The vertices of the graph, shared by all topics.
pub const NODE_TABLE: &'static str = "nodes";

/// The shape a geometry table holds.
#[derive(Debug, Clone, Copy, PartialEq, Eq, Structural)]
pub enum GeomTableShape {
    LineString,
    MultiLineString,
    Point,
    Polygon,
}

impl GeomTableShape {
    /// The name of the shape in a column's type.
    pub open spec fn column_type(self) -> Seq<char> {
        match self {
            GeomTableShape::LineString => "LineString"@,
            GeomTableShape::MultiLineString => "MultiLineString"@,
            GeomTableShape::Point => "Point"@,
            GeomTableShape::Polygon => "Polygon"@,
        }
    }

    /// Whether the shape has a length.
    pub open spec fn is_line(self) -> bool {
        self == GeomTableShape::LineString || self == GeomTableShape::MultiLineString
    }

    /// The name of the shape in a column's type.
    pub fn pg_type(self) -> (r: &'static str)
        ensures
            r@ == self.column_type(),
    {
        match self {
            GeomTableShape::LineString => "LineString",
            GeomTableShape::MultiLineString => "MultiLineString",
            GeomTableShape::Point => "Point",
            GeomTableShape::Polygon => "Polygon",
        }
    }

    /// Whether the shape has a length.
    pub fn has_length(self) -> (r: bool)
        ensures
            r == self.is_line(),
    {
        matches!(self, GeomTableShape::LineString | GeomTableShape::MultiLineString)
    }
}

/// The table of the lines of a topic's ways.
pub fn way_geom_table(table: &str) -> (r: String)
    ensures
        r@ == table@ + "_geom"@,
{
    concat2(table, "_geom")
}

/// The table of the lines of a topic's relations.
pub fn relation_geom_table(table: &str) -> (r: String)
    ensures
        r@ == table@ + "_relation_geom"@,
{
    concat2(table, "_relation_geom")
}

/// The table of the centres of a topic's relations.
pub fn relation_point_table(table: &str) -> (r: String)
    ensures
        r@ == table@ + "_relation_point"@,
{
    concat2(table, "_relation_point")
}

/// The table of the areas of a topic's relations.
pub fn relation_polygon_table(table: &str) -> (r: String)
    ensures
        r@ == table@ + "_relation_polygon"@,
{
    concat2(table, "_relation_polygon")
}

/// The table of the points of a topic's nodes and ways.
pub fn point_table(table: &str) -> (r: String)
    ensures
        r@ == table@ + "_point"@,
{
    concat2(table, "_point")
}

/// The table of the areas of a topic's ways.
pub fn polygon_table(table: &str) -> (r: String)
    ensures
        r@ == table@ + "_polygon"@,
{
    concat2(table, "_polygon")
}

/// Creates the table of the ways of relations.
pub open spec fn member_table() -> Seq<char> {
    "\nCREATE TABLE IF NOT EXISTS "@
        + MEMBER_TABLE@
        + " (\n  relation_osm_id bigint,\n  way_osm_id      bigint\n)"@
}

/// Creates the table of the ways of relations.
pub fn create_member_table_sql() -> (r: String)
    ensures
        r@ == member_table(),
{
    let mut sql: String = "\nCREATE TABLE IF NOT EXISTS ".to_owned();
    sql.append(MEMBER_TABLE);
    sql.append(" (\n  relation_osm_id bigint,\n  way_osm_id      bigint\n)");
    sql
}

/// Drops the indexes of the table of the ways of relations.
pub open spec fn member_drops() -> Seq<char> {
    "DROP INDEX IF EXISTS "@
        + MEMBER_TABLE@
        + "_relation_idx;\nDROP INDEX IF EXISTS "@
        + MEMBER_TABLE@
        + "_way_idx"@
}

/// Drops the indexes of the table of the ways of relations.
pub fn drop_member_indexes_sql() -> (r: String)
    ensures
        r@ == member_drops(),
{
    let mut sql: String = "DROP INDEX IF EXISTS ".to_owned();
    sql.append(MEMBER_TABLE);
    sql.append("_relation_idx;\nDROP INDEX IF EXISTS ");
    sql.append(MEMBER_TABLE);
    sql.append("_way_idx");
    sql
}

/// Creates a topic's table; `id_column` is its id column, where it has one.
pub open spec fn tag_table_sql(table: Seq<char>, id_column: Seq<char>) -> Seq<char> {
    "\nCREATE TABLE IF NOT EXISTS "@
        + table
        + " (\n  osm_id    bigint,\n  osm_type  text,\n"@
        + id_column
        + "  category  text,\n  produced    jsonb,\n  annotations jsonb,\n  meta        jsonb\n)"@
}

/// Creates a topic's table; `id_column` is its id column, where it has one.
fn tag_table_text(table: &str, id_column: &str) -> (r: String)
    ensures
        r@ == tag_table_sql(table@, id_column@),
{
    let mut sql: String = "\nCREATE TABLE IF NOT EXISTS ".to_owned();
    sql.append(table);
    sql.append(" (\n  osm_id    bigint,\n  osm_type  text,\n");
    sql.append(id_column);
    sql.append("  category  text,\n  produced    jsonb,\n  annotations jsonb,\n  meta        jsonb\n)");
    sql
}

/// Creates a topic's table, with an id column where its rows have one.
pub open spec fn tag_table(table: Seq<char>, emits_id: bool) -> Seq<char> {
    tag_table_sql(
        table,
        if emits_id {
            "  id        text NOT NULL,\n"@
        } else {
            ""@
        },
    )
}

/// Creates a topic's table, with an id column where its rows have one.
pub fn create_tag_table_sql(table: &str, emits_id: bool) -> (r: String)
    ensures
        r@ == tag_table(table@, emits_id),
{
    if emits_id {
        tag_table_text(table, "  id        text NOT NULL,\n")
    } else {
        tag_table_text(table, "")
    }
}

/// Creates the table of edges.
pub open spec fn edge_table() -> Seq<char> {
    "\nCREATE TABLE IF NOT EXISTS "@
        + EDGE_TABLE@
        + " (\n  osm_id         bigint,\n  seg_idx        integer,\n  start_id       bigint,\n  end_id         bigint,\n  geom           geometry(LineString, 3857),\n  length_m       double precision,\n  total_length_m double precision,\n  cost           double precision,\n  reverse_cost   double precision\n)"@
}

/// Creates the table of edges.
pub fn create_edge_table_sql() -> (r: String)
    ensures
        r@ == edge_table(),
{
    let mut sql: String = "\nCREATE TABLE IF NOT EXISTS ".to_owned();
    sql.append(EDGE_TABLE);
    sql.append(" (\n  osm_id         bigint,\n  seg_idx        integer,\n  start_id       bigint,\n  end_id         bigint,\n  geom           geometry(LineString, 3857),\n  length_m       double precision,\n  total_length_m double precision,\n  cost           double precision,\n  reverse_cost   double precision\n)");
    sql
}

/// Creates the table of vertices.
pub open spec fn node_table() -> Seq<char> {
    "\nCREATE TABLE IF NOT EXISTS "@
        + NODE_TABLE@
        + " (\n  id     bigint,\n  osm_id bigint,\n  geom   geometry(Point, 3857)\n)"@
}

/// Creates the table of vertices.
pub fn create_node_table_sql() -> (r: String)
    ensures
        r@ == node_table(),
{
    let mut sql: String = "\nCREATE TABLE IF NOT EXISTS ".to_owned();
    sql.append(NODE_TABLE);
    sql.append(" (\n  id     bigint,\n  osm_id bigint,\n  geom   geometry(Point, 3857)\n)");
    sql
}

/// Creates a geometry table; `length_column` is its length column, where it has one.
pub open spec fn geom_table_sql(name: Seq<char>, shape: Seq<char>, length_column: Seq<char>) -> Seq<char> {
    "\nCREATE TABLE IF NOT EXISTS "@
        + name
        + " (\n  osm_id bigint,\n  geom   geometry("@
        + shape
        + ", 3857)"@
        + length_column
        + "\n)"@
}

/// Creates a geometry table; `length_column` is its length column, where it has one.
fn geom_table_text(name: &str, shape: &str, length_column: &str) -> (r: String)
    ensures
        r@ == geom_table_sql(name@, shape@, length_column@),
{
    let mut sql: String = "\nCREATE TABLE IF NOT EXISTS ".to_owned();
    sql.append(name);
    sql.append(" (\n  osm_id bigint,\n  geom   geometry(");
    sql.append(shape);
    sql.append(", 3857)");
    sql.append(length_column);
    sql.append("\n)");
    sql
}

/// Creates a geometry table, with a length column where the shape has a length.
pub open spec fn geom_table(name: Seq<char>, shape: GeomTableShape) -> Seq<char> {
    geom_table_sql(
        name,
        shape.column_type(),
        if shape.is_line() {
            ",\n  length_m double precision"@
        } else {
            ""@
        },
    )
}

/// Creates a geometry table, with a length column where the shape has a length.
pub fn create_geom_table_sql(name: &str, shape: GeomTableShape) -> (r: String)
    ensures
        r@ == geom_table(name@, shape),
{
    if shape.has_length() {
        geom_table_text(name, shape.pg_type(), ",\n  length_m double precision")
    } else {
        geom_table_text(name, shape.pg_type(), "")
    }
}

/// Drops the indexes of a geometry table.
pub open spec fn geom_drops(name: Seq<char>) -> Seq<char> {
    "DROP INDEX IF EXISTS "@
        + name
        + "_geom_idx;\nDROP INDEX IF EXISTS "@
        + name
        + "_osm_id_idx"@
}

/// Drops the indexes of a geometry table.
pub fn drop_geom_indexes_sql(name: &str) -> (r: String)
    ensures
        r@ == geom_drops(name@),
{
    let mut sql: String = "DROP INDEX IF EXISTS ".to_owned();
    sql.append(name);
    sql.append("_geom_idx;\nDROP INDEX IF EXISTS ");
    sql.append(name);
    sql.append("_osm_id_idx");
    sql
}

/// Drops the indexes of a topic's table.
pub open spec fn tag_drops(table: Seq<char>) -> Seq<char> {
    "DROP INDEX IF EXISTS "@
        + table
        + "_id_idx;\nDROP INDEX IF EXISTS "@
        + table
        + "_osm_id_idx"@
}

/// Drops the indexes of a topic's table.
pub fn drop_tag_indexes_sql(table: &str) -> (r: String)
    ensures
        r@ == tag_drops(table@),
{
    let mut sql: String = "DROP INDEX IF EXISTS ".to_owned();
    sql.append(table);
    sql.append("_id_idx;\nDROP INDEX IF EXISTS ");
    sql.append(table);
    sql.append("_osm_id_idx");
    sql
}

/// Drops the indexes of the table of edges.
pub open spec fn edge_drops() -> Seq<char> {
    "DROP INDEX IF EXISTS "@
        + EDGE_TABLE@
        + "_geom_idx;\nDROP INDEX IF EXISTS "@
        + EDGE_TABLE@
        + "_osm_id_idx"@
}

/// Drops the indexes of the table of edges.
pub fn drop_edge_indexes_sql() -> (r: String)
    ensures
        r@ == edge_drops(),
{
    let mut sql: String = "DROP INDEX IF EXISTS ".to_owned();
    sql.append(EDGE_TABLE);
    sql.append("_geom_idx;\nDROP INDEX IF EXISTS ");
    sql.append(EDGE_TABLE);
    sql.append("_osm_id_idx");
    sql
}

/// Drops the indexes of the table of vertices.
pub open spec fn node_drops() -> Seq<char> {
    "DROP INDEX IF EXISTS "@
        + NODE_TABLE@
        + "_geom_idx;\nDROP INDEX IF EXISTS "@
        + NODE_TABLE@
        + "_osm_id_idx;\nDROP INDEX IF EXISTS "@
        + NODE_TABLE@
        + "_id_idx"@
}

/// Drops the indexes of the table of vertices.
pub fn drop_node_indexes_sql() -> (r: String)
    ensures
        r@ == node_drops(),
{
    let mut sql: String = "DROP INDEX IF EXISTS ".to_owned();
    sql.append(NODE_TABLE);
    sql.append("_geom_idx;\nDROP INDEX IF EXISTS ");
    sql.append(NODE_TABLE);
    sql.append("_osm_id_idx;\nDROP INDEX IF EXISTS ");
    sql.append(NODE_TABLE);
    sql.append("_id_idx");
    sql
}

/// Builds an index over one column.
pub open spec fn plain_index(table: Seq<char>, index: Seq<char>, column: Seq<char>) -> Seq<char> {
    "CREATE INDEX IF NOT EXISTS "@
        + table
        + "_"@
        + index
        + " ON "@
        + table
        + " ("@
        + column
        + ")"@
}

/// Builds an index over one column.
fn plain_index_sql(table: &str, index: &str, column: &str) -> (r: String)
    ensures
        r@ == plain_index(table@, index@, column@),
{
    let mut sql: String = "CREATE INDEX IF NOT EXISTS ".to_owned();
    sql.append(table);
    sql.append("_");
    sql.append(index);
    sql.append(" ON ");
    sql.append(table);
    sql.append(" (");
    sql.append(column);
    sql.append(")");
    sql
}

/// Builds a spatial index.
pub open spec fn spatial_index(table: Seq<char>) -> Seq<char> {
    "CREATE INDEX IF NOT EXISTS "@
        + table
        + "_geom_idx ON "@
        + table
        + " USING GIST (geom)"@
}

/// Builds a spatial index.
fn spatial_index_sql(table: &str) -> (r: String)
    ensures
        r@ == spatial_index(table@),
{
    let mut sql: String = "CREATE INDEX IF NOT EXISTS ".to_owned();
    sql.append(table);
    sql.append("_geom_idx ON ");
    sql.append(table);
    sql.append(" USING GIST (geom)");
    sql
}

/// Builds the index over what tells rows apart.
pub open spec fn unique_index(table: Seq<char>, columns: Seq<char>) -> Seq<char> {
    "CREATE UNIQUE INDEX IF NOT EXISTS "@
        + table
        + "_id_idx ON "@
        + table
        + " ("@
        + columns
        + ")"@
}

/// Builds the index over what tells rows apart.
fn unique_index_sql(table: &str, columns: &str) -> (r: String)
    ensures
        r@ == unique_index(table@, columns@),
{
    let mut sql: String = "CREATE UNIQUE INDEX IF NOT EXISTS ".to_owned();
    sql.append(table);
    sql.append("_id_idx ON ");
    sql.append(table);
    sql.append(" (");
    sql.append(columns);
    sql.append(")");
    sql
}

/// The indexes of the table of the ways of relations.
pub open spec fn member_indexes() -> Seq<Seq<char>> {
    seq![
        plain_index(MEMBER_TABLE@, "relation_idx"@, "relation_osm_id"@),
        plain_index(MEMBER_TABLE@, "way_idx"@, "way_osm_id"@),
    ]
}

/// The indexes of the table of edges or of a geometry table: by place, and by object.
pub open spec fn geom_indexes(name: Seq<char>) -> Seq<Seq<char>> {
    seq![spatial_index(name), plain_index(name, "osm_id_idx"@, "osm_id"@)]
}

/// The indexes of the table of vertices.
pub open spec fn node_indexes() -> Seq<Seq<char>> {
    geom_indexes(NODE_TABLE@).push(unique_index(NODE_TABLE@, "id"@))
}

/// The indexes of a topic's table. Rows without an id are told apart by kind and number.
pub open spec fn tag_indexes(table: Seq<char>, emits_id: bool) -> Seq<Seq<char>> {
    seq![
        unique_index(
            table,
            if emits_id {
                "id"@
            } else {
                "osm_type, osm_id"@
            },
        ),
        plain_index(table, "osm_id_idx"@, "osm_id"@),
    ]
}

/// The indexes of the table of the ways of relations.
pub fn member_index_stmts() -> (r: Vec<String>)
    ensures
        strs(r@) == member_indexes(),
{
    let r: Vec<String> = vec![
        plain_index_sql(MEMBER_TABLE, "relation_idx", "relation_osm_id"),
        plain_index_sql(MEMBER_TABLE, "way_idx", "way_osm_id"),
    ];
    assert(strs(r@) =~= member_indexes());
    r
}

/// The indexes of a geometry table.
pub fn geom_index_stmts(name: &str) -> (r: Vec<String>)
    ensures
        strs(r@) == geom_indexes(name@),
{
    let r: Vec<String> = vec![
        spatial_index_sql(name),
        plain_index_sql(name, "osm_id_idx", "osm_id"),
    ];
    assert(strs(r@) =~= geom_indexes(name@));
    r
}

/// The indexes of a topic's table.
pub fn tag_index_stmts(table: &str, emits_id: bool) -> (r: Vec<String>)
    ensures
        strs(r@) == tag_indexes(table@, emits_id),
{
    let unique: String = if emits_id {
        unique_index_sql(table, "id")
    } else {
        unique_index_sql(table, "osm_type, osm_id")
    };
    let r: Vec<String> = vec![unique, plain_index_sql(table, "osm_id_idx", "osm_id")];
    assert(strs(r@) =~= tag_indexes(table@, emits_id));
    r
}

/// The indexes of the table of edges.
pub fn edge_index_stmts() -> (r: Vec<String>)
    ensures
        strs(r@) == geom_indexes(EDGE_TABLE@),
{
    geom_index_stmts(EDGE_TABLE)
}

/// The indexes of the table of vertices.
pub fn node_index_stmts() -> (r: Vec<String>)
    ensures
        strs(r@) == node_indexes(),
{
    let mut r: Vec<String> = geom_index_stmts(NODE_TABLE);
    let ghost before = strs(r@);
    r.push(unique_index_sql(NODE_TABLE, "id"));
    assert(strs(r@) =~= before.push(unique_index(NODE_TABLE@, "id"@)));
    r
}

/// Topics' tables: the name of each, and whether its rows have an id.
pub open spec fn tag_tables(v: Seq<(String, bool)>) -> Seq<(Seq<char>, bool)> {
    v.map_values(|t: (String, bool)| (t.0@, t.1))
}

/// Geometry tables: the name and the shape of each.
pub open spec fn shaped_tables(v: Seq<(String, GeomTableShape)>) -> Seq<
    (Seq<char>, GeomTableShape),
> {
    v.map_values(|t: (String, GeomTableShape)| (t.0@, t.1))
}

/// Statements grouped by table.
pub open spec fn units(v: Seq<Vec<String>>) -> Seq<Seq<Seq<char>>> {
    v.map_values(|u: Vec<String>| strs(u@))
}

/// What belongs to the graph, where it is wanted.
pub open spec fn graph_part<T>(emit_graph: bool, edge: T, node: T) -> Seq<T> {
    if emit_graph {
        seq![edge, node]
    } else {
        Seq::empty()
    }
}

/// All tables, in the order they are set up.
pub open spec fn table_names(
    tables: Seq<(Seq<char>, bool)>,
    geom_tables: Seq<(Seq<char>, GeomTableShape)>,
    emit_graph: bool,
) -> Seq<Seq<char>> {
    tables.map_values(|t: (Seq<char>, bool)| t.0) + graph_part(
        emit_graph,
        EDGE_TABLE@,
        NODE_TABLE@,
    ) + seq![MEMBER_TABLE@] + geom_tables.map_values(|t: (Seq<char>, GeomTableShape)| t.0)
}

/// Creates all tables.
pub open spec fn creates(
    tables: Seq<(Seq<char>, bool)>,
    geom_tables: Seq<(Seq<char>, GeomTableShape)>,
    emit_graph: bool,
) -> Seq<Seq<char>> {
    tables.map_values(|t: (Seq<char>, bool)| tag_table(t.0, t.1)) + graph_part(
        emit_graph,
        edge_table(),
        node_table(),
    ) + seq![member_table()] + geom_tables.map_values(
        |t: (Seq<char>, GeomTableShape)| geom_table(t.0, t.1),
    )
}

/// Drops the indexes of all tables.
pub open spec fn drops(
    tables: Seq<(Seq<char>, bool)>,
    geom_tables: Seq<(Seq<char>, GeomTableShape)>,
    emit_graph: bool,
) -> Seq<Seq<char>> {
    tables.map_values(|t: (Seq<char>, bool)| tag_drops(t.0)) + graph_part(
        emit_graph,
        edge_drops(),
        node_drops(),
    ) + seq![member_drops()] + geom_tables.map_values(
        |t: (Seq<char>, GeomTableShape)| geom_drops(t.0),
    )
}

/// Builds the indexes of all tables, one group of statements for each table.
pub open spec fn index_groups(
    tables: Seq<(Seq<char>, bool)>,
    geom_tables: Seq<(Seq<char>, GeomTableShape)>,
    emit_graph: bool,
) -> Seq<Seq<Seq<char>>> {
    tables.map_values(|t: (Seq<char>, bool)| tag_indexes(t.0, t.1)) + graph_part(
        emit_graph,
        geom_indexes(EDGE_TABLE@),
        node_indexes(),
    ) + seq![member_indexes()] + geom_tables.map_values(
        |t: (Seq<char>, GeomTableShape)| geom_indexes(t.0),
    )
}

/// Every table is created, emptied, and loses and gets its indexes in the same place of the order;
/// the two tables of the graph are left alone where no topic wants the graph.
pub proof fn every_table_is_set_up(
    tables: Seq<(Seq<char>, bool)>,
    geom_tables: Seq<(Seq<char>, GeomTableShape)>,
    emit_graph: bool,
)
    ensures
        ({
            let n = tables.len() + geom_tables.len() + if emit_graph {
                3nat
            } else {
                1nat
            };
            let names = table_names(tables, geom_tables, emit_graph);
            &&& names.len() == n
            &&& creates(tables, geom_tables, emit_graph).len() == n
            &&& drops(tables, geom_tables, emit_graph).len() == n
            &&& index_groups(tables, geom_tables, emit_graph).len() == n
            &&& forall|i: int|
                0 <= i < tables.len() ==> {
                    &&& #[trigger] names[i] == tables[i].0
                    &&& creates(tables, geom_tables, emit_graph)[i] == tag_table(
                        tables[i].0,
                        tables[i].1,
                    )
                    &&& drops(tables, geom_tables, emit_graph)[i] == tag_drops(tables[i].0)
                    &&& index_groups(tables, geom_tables, emit_graph)[i] == tag_indexes(
                        tables[i].0,
                        tables[i].1,
                    )
                }
            &&& emit_graph == (names.len() == tables.len() + geom_tables.len() + 3)
        }),
{
}

/// All tables, in the order they are set up.
pub fn all_tables(
    tables: &Vec<(String, bool)>,
    geom_tables: &Vec<(String, GeomTableShape)>,
    emit_graph: bool,
) -> (r: Vec<String>)
    ensures
        strs(r@) == table_names(tag_tables(tables@), shaped_tables(geom_tables@), emit_graph),
{
    let ghost tags = tag_tables(tables@).map_values(|t: (Seq<char>, bool)| t.0);
    let ghost geoms = shaped_tables(geom_tables@).map_values(
        |t: (Seq<char>, GeomTableShape)| t.0,
    );
    let mut out: Vec<String> = Vec::new();
    let mut i: usize = 0;
    while i < tables.len()
        invariant
            i <= tables@.len(),
            tags == tag_tables(tables@).map_values(|t: (Seq<char>, bool)| t.0),
            strs(out@) =~= tags.take(i as int),
        decreases tables.len() - i,
    {
        let one: String = tables[i].0.clone();
        let ghost before = strs(out@);
        out.push(one);
        proof {
            assert(tag_tables(tables@)[i as int] == (tables@[i as int].0@, tables@[i as int].1));
            assert(tags[i as int] == one@);
            assert(strs(out@) =~= before.push(one@));
        }
        i = i + 1;
    }
    assert(tags.take(i as int) =~= tags);
    if emit_graph {
        out.push(EDGE_TABLE.to_owned());
        out.push(NODE_TABLE.to_owned());
    }
    out.push(MEMBER_TABLE.to_owned());
    let ghost fixed = graph_part(emit_graph, EDGE_TABLE@, NODE_TABLE@) + seq![
        MEMBER_TABLE@,
    ];
    assert(strs(out@) =~= tags + fixed);
    let mut j: usize = 0;
    assert(strs(out@) =~= tags + fixed + geoms.take(0));
    while j < geom_tables.len()
        invariant
            j <= geom_tables@.len(),
            geoms == shaped_tables(geom_tables@).map_values(
                |t: (Seq<char>, GeomTableShape)| t.0,
            ),
            strs(out@) =~= tags + fixed + geoms.take(j as int),
        decreases geom_tables.len() - j,
    {
        let one: String = geom_tables[j].0.clone();
        let ghost before = strs(out@);
        out.push(one);
        proof {
            assert(shaped_tables(geom_tables@)[j as int] == (
                geom_tables@[j as int].0@,
                geom_tables@[j as int].1,
            ));
            assert(geoms[j as int] == one@);
            assert(strs(out@) =~= before.push(one@));
            assert(geoms.take(j + 1) =~= geoms.take(j as int).push(geoms[j as int]));
        }
        j = j + 1;
    }
    assert(geoms.take(j as int) =~= geoms);
    assert(strs(out@) =~= table_names(tag_tables(tables@), shaped_tables(geom_tables@), emit_graph));
    out
}

/// The statements that create all tables.
pub fn create_statements(
    tables: &Vec<(String, bool)>,
    geom_tables: &Vec<(String, GeomTableShape)>,
    emit_graph: bool,
) -> (r: Vec<String>)
    ensures
        strs(r@) == creates(tag_tables(tables@), shaped_tables(geom_tables@), emit_graph),
{
    let ghost tags = tag_tables(tables@).map_values(|t: (Seq<char>, bool)| tag_table(t.0, t.1));
    let ghost geoms = shaped_tables(geom_tables@).map_values(
        |t: (Seq<char>, GeomTableShape)| geom_table(t.0, t.1),
    );
    let mut out: Vec<String> = Vec::new();
    let mut i: usize = 0;
    while i < tables.len()
        invariant
            i <= tables@.len(),
            tags == tag_tables(tables@).map_values(|t: (Seq<char>, bool)| tag_table(t.0, t.1)),
            strs(out@) =~= tags.take(i as int),
        decreases tables.len() - i,
    {
        let one: String = create_tag_table_sql(tables[i].0.as_str(), tables[i].1);
        let ghost before = strs(out@);
        out.push(one);
        proof {
            assert(tag_tables(tables@)[i as int] == (tables@[i as int].0@, tables@[i as int].1));
            assert(tags[i as int] == one@);
            assert(strs(out@) =~= before.push(one@));
        }
        i = i + 1;
    }
    assert(tags.take(i as int) =~= tags);
    if emit_graph {
        out.push(create_edge_table_sql());
        out.push(create_node_table_sql());
    }
    out.push(create_member_table_sql());
    let ghost fixed = graph_part(emit_graph, edge_table(), node_table()) + seq![
        member_table(),
    ];
    assert(strs(out@) =~= tags + fixed);
    let mut j: usize = 0;
    assert(strs(out@) =~= tags + fixed + geoms.take(0));
    while j < geom_tables.len()
        invariant
            j <= geom_tables@.len(),
            geoms == shaped_tables(geom_tables@).map_values(
                |t: (Seq<char>, GeomTableShape)| geom_table(t.0, t.1),
            ),
            strs(out@) =~= tags + fixed + geoms.take(j as int),
        decreases geom_tables.len() - j,
    {
        let one: String = create_geom_table_sql(geom_tables[j].0.as_str(), geom_tables[j].1);
        let ghost before = strs(out@);
        out.push(one);
        proof {
            assert(shaped_tables(geom_tables@)[j as int] == (
                geom_tables@[j as int].0@,
                geom_tables@[j as int].1,
            ));
            assert(geoms[j as int] == one@);
            assert(strs(out@) =~= before.push(one@));
            assert(geoms.take(j + 1) =~= geoms.take(j as int).push(geoms[j as int]));
        }
        j = j + 1;
    }
    assert(geoms.take(j as int) =~= geoms);
    assert(strs(out@) =~= creates(tag_tables(tables@), shaped_tables(geom_tables@), emit_graph));
    out
}

/// The statements that drop the indexes of all tables.
pub fn drop_index_statements(
    tables: &Vec<(String, bool)>,
    geom_tables: &Vec<(String, GeomTableShape)>,
    emit_graph: bool,
) -> (r: Vec<String>)
    ensures
        strs(r@) == drops(tag_tables(tables@), shaped_tables(geom_tables@), emit_graph),
{
    let ghost tags = tag_tables(tables@).map_values(|t: (Seq<char>, bool)| tag_drops(t.0));
    let ghost geoms = shaped_tables(geom_tables@).map_values(
        |t: (Seq<char>, GeomTableShape)| geom_drops(t.0),
    );
    let mut out: Vec<String> = Vec::new();
    let mut i: usize = 0;
    while i < tables.len()
        invariant
            i <= tables@.len(),
            tags == tag_tables(tables@).map_values(|t: (Seq<char>, bool)| tag_drops(t.0)),
            strs(out@) =~= tags.take(i as int),
        decreases tables.len() - i,
    {
        let one: String = drop_tag_indexes_sql(tables[i].0.as_str());
        let ghost before = strs(out@);
        out.push(one);
        proof {
            assert(tag_tables(tables@)[i as int] == (tables@[i as int].0@, tables@[i as int].1));
            assert(tags[i as int] == one@);
            assert(strs(out@) =~= before.push(one@));
        }
        i = i + 1;
    }
    assert(tags.take(i as int) =~= tags);
    if emit_graph {
        out.push(drop_edge_indexes_sql());
        out.push(drop_node_indexes_sql());
    }
    out.push(drop_member_indexes_sql());
    let ghost fixed = graph_part(emit_graph, edge_drops(), node_drops()) + seq![
        member_drops(),
    ];
    assert(strs(out@) =~= tags + fixed);
    let mut j: usize = 0;
    assert(strs(out@) =~= tags + fixed + geoms.take(0));
    while j < geom_tables.len()
        invariant
            j <= geom_tables@.len(),
            geoms == shaped_tables(geom_tables@).map_values(
                |t: (Seq<char>, GeomTableShape)| geom_drops(t.0),
            ),
            strs(out@) =~= tags + fixed + geoms.take(j as int),
        decreases geom_tables.len() - j,
    {
        let one: String = drop_geom_indexes_sql(geom_tables[j].0.as_str());
        let ghost before = strs(out@);
        out.push(one);
        proof {
            assert(shaped_tables(geom_tables@)[j as int] == (
                geom_tables@[j as int].0@,
                geom_tables@[j as int].1,
            ));
            assert(geoms[j as int] == one@);
            assert(strs(out@) =~= before.push(one@));
            assert(geoms.take(j + 1) =~= geoms.take(j as int).push(geoms[j as int]));
        }
        j = j + 1;
    }
    assert(geoms.take(j as int) =~= geoms);
    assert(strs(out@) =~= drops(tag_tables(tables@), shaped_tables(geom_tables@), emit_graph));
    out
}

/// The statements that build the indexes, grouped by table: groups can run side by side.
pub fn index_units(
    tables: &Vec<(String, bool)>,
    geom_tables: &Vec<(String, GeomTableShape)>,
    emit_graph: bool,
) -> (r: Vec<Vec<String>>)
    ensures
        units(r@) == index_groups(tag_tables(tables@), shaped_tables(geom_tables@), emit_graph),
{
    let ghost tags = tag_tables(tables@).map_values(|t: (Seq<char>, bool)| tag_indexes(t.0, t.1));
    let ghost geoms = shaped_tables(geom_tables@).map_values(
        |t: (Seq<char>, GeomTableShape)| geom_indexes(t.0),
    );
    let mut out: Vec<Vec<String>> = Vec::new();
    let mut i: usize = 0;
    while i < tables.len()
        invariant
            i <= tables@.len(),
            tags == tag_tables(tables@).map_values(|t: (Seq<char>, bool)| tag_indexes(t.0, t.1)),
            units(out@) =~= tags.take(i as int),
        decreases tables.len() - i,
    {
        let one: Vec<String> = tag_index_stmts(tables[i].0.as_str(), tables[i].1);
        let ghost before = units(out@);
        out.push(one);
        proof {
            assert(tag_tables(tables@)[i as int] == (tables@[i as int].0@, tables@[i as int].1));
            assert(tags[i as int] == strs(one@));
            assert(units(out@) =~= before.push(strs(one@)));
        }
        i = i + 1;
    }
    assert(tags.take(i as int) =~= tags);
    if emit_graph {
        out.push(edge_index_stmts());
        out.push(node_index_stmts());
    }
    out.push(member_index_stmts());
    let ghost fixed = graph_part(emit_graph, geom_indexes(EDGE_TABLE@), node_indexes()) + seq![
        member_indexes(),
    ];
    assert(units(out@) =~= tags + fixed);
    let mut j: usize = 0;
    assert(units(out@) =~= tags + fixed + geoms.take(0));
    while j < geom_tables.len()
        invariant
            j <= geom_tables@.len(),
            geoms == shaped_tables(geom_tables@).map_values(
                |t: (Seq<char>, GeomTableShape)| geom_indexes(t.0),
            ),
            units(out@) =~= tags + fixed + geoms.take(j as int),
        decreases geom_tables.len() - j,
    {
        let one: Vec<String> = geom_index_stmts(geom_tables[j].0.as_str());
        let ghost before = units(out@);
        out.push(one);
        proof {
            assert(shaped_tables(geom_tables@)[j as int] == (
                geom_tables@[j as int].0@,
                geom_tables@[j as int].1,
            ));
            assert(geoms[j as int] == strs(one@));
            assert(units(out@) =~= before.push(strs(one@)));
            assert(geoms.take(j + 1) =~= geoms.take(j as int).push(geoms[j as int]));
        }
        j = j + 1;
    }
    assert(geoms.take(j as int) =~= geoms);
    assert(units(out@) =~= index_groups(tag_tables(tables@), shaped_tables(geom_tables@), emit_graph));
    out
}

/// The statement that empties all tables.
pub fn truncate_statement(
    tables: &Vec<(String, bool)>,
    geom_tables: &Vec<(String, GeomTableShape)>,
    emit_graph: bool,
) -> (r: String)
    ensures
        r@ == "TRUNCATE TABLE "@ + joined(
            table_names(tag_tables(tables@), shaped_tables(geom_tables@), emit_graph),
            ", "@,
        ),
{
    let names: Vec<String> = all_tables(tables, geom_tables, emit_graph);
    concat2("TRUNCATE TABLE ", join(&names, ", ").as_str())
}

} // verus!
