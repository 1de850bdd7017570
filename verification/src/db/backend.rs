//! What the database is told before and after a run, and which geometry tables a run needs.
use vstd::prelude::*;

use crate::config::{Config, TopicEdgeMode};
use crate::db::schema::{
    create_statements, creates, drop_index_statements, drops, index_groups, index_units,
    point_table, polygon_table, relation_geom_table, relation_point_table, relation_polygon_table,
    shaped_tables, table_names, tag_tables, truncate_statement, units, way_geom_table,
    GeomTableShape,
};
use crate::db::topic_edges::{
    edge_id_index, edge_place_index, edge_projection, extra_columns, topic_edge_statements,
};
use crate::geom::plan::{GeometryOutput, GeometryShape};
use crate::text::{joined, strs};

verus! {

/// What is said before a run: all tables are created, emptied where the run asks for it, and lose
/// their indexes.
pub open spec fn setup_steps(
    tables: Seq<(Seq<char>, bool)>,
    geom_tables: Seq<(Seq<char>, GeomTableShape)>,
    emit_graph: bool,
    truncate: bool,
) -> Seq<Seq<char>> {
    let empty = if truncate {
        seq!["TRUNCATE TABLE "@ + joined(table_names(tables, geom_tables, emit_graph), ", "@)]
    } else {
        Seq::empty()
    };
    creates(tables, geom_tables, emit_graph) + empty + drops(tables, geom_tables, emit_graph)
}

/// The statements before a run.
pub fn setup_statements(
    cfg: &Config,
    tables: &Vec<(String, bool)>,
    geom_tables: &Vec<(String, GeomTableShape)>,
    emit_graph: bool,
) -> (r: Vec<String>)
    ensures
        strs(r@) == setup_steps(
            tag_tables(tables@),
            shaped_tables(geom_tables@),
            emit_graph,
            cfg.truncate,
        ),
{
    let mut r: Vec<String> = create_statements(tables, geom_tables, emit_graph);
    let ghost first = strs(r@);
    let ghost mut empty: Seq<Seq<char>> = Seq::empty();
    if cfg.truncate {
        let one: String = truncate_statement(tables, geom_tables, emit_graph);
        proof {
            empty = seq![one@];
        }
        r.push(one);
    }
    assert(strs(r@) =~= first + empty);
    let mut more: Vec<String> = drop_index_statements(tables, geom_tables, emit_graph);
    let ghost last = strs(more@);
    r.append(&mut more);
    assert(strs(r@) =~= first + empty + last);
    r
}

/// How many connections the pool holds: those that write at the same time, and two more.
pub fn pool_size(cfg: &Config, n_tag_tables: usize, extra_tables: usize) -> (r: usize)
    requires
        (n_tag_tables + extra_tables) * (if cfg.db_writers == 0 {
            1
        } else {
            cfg.db_writers as int
        }) + 2 <= usize::MAX,
    ensures
        r == (n_tag_tables + extra_tables) * (if cfg.db_writers == 0 {
            1
        } else {
            cfg.db_writers as int
        }) + 2,
{
    let k: usize = cfg.writers();
    proof {
        assert(n_tag_tables + extra_tables <= (n_tag_tables + extra_tables) * k) by (
            nonlinear_arith)
            requires
                k >= 1,
        ;
    }
    (n_tag_tables + extra_tables) * k + 2
}

/// The index statements after a run, one group for each table; none where the run builds none.
pub fn finalize_indexes(
    cfg: &Config,
    tables: &Vec<(String, bool)>,
    geom_tables: &Vec<(String, GeomTableShape)>,
    emit_graph: bool,
) -> (r: Vec<Vec<String>>)
    ensures
        units(r@) == if cfg.create_index {
            index_groups(tag_tables(tables@), shaped_tables(geom_tables@), emit_graph)
        } else {
            Seq::empty()
        },
{
    if cfg.create_index {
        index_units(tables, geom_tables, emit_graph)
    } else {
        let none: Vec<Vec<String>> = Vec::new();
        assert(units(none@) =~= Seq::<Seq<Seq<char>>>::empty());
        none
    }
}

/// The statements that make one routing table.
pub open spec fn routing_steps(
    table: Seq<char>,
    mode: TopicEdgeMode,
    create_index: bool,
) -> Seq<Seq<char>> {
    if create_index {
        seq![
            edge_projection(table, extra_columns(mode)),
            edge_place_index(table),
            edge_id_index(table),
        ]
    } else {
        seq![edge_projection(table, extra_columns(mode))]
    }
}

/// The statements that make the routing tables of the topics that want the graph, in order.
pub open spec fn all_routing_steps(
    tables: Seq<Seq<char>>,
    topics: Seq<GeometryOutput>,
    mode: TopicEdgeMode,
    create_index: bool,
    n: nat,
) -> Seq<Seq<char>>
    decreases n,
{
    if n == 0 {
        Seq::empty()
    } else {
        let before = all_routing_steps(tables, topics, mode, create_index, (n - 1) as nat);
        if topics[n - 1].way_graph {
            before + routing_steps(tables[n - 1], mode, create_index)
        } else {
            before
        }
    }
}

/// The statements that make the routing tables after a run.
pub fn finalize_edges(cfg: &Config, tables: &Vec<String>, topics: &Vec<GeometryOutput>) -> (r: Vec<
    String,
>)
    requires
        tables@.len() == topics@.len(),
    ensures
        strs(r@) == all_routing_steps(
            strs(tables@),
            topics@,
            cfg.topic_edges,
            cfg.create_index,
            topics@.len(),
        ),
{
    let mut out: Vec<String> = Vec::new();
    let mut i: usize = 0;
    assert(strs(out@) =~= Seq::<Seq<char>>::empty());
    while i < topics.len()
        invariant
            i <= topics@.len(),
            tables@.len() == topics@.len(),
            strs(out@) == all_routing_steps(
                strs(tables@),
                topics@,
                cfg.topic_edges,
                cfg.create_index,
                i as nat,
            ),
        decreases topics.len() - i,
    {
        if topics[i].way_graph {
            let mut more: Vec<String> = topic_edge_statements(
                tables[i].as_str(),
                cfg.topic_edges,
                cfg.create_index,
            );
            let ghost before = strs(out@);
            let ghost last = strs(more@);
            out.append(&mut more);
            proof {
                assert(strs(tables@)[i as int] == tables@[i as int]@);
                assert(strs(out@) =~= before + last);
            }
        }
        i = i + 1;
    }
    out
}

/// The geometry tables a topic can have.
#[derive(Debug, Clone, Copy, PartialEq, Eq, Structural)]
pub enum Slot {
    WayLine,
    WayPolygon,
    Point,
    RelationLine,
    RelationPoint,
    RelationPolygon,
}

/// Whether a topic has a table of a kind. The points of its nodes and of its ways share one.
pub open spec fn fills(topic: GeometryOutput, slot: Slot) -> bool {
    match slot {
        Slot::WayLine => topic.way == Some(GeometryShape::Line),
        Slot::WayPolygon => topic.way == Some(GeometryShape::Polygon),
        Slot::Point => topic.node is Some || topic.way == Some(GeometryShape::Point),
        Slot::RelationLine => topic.relation == Some(GeometryShape::Line),
        Slot::RelationPoint => topic.relation == Some(GeometryShape::Point),
        Slot::RelationPolygon => topic.relation == Some(GeometryShape::Polygon),
    }
}

/// The name and the shape of a topic's table of a kind.
pub open spec fn slot_table(table: Seq<char>, slot: Slot) -> (Seq<char>, GeomTableShape) {
    match slot {
        Slot::WayLine => (table + "_geom"@, GeomTableShape::LineString),
        Slot::WayPolygon => (table + "_polygon"@, GeomTableShape::Polygon),
        Slot::Point => (table + "_point"@, GeomTableShape::Point),
        Slot::RelationLine => (table + "_relation_geom"@, GeomTableShape::MultiLineString),
        Slot::RelationPoint => (table + "_relation_point"@, GeomTableShape::Point),
        Slot::RelationPolygon => (table + "_relation_polygon"@, GeomTableShape::Polygon),
    }
}

/// The tables of a kind of the first `n` topics, in order.
pub open spec fn slot_tables(
    tables: Seq<Seq<char>>,
    topics: Seq<GeometryOutput>,
    slot: Slot,
    n: nat,
) -> Seq<(Seq<char>, GeomTableShape)>
    decreases n,
{
    if n == 0 {
        Seq::empty()
    } else {
        let before = slot_tables(tables, topics, slot, (n - 1) as nat);
        if fills(topics[n - 1], slot) {
            before.push(slot_table(tables[n - 1], slot))
        } else {
            before
        }
    }
}

/// All geometry tables of a run: those of one kind after those of another.
pub open spec fn geometry_tables(
    tables: Seq<Seq<char>>,
    topics: Seq<GeometryOutput>,
) -> Seq<(Seq<char>, GeomTableShape)> {
    let n = topics.len();
    slot_tables(tables, topics, Slot::WayLine, n) + slot_tables(
        tables,
        topics,
        Slot::WayPolygon,
        n,
    ) + slot_tables(tables, topics, Slot::Point, n) + slot_tables(
        tables,
        topics,
        Slot::RelationLine,
        n,
    ) + slot_tables(tables, topics, Slot::RelationPoint, n) + slot_tables(
        tables,
        topics,
        Slot::RelationPolygon,
        n,
    )
}

fn add_slot(
    out: &mut Vec<(String, GeomTableShape)>,
    tables: &Vec<String>,
    topics: &Vec<GeometryOutput>,
    slot: Slot,
)
    requires
        tables@.len() == topics@.len(),
    ensures
        shaped_tables(final(out)@) == shaped_tables(old(out)@) + slot_tables(
            strs(tables@),
            topics@,
            slot,
            topics@.len(),
        ),
{
    let ghost start = shaped_tables(out@);
    let mut i: usize = 0;
    assert(start + slot_tables(strs(tables@), topics@, slot, 0) =~= start);
    while i < topics.len()
        invariant
            i <= topics@.len(),
            tables@.len() == topics@.len(),
            shaped_tables(out@) == start + slot_tables(strs(tables@), topics@, slot, i as nat),
        decreases topics.len() - i,
    {
        let topic: &GeometryOutput = &topics[i];
        let table: &str = tables[i].as_str();
        let fits: bool = match slot {
            Slot::WayLine => topic.way == Some(GeometryShape::Line),
            Slot::WayPolygon => topic.way == Some(GeometryShape::Polygon),
            Slot::Point => topic.node.is_some() || topic.way == Some(GeometryShape::Point),
            Slot::RelationLine => topic.relation == Some(GeometryShape::Line),
            Slot::RelationPoint => topic.relation == Some(GeometryShape::Point),
            Slot::RelationPolygon => topic.relation == Some(GeometryShape::Polygon),
        };
        if fits {
            let entry: (String, GeomTableShape) = match slot {
                Slot::WayLine => (way_geom_table(table), GeomTableShape::LineString),
                Slot::WayPolygon => (polygon_table(table), GeomTableShape::Polygon),
                Slot::Point => (point_table(table), GeomTableShape::Point),
                Slot::RelationLine => (relation_geom_table(table), GeomTableShape::MultiLineString),
                Slot::RelationPoint => (relation_point_table(table), GeomTableShape::Point),
                Slot::RelationPolygon => (relation_polygon_table(table), GeomTableShape::Polygon),
            };
            let ghost before = shaped_tables(out@);
            let ghost added = (entry.0@, entry.1);
            out.push(entry);
            proof {
                assert(strs(tables@)[i as int] == tables@[i as int]@);
                assert(shaped_tables(out@) =~= before.push(added));
                let listed = slot_tables(strs(tables@), topics@, slot, i as nat);
                assert((start + listed).push(added) =~= start + listed.push(added));
            }
        }
        i = i + 1;
    }
}

/// The geometry tables of a run, in the order they are set up.
pub fn plan_geometry_tables(tables: &Vec<String>, topics: &Vec<GeometryOutput>) -> (r: Vec<
    (String, GeomTableShape),
>)
    requires
        tables@.len() == topics@.len(),
    ensures
        shaped_tables(r@) == geometry_tables(strs(tables@), topics@),
{
    let mut out: Vec<(String, GeomTableShape)> = Vec::new();
    add_slot(&mut out, tables, topics, Slot::WayLine);
    assert(Seq::<(Seq<char>, GeomTableShape)>::empty() + slot_tables(
        strs(tables@),
        topics@,
        Slot::WayLine,
        topics@.len(),
    ) =~= slot_tables(strs(tables@), topics@, Slot::WayLine, topics@.len()));
    add_slot(&mut out, tables, topics, Slot::WayPolygon);
    add_slot(&mut out, tables, topics, Slot::Point);
    add_slot(&mut out, tables, topics, Slot::RelationLine);
    add_slot(&mut out, tables, topics, Slot::RelationPoint);
    add_slot(&mut out, tables, topics, Slot::RelationPolygon);
    out
}

/// How many tables beside the topics' own are written at the same time: the ways of relations, the
/// two of the graph where it is wanted, and the geometry tables of ways and nodes.
pub fn extra_tables(tables: &Vec<String>, topics: &Vec<GeometryOutput>, emit_graph: bool) -> (r:
    Option<usize>)
    requires
        tables@.len() == topics@.len(),
    ensures
        ({
            let names = strs(tables@);
            let n = topics@.len();
            let count = 1 + (if emit_graph {
                2int
            } else {
                0int
            }) + slot_tables(names, topics@, Slot::WayLine, n).len() + slot_tables(
                names,
                topics@,
                Slot::WayPolygon,
                n,
            ).len() + slot_tables(names, topics@, Slot::Point, n).len();
            match r {
                Some(k) => k == count,
                None => count > usize::MAX,
            }
        }),
{
    let mut out: Vec<(String, GeomTableShape)> = Vec::new();
    add_slot(&mut out, tables, topics, Slot::WayLine);
    add_slot(&mut out, tables, topics, Slot::WayPolygon);
    add_slot(&mut out, tables, topics, Slot::Point);
    assert(shaped_tables(out@).len() == out@.len());
    let fixed: usize = if emit_graph {
        3
    } else {
        1
    };
    out.len().checked_add(fixed)
}

} // verus!
