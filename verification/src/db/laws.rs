//! Which tables a run has, and which statements are run on them.
use vstd::prelude::*;

use crate::config::TopicEdgeMode;
use crate::db::backend::{
    all_routing_steps, fills, geometry_tables, routing_steps, setup_steps, slot_table, slot_tables,
    Slot,
};
use crate::db::relations::relation_steps;
use crate::db::schema::{creates, drops, table_names, GeomTableShape};
use crate::db::topic_edges::{edge_projection, extra_columns};
use crate::geom::plan::{GeometryOutput, GeometryShape};
use crate::text::joined;

verus! {

// ── Geometry tables ─────────────────────────────────────────────────────────────────────────

proof fn lemma_listed(
    tables: Seq<Seq<char>>,
    topics: Seq<GeometryOutput>,
    slot: Slot,
    n: nat,
    i: int,
)
    requires
        0 <= i < n <= topics.len(),
        tables.len() == topics.len(),
        fills(topics[i], slot),
    ensures
        slot_tables(tables, topics, slot, n).contains(
            slot_table(tables[i], slot),
        ),
    decreases n,
{
    let before = slot_tables(tables, topics, slot, (n - 1) as nat);
    let now = slot_tables(tables, topics, slot, n);
    if i == n - 1 {
        assert(now[before.len() as int] == slot_table(tables[i], slot));
    } else {
        lemma_listed(tables, topics, slot, (n - 1) as nat, i);
        let k = before.index_of(slot_table(tables[i], slot));
        assert(now[k] == before[k]);
    }
}

/// Whether a run has a geometry table of a name and a shape.
pub open spec fn has_table(
    all: Seq<(Seq<char>, GeomTableShape)>,
    name: Seq<char>,
    shape: GeomTableShape,
) -> bool {
    exists|k: int| 0 <= k < all.len() && #[trigger] all[k] == (name, shape)
}

proof fn lemma_parts(
    tables: Seq<Seq<char>>,
    topics: Seq<GeometryOutput>,
    slot: Slot,
    x: (Seq<char>, GeomTableShape),
)
    requires
        slot_tables(tables, topics, slot, topics.len()).contains(x),
    ensures
        has_table(geometry_tables(tables, topics), x.0, x.1),
{
    let n = topics.len();
    let a = slot_tables(tables, topics, Slot::WayLine, n);
    let b = slot_tables(tables, topics, Slot::WayPolygon, n);
    let c = slot_tables(tables, topics, Slot::Point, n);
    let d = slot_tables(tables, topics, Slot::RelationLine, n);
    let e = slot_tables(tables, topics, Slot::RelationPoint, n);
    let f = slot_tables(tables, topics, Slot::RelationPolygon, n);
    let all = geometry_tables(tables, topics);
    assert(all == a + b + c + d + e + f);
    let k = slot_tables(tables, topics, slot, n).index_of(x);
    let at = k + match slot {
        Slot::WayLine => 0,
        Slot::WayPolygon => a.len() as int,
        Slot::Point => (a + b).len() as int,
        Slot::RelationLine => (a + b + c).len() as int,
        Slot::RelationPoint => (a + b + c + d).len() as int,
        Slot::RelationPolygon => (a + b + c + d + e).len() as int,
    };
    assert(all[at] == x);
}

/// A topic has a geometry table for each shape that it asks for, under its own name and the ending
/// of the shape, and of that shape.
pub proof fn asked_shapes_have_tables(
    tables: Seq<Seq<char>>,
    topics: Seq<GeometryOutput>,
    i: int,
)
    requires
        tables.len() == topics.len(),
        0 <= i < topics.len(),
    ensures
        ({
            let all = geometry_tables(tables, topics);
            let t = topics[i];
            let name = tables[i];
            &&& t.way == Some(GeometryShape::Line) ==> has_table(
                all,
                name + "_geom"@,
                GeomTableShape::LineString,
            )
            &&& t.way == Some(GeometryShape::Polygon) ==> has_table(
                all,
                name + "_polygon"@,
                GeomTableShape::Polygon,
            )
            &&& t.way == Some(GeometryShape::Point) || t.node is Some ==> has_table(
                all,
                name + "_point"@,
                GeomTableShape::Point,
            )
            &&& t.relation == Some(GeometryShape::Line) ==> has_table(
                all,
                name + "_relation_geom"@,
                GeomTableShape::MultiLineString,
            )
            &&& t.relation == Some(GeometryShape::Point) ==> has_table(
                all,
                name + "_relation_point"@,
                GeomTableShape::Point,
            )
            &&& t.relation == Some(GeometryShape::Polygon) ==> has_table(
                all,
                name + "_relation_polygon"@,
                GeomTableShape::Polygon,
            )
        }),
{
    let n = topics.len();
    let t = topics[i];
    let name = tables[i];
    if t.way == Some(GeometryShape::Line) {
        lemma_listed(tables, topics, Slot::WayLine, n, i);
        lemma_parts(
            tables,
            topics,
            Slot::WayLine,
            (name + "_geom"@, GeomTableShape::LineString),
        );
    }
    if t.way == Some(GeometryShape::Polygon) {
        lemma_listed(tables, topics, Slot::WayPolygon, n, i);
        lemma_parts(
            tables,
            topics,
            Slot::WayPolygon,
            (name + "_polygon"@, GeomTableShape::Polygon),
        );
    }
    if t.way == Some(GeometryShape::Point) || t.node is Some {
        lemma_listed(tables, topics, Slot::Point, n, i);
        lemma_parts(tables, topics, Slot::Point, (name + "_point"@, GeomTableShape::Point));
    }
    if t.relation == Some(GeometryShape::Line) {
        lemma_listed(tables, topics, Slot::RelationLine, n, i);
        lemma_parts(
            tables,
            topics,
            Slot::RelationLine,
            (name + "_relation_geom"@, GeomTableShape::MultiLineString),
        );
    }
    if t.relation == Some(GeometryShape::Point) {
        lemma_listed(tables, topics, Slot::RelationPoint, n, i);
        lemma_parts(
            tables,
            topics,
            Slot::RelationPoint,
            (name + "_relation_point"@, GeomTableShape::Point),
        );
    }
    if t.relation == Some(GeometryShape::Polygon) {
        lemma_listed(tables, topics, Slot::RelationPolygon, n, i);
        lemma_parts(
            tables,
            topics,
            Slot::RelationPolygon,
            (name + "_relation_polygon"@, GeomTableShape::Polygon),
        );
    }
}

proof fn lemma_none(tables: Seq<Seq<char>>, topics: Seq<GeometryOutput>, slot: Slot, n: nat)
    requires
        n <= topics.len(),
        forall|i: int|
            0 <= i < topics.len() ==> !fills(#[trigger] topics[i], slot),
    ensures
        slot_tables(tables, topics, slot, n).len() == 0,
    decreases n,
{
    if n > 0 {
        lemma_none(tables, topics, slot, (n - 1) as nat);
        assert(!fills(topics[n - 1], slot));
    }
}

/// Where no topic asks for a shape there is no geometry table.
pub proof fn shapes_that_nobody_asks_for_have_no_tables(
    tables: Seq<Seq<char>>,
    topics: Seq<GeometryOutput>,
)
    requires
        forall|i: int|
            0 <= i < topics.len() ==> (#[trigger] topics[i]).node is None && topics[i].way is None
                && topics[i].relation is None,
    ensures
        geometry_tables(tables, topics).len() == 0,
{
    let n = topics.len();
    lemma_none(tables, topics, Slot::WayLine, n);
    lemma_none(tables, topics, Slot::WayPolygon, n);
    lemma_none(tables, topics, Slot::Point, n);
    lemma_none(tables, topics, Slot::RelationLine, n);
    lemma_none(tables, topics, Slot::RelationPoint, n);
    lemma_none(tables, topics, Slot::RelationPolygon, n);
}

// ── Statements ──────────────────────────────────────────────────────────────────────────────

/// Tables are made before anything else and lose their indexes last. They are emptied in between,
/// in one statement and only where that is asked for.
pub proof fn tables_are_emptied_only_where_asked(
    tables: Seq<(Seq<char>, bool)>,
    geom_tables: Seq<(Seq<char>, GeomTableShape)>,
    emit_graph: bool,
)
    ensures
        ({
            let kept = setup_steps(tables, geom_tables, emit_graph, false);
            let emptied = setup_steps(tables, geom_tables, emit_graph, true);
            let made = creates(tables, geom_tables, emit_graph);
            let names = table_names(tables, geom_tables, emit_graph);
            let dropped = drops(tables, geom_tables, emit_graph);
            &&& kept == made + dropped
            &&& emptied.len() == kept.len() + 1
            &&& emptied[made.len() as int] == "TRUNCATE TABLE "@ + joined(names, ", "@)
            &&& emptied.remove(made.len() as int) == kept
        }),
{
    let kept = setup_steps(tables, geom_tables, emit_graph, false);
    let emptied = setup_steps(tables, geom_tables, emit_graph, true);
    let made = creates(tables, geom_tables, emit_graph);
    let dropped = drops(tables, geom_tables, emit_graph);
    assert(kept =~= made + dropped);
    assert(emptied.remove(made.len() as int) =~= kept);
}

/// A topic that wants the graph has its routing table made, and indexed where that is asked for; one
/// that does not has none.
pub proof fn graph_topics_have_routing_tables(
    tables: Seq<Seq<char>>,
    topics: Seq<GeometryOutput>,
    mode: TopicEdgeMode,
    create_index: bool,
    n: nat,
)
    requires
        n <= topics.len(),
        tables.len() == topics.len(),
    ensures
        forall|i: int|
            0 <= i < n && (#[trigger] topics[i]).way_graph ==> all_routing_steps(
                tables,
                topics,
                mode,
                create_index,
                n,
            ).contains(edge_projection(tables[i], extra_columns(mode))),
        (forall|i: int| 0 <= i < n ==> !(#[trigger] topics[i]).way_graph) ==> all_routing_steps(
            tables,
            topics,
            mode,
            create_index,
            n,
        ).len() == 0,
    decreases n,
{
    if n > 0 {
        let m = (n - 1) as nat;
        graph_topics_have_routing_tables(tables, topics, mode, create_index, m);
        let before = all_routing_steps(tables, topics, mode, create_index, m);
        let now = all_routing_steps(tables, topics, mode, create_index, n);
        assert forall|i: int| 0 <= i < n && (#[trigger] topics[i]).way_graph implies now.contains(
            edge_projection(tables[i], extra_columns(mode)),
        ) by {
            let x = edge_projection(tables[i], extra_columns(mode));
            if i < m {
                let k = before.index_of(x);
                assert(now[k] == x);
            } else {
                assert(routing_steps(tables[i], mode, create_index)[0] == x);
                assert(now[before.len() as int] == x);
            }
        }
    }
}

/// Indexing a routing table takes two more statements, behind the one that makes it.
pub proof fn routing_tables_are_indexed_where_asked(table: Seq<char>, mode: TopicEdgeMode)
    ensures
        routing_steps(table, mode, false).len() == 1,
        routing_steps(table, mode, true).len() == 3,
        routing_steps(table, mode, true)[0] == routing_steps(table, mode, false)[0],
{
}

/// Where there is no table of whole ways, one is made before the lines of relations are merged, and
/// dropped behind; the statements between are the same as where there is one.
pub proof fn whole_ways_are_made_where_missing(way_table: Seq<char>, relation_table: Seq<char>)
    ensures
        ({
            let there = relation_steps(way_table, relation_table, true);
            let missing = relation_steps(way_table, relation_table, false);
            &&& there.len() == 2
            &&& missing.len() == 4
            &&& missing.subrange(1, 3) == there
            &&& missing.last() == "DROP TABLE "@ + way_table
        }),
{
    let there = relation_steps(way_table, relation_table, true);
    let missing = relation_steps(way_table, relation_table, false);
    assert(missing.subrange(1, 3) =~= there);
}

} // verus!
