//! Which topic wants which geometry, worked out once from all topics.
use vstd::prelude::*;

use crate::engine::topic_runner::ElementKind;

verus! {

/// A shape a topic can ask for.
#[derive(Debug, Clone, Copy, PartialEq, Eq, Structural)]
pub enum GeometryShape {
    Point,
    Line,
    Polygon,
}

/// What one topic asks for: at most one shape for each kind of object, and whether its ways make up
/// the graph and its nodes cut the ways of the graph.
#[derive(Debug)]
pub struct GeometryOutput {
    pub node: Option<GeometryShape>,
    pub way: Option<GeometryShape>,
    pub relation: Option<GeometryShape>,
    pub way_graph: bool,
    pub node_graph: bool,
}

/// What all topics ask for.
#[derive(Debug)]
pub struct GeometryPlan {
    /// Whether any topic wants the graph.
    pub any_way_graph: bool,
    /// The topics whose nodes cut ways, one bit each.
    pub node_graph_mask: u32,
    /// The topics that want the position of a node.
    pub node_geom_topics: Vec<usize>,
    /// The topics that want a shape of a way, and the shape each wants.
    pub way_geom_topics: Vec<usize>,
    pub way_shape: Vec<GeometryShape>,
    /// The topics that want a shape of a relation, and the shape each wants.
    pub relation_geom_topics: Vec<usize>,
    pub relation_shape: Vec<GeometryShape>,
    /// The topics that want a shape of a relation, one bit each.
    pub relation_geom_mask: u32,
}

/// The shape a topic asks for of a kind of object.
pub open spec fn shape_for(topic: GeometryOutput, kind: ElementKind) -> Option<GeometryShape> {
    match kind {
        ElementKind::Node => topic.node,
        ElementKind::Way => topic.way,
        ElementKind::Relation => topic.relation,
    }
}

/// The topics below `n` that ask for a shape of a kind of object, each with the shape, in order.
pub open spec fn wanting(topics: Seq<GeometryOutput>, kind: ElementKind, n: nat) -> Seq<
    (int, GeometryShape),
>
    decreases n,
{
    if n == 0 {
        Seq::empty()
    } else {
        let before = wanting(topics, kind, (n - 1) as nat);
        match shape_for(topics[n - 1], kind) {
            Some(shape) => before.push((n - 1, shape)),
            None => before,
        }
    }
}

/// Two parallel lists as one.
pub open spec fn paired(topics: Seq<usize>, shapes: Seq<GeometryShape>) -> Seq<
    (int, GeometryShape),
> {
    Seq::new(topics.len(), |i: int| (topics[i] as int, shapes[i]))
}

/// Whether a bit of a mask is set.
pub open spec fn has_bit(mask: u32, i: u32) -> bool {
    mask & (1u32 << i) != 0
}

/// Whether the plan is what the topics ask for.
pub open spec fn is_plan(plan: GeometryPlan, topics: Seq<GeometryOutput>) -> bool {
    let n = topics.len();
    &&& plan.any_way_graph == exists|i: int| 0 <= i < n && (#[trigger] topics[i]).way_graph
    &&& forall|i: u32|
        i < 32 ==> (#[trigger] has_bit(plan.node_graph_mask, i) <==> i < n
            && topics[i as int].node_graph)
    &&& paired(
        plan.node_geom_topics@,
        Seq::new(
            plan.node_geom_topics@.len(),
            |i: int| topics[plan.node_geom_topics@[i] as int].node->0,
        ),
    ) == wanting(topics, ElementKind::Node, n)
    &&& plan.way_geom_topics@.len() == plan.way_shape@.len()
    &&& paired(plan.way_geom_topics@, plan.way_shape@) == wanting(topics, ElementKind::Way, n)
    &&& plan.relation_geom_topics@.len() == plan.relation_shape@.len()
    &&& paired(plan.relation_geom_topics@, plan.relation_shape@) == wanting(
        topics,
        ElementKind::Relation,
        n,
    )
    &&& forall|i: u32|
        i < 32 ==> (#[trigger] has_bit(plan.relation_geom_mask, i) <==> i < n
            && topics[i as int].relation is Some)
}

/// A topic is listed exactly where it asks for a shape, and with the shape it asks for.
pub proof fn wanting_topics_are_listed(topics: Seq<GeometryOutput>, kind: ElementKind, n: nat)
    requires
        n <= topics.len(),
    ensures
        forall|j: int|
            #![trigger wanting(topics, kind, n)[j]]
            0 <= j < wanting(topics, kind, n).len() ==> {
                let (i, shape) = wanting(topics, kind, n)[j];
                0 <= i < n && shape_for(topics[i], kind) == Some(shape)
            },
        forall|i: int, shape: GeometryShape|
            0 <= i < n && shape_for(topics[i], kind) == Some(shape) ==> #[trigger] wanting(
                topics,
                kind,
                n,
            ).contains((i, shape)),
        wanting(topics, kind, n).len() <= n,
    decreases n,
{
    if n > 0 {
        wanting_topics_are_listed(topics, kind, (n - 1) as nat);
        let before = wanting(topics, kind, (n - 1) as nat);
        let now = wanting(topics, kind, n);
        assert forall|i: int, shape: GeometryShape|
            0 <= i < n && shape_for(topics[i], kind) == Some(shape) implies #[trigger] now.contains(
            (i, shape),
        ) by {
            if i < n - 1 {
                assert(before.contains((i, shape)));
                let j = before.index_of((i, shape));
                assert(now[j] == (i, shape));
            } else {
                assert(now[now.len() - 1] == (i, shape));
            }
        }
    }
}

/// Setting a bit sets it and leaves every other as it was.
pub proof fn lemma_set_bit(mask: u32, k: u32)
    requires
        k < 32,
    ensures
        forall|i: u32|
            i < 32 ==> (#[trigger] has_bit(mask | (1u32 << k), i) <==> i == k || has_bit(mask, i)),
{
    assert forall|i: u32| i < 32 implies (#[trigger] has_bit(mask | (1u32 << k), i) <==> i == k
        || has_bit(mask, i)) by {
        assert(k < 32 && i < 32 ==> (((mask | (1u32 << k)) & (1u32 << i) != 0) <==> (i == k || mask
            & (1u32 << i) != 0))) by (bit_vector);
    }
}

/// Zero has no bit set.
pub proof fn lemma_no_bits()
    ensures
        forall|i: u32| i < 32 ==> !#[trigger] has_bit(0, i),
{
    assert forall|i: u32| i < 32 implies !#[trigger] has_bit(0, i) by {
        assert(0u32 & (1u32 << i) == 0) by (bit_vector);
    }
}

/// Whether a bit of a mask is set.
pub fn test_bit(mask: u32, i: usize) -> (r: bool)
    requires
        i < 32,
    ensures
        r == has_bit(mask, i as u32),
{
    let bit: u32 = i as u32;
    mask & (1u32 << bit) != 0
}

fn shapes_for(topics: &Vec<GeometryOutput>, kind: ElementKind) -> (r: (
    Vec<usize>,
    Vec<GeometryShape>,
))
    ensures
        r.0@.len() == r.1@.len(),
        paired(r.0@, r.1@) == wanting(topics@, kind, topics@.len()),
{
    let mut found: Vec<usize> = Vec::new();
    let mut shapes: Vec<GeometryShape> = Vec::new();
    let mut i: usize = 0;
    assert(paired(found@, shapes@) =~= wanting(topics@, kind, 0));
    while i < topics.len()
        invariant
            i <= topics@.len(),
            found@.len() == shapes@.len(),
            paired(found@, shapes@) == wanting(topics@, kind, i as nat),
        decreases topics.len() - i,
    {
        let shape: Option<GeometryShape> = match kind {
            ElementKind::Node => topics[i].node,
            ElementKind::Way => topics[i].way,
            ElementKind::Relation => topics[i].relation,
        };
        let ghost before = paired(found@, shapes@);
        if let Some(s) = shape {
            found.push(i);
            shapes.push(s);
            assert(paired(found@, shapes@) =~= before.push((i as int, s)));
        }
        i = i + 1;
    }
    (found, shapes)
}

impl GeometryPlan {
    /// Works out what the topics ask for. A topic is a bit of a mask, so there are at most
    /// thirty-two.
    pub fn build(topics: &Vec<GeometryOutput>) -> (r: GeometryPlan)
        requires
            topics@.len() <= 32,
        ensures
            is_plan(r, topics@),
    {
        let (node_geom_topics, node_shape) = shapes_for(topics, ElementKind::Node);
        let (way_geom_topics, way_shape) = shapes_for(topics, ElementKind::Way);
        let (relation_geom_topics, relation_shape) = shapes_for(topics, ElementKind::Relation);
        let mut any_way_graph: bool = false;
        let mut node_graph_mask: u32 = 0;
        let mut relation_geom_mask: u32 = 0;
        let mut i: usize = 0;
        proof {
            lemma_no_bits();
        }
        while i < topics.len()
            invariant
                i <= topics@.len() <= 32,
                any_way_graph == exists|j: int| 0 <= j < i && (#[trigger] topics@[j]).way_graph,
                forall|j: u32|
                    j < 32 ==> (#[trigger] has_bit(node_graph_mask, j) <==> j < i
                        && topics@[j as int].node_graph),
                forall|j: u32|
                    j < 32 ==> (#[trigger] has_bit(relation_geom_mask, j) <==> j < i
                        && topics@[j as int].relation is Some),
            decreases topics.len() - i,
        {
            let topic: &GeometryOutput = &topics[i];
            let bit: u32 = i as u32;
            proof {
                lemma_set_bit(node_graph_mask, bit);
                lemma_set_bit(relation_geom_mask, bit);
            }
            if topic.way_graph {
                any_way_graph = true;
            }
            if topic.node_graph {
                node_graph_mask = node_graph_mask | (1u32 << bit);
            }
            if topic.relation.is_some() {
                relation_geom_mask = relation_geom_mask | (1u32 << bit);
            }
            i = i + 1;
        }
        proof {
            wanting_topics_are_listed(topics@, ElementKind::Node, topics@.len());
            let listed = wanting(topics@, ElementKind::Node, topics@.len());
            assert forall|j: int| 0 <= j < listed.len() implies listed[j] == (
                #[trigger] node_geom_topics@[j] as int,
                topics@[node_geom_topics@[j] as int].node->0,
            ) by {
                assert(paired(node_geom_topics@, node_shape@)[j] == listed[j]);
            }
            assert(paired(
                node_geom_topics@,
                Seq::new(
                    node_geom_topics@.len(),
                    |i: int| topics@[node_geom_topics@[i] as int].node->0,
                ),
            ) =~= listed);
        }
        GeometryPlan {
            any_way_graph,
            node_graph_mask,
            node_geom_topics,
            way_geom_topics,
            way_shape,
            relation_geom_topics,
            relation_shape,
            relation_geom_mask,
        }
    }
}

} // verus!
