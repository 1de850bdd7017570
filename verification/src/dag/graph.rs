//! Graphs of nodes and edges, for a reader to look at.
use vstd::prelude::*;

use crate::engine::ids::spellings_tell_numbers_apart;
use crate::text::{concat2, decimal, decimal_text};

verus! {

/// A node: its name, what it says, and what kind of step it is.
#[derive(Debug)]
pub struct DagNode {
    pub id: String,
    pub label: String,
    pub kind: &'static str,
}

/// An edge between two nodes.
#[derive(Debug)]
pub struct DagEdge {
    pub id: String,
    pub source: String,
    pub target: String,
    pub label: String,
}

/// A graph.
#[derive(Debug)]
pub struct DagGraph {
    pub nodes: Vec<DagNode>,
    pub edges: Vec<DagEdge>,
}

/// A node.
pub struct NodeV {
    pub id: Seq<char>,
    pub label: Seq<char>,
    pub kind: Seq<char>,
}

/// An edge.
pub struct EdgeV {
    pub id: Seq<char>,
    pub source: Seq<char>,
    pub target: Seq<char>,
    pub label: Seq<char>,
}

/// A graph.
#[verifier::ext_equal]
pub struct GraphV {
    pub nodes: Seq<NodeV>,
    pub edges: Seq<EdgeV>,
}

impl DagNode {
    pub open spec fn view(&self) -> NodeV {
        NodeV { id: self.id@, label: self.label@, kind: self.kind@ }
    }
}

impl DagEdge {
    pub open spec fn view(&self) -> EdgeV {
        EdgeV { id: self.id@, source: self.source@, target: self.target@, label: self.label@ }
    }
}

impl DagGraph {
    pub open spec fn view(&self) -> GraphV {
        GraphV {
            nodes: self.nodes@.map_values(|n: DagNode| n@),
            edges: self.edges@.map_values(|e: DagEdge| e@),
        }
    }
}

/// The graph without a node.
pub open spec fn blank() -> GraphV {
    GraphV { nodes: Seq::empty(), edges: Seq::empty() }
}

/// The name of the `i`-th node.
pub open spec fn node_name(i: nat) -> Seq<char> {
    "n"@ + decimal(i)
}

/// The name the next node gets.
pub open spec fn next_node(g: GraphV) -> Seq<char> {
    node_name(g.nodes.len())
}

/// The graph with one more node.
pub open spec fn with_node(g: GraphV, label: Seq<char>, kind: Seq<char>) -> GraphV {
    GraphV { nodes: g.nodes.push(NodeV { id: next_node(g), label, kind }), edges: g.edges }
}

/// The graph with one more edge.
pub open spec fn with_edge(
    g: GraphV,
    source: Seq<char>,
    target: Seq<char>,
    label: Seq<char>,
) -> GraphV {
    GraphV {
        nodes: g.nodes,
        edges: g.edges.push(EdgeV { id: "e"@ + decimal(g.edges.len()), source, target, label }),
    }
}

/// A text of at most `max` characters: what is longer is cut and marked.
pub open spec fn truncated(s: Seq<char>, max: int) -> Seq<char> {
    if s.len() <= max {
        s
    } else {
        s.take(max) + "…"@
    }
}

/// Whether a node has the name.
pub open spec fn has_node(g: GraphV, id: Seq<char>) -> bool {
    exists|i: int| 0 <= i < g.nodes.len() && (#[trigger] g.nodes[i]).id == id
}

/// Whether an edge leads to the node.
pub open spec fn is_target(g: GraphV, id: Seq<char>) -> bool {
    exists|i: int| 0 <= i < g.edges.len() && (#[trigger] g.edges[i]).target == id
}

/// Nodes and edges are numbered as they come, every edge joins nodes of the graph, and no two edges
/// lead to the same node.
pub open spec fn tidy(g: GraphV) -> bool {
    &&& forall|i: int| 0 <= i < g.nodes.len() ==> (#[trigger] g.nodes[i]).id == node_name(i as nat)
    &&& forall|i: int|
        0 <= i < g.edges.len() ==> (#[trigger] g.edges[i]).id == "e"@ + decimal(i as nat)
    &&& forall|i: int|
        0 <= i < g.edges.len() ==> has_node(g, (#[trigger] g.edges[i]).source) && has_node(
            g,
            g.edges[i].target,
        )
    &&& forall|i: int, j: int|
        0 <= i < g.edges.len() && 0 <= j < g.edges.len() && i != j ==> (
        #[trigger] g.edges[i]).target != (#[trigger] g.edges[j]).target
}

/// The edges that were there stay, and the new ones lead to new nodes.
pub open spec fn leads_on(g: GraphV, h: GraphV) -> bool {
    &&& g.edges.is_prefix_of(h.edges)
    &&& forall|i: int|
        g.edges.len() <= i < h.edges.len() ==> !has_node(g, (#[trigger] h.edges[i]).target)
}

/// What drawing one thing into a graph leaves: the nodes that were there stay, the graph stays tidy,
/// the new thing is entered by a new node that no edge leads to yet, and every new node but that one
/// has one new edge.
pub open spec fn draws_tree(g: GraphV, h: GraphV, entry: Seq<char>) -> bool {
    &&& g.nodes.is_prefix_of(h.nodes)
    &&& tidy(g) ==> {
        &&& tidy(h)
        &&& leads_on(g, h)
        &&& has_node(h, entry)
        &&& !has_node(g, entry)
        &&& !is_target(h, entry)
    }
    &&& h.nodes.len() - g.nodes.len() == h.edges.len() - g.edges.len() + 1
}

/// What adding to a drawn thing leaves: as before, but every new node has one new edge.
pub open spec fn adds_to(g: GraphV, h: GraphV) -> bool {
    &&& g.nodes.is_prefix_of(h.nodes)
    &&& tidy(g) ==> tidy(h) && leads_on(g, h)
    &&& h.nodes.len() - g.nodes.len() == h.edges.len() - g.edges.len()
}

proof fn lemma_next_is_new(g: GraphV)
    requires
        tidy(g),
    ensures
        !has_node(g, next_node(g)),
{
    if has_node(g, next_node(g)) {
        let i = choose|i: int| 0 <= i < g.nodes.len() && (#[trigger] g.nodes[i]).id == next_node(g);
        let n = "n"@.len() as int;
        assert(node_name(i as nat).skip(n) =~= decimal(i as nat));
        assert(next_node(g).skip(n) =~= decimal(g.nodes.len()));
        spellings_tell_numbers_apart(i as nat, g.nodes.len());
    }
}

proof fn lemma_targets_are_nodes(g: GraphV, id: Seq<char>)
    requires
        tidy(g),
        !has_node(g, id),
    ensures
        !is_target(g, id),
{
    if is_target(g, id) {
        let i = choose|i: int| 0 <= i < g.edges.len() && (#[trigger] g.edges[i]).target == id;
        assert(has_node(g, g.edges[i].target));
    }
}

pub proof fn lemma_node_drawn(g: GraphV, label: Seq<char>, kind: Seq<char>)
    ensures
        draws_tree(g, with_node(g, label, kind), next_node(g)),
{
    let h = with_node(g, label, kind);
    assert(h.nodes[g.nodes.len() as int].id == next_node(g));
    if tidy(g) {
        assert forall|i: int| 0 <= i < h.edges.len() implies has_node(
            h,
            (#[trigger] h.edges[i]).source,
        ) && has_node(h, h.edges[i].target) by {
            assert(h.edges[i] == g.edges[i]);
            lemma_node_stays(g, h, g.edges[i].source);
            lemma_node_stays(g, h, g.edges[i].target);
        }
        assert(g.edges == h.edges);
        lemma_next_is_new(g);
        lemma_targets_are_nodes(g, next_node(g));
        assert(!is_target(h, next_node(g))) by {
            if is_target(h, next_node(g)) {
                let i = choose|i: int|
                    0 <= i < h.edges.len() && (#[trigger] h.edges[i]).target == next_node(g);
                assert(g.edges[i].target == next_node(g));
            }
        }
    }
}

/// A node that was there stays.
pub proof fn lemma_node_stays(g: GraphV, h: GraphV, id: Seq<char>)
    requires
        g.nodes.is_prefix_of(h.nodes),
        has_node(g, id),
    ensures
        has_node(h, id),
{
    let i = choose|i: int| 0 <= i < g.nodes.len() && (#[trigger] g.nodes[i]).id == id;
    assert(h.nodes[i] == g.nodes[i]);
}

/// Joining a drawn thing to a node that was there before adds it.
pub proof fn lemma_joined(
    g: GraphV,
    h: GraphV,
    owner: Seq<char>,
    entry: Seq<char>,
    label: Seq<char>,
)
    requires
        draws_tree(g, h, entry),
        tidy(g) ==> has_node(g, owner),
    ensures
        adds_to(g, with_edge(h, owner, entry, label)),
{
    if tidy(g) {
        let k = with_edge(h, owner, entry, label);
        lemma_node_stays(g, h, owner);
        lemma_edge_tidy(h, owner, entry, label);
        assert(g.edges.is_prefix_of(k.edges)) by {
            assert(k.edges.subrange(0, g.edges.len() as int) =~= h.edges.subrange(
                0,
                g.edges.len() as int,
            ));
        }
        assert forall|i: int| g.edges.len() <= i < k.edges.len() implies !has_node(
            g,
            (#[trigger] k.edges[i]).target,
        ) by {
            if i < h.edges.len() {
                assert(k.edges[i] == h.edges[i]);
            }
        }
    }
}

/// A new node in front of the node that enters a drawn thing enters it.
pub proof fn lemma_headed(
    g: GraphV,
    h: GraphV,
    entry: Seq<char>,
    text: Seq<char>,
    kind: Seq<char>,
    label: Seq<char>,
)
    requires
        draws_tree(g, h, entry),
    ensures
        draws_tree(g, with_edge(with_node(h, text, kind), next_node(h), entry, label), next_node(h)),
{
    let m = with_node(h, text, kind);
    let k = with_edge(m, next_node(h), entry, label);
    lemma_node_drawn(h, text, kind);
    assert(g.nodes.is_prefix_of(k.nodes)) by {
        assert(k.nodes.subrange(0, g.nodes.len() as int) =~= h.nodes.subrange(
            0,
            g.nodes.len() as int,
        ));
    }
    if tidy(g) {
        lemma_node_stays(h, m, entry);
        assert(!is_target(m, entry)) by {
            if is_target(m, entry) {
                let i = choose|i: int|
                    0 <= i < m.edges.len() && (#[trigger] m.edges[i]).target == entry;
                assert(h.edges[i].target == entry);
            }
        }
        lemma_edge_tidy(m, next_node(h), entry, label);
        lemma_node_stays(m, k, next_node(h));
        assert(g.edges.is_prefix_of(k.edges)) by {
            assert(k.edges.subrange(0, g.edges.len() as int) =~= h.edges.subrange(
                0,
                g.edges.len() as int,
            ));
        }
        assert forall|i: int| g.edges.len() <= i < k.edges.len() implies !has_node(
            g,
            (#[trigger] k.edges[i]).target,
        ) by {
            if i < h.edges.len() {
                assert(k.edges[i] == h.edges[i]);
            }
        }
        assert(!has_node(g, next_node(h))) by {
            if has_node(g, next_node(h)) {
                lemma_node_stays(g, h, next_node(h));
            }
        }
        assert(!is_target(k, next_node(h))) by {
            if is_target(k, next_node(h)) {
                let i = choose|i: int|
                    0 <= i < k.edges.len() && (#[trigger] k.edges[i]).target == next_node(h);
                if i < m.edges.len() {
                    assert(m.edges[i].target == next_node(h));
                }
            }
        }
    }
}

proof fn lemma_edge_tidy(h: GraphV, a: Seq<char>, b: Seq<char>, label: Seq<char>)
    requires
        tidy(h),
        has_node(h, a),
        has_node(h, b),
        !is_target(h, b),
    ensures
        tidy(with_edge(h, a, b, label)),
{
    let k = with_edge(h, a, b, label);
    lemma_node_stays(h, k, a);
    lemma_node_stays(h, k, b);
    assert forall|i: int| 0 <= i < k.edges.len() implies has_node(k, (#[trigger] k.edges[i]).source)
        && has_node(k, k.edges[i].target) by {
        if i < h.edges.len() {
            assert(k.edges[i] == h.edges[i]);
            lemma_node_stays(h, k, h.edges[i].source);
            lemma_node_stays(h, k, h.edges[i].target);
        }
    }
    assert forall|i: int, j: int|
        0 <= i < k.edges.len() && 0 <= j < k.edges.len() && i != j implies (
    #[trigger] k.edges[i]).target != (#[trigger] k.edges[j]).target by {
        if i < h.edges.len() {
            assert(k.edges[i] == h.edges[i]);
            assert(h.edges[i].target != b);
        }
        if j < h.edges.len() {
            assert(k.edges[j] == h.edges[j]);
            assert(h.edges[j].target != b);
        }
    }
}

proof fn lemma_leads_on_twice(g: GraphV, h: GraphV, k: GraphV)
    requires
        g.nodes.is_prefix_of(h.nodes),
        leads_on(g, h),
        leads_on(h, k),
    ensures
        leads_on(g, k),
{
    assert(k.edges.subrange(0, g.edges.len() as int) =~= h.edges.subrange(
        0,
        g.edges.len() as int,
    )) by {
        assert forall|i: int| 0 <= i < g.edges.len() implies k.edges[i] == h.edges[i] by {
            assert(k.edges.subrange(0, h.edges.len() as int)[i] == h.edges[i]);
        }
    }
    assert forall|i: int| g.edges.len() <= i < k.edges.len() implies !has_node(
        g,
        (#[trigger] k.edges[i]).target,
    ) by {
        if i < h.edges.len() {
            assert(k.edges.subrange(0, h.edges.len() as int)[i] == h.edges[i]);
            assert(!has_node(g, h.edges[i].target));
        } else if has_node(g, k.edges[i].target) {
            lemma_node_stays(g, h, k.edges[i].target);
        }
    }
}

/// Adding to a drawn thing leaves it drawn.
pub proof fn lemma_drawn_then_added(g: GraphV, h: GraphV, k: GraphV, entry: Seq<char>)
    requires
        draws_tree(g, h, entry),
        adds_to(h, k),
    ensures
        draws_tree(g, k, entry),
{
    if tidy(g) {
        lemma_node_stays(h, k, entry);
        lemma_leads_on_twice(g, h, k);
        assert(!is_target(k, entry)) by {
            if is_target(k, entry) {
                let i = choose|i: int|
                    0 <= i < k.edges.len() && (#[trigger] k.edges[i]).target == entry;
                if i < h.edges.len() {
                    assert(k.edges.subrange(0, h.edges.len() as int)[i] == h.edges[i]);
                    assert(h.edges[i].target == entry);
                }
            }
        }
    }
}

/// Adding twice is adding.
pub proof fn lemma_added_twice(g: GraphV, h: GraphV, k: GraphV)
    requires
        adds_to(g, h),
        adds_to(h, k),
    ensures
        adds_to(g, k),
{
    if tidy(g) {
        lemma_leads_on_twice(g, h, k);
    }
}

impl DagGraph {
    /// The graph without a node.
    pub fn new() -> (r: DagGraph)
        ensures
            r@ == blank(),
    {
        let r: DagGraph = DagGraph { nodes: Vec::new(), edges: Vec::new() };
        assert(r@ =~= blank());
        r
    }

    /// Adds a node and gives its name.
    pub fn node(&mut self, label: String, kind: &'static str) -> (r: String)
        ensures
            final(self)@ == with_node(old(self)@, label@, kind@),
            r@ == next_node(old(self)@),
    {
        let ghost before = self@;
        let id: String = concat2("n", decimal_text(self.nodes.len() as u64).as_str());
        self.nodes.push(DagNode { id: id.clone(), label, kind });
        assert(self@ =~= with_node(before, label@, kind@));
        id
    }

    /// Adds an edge.
    pub fn edge(&mut self, source: &str, target: &str, label: &str)
        ensures
            final(self)@ == with_edge(old(self)@, source@, target@, label@),
    {
        let ghost before = self@;
        let id: String = concat2("e", decimal_text(self.edges.len() as u64).as_str());
        self.edges.push(
            DagEdge {
                id,
                source: source.to_owned(),
                target: target.to_owned(),
                label: label.to_owned(),
            },
        );
        assert(self@ =~= with_edge(before, source@, target@, label@));
    }
}

/// A text of at most `max` characters: what is longer is cut and marked.
pub fn truncate(s: &str, max: usize) -> (r: String)
    ensures
        r@ == truncated(s@, max as int),
{
    if s.unicode_len() <= max {
        s.to_owned()
    } else {
        let head: &str = s.substring_char(0, max);
        assert(head@ =~= s@.take(max as int));
        concat2(head, "…")
    }
}

} // verus!
