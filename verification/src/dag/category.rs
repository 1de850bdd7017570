//! Conditions, categories and discrimination nets as graphs.
use vstd::prelude::*;

use crate::assoc::{first_position, lemma_first_position, position_of};
use crate::categorize::categories::{defs_view, CategoriesFile, CategoryDef, CategoryV, OrderedNode};
use crate::categorize::expr::Expr;
use crate::dag::graph::{
    blank, draws_tree, is_target, lemma_drawn_then_added, lemma_joined, lemma_node_drawn, next_node, tidy,
    truncate, truncated, with_edge, with_node, DagGraph, GraphV,
};
use crate::decision_tree::places::{children_within, places_within};
use crate::decision_tree::tree::{
    group_trees, leaf_view, shown_branch_key, trees, DecisionTree, TreeV,
};
use crate::lang::filter::{described, filters, group_filters, Filter, FilterV, Spelling};
use crate::model::models;
use crate::text::{
    concat2, insert_sorted, join, joined, sorted_lists_are_unique, sorting,
    sorting_keeps_the_texts, strictly_sorted, strs,
};

verus! {

/// The condition drawn into a graph, and the node that enters it: a branching node for what
/// combines conditions, one line for everything else.
pub open spec fn drawn_filter(g: GraphV, f: FilterV, list: Seq<Spelling>) -> (GraphV, Seq<char>)
    decreases f, 0int,
{
    let id = next_node(g);
    match f {
        FilterV::And(fs) => (
            drawn_filters(with_node(g, "And"@, "match"@), id, fs, fs.len() as int, list),
            id,
        ),
        FilterV::Or(fs) => (
            drawn_filters(with_node(g, "Or"@, "match"@), id, fs, fs.len() as int, list),
            id,
        ),
        FilterV::Not(inner) => {
            let (h, child) = drawn_filter(with_node(g, "Not"@, "parent"@), *inner, list);
            (with_edge(h, id, child, ""@), id)
        },
        _ => (with_node(g, truncated(described(f, list), 120), "extract"@), id),
    }
}

/// The first `n` conditions drawn under what combines them.
pub open spec fn drawn_filters(
    g: GraphV,
    owner: Seq<char>,
    fs: Seq<FilterV>,
    n: int,
    list: Seq<Spelling>,
) -> GraphV
    decreases fs, n,
{
    if n <= 0 || n > fs.len() {
        g
    } else {
        let before = drawn_filters(g, owner, fs, n - 1, list);
        let (h, child) = drawn_filter(before, fs[n - 1], list);
        with_edge(h, owner, child, ""@)
    }
}

/// The head of a category: its name, and what it excludes where it excludes anything.
pub open spec fn category_text(c: CategoryV) -> Seq<char> {
    let name = "Category\n"@ + c.id;
    match c.excludes {
        Some(v) if v.len() > 0 => name + "\nexcludes: "@ + joined(v, ", "@),
        _ => name,
    }
}

/// The head and the condition of a place in the priority order.
pub open spec fn place_parts(node: OrderedNode, cats: Seq<CategoryV>) -> (Seq<char>, FilterV) {
    match node {
        OrderedNode::Category { idx } => (category_text(cats[idx as int]), cats[idx as int].condition),
        OrderedNode::Skip { condition } => ("No Category"@, condition@),
    }
}

/// The graph of a place in the priority order.
pub open spec fn place_graph(node: OrderedNode, cats: Seq<CategoryV>, list: Seq<Spelling>) -> GraphV {
    let (label, condition) = place_parts(node, cats);
    let (h, entry) = drawn_filter(with_node(blank(), label, "rule"@), condition, list);
    with_edge(h, next_node(blank()), entry, "if"@)
}

/// The name of a place in the priority order.
pub open spec fn place_name(node: OrderedNode, cats: Seq<CategoryV>) -> Seq<char> {
    match node {
        OrderedNode::Category { idx } => cats[idx as int].id,
        OrderedNode::Skip { .. } => "(no category)"@,
    }
}

/// Every place of the order that is a category names one.
pub open spec fn names_categories(order: Seq<OrderedNode>, cats: Seq<CategoryV>) -> bool {
    forall|i: int|
        0 <= i < order.len() ==> ((#[trigger] order[i]) matches OrderedNode::Category { idx } ==> idx
            < cats.len())
}

/// A leaf, as it is shown: the names of the places left over.
pub open spec fn leaf_text(
    places: Seq<usize>,
    order: Seq<OrderedNode>,
    cats: Seq<CategoryV>,
) -> Seq<char> {
    if places.len() == 0 {
        "Leaf\n(no candidates)"@
    } else {
        truncated(
            joined(
                seq!["Leaf"@] + places.map_values(
                    |i: usize| place_name(order[i as int], cats),
                ),
                "\n"@,
            ),
            200,
        )
    }
}

/// The keys of a branch, in order.
pub open spec fn child_order(children: Seq<(Seq<char>, TreeV)>) -> Seq<Seq<char>> {
    choose|ks: Seq<Seq<char>>| is_child_order(ks, children)
}

/// Whether a list is the keys of a branch, in order.
pub open spec fn is_child_order(ks: Seq<Seq<char>>, children: Seq<(Seq<char>, TreeV)>) -> bool {
    strictly_sorted(ks) && ks.to_set() == children.map_values(
        |c: (Seq<char>, TreeV)| c.0,
    ).to_set()
}

/// The keys of a branch have an order.
pub proof fn children_have_an_order(children: Seq<(Seq<char>, TreeV)>)
    ensures
        is_child_order(child_order(children), children),
{
    let vs = children.map_values(|c: (Seq<char>, TreeV)| c.0);
    sorting_keeps_the_texts(vs);
    assert forall|k: Seq<char>| #[trigger] sorting(vs).to_set().contains(k) <==> vs.to_set().contains(
        k,
    ) by {
        assert(sorting(vs).contains(k) <==> vs.contains(k));
    }
    assert(sorting(vs).to_set() =~= vs.to_set());
    assert(is_child_order(sorting(vs), children));
}

/// How many branches on an atom a net has, where each key of a branch counts once.
pub open spec fn atom_branches(t: TreeV) -> nat
    decreases t, 0int,
{
    match t {
        TreeV::Leaf(_) => 0,
        TreeV::Branch(_, children, wildcard) => child_atoms(
            children,
            child_order(children).len() as int,
        ) + atom_branches(*wildcard),
        TreeV::AtomBranch(_, a, b) => 1 + atom_branches(*a) + atom_branches(*b),
    }
}

/// How many branches on an atom stand below the first `n` keys of a branch.
pub open spec fn child_atoms(children: Seq<(Seq<char>, TreeV)>, n: int) -> nat
    decreases children, n,
{
    if n <= 0 {
        0
    } else {
        let i = first_position(children, child_order(children)[n - 1]);
        child_atoms(children, n - 1) + if 0 <= i < children.len() {
            atom_branches(children[i].1)
        } else {
            0
        }
    }
}

/// What a net is drawn with: the priority order, the categories, and a text for each branch on an
/// atom in the order they are met.
pub struct Legend {
    pub order: Seq<OrderedNode>,
    pub cats: Seq<CategoryV>,
    pub atoms: Seq<Seq<char>>,
}

/// The net drawn into a graph, and the node that enters it; its branches on atoms are named from
/// the `at`-th text on.
pub open spec fn drawn_tree(g: GraphV, t: TreeV, at: nat, l: Legend) -> (GraphV, Seq<char>)
    decreases t, 0int,
{
    let id = next_node(g);
    match t {
        TreeV::Leaf(v) => (
            with_node(
                g,
                leaf_text(
                    v.map_values(|p: (usize, crate::categorize::expr::ExprV)| p.0),
                    l.order,
                    l.cats,
                ),
                "const"@,
            ),
            id,
        ),
        TreeV::Branch(tag, children, wildcard) => {
            let h = with_node(g, "branch\ntag: "@ + shown_branch_key(tag), "match"@);
            let n = child_order(children).len() as int;
            let k = drawn_children(h, id, children, n, at, l);
            let (m, rest) = drawn_tree(k, *wildcard, at + child_atoms(children, n), l);
            (with_edge(m, id, rest, "*"@), id)
        },
        TreeV::AtomBranch(_, on_true, on_false) => {
            let h = with_node(g, "branch\natom: "@ + truncated(l.atoms[at as int], 80), "match"@);
            let (k, a) = drawn_tree(h, *on_true, at + 1, l);
            let (m, b) = drawn_tree(
                with_edge(k, id, a, "true"@),
                *on_false,
                at + 1 + atom_branches(*on_true),
                l,
            );
            (with_edge(m, id, b, "false"@), id)
        },
    }
}

/// The children of the first `n` keys of a branch drawn under it.
pub open spec fn drawn_children(
    g: GraphV,
    owner: Seq<char>,
    children: Seq<(Seq<char>, TreeV)>,
    n: int,
    at: nat,
    l: Legend,
) -> GraphV
    decreases children, n,
{
    if n <= 0 {
        g
    } else {
        let before = drawn_children(g, owner, children, n - 1, at, l);
        let key = child_order(children)[n - 1];
        let i = first_position(children, key);
        if 0 <= i < children.len() {
            let (h, child) = drawn_tree(
                before,
                children[i].1,
                at + child_atoms(children, n - 1),
                l,
            );
            with_edge(h, owner, child, key)
        } else {
            before
        }
    }
}

proof fn lemma_filters_drawn(
    g: GraphV,
    h: GraphV,
    owner: Seq<char>,
    fs: Seq<FilterV>,
    n: int,
    list: Seq<Spelling>,
)
    requires
        draws_tree(g, h, owner),
        0 <= n <= fs.len(),
    ensures
        draws_tree(g, drawn_filters(h, owner, fs, n, list), owner),
    decreases fs, n,
{
    if n > 0 {
        lemma_filters_drawn(g, h, owner, fs, n - 1, list);
        let before = drawn_filters(h, owner, fs, n - 1, list);
        assert(decreases_to!(fs => fs[n - 1]));
        lemma_filter_drawn(before, fs[n - 1], list);
        let (k, child) = drawn_filter(before, fs[n - 1], list);
        if tidy(g) {
            lemma_joined(before, k, owner, child, ""@);
            lemma_drawn_then_added(g, before, with_edge(k, owner, child, ""@), owner);
        }
    }
}

proof fn lemma_filter_drawn(g: GraphV, f: FilterV, list: Seq<Spelling>)
    ensures
        draws_tree(g, drawn_filter(g, f, list).0, drawn_filter(g, f, list).1),
    decreases f, 0int,
{
    let id = next_node(g);
    match f {
        FilterV::And(fs) => {
            lemma_node_drawn(g, "And"@, "match"@);
            lemma_filters_drawn(
                g,
                with_node(g, "And"@, "match"@),
                id,
                fs,
                fs.len() as int,
                list,
            );
        },
        FilterV::Or(fs) => {
            lemma_node_drawn(g, "Or"@, "match"@);
            lemma_filters_drawn(g, with_node(g, "Or"@, "match"@), id, fs, fs.len() as int, list);
        },
        FilterV::Not(inner) => {
            let h = with_node(g, "Not"@, "parent"@);
            lemma_node_drawn(g, "Not"@, "parent"@);
            lemma_filter_drawn(h, *inner, list);
            let (k, child) = drawn_filter(h, *inner, list);
            if tidy(g) {
                lemma_joined(h, k, id, child, ""@);
                lemma_drawn_then_added(g, h, with_edge(k, id, child, ""@), id);
            }
        },
        _ => {
            lemma_node_drawn(g, truncated(described(f, list), 120), "extract"@);
        },
    }
}

/// The graph of a category's condition is a tree.
pub proof fn place_graphs_are_trees(node: OrderedNode, cats: Seq<CategoryV>, list: Seq<Spelling>)
    ensures
        tidy(place_graph(node, cats, list)),
        !is_target(place_graph(node, cats, list), next_node(blank())),
        place_graph(node, cats, list).nodes.len() == place_graph(node, cats, list).edges.len() + 1,
{
    let (label, condition) = place_parts(node, cats);
    let g = with_node(blank(), label, "rule"@);
    lemma_node_drawn(blank(), label, "rule"@);
    lemma_filter_drawn(g, condition, list);
    let (h, entry) = drawn_filter(g, condition, list);
    lemma_joined(g, h, next_node(blank()), entry, "if"@);
    lemma_drawn_then_added(blank(), g, place_graph(node, cats, list), next_node(blank()));
}

proof fn lemma_children_drawn(
    g: GraphV,
    h: GraphV,
    owner: Seq<char>,
    children: Seq<(Seq<char>, TreeV)>,
    n: int,
    at: nat,
    l: Legend,
)
    requires
        draws_tree(g, h, owner),
    ensures
        draws_tree(g, drawn_children(h, owner, children, n, at, l), owner),
    decreases children, n,
{
    if n > 0 {
        lemma_children_drawn(g, h, owner, children, n - 1, at, l);
        let before = drawn_children(h, owner, children, n - 1, at, l);
        let key = child_order(children)[n - 1];
        let i = first_position(children, key);
        if 0 <= i < children.len() {
            assert(decreases_to!(children => children[i]));
            assert(decreases_to!(children[i] => children[i].1));
            lemma_tree_drawn(before, children[i].1, at + child_atoms(children, n - 1), l);
            let (k, child) = drawn_tree(
                before,
                children[i].1,
                at + child_atoms(children, n - 1),
                l,
            );
            if tidy(g) {
                lemma_joined(before, k, owner, child, key);
                lemma_drawn_then_added(g, before, with_edge(k, owner, child, key), owner);
            }
        }
    }
}

proof fn lemma_tree_drawn(g: GraphV, t: TreeV, at: nat, l: Legend)
    ensures
        draws_tree(g, drawn_tree(g, t, at, l).0, drawn_tree(g, t, at, l).1),
    decreases t, 0int,
{
    let id = next_node(g);
    match t {
        TreeV::Leaf(v) => {
            let places = v.map_values(|p: (usize, crate::categorize::expr::ExprV)| p.0);
            lemma_node_drawn(g, leaf_text(places, l.order, l.cats), "const"@);
        },
        TreeV::Branch(tag, children, wildcard) => {
            let label = "branch\ntag: "@ + shown_branch_key(tag);
            let h = with_node(g, label, "match"@);
            lemma_node_drawn(g, label, "match"@);
            let n = child_order(children).len() as int;
            lemma_children_drawn(g, h, id, children, n, at, l);
            let k = drawn_children(h, id, children, n, at, l);
            lemma_tree_drawn(k, *wildcard, at + child_atoms(children, n), l);
            let (m, rest) = drawn_tree(k, *wildcard, at + child_atoms(children, n), l);
            if tidy(g) {
                lemma_joined(k, m, id, rest, "*"@);
                lemma_drawn_then_added(g, k, with_edge(m, id, rest, "*"@), id);
            }
        },
        TreeV::AtomBranch(_, on_true, on_false) => {
            let label = "branch\natom: "@ + truncated(l.atoms[at as int], 80);
            let h = with_node(g, label, "match"@);
            lemma_node_drawn(g, label, "match"@);
            lemma_tree_drawn(h, *on_true, at + 1, l);
            let (k, a) = drawn_tree(h, *on_true, at + 1, l);
            let k2 = with_edge(k, id, a, "true"@);
            lemma_tree_drawn(k2, *on_false, at + 1 + atom_branches(*on_true), l);
            let (m, b) = drawn_tree(k2, *on_false, at + 1 + atom_branches(*on_true), l);
            if tidy(g) {
                lemma_joined(h, k, id, a, "true"@);
                lemma_drawn_then_added(g, h, k2, id);
                lemma_joined(k2, m, id, b, "false"@);
                lemma_drawn_then_added(g, k2, with_edge(m, id, b, "false"@), id);
            }
        },
    }
}

/// The graph of a net is a tree.
pub proof fn net_graphs_are_trees(t: TreeV, l: Legend)
    ensures
        tidy(drawn_tree(blank(), t, 0, l).0),
        !is_target(drawn_tree(blank(), t, 0, l).0, drawn_tree(blank(), t, 0, l).1),
        drawn_tree(blank(), t, 0, l).0.nodes.len() == drawn_tree(blank(), t, 0, l).0.edges.len() + 1,
{
    lemma_tree_drawn(blank(), t, 0, l);
}

fn render_filters(g: &mut DagGraph, owner: &str, fs: &Vec<Filter>, list: &Vec<Spelling>)
    ensures
        final(g)@ == drawn_filters(old(g)@, owner@, filters(fs@), fs@.len() as int, list@),
    decreases fs, 0int,
{
    broadcast use group_filters;

    let ghost start = g@;
    let mut i: usize = 0;
    while i < fs.len()
        invariant
            i <= fs@.len(),
            g@ == drawn_filters(start, owner@, filters(fs@), i as int, list@),
        decreases fs.len() - i,
    {
        proof {
            assert(decreases_to!(fs@ => fs@[i as int]));
        }
        let child: String = render_filter(g, &fs[i], list);
        g.edge(owner, child.as_str(), "");
        i = i + 1;
    }
}

fn render_filter(g: &mut DagGraph, f: &Filter, list: &Vec<Spelling>) -> (r: String)
    ensures
        (final(g)@, r@) == drawn_filter(old(g)@, f@, list@),
    decreases f, 0int,
{
    broadcast use group_filters;

    match f {
        Filter::And { and } => {
            let node: String = g.node("And".to_owned(), "match");
            render_filters(g, node.as_str(), and, list);
            node
        },
        Filter::Or { or } => {
            let node: String = g.node("Or".to_owned(), "match");
            render_filters(g, node.as_str(), or, list);
            node
        },
        Filter::Not { not } => {
            let node: String = g.node("Not".to_owned(), "parent");
            let child: String = render_filter(g, not, list);
            g.edge(node.as_str(), child.as_str(), "");
            node
        },
        other => g.node(truncate(other.describe(list).as_str(), 120), "extract"),
    }
}

/// The graph of a place in the priority order: a category with its condition and what it excludes,
/// or a condition under which an object has none; `list` spells its numbers.
pub fn category_condition_dag(
    cats: &CategoriesFile,
    order_idx: usize,
    list: &Vec<Spelling>,
) -> (r: DagGraph)
    requires
        order_idx < cats.order@.len(),
        names_categories(cats.order@, defs_view(cats.categories@)),
    ensures
        r@ == place_graph(cats.order@[order_idx as int], defs_view(cats.categories@), list@),
{
    let ghost cv = defs_view(cats.categories@);
    assert(cv.len() == cats.categories@.len());
    let mut g: DagGraph = DagGraph::new();
    match &cats.order[order_idx] {
        OrderedNode::Category { idx } => {
            let cat: &CategoryDef = &cats.categories[*idx];
            assert(cv[*idx as int] == cat@);
            let mut label: String = concat2("Category\n", cat.id.as_str());
            if let Some(excludes) = &cat.excludes {
                proof {
                    assert(models(excludes@).len() == excludes@.len());
                }
                if excludes.len() > 0 {
                    label.append("\nexcludes: ");
                    label.append(join(excludes, ", ").as_str());
                }
            }
            assert(label@ == category_text(cat@));
            let header: String = g.node(label, "rule");
            let entry: String = render_filter(&mut g, &cat.condition, list);
            g.edge(header.as_str(), entry.as_str(), "if");
        },
        OrderedNode::Skip { condition } => {
            let header: String = g.node("No Category".to_owned(), "rule");
            let entry: String = render_filter(&mut g, condition, list);
            g.edge(header.as_str(), entry.as_str(), "if");
        },
    }
    g
}

/// The name of a place in the priority order.
pub fn order_label(cats: &CategoriesFile, idx: usize) -> (r: String)
    requires
        idx < cats.order@.len(),
        names_categories(cats.order@, defs_view(cats.categories@)),
    ensures
        r@ == place_name(cats.order@[idx as int], defs_view(cats.categories@)),
{
    let ghost cv = defs_view(cats.categories@);
    assert(cv.len() == cats.categories@.len());
    match &cats.order[idx] {
        OrderedNode::Category { idx } => {
            assert(cv[*idx as int] == cats.categories@[*idx as int]@);
            cats.categories[*idx].id.clone()
        },
        OrderedNode::Skip { .. } => "(no category)".to_owned(),
    }
}

fn show_leaf(v: &Vec<(usize, Expr)>, cats: &CategoriesFile) -> (r: String)
    requires
        names_categories(cats.order@, defs_view(cats.categories@)),
        forall|i: int| 0 <= i < v@.len() ==> (#[trigger] v@[i]).0 < cats.order@.len(),
    ensures
        r@ == leaf_text(
            leaf_view(v@).map_values(|p: (usize, crate::categorize::expr::ExprV)| p.0),
            cats.order@,
            defs_view(cats.categories@),
        ),
{
    let ghost places = leaf_view(v@).map_values(
        |p: (usize, crate::categorize::expr::ExprV)| p.0,
    );
    let ghost names = places.map_values(
        |i: usize| place_name(cats.order@[i as int], defs_view(cats.categories@)),
    );
    assert(places.len() == v@.len());
    if v.len() == 0 {
        return "Leaf\n(no candidates)".to_owned();
    }
    let mut lines: Vec<String> = Vec::new();
    lines.push("Leaf".to_owned());
    let mut i: usize = 0;
    assert(strs(lines@) =~= seq!["Leaf"@] + names.take(0));
    while i < v.len()
        invariant
            i <= v@.len(),
            names_categories(cats.order@, defs_view(cats.categories@)),
            forall|i: int| 0 <= i < v@.len() ==> (#[trigger] v@[i]).0 < cats.order@.len(),
            places == leaf_view(v@).map_values(
                |p: (usize, crate::categorize::expr::ExprV)| p.0,
            ),
            names == places.map_values(
                |i: usize| place_name(cats.order@[i as int], defs_view(cats.categories@)),
            ),
            strs(lines@) =~= seq!["Leaf"@] + names.take(i as int),
        decreases v.len() - i,
    {
        let name: String = order_label(cats, v[i].0);
        let ghost before = strs(lines@);
        proof {
            assert(leaf_view(v@)[i as int].0 == v@[i as int].0);
            assert(places[i as int] == v@[i as int].0);
            assert(names[i as int] == name@);
        }
        lines.push(name);
        assert(strs(lines@) =~= before.push(name@));
        i = i + 1;
    }
    assert(names.take(i as int) =~= names);
    truncate(join(&lines, "\n").as_str(), 200)
}

fn sorted_child_keys(children: &Vec<(String, DecisionTree)>) -> (r: Vec<String>)
    ensures
        strs(r@) == child_order(trees(children@)),
        is_child_order(strs(r@), trees(children@)),
{
    broadcast use group_trees;

    let ghost ks = trees(children@).map_values(|c: (Seq<char>, TreeV)| c.0);
    let mut out: Vec<String> = Vec::new();
    let mut i: usize = 0;
    assert(strs(out@).to_set() =~= ks.take(0).to_set());
    while i < children.len()
        invariant
            i <= children@.len(),
            ks == trees(children@).map_values(|c: (Seq<char>, TreeV)| c.0),
            strictly_sorted(strs(out@)),
            strs(out@).to_set() == ks.take(i as int).to_set(),
        decreases children.len() - i,
    {
        let ghost before = strs(out@).to_set();
        insert_sorted(&mut out, children[i].0.as_str());
        proof {
            assert(ks[i as int] == children@[i as int].0@);
            let now = ks.take(i + 1);
            assert(now =~= ks.take(i as int).push(ks[i as int]));
            assert forall|k: Seq<char>| now.to_set().contains(k) <==> #[trigger] before.insert(
                ks[i as int],
            ).contains(k) by {
                if now.contains(k) {
                    let j = now.index_of(k);
                    if j < i {
                        assert(ks.take(i as int)[j] == k);
                    }
                }
                if ks.take(i as int).contains(k) {
                    let j = ks.take(i as int).index_of(k);
                    assert(now[j] == k);
                }
                assert(now[i as int] == ks[i as int]);
            }
            assert(now.to_set() =~= before.insert(ks[i as int]));
        }
        i = i + 1;
    }
    proof {
        assert(ks.take(i as int) =~= ks);
        let all = trees(children@);
        assert(is_child_order(strs(out@), all));
        assert(is_child_order(child_order(all), all));
        sorted_lists_are_unique(strs(out@), child_order(all));
    }
    out
}

/// What is needed to draw a net: its places are in the order, and there are enough texts for its
/// branches on atoms from the `at`-th on.
pub open spec fn drawable_net(t: TreeV, cats: CategoriesFile, atoms: nat, at: nat) -> bool {
    &&& places_within(t, cats.order@.len() as int)
    &&& names_categories(cats.order@, defs_view(cats.categories@))
    &&& at + atom_branches(t) <= atoms
}

fn render_decision_tree(
    g: &mut DagGraph,
    tree: &DecisionTree,
    cats: &CategoriesFile,
    atoms: &Vec<String>,
    at: usize,
) -> (r: (String, usize))
    requires
        drawable_net(tree@, *cats, atoms@.len(), at as nat),
    ensures
        (final(g)@, r.0@) == drawn_tree(
            old(g)@,
            tree@,
            at as nat,
            Legend {
                order: cats.order@,
                cats: defs_view(cats.categories@),
                atoms: strs(atoms@),
            },
        ),
        r.1 == at + atom_branches(tree@),
    decreases tree,
{
    broadcast use group_trees;

    let ghost l = Legend {
        order: cats.order@,
        cats: defs_view(cats.categories@),
        atoms: strs(atoms@),
    };
    match tree {
        DecisionTree::Leaf(v) => {
            proof {
                assert(leaf_view(v@).len() == v@.len());
                assert forall|i: int| 0 <= i < v@.len() implies (#[trigger] v@[i]).0
                    < cats.order@.len() by {
                    assert(leaf_view(v@)[i].0 == v@[i].0);
                }
            }
            (g.node(show_leaf(v, cats), "const"), at)
        },
        DecisionTree::Branch { tag, children, wildcard } => {
            let ghost all = trees(children@);
            let node: String = g.node(concat2("branch\ntag: ", tag.label().as_str()), "match");
            let ghost started = g@;
            let keys: Vec<String> = sorted_child_keys(children);
            let mut next: usize = at;
            let mut i: usize = 0;
            proof {
                lemma_child_atoms_grow(all, 0, keys@.len() as int);
            }
            while i < keys.len()
                invariant
                    i <= keys@.len(),
                    *tree is Branch,
                    tree->children == *children,
                    all == trees(children@),
                    strs(keys@) == child_order(all),
                    is_child_order(strs(keys@), all),
                    children_within(all, cats.order@.len() as int),
                    tree@ == TreeV::Branch(tag@, all, Box::new(wildcard@)),
                    names_categories(cats.order@, defs_view(cats.categories@)),
                    at + child_atoms(all, keys@.len() as int) <= atoms@.len(),
                    next == at + child_atoms(all, i as int),
                    l == (Legend {
                        order: cats.order@,
                        cats: defs_view(cats.categories@),
                        atoms: strs(atoms@),
                    }),
                    g@ == drawn_children(started, node@, all, i as int, at as nat, l),
                decreases keys.len() - i,
            {
                let key: &str = keys[i].as_str();
                proof {
                    assert(strs(keys@)[i as int] == key@);
                    assert(strs(keys@).to_set().contains(key@));
                    let names = all.map_values(|c: (Seq<char>, TreeV)| c.0);
                    assert(names.to_set().contains(key@));
                    let j = names.index_of(key@);
                    assert(children@[j].0@ == key@);
                    lemma_first_position(all, key@);
                    lemma_child_atoms_grow(all, i + 1, keys@.len() as int);
                }
                match position_of(children, key) {
                    Some(j) => {
                        proof {
                            let p = first_position(all, key@);
                            if p < j {
                                assert(children@[p].0@ == all[p].0);
                            }
                            if j < p {
                                assert(all[j as int].0 == children@[j as int].0@);
                            }
                            assert(p == j);
                            assert(all[j as int].1 == children@[j as int].1@);
                            assert(decreases_to!(children@ => children@[j as int]));
                            assert(decreases_to!(children@[j as int] => children@[j as int].1));
                        }
                        let (child, after) = render_decision_tree(
                            g,
                            &children[j].1,
                            cats,
                            atoms,
                            next,
                        );
                        g.edge(node.as_str(), child.as_str(), key);
                        next = after;
                    },
                    None => {},
                }
                i = i + 1;
            }
            let (rest, after) = render_decision_tree(g, wildcard, cats, atoms, next);
            g.edge(node.as_str(), rest.as_str(), "*");
            (node, after)
        },
        DecisionTree::AtomBranch { atom: _, on_true, on_false } => {
            let size: usize = atoms.len();
            assert(at < size);
            assert(strs(atoms@)[at as int] == atoms@[at as int]@);
            let node: String = g.node(
                concat2("branch\natom: ", truncate(atoms[at].as_str(), 80).as_str()),
                "match",
            );
            let (a, middle) = render_decision_tree(g, on_true, cats, atoms, at + 1);
            g.edge(node.as_str(), a.as_str(), "true");
            let (b, after) = render_decision_tree(g, on_false, cats, atoms, middle);
            g.edge(node.as_str(), b.as_str(), "false");
            (node, after)
        },
    }
}

proof fn lemma_child_atoms_grow(children: Seq<(Seq<char>, TreeV)>, a: int, b: int)
    requires
        a <= b,
    ensures
        child_atoms(children, a) <= child_atoms(children, b),
    decreases b - a,
{
    if a < b {
        lemma_child_atoms_grow(children, a, b - 1);
    }
}

/// The graph of the net of a kind's categories; `atoms` has a text for each branch on an atom, in
/// the order they are met from the top, the keys of a branch in order and what is left of it last.
pub fn decision_tree_dag(cats: &CategoriesFile, atoms: &Vec<String>) -> (r: DagGraph)
    requires
        drawable_net(cats.tree@, *cats, atoms@.len(), 0),
    ensures
        r@ == drawn_tree(
            blank(),
            cats.tree@,
            0,
            Legend {
                order: cats.order@,
                cats: defs_view(cats.categories@),
                atoms: strs(atoms@),
            },
        ).0,
{
    let mut g: DagGraph = DagGraph::new();
    render_decision_tree(&mut g, &cats.tree, cats, atoms, 0);
    g
}

} // verus!
