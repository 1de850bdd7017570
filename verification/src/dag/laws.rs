//! What the graphs show of what they are drawn from.
use vstd::prelude::*;

use crate::categorize::categories::{CategoryV, OrderedNode};
use crate::dag::category::{drawn_filter, drawn_filters, place_graph, place_parts};
use crate::dag::dot::{chain_row, sketched, with_box, with_notes, DotV, SketchV};
use crate::dag::graph::{blank, next_node, truncated, with_edge, with_node, GraphV};
use crate::dag::producer::{
    drawn_chain, drawn_producer, drawn_rules, drawn_sanitizer, extract_text, match_text, noted,
    rule_text, sanitizer_graph, step_text,
};
use crate::lang::filter::{described, described_all, FilterV, Spelling};
use crate::lang::producer::{MatchOrigin, ProducerV, RuleV};
use crate::lang::sanitize::SanitizerV;
use crate::text::{joined, joined_texts_follow_each_other};
use crate::value::ValueV;

verus! {

/// A text is shown as it is where it is short enough, and else cut with a mark behind it.
pub proof fn long_texts_are_cut(s: Seq<char>, max: int)
    requires
        0 <= max,
    ensures
        s.len() <= max ==> truncated(s, max) == s,
        s.len() > max ==> truncated(s, max).take(max) == s.take(max) && truncated(s, max).skip(max)
            == "…"@,
{
    if s.len() > max {
        assert(truncated(s, max).take(max) =~= s.take(max));
        assert(truncated(s, max).skip(max) =~= "…"@);
    }
}

// ── Conditions ──────────────────────────────────────────────────────────────────────────────

/// How many conditions a condition is made of, itself included.
pub open spec fn size(f: FilterV) -> nat
    decreases f, 0int,
{
    match f {
        FilterV::And(fs) => 1 + sizes(fs, fs.len() as int),
        FilterV::Or(fs) => 1 + sizes(fs, fs.len() as int),
        FilterV::Not(g) => 1 + size(*g),
        _ => 1,
    }
}

/// How many conditions the first `n` of several are made of.
pub open spec fn sizes(fs: Seq<FilterV>, n: int) -> nat
    decreases fs, n,
{
    if n <= 0 || n > fs.len() {
        0
    } else {
        sizes(fs, n - 1) + size(fs[n - 1])
    }
}

proof fn lemma_drawn(g: GraphV, f: FilterV, list: Seq<Spelling>)
    ensures
        g.nodes.is_prefix_of(drawn_filter(g, f, list).0.nodes),
        drawn_filter(g, f, list).0.nodes.len() == g.nodes.len() + size(f),
        drawn_filter(g, f, list).0.edges.len() == g.edges.len() + size(f) - 1,
        drawn_filter(g, f, list).1 == next_node(g),
        ({
            let top = drawn_filter(g, f, list).0.nodes[g.nodes.len() as int];
            match f {
                FilterV::And(_) => top.label == "And"@,
                FilterV::Or(_) => top.label == "Or"@,
                FilterV::Not(_) => top.label == "Not"@,
                _ => top.label == truncated(described(f, list), 120),
            }
        }),
    decreases f, 0int,
{
    let id = next_node(g);
    match f {
        FilterV::And(fs) => {
            let start = with_node(g, "And"@, "match"@);
            lemma_all_drawn(start, id, fs, fs.len() as int, list);
            lemma_longer(g, start, drawn_filters(start, id, fs, fs.len() as int, list));
        },
        FilterV::Or(fs) => {
            let start = with_node(g, "Or"@, "match"@);
            lemma_all_drawn(start, id, fs, fs.len() as int, list);
            lemma_longer(g, start, drawn_filters(start, id, fs, fs.len() as int, list));
        },
        FilterV::Not(inner) => {
            let start = with_node(g, "Not"@, "parent"@);
            lemma_drawn(start, *inner, list);
            lemma_longer(g, start, drawn_filter(start, *inner, list).0);
        },
        _ => {
            let start = with_node(g, truncated(described(f, list), 120), "extract"@);
            lemma_longer(g, start, start);
        },
    }
}

proof fn lemma_longer(g: GraphV, start: GraphV, h: GraphV)
    requires
        start.nodes.len() == g.nodes.len() + 1,
        start.nodes.take(g.nodes.len() as int) =~= g.nodes,
        start.nodes.is_prefix_of(h.nodes),
    ensures
        g.nodes.is_prefix_of(h.nodes),
        h.nodes[g.nodes.len() as int] == start.nodes[g.nodes.len() as int],
{
    assert(h.nodes.subrange(0, start.nodes.len() as int)[g.nodes.len() as int]
        == h.nodes[g.nodes.len() as int]);
    assert(g.nodes =~= h.nodes.subrange(0, g.nodes.len() as int)) by {
        assert forall|i: int| 0 <= i < g.nodes.len() implies g.nodes[i] == h.nodes[i] by {
            assert(start.nodes.take(g.nodes.len() as int)[i] == start.nodes[i]);
            assert(h.nodes.subrange(0, start.nodes.len() as int)[i] == h.nodes[i]);
        }
    }
}

proof fn lemma_all_drawn(
    g: GraphV,
    owner: Seq<char>,
    fs: Seq<FilterV>,
    n: int,
    list: Seq<Spelling>,
)
    requires
        0 <= n <= fs.len(),
    ensures
        g.nodes.is_prefix_of(drawn_filters(g, owner, fs, n, list).nodes),
        drawn_filters(g, owner, fs, n, list).nodes.len() == g.nodes.len() + sizes(fs, n),
        drawn_filters(g, owner, fs, n, list).edges.len() == g.edges.len() + sizes(fs, n),
    decreases fs, n,
{
    if n > 0 {
        lemma_all_drawn(g, owner, fs, n - 1, list);
        let before = drawn_filters(g, owner, fs, n - 1, list);
        lemma_drawn(before, fs[n - 1], list);
        let (h, child) = drawn_filter(before, fs[n - 1], list);
        let now = drawn_filters(g, owner, fs, n, list);
        assert(g.nodes =~= now.nodes.subrange(0, g.nodes.len() as int)) by {
            assert forall|i: int| 0 <= i < g.nodes.len() implies g.nodes[i] == now.nodes[i] by {
                assert(before.nodes.subrange(0, g.nodes.len() as int)[i] == before.nodes[i]);
                assert(h.nodes.subrange(0, before.nodes.len() as int)[i] == h.nodes[i]);
            }
        }
    } else {
        assert(g.nodes =~= g.nodes.subrange(0, g.nodes.len() as int));
    }
}

/// A condition is drawn with one node for each condition that it is made of, and one edge less. The
/// node at its top says how its parts are joined, or what it asks.
pub proof fn conditions_have_a_node_each(g: GraphV, f: FilterV, list: Seq<Spelling>)
    ensures
        ({
            let h = drawn_filter(g, f, list).0;
            let top = h.nodes[g.nodes.len() as int];
            &&& h.nodes.take(g.nodes.len() as int) == g.nodes
            &&& h.nodes.len() == g.nodes.len() + size(f)
            &&& h.edges.len() + 1 == g.edges.len() + size(f)
            &&& f is And ==> top.label == "And"@
            &&& f is Or ==> top.label == "Or"@
            &&& f is Not ==> top.label == "Not"@
            &&& !(f is And) && !(f is Or) && !(f is Not) ==> top.label == truncated(
                described(f, list),
                120,
            )
        }),
{
    lemma_drawn(g, f, list);
    let h = drawn_filter(g, f, list).0;
    assert(h.nodes.take(g.nodes.len() as int) =~= g.nodes);
}

/// The graph of a place in the order begins with what the place is: the category by name, or that it
/// is none. One edge leads from it to its condition, and every part of the condition has its node.
pub proof fn places_show_their_condition(
    node: OrderedNode,
    cats: Seq<CategoryV>,
    list: Seq<Spelling>,
)
    ensures
        ({
            let h = place_graph(node, cats, list);
            match node {
                OrderedNode::Category { idx } => {
                    let c = cats[idx as int];
                    &&& h.nodes.len() == 1 + size(c.condition)
                    &&& h.edges.len() == size(c.condition)
                    &&& c.excludes is None ==> h.nodes[0].label == "Category\n"@ + c.id
                    &&& h.edges.last().label == "if"@
                    &&& h.edges.last().source == h.nodes[0].id
                },
                OrderedNode::Skip { condition } => {
                    &&& h.nodes.len() == 1 + size(condition@)
                    &&& h.edges.len() == size(condition@)
                    &&& h.nodes[0].label == "No Category"@
                    &&& h.edges.last().label == "if"@
                    &&& h.edges.last().source == h.nodes[0].id
                },
            }
        }),
{
    let (label, condition) = place_parts(node, cats);
    let g = with_node(blank(), label, "rule"@);
    conditions_have_a_node_each(g, condition, list);
    let h = drawn_filter(g, condition, list).0;
    assert(h.nodes.take(1)[0] == h.nodes[0]);
    assert(place_graph(node, cats, list).nodes == h.nodes);
}

// ── Sketches ────────────────────────────────────────────────────────────────────────────────

/// How many boxes a producer is sketched with: one for itself, one for each step of a chain, and
/// those of what it asks of the parent.
pub open spec fn boxes(s: SketchV) -> nat
    decreases s,
{
    match s {
        SketchV::Extract { chain, .. } => 1 + chain.len(),
        SketchV::Parent(inner) => 1 + boxes(*inner),
        _ => 1,
    }
}

proof fn lemma_row(g: DotV, chain: Seq<Seq<char>>, n: nat)
    requires
        n >= 1,
    ensures
        chain_row(g, chain, n).0.next_id == g.next_id + n,
        chain_row(g, chain, n).0.lines.len() == g.lines.len() + 2 * n - 1,
        g.lines == chain_row(g, chain, n).0.lines.take(g.lines.len() as int),
    decreases n,
{
    let (h, _, _) = chain_row(g, chain, n);
    if n > 1 {
        lemma_row(g, chain, (n - 1) as nat);
        let (k, _, _) = chain_row(g, chain, (n - 1) as nat);
        assert(g.lines =~= h.lines.take(g.lines.len() as int)) by {
            assert forall|i: int| 0 <= i < g.lines.len() implies g.lines[i] == h.lines[i] by {
                assert(k.lines.take(g.lines.len() as int)[i] == k.lines[i]);
            }
        }
    } else {
        assert(g.lines =~= h.lines.take(g.lines.len() as int));
    }
}

/// A producer is sketched with a box for each of its parts and an arrow between each two that belong
/// together, behind the lines that were there.
pub proof fn sketches_have_a_box_for_each_part(g: DotV, s: SketchV)
    ensures
        sketched(g, s).0.next_id == g.next_id + boxes(s),
        sketched(g, s).0.lines.len() == g.lines.len() + 2 * boxes(s) - 1,
        sketched(g, s).0.lines.take(g.lines.len() as int) == g.lines,
    decreases s,
{
    let h = sketched(g, s).0;
    match s {
        SketchV::Extract { keys, annotate, chain } => {
            let start = with_box(
                g,
                with_notes("extract\n"@ + keys, annotate),
                "box"@,
                "#d9e8fb"@,
            );
            if chain.len() > 0 {
                lemma_row(start, chain, chain.len());
                let k = chain_row(start, chain, chain.len()).0;
                assert forall|i: int| 0 <= i < g.lines.len() implies g.lines[i] == h.lines[i] by {
                    assert(k.lines.take(start.lines.len() as int)[i] == k.lines[i]);
                }
            }
        },
        SketchV::Parent(inner) => {
            let start = with_box(g, "parent"@, "diamond"@, "#fff2cc"@);
            sketches_have_a_box_for_each_part(start, *inner);
            let k = sketched(start, *inner).0;
            assert forall|i: int| 0 <= i < g.lines.len() implies g.lines[i] == h.lines[i] by {
                assert(k.lines.take(start.lines.len() as int)[i] == k.lines[i]);
            }
        },
        _ => {},
    }
    assert(h.lines.take(g.lines.len() as int) =~= g.lines);
}

// ── Producers ───────────────────────────────────────────────────────────────────────────────

/// How many nodes a note takes: one, where anything is noted.
pub open spec fn note_size(annotate: Map<Seq<char>, ValueV>) -> nat {
    if annotate == Map::<Seq<char>, ValueV>::empty() {
        0
    } else {
        1
    }
}

/// How many parts a producer is shown with: itself and what it notes; the steps of its chain; each
/// rule and what the rule gives; the default; what it asks of the parent.
pub open spec fn parts(p: ProducerV) -> nat
    decreases p, 0int,
{
    match p {
        ProducerV::Match { rules, default, annotate, origin, .. } => if origin
            == MatchOrigin::Default {
            1 + note_size(annotate)
        } else {
            1 + note_size(annotate) + rule_parts(rules, rules.len() as int) + if default is Some {
                1nat
            } else {
                0nat
            }
        },
        ProducerV::Extract { extract, annotate } => 1 + note_size(annotate) + extract.chain().len(),
        ProducerV::Const { annotate, .. } => 1 + note_size(annotate),
        ProducerV::Parent(inner) => 1 + parts(*inner),
    }
}

/// How many parts the first `n` rules of a table are shown with.
pub open spec fn rule_parts(rules: Seq<RuleV>, n: int) -> nat
    decreases rules, n,
{
    if n <= 0 || n > rules.len() {
        0
    } else {
        rule_parts(rules, n - 1) + 1 + parts(rules[n - 1].value)
    }
}

proof fn lemma_chain_nodes(
    g: GraphV,
    chain: Seq<SanitizerV>,
    sink: Seq<char>,
    list: Seq<Spelling>,
)
    ensures
        drawn_chain(g, chain, sink, list).0.nodes.len() == g.nodes.len() + chain.len(),
    decreases chain.len(),
{
    if chain.len() > 0 {
        let id = next_node(g);
        let h = with_edge(
            with_node(g, step_text(chain.last(), list), "step"@),
            id,
            sink,
            ""@,
        );
        lemma_chain_nodes(h, chain.drop_last(), id, list);
    }
}

/// A producer is shown with one node for each of its parts.
pub proof fn producers_have_a_node_for_each_part(g: GraphV, p: ProducerV, list: Seq<Spelling>)
    ensures
        drawn_producer(g, p, list).0.nodes.len() == g.nodes.len() + parts(p),
    decreases p, 0int,
{
    let id = next_node(g);
    match p {
        ProducerV::Match { rules, default, annotate, origin, .. } => {
            if origin != MatchOrigin::Default {
                let h = noted(
                    with_node(g, match_text(origin, rules.len()), "match"@),
                    id,
                    annotate,
                    list,
                );
                lemma_rule_nodes(h, id, rules, origin, rules.len() as int, list);
            }
        },
        ProducerV::Extract { extract, annotate } => {
            let h = noted(with_node(g, extract_text(extract), "extract"@), id, annotate, list);
            lemma_chain_nodes(h, extract.chain(), id, list);
        },
        ProducerV::Const { .. } => {},
        ProducerV::Parent(inner) => {
            producers_have_a_node_for_each_part(
                with_node(g, "Parent"@, "parent"@),
                *inner,
                list,
            );
        },
    }
}

proof fn lemma_rule_nodes(
    g: GraphV,
    owner: Seq<char>,
    rules: Seq<RuleV>,
    origin: MatchOrigin,
    n: int,
    list: Seq<Spelling>,
)
    requires
        0 <= n <= rules.len(),
    ensures
        drawn_rules(g, owner, rules, origin, n, list).nodes.len() == g.nodes.len() + rule_parts(
            rules,
            n,
        ),
    decreases rules, n,
{
    if n > 0 {
        lemma_rule_nodes(g, owner, rules, origin, n - 1, list);
        let before = drawn_rules(g, owner, rules, origin, n - 1, list);
        let rule = rules[n - 1];
        let id = next_node(before);
        let h = with_edge(
            with_node(before, rule_text(origin, (n - 1) as nat, rule.when, list), "rule"@),
            owner,
            id,
            ""@,
        );
        producers_have_a_node_for_each_part(h, rule.value, list);
    }
}

proof fn lemma_steps_shown(
    name: Seq<char>,
    chain: Seq<SanitizerV>,
    n: nat,
    list: Seq<Spelling>,
)
    requires
        n <= chain.len(),
    ensures
        drawn_sanitizer(name, chain, n, list).0.nodes.len() == 1 + n,
        drawn_sanitizer(name, chain, n, list).0.nodes[0].label == "Sanitizer\n"@ + name,
        forall|i: int|
            0 <= i < n ==> (#[trigger] drawn_sanitizer(name, chain, n, list).0.nodes[1 + i]).label
                == step_text(chain[i], list),
    decreases n,
{
    if n > 0 {
        lemma_steps_shown(name, chain, (n - 1) as nat, list);
        let before = drawn_sanitizer(name, chain, (n - 1) as nat, list).0;
        let now = drawn_sanitizer(name, chain, n, list).0;
        assert forall|i: int| 0 <= i < n implies (#[trigger] now.nodes[1 + i]).label == step_text(
            chain[i],
            list,
        ) by {
            if i < n - 1 {
                assert(now.nodes[1 + i] == before.nodes[1 + i]);
            }
        }
    }
}

/// The graph of a sanitizer shows its name and then its steps in order; one without steps shows that
/// it has none.
pub proof fn sanitizers_show_their_steps(
    name: Seq<char>,
    chain: Seq<SanitizerV>,
    list: Seq<Spelling>,
)
    ensures
        ({
            let g = sanitizer_graph(name, chain, list);
            &&& g.nodes[0].label == "Sanitizer\n"@ + name
            &&& chain.len() == 0 ==> g.nodes.len() == 2 && g.nodes[1].label
                == "Identity\n(no steps)"@
            &&& chain.len() > 0 ==> g.nodes.len() == 1 + chain.len()
            &&& forall|i: int|
                0 <= i < chain.len() ==> (#[trigger] g.nodes[1 + i]).label == step_text(
                    chain[i],
                    list,
                )
        }),
{
    lemma_steps_shown(name, chain, chain.len(), list);
}

// ── Texts ───────────────────────────────────────────────────────────────────────────────────

/// Conditions that must all hold are told one after the other with `and` between, those of which one
/// must hold with `or` between and in brackets; the opposite of a condition is told as not that one.
pub proof fn joined_conditions_are_told_in_turn(
    a: Seq<FilterV>,
    b: Seq<FilterV>,
    f: FilterV,
    list: Seq<Spelling>,
)
    requires
        a.len() > 0,
        b.len() > 0,
    ensures
        described(FilterV::And(seq![f]), list) == described(f, list),
        described(FilterV::Or(seq![f]), list) == "("@ + described(f, list) + ")"@,
        described(FilterV::And(a + b), list) == described(FilterV::And(a), list) + "\nand\n"@
            + described(FilterV::And(b), list),
        described(FilterV::Or(a + b), list) == described(FilterV::Or(a), list).drop_last()
            + "\nor\n"@ + described(FilterV::Or(b), list).skip(1),
        described(FilterV::Not(Box::new(f)), list) == "not ("@ + described(f, list) + ")"@,
{
    reveal_strlit("(");
    reveal_strlit(")");
    let one = described_all(seq![f], list);
    assert(one =~= seq![described(f, list)]);
    let x = described_all(a, list);
    let y = described_all(b, list);
    assert(described_all(a + b, list) =~= x + y);
    joined_texts_follow_each_other(x, y, described(f, list), "\nand\n"@);
    joined_texts_follow_each_other(x, y, described(f, list), "\nor\n"@);
    let p = joined(x, "\nor\n"@);
    let q = joined(y, "\nor\n"@);
    assert(described(FilterV::Or(a), list).drop_last() =~= "("@ + p);
    assert(described(FilterV::Or(b), list).skip(1) =~= q + ")"@);
    assert(described(FilterV::Or(a + b), list) =~= "("@ + p + "\nor\n"@ + (q + ")"@));
    assert("("@ + p + "\nor\n"@ + (q + ")"@) =~= described(FilterV::Or(a), list).drop_last()
        + "\nor\n"@ + described(FilterV::Or(b), list).skip(1));
}

} // verus!
