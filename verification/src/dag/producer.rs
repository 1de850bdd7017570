//! Value producers and sanitize chains as graphs.
use vstd::prelude::*;

use crate::dag::graph::{
    blank, draws_tree, has_node, is_target, lemma_added_twice, lemma_drawn_then_added, lemma_headed,
    lemma_joined, lemma_node_drawn, lemma_node_stays, next_node, tidy, truncate, truncated, with_edge, with_node, DagGraph, GraphV,
};
use crate::json::{json_text, key_order, sorted_keys, to_json};
use crate::lang::extract::{Extract, ExtractV};
use crate::lang::filter::{described, FilterV, Spelling};
use crate::lang::producer::{
    group_rules, rules_view, MatchOrigin, Producer, ProducerV, Rule, RuleV,
};
use crate::lang::sanitize::{
    json_of, AtomicJson, AtomicV, ReplaceAt, ReplaceRule, ReplaceV, Sanitizer, SanitizerV,
};
use crate::model::{models, Model};
use crate::text::{
    concat2, concat3, decimal, decimal_text, join, joined, quote, quoted, strs,
};
use crate::value::{Fields, Value, ValueV};

verus! {

/// What is noted beside a value, a line for each field in the order of the keys.
pub open spec fn notes(annotate: Map<Seq<char>, ValueV>, list: Seq<Spelling>) -> Seq<Seq<char>> {
    key_order(annotate).map_values(|k: Seq<char>| k + ": "@ + json_text(annotate[k], list))
}

/// The graph with what is noted hung beside its owner, where anything is.
pub open spec fn noted(
    g: GraphV,
    owner: Seq<char>,
    annotate: Map<Seq<char>, ValueV>,
    list: Seq<Spelling>,
) -> GraphV {
    if annotate == Map::<Seq<char>, ValueV>::empty() {
        g
    } else {
        with_edge(
            with_node(g, joined(notes(annotate, list), "\n"@), "annotate"@),
            owner,
            next_node(g),
            "annotate"@,
        )
    }
}

/// An entry of a mapping.
pub open spec fn entry_line(e: (Seq<char>, Option<AtomicV>), list: Seq<Spelling>) -> Seq<char> {
    match e.1 {
        Some(a) => e.0 + " -> "@ + json_text(json_of(a), list),
        None => e.0 + " -> (drop)"@,
    }
}

/// A literal rewrite.
pub open spec fn replace_line(r: ReplaceV) -> Seq<char> {
    let line = r.from + " -> "@ + r.to;
    if r.at == ReplaceAt::Prefix {
        line + " (prefix)"@
    } else {
        line
    }
}

/// A step of a chain, as it is shown.
pub open spec fn step_text(s: SanitizerV, list: Seq<Spelling>) -> Seq<char> {
    match s {
        SanitizerV::Mapping { mapping, on_miss } => joined(
            seq!["Mapping"@] + mapping.map_values(
                |e: (Seq<char>, Option<AtomicV>)| entry_line(e, list),
            ) + seq![
                "on_miss: "@ + match on_miss {
                    Some(m) => m,
                    None => "drop"@,
                },
            ],
            "\n"@,
        ),
        SanitizerV::Replace { replace } => joined(
            seq!["Replace"@] + replace.map_values(|r: ReplaceV| replace_line(r)),
            "\n"@,
        ),
        SanitizerV::Builtin(b) => "Builtin\nname: "@ + b.spec_name(),
    }
}

/// The chain drawn as a line of steps that ends in a node, and the node that enters it.
pub open spec fn drawn_chain(
    g: GraphV,
    chain: Seq<SanitizerV>,
    sink: Seq<char>,
    list: Seq<Spelling>,
) -> (GraphV, Seq<char>)
    decreases chain.len(),
{
    if chain.len() == 0 {
        (g, sink)
    } else {
        let id = next_node(g);
        let h = with_edge(
            with_node(g, step_text(chain.last(), list), "step"@),
            id,
            sink,
            ""@,
        );
        drawn_chain(h, chain.drop_last(), id, list)
    }
}

/// The head of a rule table, as it is shown.
pub open spec fn match_text(origin: MatchOrigin, n: nat) -> Seq<char> {
    match origin {
        MatchOrigin::Fallback => "Fallback\n"@ + decimal(n) + " branch(es)"@,
        MatchOrigin::ParentOrObj => "Parent Or Obj"@,
        MatchOrigin::TagOr => "Tag Or"@,
        _ => "Match"@,
    }
}

/// The `i`-th rule, as it is shown: its place where its condition always holds, its condition
/// otherwise.
pub open spec fn rule_text(
    origin: MatchOrigin,
    i: nat,
    when: FilterV,
    list: Seq<Spelling>,
) -> Seq<char> {
    match origin {
        MatchOrigin::Fallback => "Option "@ + decimal(i + 1),
        MatchOrigin::TagOr => decimal(i + 1),
        _ => truncated(described(when, list), 120),
    }
}

/// A tag read, as it is shown.
pub open spec fn extract_text(e: ExtractV) -> Seq<char> {
    match e {
        ExtractV::Value { key, .. } => "Extract\nkey: "@ + key,
        ExtractV::Candidates { keys, .. } => "Extract\nkeys: ["@ + joined(
            keys.map_values(|k: Seq<char>| quoted(k)),
            ", "@,
        ) + "]"@,
    }
}

/// A value under a heading.
pub open spec fn headed(heading: Seq<char>, v: ValueV, list: Seq<Spelling>) -> Seq<char> {
    heading + truncated(json_text(v, list), 40)
}

/// The producer drawn into a graph, and the node that enters it.
pub open spec fn drawn_producer(g: GraphV, p: ProducerV, list: Seq<Spelling>) -> (GraphV, Seq<char>)
    decreases p, 0int,
{
    let id = next_node(g);
    match p {
        ProducerV::Match { rules, default, annotate, origin, .. } => {
            if origin == MatchOrigin::Default {
                let h = with_node(g, headed("Default\n"@, default->0, list), "const"@);
                (noted(h, id, annotate, list), id)
            } else {
                let h = noted(
                    with_node(g, match_text(origin, rules.len()), "match"@),
                    id,
                    annotate,
                    list,
                );
                let k = drawn_rules(h, id, rules, origin, rules.len() as int, list);
                match default {
                    Some(d) => (
                        with_edge(
                            with_node(k, headed("Const\n"@, d, list), "const"@),
                            id,
                            next_node(k),
                            "default"@,
                        ),
                        id,
                    ),
                    None => (k, id),
                }
            }
        },
        ProducerV::Extract { extract, annotate } => {
            let h = noted(with_node(g, extract_text(extract), "extract"@), id, annotate, list);
            drawn_chain(h, extract.chain(), id, list)
        },
        ProducerV::Const { value, annotate } => {
            let h = with_node(g, headed("Const\n"@, value, list), "const"@);
            (noted(h, id, annotate, list), id)
        },
        ProducerV::Parent(inner) => {
            let (h, child) = drawn_producer(with_node(g, "Parent"@, "parent"@), *inner, list);
            (with_edge(h, id, child, ""@), id)
        },
    }
}

/// The first `n` rules drawn under their table.
pub open spec fn drawn_rules(
    g: GraphV,
    owner: Seq<char>,
    rules: Seq<RuleV>,
    origin: MatchOrigin,
    n: int,
    list: Seq<Spelling>,
) -> GraphV
    decreases rules, n,
{
    if n <= 0 || n > rules.len() {
        g
    } else {
        let before = drawn_rules(g, owner, rules, origin, n - 1, list);
        let rule = rules[n - 1];
        let id = next_node(before);
        let h = with_edge(
            with_node(before, rule_text(origin, (n - 1) as nat, rule.when, list), "rule"@),
            owner,
            id,
            ""@,
        );
        let (k, value) = drawn_producer(h, rule.value, list);
        with_edge(k, id, value, ""@)
    }
}

/// A table that is a bare default has one.
pub open spec fn showable(p: ProducerV) -> bool
    decreases p,
{
    match p {
        ProducerV::Match { rules, default, origin, .. } => if origin == MatchOrigin::Default {
            default is Some
        } else {
            all_showable(rules)
        },
        ProducerV::Parent(inner) => showable(*inner),
        _ => true,
    }
}

/// Every rule's producer can be shown.
pub open spec fn all_showable(rules: Seq<RuleV>) -> bool
    decreases rules,
{
    forall|i: int| 0 <= i < rules.len() ==> showable((#[trigger] rules[i]).value)
}

/// The graph of a named chain, from its name down.
pub open spec fn drawn_sanitizer(
    name: Seq<char>,
    chain: Seq<SanitizerV>,
    n: nat,
    list: Seq<Spelling>,
) -> (GraphV, Seq<char>)
    decreases n,
{
    if n == 0 || n > chain.len() {
        (with_node(blank(), "Sanitizer\n"@ + name, "sanitizer"@), next_node(blank()))
    } else {
        let (g, above) = drawn_sanitizer(name, chain, (n - 1) as nat, list);
        let id = next_node(g);
        (
            with_edge(
                with_node(g, step_text(chain[n - 1], list), "step"@),
                above,
                id,
                ""@,
            ),
            id,
        )
    }
}

/// The graph of a named chain; one without steps keeps every text.
pub open spec fn sanitizer_graph(
    name: Seq<char>,
    chain: Seq<SanitizerV>,
    list: Seq<Spelling>,
) -> GraphV {
    let (g, last) = drawn_sanitizer(name, chain, chain.len(), list);
    if chain.len() == 0 {
        with_edge(with_node(g, "Identity\n(no steps)"@, "const"@), last, next_node(g), ""@)
    } else {
        g
    }
}

proof fn lemma_noted(
    g: GraphV,
    h: GraphV,
    owner: Seq<char>,
    annotate: Map<Seq<char>, ValueV>,
    list: Seq<Spelling>,
)
    requires
        draws_tree(g, h, owner),
    ensures
        draws_tree(g, noted(h, owner, annotate, list), owner),
{
    if annotate != Map::<Seq<char>, ValueV>::empty() {
        let label = joined(notes(annotate, list), "\n"@);
        lemma_node_drawn(h, label, "annotate"@);
        if tidy(g) {
            lemma_joined(
                h,
                with_node(h, label, "annotate"@),
                owner,
                next_node(h),
                "annotate"@,
            );
            lemma_drawn_then_added(g, h, noted(h, owner, annotate, list), owner);
        }
    }
}

proof fn lemma_chain_drawn(
    g: GraphV,
    h: GraphV,
    chain: Seq<SanitizerV>,
    sink: Seq<char>,
    list: Seq<Spelling>,
)
    requires
        draws_tree(g, h, sink),
    ensures
        draws_tree(
            g,
            drawn_chain(h, chain, sink, list).0,
            drawn_chain(h, chain, sink, list).1,
        ),
    decreases chain.len(),
{
    if chain.len() > 0 {
        let label = step_text(chain.last(), list);
        let id = next_node(h);
        let next = with_edge(with_node(h, label, "step"@), id, sink, ""@);
        lemma_headed(g, h, sink, label, "step"@, ""@);
        lemma_chain_drawn(g, next, chain.drop_last(), id, list);
    }
}

proof fn lemma_rules_drawn(
    g: GraphV,
    h: GraphV,
    owner: Seq<char>,
    rules: Seq<RuleV>,
    origin: MatchOrigin,
    n: int,
    list: Seq<Spelling>,
)
    requires
        draws_tree(g, h, owner),
        0 <= n <= rules.len(),
    ensures
        draws_tree(g, drawn_rules(h, owner, rules, origin, n, list), owner),
    decreases rules, n,
{
    if n > 0 {
        lemma_rules_drawn(g, h, owner, rules, origin, n - 1, list);
        let before = drawn_rules(h, owner, rules, origin, n - 1, list);
        let rule = rules[n - 1];
        let label = rule_text(origin, (n - 1) as nat, rule.when, list);
        let id = next_node(before);
        let with_rule = with_node(before, label, "rule"@);
        let joined_rule = with_edge(with_rule, owner, id, ""@);
        lemma_node_drawn(before, label, "rule"@);
        assert(decreases_to!(rules => rules[n - 1]));
        lemma_producer_drawn(joined_rule, rule.value, list);
        let (k, value) = drawn_producer(joined_rule, rule.value, list);
        if tidy(g) {
            lemma_joined(before, with_rule, owner, id, ""@);
            lemma_node_stays(with_rule, joined_rule, id);
            lemma_joined(joined_rule, k, id, value, ""@);
            lemma_added_twice(before, joined_rule, with_edge(k, id, value, ""@));
            lemma_drawn_then_added(g, before, with_edge(k, id, value, ""@), owner);
        }
    }
}

proof fn lemma_producer_drawn(g: GraphV, p: ProducerV, list: Seq<Spelling>)
    ensures
        draws_tree(g, drawn_producer(g, p, list).0, drawn_producer(g, p, list).1),
    decreases p, 0int,
{
    let id = next_node(g);
    match p {
        ProducerV::Match { rules, default, annotate, origin, .. } => {
            if origin == MatchOrigin::Default {
                let label = headed("Default\n"@, default->0, list);
                lemma_node_drawn(g, label, "const"@);
                lemma_noted(g, with_node(g, label, "const"@), id, annotate, list);
            } else {
                let label = match_text(origin, rules.len());
                let h = with_node(g, label, "match"@);
                lemma_node_drawn(g, label, "match"@);
                lemma_noted(g, h, id, annotate, list);
                let started = noted(h, id, annotate, list);
                lemma_rules_drawn(g, started, id, rules, origin, rules.len() as int, list);
                let k = drawn_rules(started, id, rules, origin, rules.len() as int, list);
                if let Some(d) = default {
                    let last = headed("Const\n"@, d, list);
                    lemma_node_drawn(k, last, "const"@);
                    if tidy(g) {
                        lemma_joined(k, with_node(k, last, "const"@), id, next_node(k), "default"@);
                        lemma_drawn_then_added(
                            g,
                            k,
                            with_edge(
                                with_node(k, last, "const"@),
                                id,
                                next_node(k),
                                "default"@,
                            ),
                            id,
                        );
                    }
                }
            }
        },
        ProducerV::Extract { extract, annotate } => {
            let h = with_node(g, extract_text(extract), "extract"@);
            lemma_node_drawn(g, extract_text(extract), "extract"@);
            lemma_noted(g, h, id, annotate, list);
            lemma_chain_drawn(g, noted(h, id, annotate, list), extract.chain(), id, list);
        },
        ProducerV::Const { value, annotate } => {
            let label = headed("Const\n"@, value, list);
            lemma_node_drawn(g, label, "const"@);
            lemma_noted(g, with_node(g, label, "const"@), id, annotate, list);
        },
        ProducerV::Parent(inner) => {
            let h = with_node(g, "Parent"@, "parent"@);
            lemma_node_drawn(g, "Parent"@, "parent"@);
            lemma_producer_drawn(h, *inner, list);
            let (k, child) = drawn_producer(h, *inner, list);
            if tidy(g) {
                lemma_joined(h, k, id, child, ""@);
                lemma_drawn_then_added(g, h, with_edge(k, id, child, ""@), id);
            }
        },
    }
}

/// The graph of a producer is a tree: nodes and edges are numbered as they come, every edge joins
/// nodes of the graph, no two edges lead to the same node, none leads to the node that enters the
/// graph, and there is one edge less than there are nodes.
pub proof fn producer_graphs_are_trees(p: ProducerV, list: Seq<Spelling>)
    ensures
        tidy(drawn_producer(blank(), p, list).0),
        !is_target(drawn_producer(blank(), p, list).0, drawn_producer(blank(), p, list).1),
        drawn_producer(blank(), p, list).0.nodes.len() == drawn_producer(
            blank(),
            p,
            list,
        ).0.edges.len() + 1,
{
    lemma_producer_drawn(blank(), p, list);
}

proof fn lemma_sanitizer_drawn(
    name: Seq<char>,
    chain: Seq<SanitizerV>,
    n: nat,
    list: Seq<Spelling>,
)
    ensures
        draws_tree(blank(), drawn_sanitizer(name, chain, n, list).0, next_node(blank())),
        has_node(drawn_sanitizer(name, chain, n, list).0, drawn_sanitizer(name, chain, n, list).1),
    decreases n,
{
    if n == 0 || n > chain.len() {
        lemma_node_drawn(blank(), "Sanitizer\n"@ + name, "sanitizer"@);
    } else {
        lemma_sanitizer_drawn(name, chain, (n - 1) as nat, list);
        let (g, above) = drawn_sanitizer(name, chain, (n - 1) as nat, list);
        let label = step_text(chain[n - 1], list);
        let k = with_node(g, label, "step"@);
        lemma_node_drawn(g, label, "step"@);
        lemma_joined(g, k, above, next_node(g), ""@);
        lemma_node_stays(k, with_edge(k, above, next_node(g), ""@), next_node(g));
        lemma_drawn_then_added(
            blank(),
            g,
            with_edge(k, above, next_node(g), ""@),
            next_node(blank()),
        );
    }
}

/// The graph of a named chain is a tree, with a node for the name and one for each step.
pub proof fn sanitizer_graphs_are_trees(
    name: Seq<char>,
    chain: Seq<SanitizerV>,
    list: Seq<Spelling>,
)
    ensures
        tidy(sanitizer_graph(name, chain, list)),
        !is_target(sanitizer_graph(name, chain, list), next_node(blank())),
        sanitizer_graph(name, chain, list).nodes.len() == sanitizer_graph(
            name,
            chain,
            list,
        ).edges.len() + 1,
{
    let (g, last) = drawn_sanitizer(name, chain, chain.len(), list);
    lemma_sanitizer_drawn(name, chain, chain.len(), list);
    if chain.len() == 0 {
        lemma_node_drawn(g, "Identity\n(no steps)"@, "const"@);
        lemma_joined(
            g,
            with_node(g, "Identity\n(no steps)"@, "const"@),
            last,
            next_node(g),
            ""@,
        );
        lemma_drawn_then_added(
            blank(),
            g,
            sanitizer_graph(name, chain, list),
            next_node(blank()),
        );
    }
}

fn annotate_node(g: &mut DagGraph, owner: &str, annotate: &Fields, list: &Vec<Spelling>)
    ensures
        final(g)@ == noted(old(g)@, owner@, annotate@, list@),
{
    if annotate.is_empty() {
        return;
    }
    let keys: Vec<String> = sorted_keys(annotate);
    let mut lines: Vec<String> = Vec::new();
    let mut i: usize = 0;
    while i < keys.len()
        invariant
            i <= keys@.len(),
            strs(keys@) == key_order(annotate@),
            crate::json::is_key_order(strs(keys@), annotate@),
            strs(lines@) =~= notes(annotate@, list@).take(i as int),
        decreases keys.len() - i,
    {
        proof {
            assert(strs(keys@)[i as int] == keys@[i as int]@);
            assert(strs(keys@).to_set().contains(keys@[i as int]@));
        }
        let ghost before = strs(lines@);
        match annotate.get(keys[i].as_str()) {
            Some(v) => {
                let line: String = concat3(
                    keys[i].as_str(),
                    ": ",
                    to_json(v, list).as_str(),
                );
                lines.push(line);
                proof {
                    assert(notes(annotate@, list@)[i as int] == line@);
                    assert(strs(lines@) =~= before.push(line@));
                }
            },
            None => {},
        }
        i = i + 1;
    }
    assert(notes(annotate@, list@).take(i as int) =~= notes(annotate@, list@));
    let node: String = g.node(join(&lines, "\n"), "annotate");
    g.edge(owner, node.as_str(), "annotate");
}

fn show_entry(e: &(String, Option<AtomicJson>), list: &Vec<Spelling>) -> (r: String)
    ensures
        r@ == entry_line(e.model(), list@),
{
    match &e.1 {
        Some(a) => {
            let v: Value = a.copy().into_value();
            concat3(e.0.as_str(), " -> ", to_json(&v, list).as_str())
        },
        None => concat2(e.0.as_str(), " -> (drop)"),
    }
}

fn show_replace(rule: &ReplaceRule) -> (r: String)
    ensures
        r@ == replace_line(rule.model()),
{
    let line: String = concat3(rule.from.as_str(), " -> ", rule.to.as_str());
    if rule.at == ReplaceAt::Prefix {
        concat2(line.as_str(), " (prefix)")
    } else {
        line
    }
}

/// A step of a chain, as it is shown; `list` spells its numbers.
pub fn step_label(step: &Sanitizer, list: &Vec<Spelling>) -> (r: String)
    ensures
        r@ == step_text(step@, list@),
{
    match step {
        Sanitizer::Mapping { mapping, on_miss } => {
            let ghost entries = models(mapping@).map_values(
                |e: (Seq<char>, Option<AtomicV>)| entry_line(e, list@),
            );
            let mut lines: Vec<String> = Vec::new();
            lines.push("Mapping".to_owned());
            let mut i: usize = 0;
            assert(strs(lines@) =~= seq!["Mapping"@] + entries.take(0));
            while i < mapping.len()
                invariant
                    i <= mapping@.len(),
                    entries == models(mapping@).map_values(
                        |e: (Seq<char>, Option<AtomicV>)| entry_line(e, list@),
                    ),
                    strs(lines@) =~= seq!["Mapping"@] + entries.take(i as int),
                decreases mapping.len() - i,
            {
                let line: String = show_entry(&mapping[i], list);
                let ghost before = strs(lines@);
                lines.push(line);
                proof {
                    assert(models(mapping@)[i as int] == mapping@[i as int].model());
                    assert(entries[i as int] == line@);
                    assert(strs(lines@) =~= before.push(line@));
                }
                i = i + 1;
            }
            let miss: &str = match on_miss {
                Some(m) => m.as_str(),
                None => "drop",
            };
            lines.push(concat2("on_miss: ", miss));
            proof {
                assert(entries.take(i as int) =~= entries);
                assert(strs(lines@) =~= seq!["Mapping"@] + entries + seq!["on_miss: "@ + miss@]);
            }
            join(&lines, "\n")
        },
        Sanitizer::Replace { replace } => {
            let ghost rules = models(replace@).map_values(|r: ReplaceV| replace_line(r));
            let mut lines: Vec<String> = Vec::new();
            lines.push("Replace".to_owned());
            let mut i: usize = 0;
            assert(strs(lines@) =~= seq!["Replace"@] + rules.take(0));
            while i < replace.len()
                invariant
                    i <= replace@.len(),
                    rules == models(replace@).map_values(|r: ReplaceV| replace_line(r)),
                    strs(lines@) =~= seq!["Replace"@] + rules.take(i as int),
                decreases replace.len() - i,
            {
                let line: String = show_replace(&replace[i]);
                let ghost before = strs(lines@);
                lines.push(line);
                proof {
                    assert(models(replace@)[i as int] == replace@[i as int].model());
                    assert(rules[i as int] == line@);
                    assert(strs(lines@) =~= before.push(line@));
                }
                i = i + 1;
            }
            assert(rules.take(i as int) =~= rules);
            join(&lines, "\n")
        },
        Sanitizer::Builtin(b) => concat2("Builtin\nname: ", b.name()),
    }
}

fn render_chain(
    g: &mut DagGraph,
    chain: &Vec<Sanitizer>,
    sink: String,
    list: &Vec<Spelling>,
) -> (r: String)
    ensures
        (final(g)@, r@) == drawn_chain(old(g)@, models(chain@), sink@, list@),
{
    let ghost all = models(chain@);
    let ghost whole = drawn_chain(g@, all, sink@, list@);
    let mut next: String = sink;
    let mut i: usize = chain.len();
    assert(all.take(i as int) =~= all);
    while i > 0
        invariant
            i <= chain@.len(),
            all == models(chain@),
            whole == drawn_chain(g@, all.take(i as int), next@, list@),
        decreases i,
    {
        i = i - 1;
        proof {
            assert(all.take(i + 1).last() == chain@[i as int]@);
            assert(all.take(i + 1).drop_last() =~= all.take(i as int));
        }
        let id: String = g.node(step_label(&chain[i], list), "step");
        g.edge(id.as_str(), next.as_str(), "");
        next = id;
    }
    next
}

fn show_keys(keys: &Vec<String>) -> (r: String)
    ensures
        r@ == "Extract\nkeys: ["@ + joined(
            models(keys@).map_values(|k: Seq<char>| quoted(k)),
            ", "@,
        ) + "]"@,
{
    let ghost shown = models(keys@).map_values(|k: Seq<char>| quoted(k));
    let mut out: Vec<String> = Vec::new();
    let mut i: usize = 0;
    while i < keys.len()
        invariant
            i <= keys@.len(),
            shown == models(keys@).map_values(|k: Seq<char>| quoted(k)),
            strs(out@) =~= shown.take(i as int),
        decreases keys.len() - i,
    {
        let one: String = quote(keys[i].as_str());
        let ghost before = strs(out@);
        out.push(one);
        proof {
            assert(models(keys@)[i as int] == keys@[i as int]@);
            assert(strs(out@) =~= before.push(one@));
        }
        i = i + 1;
    }
    assert(shown.take(i as int) =~= shown);
    concat3("Extract\nkeys: [", join(&out, ", ").as_str(), "]")
}

fn show_value(heading: &str, v: &Value, list: &Vec<Spelling>) -> (r: String)
    ensures
        r@ == headed(heading@, v@, list@),
{
    concat2(heading, truncate(to_json(v, list).as_str(), 40).as_str())
}

fn show_match(origin: MatchOrigin, n: usize) -> (r: String)
    ensures
        r@ == match_text(origin, n as nat),
{
    match origin {
        MatchOrigin::Fallback => concat3(
            "Fallback\n",
            decimal_text(n as u64).as_str(),
            " branch(es)",
        ),
        MatchOrigin::ParentOrObj => "Parent Or Obj".to_owned(),
        MatchOrigin::TagOr => "Tag Or".to_owned(),
        _ => "Match".to_owned(),
    }
}

fn show_rule(origin: MatchOrigin, i: usize, rule: &Rule, list: &Vec<Spelling>) -> (r: String)
    requires
        i < usize::MAX,
    ensures
        r@ == rule_text(origin, i as nat, rule.when@, list@),
{
    match origin {
        MatchOrigin::Fallback => concat2("Option ", decimal_text(i as u64 + 1).as_str()),
        MatchOrigin::TagOr => decimal_text(i as u64 + 1),
        _ => truncate(rule.when.describe(list).as_str(), 120),
    }
}

fn render_producer(g: &mut DagGraph, p: &Producer, list: &Vec<Spelling>) -> (r: String)
    requires
        showable(p@),
    ensures
        (final(g)@, r@) == drawn_producer(old(g)@, p@, list@),
    decreases p,
{
    broadcast use group_rules;

    match p {
        Producer::Match { rules, default, annotate, origin, tree: _ } => {
            if *origin == MatchOrigin::Default {
                let label: String = match default {
                    Some(d) => show_value("Default\n", d, list),
                    None => String::new(),
                };
                let node: String = g.node(label, "const");
                annotate_node(g, node.as_str(), annotate, list);
                node
            } else {
                let ghost rv = rules_view(rules@);
                let node: String = g.node(show_match(*origin, rules.len()), "match");
                annotate_node(g, node.as_str(), annotate, list);
                let ghost started = g@;
                let mut i: usize = 0;
                while i < rules.len()
                    invariant
                        i <= rules@.len(),
                        rv == rules_view(rules@),
                        rv.len() == rules@.len(),
                        all_showable(rv),
                        p is Match,
                        p->rules == *rules,
                        g@ == drawn_rules(started, node@, rv, *origin, i as int, list@),
                    decreases rules.len() - i,
                {
                    let rule: &Rule = &rules[i];
                    proof {
                        assert(rv[i as int].when == rule.when@);
                        assert(rv[i as int].value == rule.value@);
                        assert(decreases_to!(rules@ => rules@[i as int]));
                        assert(decreases_to!(rules@[i as int] => rules@[i as int].value));
                    }
                    let rule_node: String = g.node(show_rule(*origin, i, rule, list), "rule");
                    g.edge(node.as_str(), rule_node.as_str(), "");
                    let value_node: String = render_producer(g, &rule.value, list);
                    g.edge(rule_node.as_str(), value_node.as_str(), "");
                    i = i + 1;
                }
                if let Some(d) = default {
                    let last: String = g.node(show_value("Const\n", d, list), "const");
                    g.edge(node.as_str(), last.as_str(), "default");
                }
                node
            }
        },
        Producer::Extract { extract, annotate } => {
            let label: String = match extract {
                Extract::Value { key, .. } => concat2("Extract\nkey: ", key.as_str()),
                Extract::Candidates { keys, .. } => show_keys(keys),
            };
            let node: String = g.node(label, "extract");
            annotate_node(g, node.as_str(), annotate, list);
            render_chain(g, extract.sanitize(), node, list)
        },
        Producer::Const { value, annotate } => {
            let node: String = g.node(show_value("Const\n", value, list), "const");
            annotate_node(g, node.as_str(), annotate, list);
            node
        },
        Producer::Parent(inner) => {
            let node: String = g.node("Parent".to_owned(), "parent");
            let child: String = render_producer(g, inner, list);
            g.edge(node.as_str(), child.as_str(), "");
            node
        },
    }
}

/// The graph of a producer; `list` spells its numbers.
pub fn producer_dag(producer: &Producer, list: &Vec<Spelling>) -> (r: DagGraph)
    requires
        showable(producer@),
    ensures
        r@ == drawn_producer(blank(), producer@, list@).0,
{
    let mut g: DagGraph = DagGraph::new();
    render_producer(&mut g, producer, list);
    g
}

/// The graph of a named chain; `list` spells its numbers.
pub fn sanitizer_dag(name: &str, chain: &Vec<Sanitizer>, list: &Vec<Spelling>) -> (r: DagGraph)
    ensures
        r@ == sanitizer_graph(name@, models(chain@), list@),
{
    let ghost all = models(chain@);
    let mut g: DagGraph = DagGraph::new();
    let mut prev: String = g.node(concat2("Sanitizer\n", name), "sanitizer");
    if chain.len() == 0 {
        assert(all.len() == 0);
        let identity: String = g.node("Identity\n(no steps)".to_owned(), "const");
        g.edge(prev.as_str(), identity.as_str(), "");
        return g;
    }
    let mut i: usize = 0;
    while i < chain.len()
        invariant
            i <= chain@.len(),
            all == models(chain@),
            (g@, prev@) == drawn_sanitizer(name@, all, i as nat, list@),
        decreases chain.len() - i,
    {
        assert(all[i as int] == chain@[i as int]@);
        let node: String = g.node(step_label(&chain[i], list), "step");
        g.edge(prev.as_str(), node.as_str(), "");
        prev = node;
        i = i + 1;
    }
    assert(all.len() == chain@.len());
    g
}

} // verus!
