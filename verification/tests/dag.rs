use osmnexus::categorize::categories::{CategoriesFile, CategoryDef};
use osmnexus::dag::category::{category_condition_dag, decision_tree_dag, order_label};
use osmnexus::dag::dot::{escape, render_dot, short_step_label, Sketch};
use osmnexus::dag::graph::{truncate, DagGraph};
use osmnexus::dag::producer::{producer_dag, sanitizer_dag, step_label};
use osmnexus::dag::variants::variants;
use osmnexus::decision_tree::tree::DecisionTree;
use osmnexus::json::{sorted_keys, to_json};
use osmnexus::lang::context::ValueSets;
use osmnexus::lang::extract::Extract;
use osmnexus::lang::filter::Filter;
use osmnexus::lang::producer::{MatchOrigin, Producer, Rule};
use osmnexus::lang::sanitize::{AtomicJson, Builtin, ReplaceAt, ReplaceRule, Sanitizer};
use osmnexus::number::Readings;
use osmnexus::value::{Fields, Value};

fn s(text: &str) -> String {
    text.to_owned()
}

fn labels(g: &DagGraph) -> Vec<&str> {
    g.nodes.iter().map(|n| n.label.as_str()).collect()
}

fn edges(g: &DagGraph) -> Vec<(&str, &str, &str)> {
    g.edges.iter().map(|e| (e.source.as_str(), e.target.as_str(), e.label.as_str())).collect()
}

fn mapping() -> Sanitizer {
    Sanitizer::Mapping {
        mapping: vec![
            (s("sett"), Some(AtomicJson::Str(s("stone")))),
            (s("x"), None),
        ],
        on_miss: None,
    }
}

fn rewrite() -> Sanitizer {
    Sanitizer::Replace {
        replace: vec![
            ReplaceRule { from: s("a"), to: s("b"), at: ReplaceAt::Prefix },
            ReplaceRule { from: s("c"), to: s("d"), at: ReplaceAt::Anywhere },
        ],
    }
}

fn read(key: &str, chain: Vec<Sanitizer>) -> Producer {
    Producer::Extract {
        extract: Extract::Value { key: s(key), sanitize: chain },
        annotate: Fields::new(),
    }
}

#[test]
fn a_producer_is_drawn_as_a_tree() {
    let mut annotate = Fields::new();
    annotate.insert(s("source"), Value::String(s("tag")));
    let p = Producer::Match {
        rules: vec![Rule {
            when: Filter::Exists {
                extract: Extract::Value { key: s("surface"), sanitize: vec![] },
                exists: true,
            },
            value: Producer::Parent(Box::new(read("surface", vec![mapping(), rewrite()]))),
        }],
        default: Some(Value::String(s("none"))),
        annotate,
        origin: MatchOrigin::Rules,
        tree: None,
    };
    let g = producer_dag(&p, &Vec::new());
    assert_eq!(
        labels(&g),
        vec![
            "Match",
            "source: \"tag\"",
            "surface exists",
            "Parent",
            "Extract\nkey: surface",
            "Replace\na -> b (prefix)\nc -> d",
            "Mapping\nsett -> \"stone\"\nx -> (drop)\non_miss: drop",
            "Const\n\"none\"",
        ]
    );
    assert_eq!(
        edges(&g),
        vec![
            ("n0", "n1", "annotate"),
            ("n0", "n2", ""),
            ("n5", "n4", ""),
            ("n6", "n5", ""),
            ("n3", "n6", ""),
            ("n2", "n3", ""),
            ("n0", "n7", "default"),
        ]
    );
    assert_eq!(g.edges.len() + 1, g.nodes.len());
}

#[test]
fn defaults_and_fallbacks_have_their_own_heads() {
    let table = |origin, rules, default| Producer::Match {
        rules,
        default,
        annotate: Fields::new(),
        origin,
        tree: None,
    };
    let plain = table(MatchOrigin::Default, vec![], Some(Value::Bool(true)));
    assert_eq!(labels(&producer_dag(&plain, &Vec::new())), vec!["Default\ntrue"]);
    let rule = |key: &str| Rule { when: Filter::Bool(true), value: read(key, vec![]) };
    let fallback = table(MatchOrigin::Fallback, vec![rule("a"), rule("b")], None);
    assert_eq!(
        labels(&producer_dag(&fallback, &Vec::new())),
        vec![
            "Fallback\n2 branch(es)",
            "Option 1",
            "Extract\nkey: a",
            "Option 2",
            "Extract\nkey: b"
        ]
    );
    let tag_or = table(MatchOrigin::TagOr, vec![rule("a")], None);
    assert_eq!(labels(&producer_dag(&tag_or, &Vec::new())), vec!["Tag Or", "1", "Extract\nkey: a"]);
}

#[test]
fn a_sanitizer_is_drawn_from_its_name_down() {
    let g = sanitizer_dag("surface", &vec![mapping(), Sanitizer::Builtin(Builtin::ParseLength)], &Vec::new());
    assert_eq!(g.nodes[0].label, "Sanitizer\nsurface");
    assert_eq!(edges(&g), vec![("n0", "n1", ""), ("n1", "n2", "")]);
    let none = sanitizer_dag("same", &Vec::new(), &Vec::new());
    assert_eq!(labels(&none), vec!["Sanitizer\nsame", "Identity\n(no steps)"]);
    assert_eq!(step_label(&rewrite(), &Vec::new()), "Replace\na -> b (prefix)\nc -> d");
}

fn eq(key: &str, v: &str) -> Filter {
    Filter::Eq { extract: Extract::Value { key: s(key), sanitize: vec![] }, eq: s(v) }
}

fn roads() -> CategoriesFile {
    let mut f = CategoriesFile {
        macros: vec![],
        categories: vec![
            CategoryDef {
                id: s("minor"),
                condition: Filter::And { and: vec![eq("highway", "path"), Filter::Not { not: Box::new(eq("access", "no")) }] },
                excludes: Some(vec![s("major")]),
            },
            CategoryDef { id: s("major"), condition: eq("highway", "primary"), excludes: None },
            CategoryDef { id: s("rail"), condition: eq("railway", "rail"), excludes: Some(vec![]) },
        ],
        order: vec![],
        tree: DecisionTree::default(),
    };
    let sets = ValueSets { sets: vec![] };
    let readings = Readings { numbers: vec![], lengths: vec![] };
    assert!(f.build_order(6, &sets, &readings).is_ok());
    f
}

#[test]
fn a_category_is_drawn_with_its_condition() {
    let f = roads();
    let at = (0..f.order.len()).find(|&i| order_label(&f, i) == "minor").unwrap();
    let g = category_condition_dag(&f, at, &Vec::new());
    assert_eq!(
        labels(&g),
        vec![
            "Category\nminor\nexcludes: major",
            "And",
            "highway == \"path\"",
            "Not",
            "access == \"no\""
        ]
    );
    assert_eq!(edges(&g).last(), Some(&("n0", "n1", "if")));
}

#[test]
fn a_net_is_drawn_branch_by_branch() {
    let f = roads();
    let atoms: Vec<String> = (0..8).map(|i| format!("atom {i}")).collect();
    let g = decision_tree_dag(&f, &atoms);
    assert!(g.nodes[0].label.starts_with("branch\n"));
    assert_eq!(g.edges.len() + 1, g.nodes.len());
    assert!(g.edges.iter().any(|e| e.label == "*"));
    assert!(g.nodes.iter().any(|n| n.label.starts_with("Leaf\n")));
}

#[test]
fn long_texts_are_cut() {
    assert_eq!(truncate("abc", 3), "abc");
    assert_eq!(truncate("abcd", 3), "abc\u{2026}");
    assert_eq!(truncate("\u{e4}\u{f6}\u{fc}", 2), "\u{e4}\u{f6}\u{2026}");
}

#[test]
fn dot_texts_are_escaped() {
    assert_eq!(escape("a\"b\\c\nd"), "a\\\"b\\\\c\\nd");
    let sketch = Sketch::Parent(Box::new(Sketch::Extract {
        keys: s("key: a"),
        annotate: None,
        chain: vec![s("x"), s("y")],
    }));
    let names: Vec<String> = (0..8).map(|i| format!("c{i}")).collect();
    let dot = render_dot("roads", "surface", &names, &sketch);
    assert!(dot.starts_with("digraph dag {\n  rankdir=TB;\n"));
    assert!(dot.ends_with("}\n"));
    assert!(dot.contains("[label=\"roads\\nsurface\\n[c0, c1, c2, c3, c4, c5, \u{2026} +2 more]\", shape=box"));
    assert!(dot.contains("  n1 [label=\"parent\", shape=diamond, style=filled, fillcolor=\"#fff2cc\"];\n"));
    assert!(dot.contains("[label=\"sanitize\"];\n"));
    assert!(dot.contains("  n3 -> n4;\n"));
    assert_eq!(short_step_label(&mapping()), "mapping\n2 entries\non_miss: \"drop\"");
    assert_eq!(short_step_label(&rewrite()), "replace\n2 rule(s)");
    assert_eq!(short_step_label(&Sanitizer::Builtin(Builtin::ParseLength)), "builtin: parse_length");
}

#[test]
fn json_texts_are_quoted() {
    let v = Value::Object(vec![(s("a\\"), Value::String(s("\u{8}\t\"")))]);
    assert_eq!(to_json(&v, &Vec::new()), "{\"a\\\\\":\"\\b\\t\\\"\"}");
    let mut f = Fields::new();
    f.insert(s("b"), Value::Null);
    f.insert(s("a"), Value::Null);
    assert_eq!(sorted_keys(&f), vec!["a", "b"]);
}

#[test]
fn variants_are_grouped_by_text_and_ordered_by_owner() {
    let pair = |t: &str, o: &str| (t.to_owned(), o.to_owned());
    let pairs = vec![
        pair("const 1", "road"),
        pair("match", "default"),
        pair("const 1", "bikelane"),
        pair("const 2", "bikelane"),
    ];
    let list = variants(&pairs);
    let seen: Vec<(usize, Vec<&str>)> =
        list.iter().map(|v| (v.first, v.owners.iter().map(String::as_str).collect())).collect();
    assert_eq!(
        seen,
        vec![(3, vec!["bikelane"]), (0, vec!["bikelane", "road"]), (1, vec!["default"])]
    );
    assert!(variants(&Vec::new()).is_empty());
}
