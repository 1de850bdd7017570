use std::collections::{BTreeMap, BTreeSet};

use osmnexus::categorize::categories::{
    categorize, categorize_linear, CategoriesFile, CategoryDef, OrderedNode,
};
use osmnexus::categorize::expr::{filter_to_expr, to_nnf, Expr, Literal, Predicate};
use osmnexus::categorize::linter::find_all_topic_overlaps;
use osmnexus::config::DEFAULT_TREE_MAX_DEPTH;
use osmnexus::decision_tree::tree::DecisionTree;
use osmnexus::lang::context::{ExtractCtx, ValueSets};
use osmnexus::lang::extract::Extract;
use osmnexus::lang::filter::Filter;
use osmnexus::lang::sanitize::{AtomicJson, Sanitizer};
use osmnexus::number::{Bound, Readings};
use osmnexus::tags::RawTags;
use osmnexus::value::{Fields, Value};

fn sets() -> ValueSets {
    ValueSets {
        sets: vec![(
            "minor".to_owned(),
            vec!["residential".to_owned(), "service".to_owned(), "track".to_owned()],
        )],
    }
}

fn readings() -> Readings {
    Readings {
        numbers: vec![("2".to_owned(), 2.0f64.to_bits()), ("5".to_owned(), 5.0f64.to_bits())],
        lengths: vec![],
    }
}

fn value(key: &str) -> Extract {
    Extract::Value { key: key.to_owned(), sanitize: vec![] }
}

fn eq(key: &str, v: &str) -> Filter {
    Filter::Eq { extract: value(key), eq: v.to_owned() }
}

fn and(and: Vec<Filter>) -> Filter {
    Filter::And { and }
}

fn or(or: Vec<Filter>) -> Filter {
    Filter::Or { or }
}

fn not(f: Filter) -> Filter {
    Filter::Not { not: Box::new(f) }
}

fn parent(f: Filter) -> Filter {
    Filter::Parent { parent: Box::new(f) }
}

fn noted(key: &str, v: &str) -> Filter {
    Filter::AnnotationEq { key: key.to_owned(), eq: v.to_owned() }
}

fn cat(id: &str, condition: Filter, excludes: &[&str]) -> CategoryDef {
    CategoryDef {
        id: id.to_owned(),
        condition,
        excludes: Some(excludes.iter().map(|s| (*s).to_owned()).collect()),
    }
}

fn streets() -> CategoriesFile {
    CategoriesFile {
        macros: vec![
            ("closed".to_owned(), or(vec![eq("access", "no"), eq("access", "private")])),
        ],
        categories: vec![
            cat("motor_road", eq("highway", "motorway"), &["closed"]),
            cat(
                "large",
                Filter::In {
                    extract: value("highway"),
                    within: vec!["primary".to_owned(), "secondary".to_owned()],
                },
                &["closed"],
            ),
            cat(
                "small",
                Filter::InSet { extract: value("highway"), in_set: "minor".to_owned() },
                &["closed", "drive"],
            ),
            cat("drive", and(vec![eq("highway", "service"), eq("service", "driveway")]), &["closed"]),
            cat("foot", and(vec![eq("highway", "footway"), not(eq("footway", "crossing"))]), &["closed"]),
            cat("crossing", and(vec![eq("highway", "footway"), eq("footway", "crossing")]), &["closed"]),
            cat(
                "narrow",
                and(vec![
                    eq("highway", "path"),
                    Filter::NumRange {
                        extract: value("width"),
                        min: Bound::Unbounded,
                        max: Bound::Excluded(3.0f64.to_bits()),
                    },
                ]),
                &["closed"],
            ),
            cat(
                "named",
                and(vec![
                    not(Filter::Exists { extract: value("highway"), exists: true }),
                    Filter::HasKeyPrefix { has_key_prefix: "name".to_owned() },
                ]),
                &["closed"],
            ),
        ],
        order: vec![],
        tree: DecisionTree::default(),
    }
}

fn lanes() -> CategoriesFile {
    let surface = Extract::Value {
        key: "surface".to_owned(),
        sanitize: vec![Sanitizer::Mapping {
            mapping: vec![("sett".to_owned(), Some(AtomicJson::Str("stone".to_owned())))],
            on_miss: None,
        }],
    };
    let either = Extract::Candidates {
        keys: vec!["cycleway".to_owned(), "cycleway:both".to_owned()],
        sanitize: vec![],
    };
    CategoriesFile {
        macros: vec![("data_no".to_owned(), eq("cycleway", "no"))],
        categories: vec![
            cat("advisory", and(vec![eq("cycleway", "lane"), eq("lane", "advisory")]), &["data_no"]),
            cat("lane", Filter::Eq { extract: either, eq: "lane".to_owned() }, &["advisory", "data_no"]),
            cat(
                "left_track",
                and(vec![noted("_side", "left"), noted("_prefix", "cycleway"), eq("cycleway", "track")]),
                &["lane", "data_no"],
            ),
            cat(
                "beside_road",
                and(vec![
                    Filter::HasParent { has_parent: true },
                    parent(eq("highway", "secondary")),
                    eq("highway", "cycleway"),
                ]),
                &["left_track", "lane", "advisory", "data_no"],
            ),
            cat(
                "stone",
                Filter::Eq { extract: surface, eq: "stone".to_owned() },
                &["beside_road", "left_track", "lane", "advisory", "data_no"],
            ),
            cat(
                "signed",
                Filter::Contains {
                    extract: value("traffic_sign"),
                    contains: "237".to_owned(),
                    case_insensitive: false,
                },
                &["stone", "beside_road", "left_track", "lane", "advisory", "data_no"],
            ),
        ],
        order: vec![],
        tree: DecisionTree::default(),
    }
}

fn collect_pairs(e: &Expr, out: &mut BTreeMap<String, BTreeSet<String>>) {
    match e {
        Expr::Lit(Literal::Pos(Predicate::Eq(extract, v))) => {
            for k in extract.tag_names().into_iter().filter(|k| !k.starts_with("parent_")) {
                out.entry(k).or_default().insert(v.clone());
            }
        }
        Expr::Lit(_) | Expr::True | Expr::False => {}
        Expr::Not(x) => collect_pairs(x, out),
        Expr::And(xs) | Expr::Or(xs) => xs.iter().for_each(|x| collect_pairs(x, out)),
    }
}

fn referenced_eq(cats: &CategoriesFile) -> BTreeMap<String, BTreeSet<String>> {
    let mut out = BTreeMap::new();
    for n in &cats.order {
        let cond = match n {
            OrderedNode::Category { idx } => &cats.categories[*idx].condition,
            OrderedNode::Skip { condition } => condition,
        };
        collect_pairs(&to_nnf(filter_to_expr(cond, &sets())), &mut out);
    }
    out
}

fn compare_on_every_object(topic: &str, mut cats: CategoriesFile) {
    assert!(cats.build_order(DEFAULT_TREE_MAX_DEPTH, &sets(), &readings()).is_ok());
    let refs = referenced_eq(&cats);
    let mut hw_vals: Vec<Option<String>> =
        refs.get("highway").into_iter().flatten().map(|s| Some(s.clone())).collect();
    hw_vals.push(Some("zzz_unknown".to_string()));
    hw_vals.push(None);
    let mut others: Vec<Option<(String, String)>> = vec![None];
    for (t, vals) in &refs {
        if t == "highway" {
            continue;
        }
        for val in vals {
            others.push(Some((t.clone(), val.clone())));
        }
    }
    others.push(Some(("width".to_owned(), "2".to_owned())));
    others.push(Some(("name:de".to_owned(), "Weg".to_owned())));
    others.push(Some(("traffic_sign".to_owned(), "DE:237".to_owned())));

    let (value_sets, numbers) = (sets(), readings());
    let parent_tags: RawTags =
        [("highway".to_owned(), "secondary".to_owned())].into_iter().collect();
    let mut checked = 0usize;
    for hw in &hw_vals {
        for other in &others {
            for side in ["self", "left", "right"] {
                let mut tags = RawTags::default();
                if let Some(h) = hw {
                    tags.insert("highway".to_owned(), h.clone());
                }
                if let Some((t, v)) = other {
                    tags.insert(t.clone(), v.clone());
                }
                let (prefix, side_parent_tags) = match side {
                    "self" => (None, None),
                    _ => (Some("cycleway"), Some(&parent_tags)),
                };
                let mut annotations = Fields::new();
                annotations.insert("_side".to_owned(), Value::String(side.to_owned()));
                if let Some(p) = prefix {
                    annotations.insert("_prefix".to_owned(), Value::String(p.to_owned()));
                }
                let ctx = ExtractCtx {
                    obj_tags: &tags,
                    parent_tags: side_parent_tags,
                    id: "",
                    annotations: &annotations,
                    value_sets: &value_sets,
                    readings: &numbers,
                };
                let a = categorize(&ctx, &cats).map(|c| c.id.clone());
                let b = categorize_linear(&ctx, &cats).map(|c| c.id.clone());
                assert_eq!(a, b, "[{topic}] highway={hw:?} other={other:?} side={side:?}");
                checked += 1;
            }
        }
    }
    assert!(checked > 0, "[{topic}] no test cases generated");
}

#[test]
fn decision_tree_tree_matches_linear() {
    compare_on_every_object("streets/way", streets());
}

#[test]
fn tests_tree_matches_linear() {
    compare_on_every_object("lanes/way", lanes());
}

fn assert_disjoint(topic: &str, cats: CategoriesFile) {
    let per_topic = find_all_topic_overlaps(&vec![(topic.to_owned(), cats)], &sets());
    assert_eq!(per_topic.len(), 1);
    let mut msg = String::new();
    for (topic, overlaps) in &per_topic {
        for o in overlaps {
            msg.push_str(&format!("\n  [{topic}] {} <-> {}", o.a, o.b));
            for w in &o.warnings {
                msg.push_str(&format!("\n      warning: {w}"));
            }
        }
    }
    assert!(msg.is_empty(), "overlapping categories found:{msg}\n");
}

#[test]
fn linter_categories_are_disjoint() {
    assert_disjoint("streets/way", streets());
}

#[test]
fn mod_categories_are_disjoint() {
    assert_disjoint("lanes/way", lanes());
}
