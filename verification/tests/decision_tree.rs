use osmnexus::categorize::categories::{
    categorize, categorize_linear, CategoriesFile, CategoryDef, OrderError, OrderedNode,
};
use osmnexus::categorize::expr::{
    filter_to_expr, to_dnf, to_negated_nnf, to_nnf, Expr, Literal, Predicate, Scope, TagRead,
};
use osmnexus::categorize::linter::{check_term_consistency, find_all_topic_overlaps, find_overlaps};
use osmnexus::categorize::order::priority_order;
use osmnexus::config::DEFAULT_TREE_MAX_DEPTH;
use osmnexus::decision_tree::candidates::{
    branch_key_candidates, conjoin, eligible_atoms, Candidate,
};
use osmnexus::decision_tree::choice::{best_single_branch, BranchChoice};
use osmnexus::decision_tree::compile::build;
use osmnexus::decision_tree::kleene::{kleene, simplify, Fact, K};
use osmnexus::decision_tree::optimal::{greedy_cost, optimal_cost, tree_cost};
use osmnexus::decision_tree::runtime::{eval_expr, matching, resolve_first};
use osmnexus::decision_tree::tree::{BranchKey, ContextKey, DecisionTree};
use osmnexus::lang::context::{ExtractCtx, ValueSets};
use osmnexus::lang::extract::Extract;
use osmnexus::lang::filter::{eval, Filter};
use osmnexus::lang::sanitize::AtomicJson;
use osmnexus::lang::table::mapping_step;
use osmnexus::number::{Bound, Readings};
use osmnexus::tags::RawTags;
use osmnexus::value::Fields;

fn no_sets() -> ValueSets {
    ValueSets { sets: vec![] }
}

fn no_readings() -> Readings {
    Readings { numbers: vec![], lengths: vec![] }
}

fn value(key: &str) -> Extract {
    Extract::Value { key: key.to_owned(), sanitize: vec![] }
}

fn read(key: &str) -> TagRead {
    TagRead::own(value(key))
}

fn eq(key: &str, v: &str) -> Filter {
    Filter::Eq { extract: value(key), eq: v.to_owned() }
}

fn and(and: Vec<Filter>) -> Filter {
    Filter::And { and }
}

fn not(f: Filter) -> Filter {
    Filter::Not { not: Box::new(f) }
}

fn with<R>(pairs: &[(&str, &str)], go: impl Fn(&ExtractCtx) -> R) -> R {
    let obj: RawTags = pairs.iter().map(|&(k, v)| (k.to_owned(), v.to_owned())).collect();
    let annotations = Fields::new();
    let sets = no_sets();
    let readings = no_readings();
    go(&ExtractCtx {
        obj_tags: &obj,
        parent_tags: None,
        id: "",
        annotations: &annotations,
        value_sets: &sets,
        readings: &readings,
    })
}

fn conditions() -> Vec<Filter> {
    vec![
        and(vec![eq("highway", "primary"), eq("bicycle", "no")]),
        eq("highway", "primary"),
        eq("highway", "secondary"),
        and(vec![eq("highway", "path"), not(eq("foot", "no"))]),
        eq("highway", "track"),
        and(vec![eq("railway", "tram"), eq("usage", "main")]),
        not(Filter::Exists { extract: value("highway"), exists: true }),
    ]
}

fn objects() -> Vec<Vec<(&'static str, &'static str)>> {
    vec![
        vec![],
        vec![("highway", "primary")],
        vec![("highway", "primary"), ("bicycle", "no")],
        vec![("highway", "secondary"), ("railway", "tram"), ("usage", "main")],
        vec![("highway", "path")],
        vec![("highway", "path"), ("foot", "no")],
        vec![("railway", "tram"), ("usage", "main")],
        vec![("highway", "steps")],
    ]
}

#[test]
fn a_net_finds_every_condition_that_holds() {
    let conds = conditions();
    let tree = build(&conds, 6, false, &no_sets(), &no_readings());
    for obj in objects() {
        let expected: Vec<usize> =
            with(&obj, |ctx| (0..conds.len()).filter(|&i| eval(&conds[i], ctx)).collect());
        assert_eq!(with(&obj, |ctx| matching(&tree, ctx)), expected);
    }
}

#[test]
fn a_final_net_finds_the_first_condition_that_holds() {
    let conds = conditions();
    for depth in [0, 1, 2, 6] {
        let tree = build(&conds, depth, true, &no_sets(), &no_readings());
        for obj in objects() {
            let expected = with(&obj, |ctx| (0..conds.len()).find(|&i| eval(&conds[i], ctx)));
            assert_eq!(with(&obj, |ctx| resolve_first(&tree, ctx)), expected);
        }
    }
}

#[test]
fn a_net_of_no_depth_is_one_leaf() {
    let conds = conditions();
    let tree = build(&conds, 0, true, &no_sets(), &no_readings());
    assert!(matches!(&tree, DecisionTree::Leaf(list) if list.len() == 7));
    let s = tree.stats();
    assert_eq!((s.leaf_count, s.branch_count, s.total_leaf_candidates), (1, 0, 7));
    let c = tree_cost(&tree);
    assert_eq!((c.worst, c.nodes), (7, 1));
    let deep = build(&conds, 6, true, &no_sets(), &no_readings());
    let s = deep.stats();
    assert!(s.branch_count > 0 && s.max_depth <= 6);
    assert!(tree_cost(&deep).worst < 7);
    assert!(matches!(
        &deep,
        DecisionTree::Branch { tag: BranchKey::Tag(r), .. } if r.tag_names() == vec!["highway"]
    ));
}

#[test]
fn no_net_has_a_smaller_worst_leaf_than_the_best() {
    let conds = conditions();
    for depth in [0, 1, 2] {
        let best = optimal_cost(&conds, depth, true, &no_sets(), &no_readings());
        let greedy = greedy_cost(&conds, depth, true, &no_sets(), &no_readings());
        assert!(best.worst <= greedy.worst);
    }
}

fn is_in(key: &str, within: &[&str]) -> Filter {
    Filter::In {
        extract: value(key),
        within: within.iter().map(|s| (*s).to_owned()).collect(),
    }
}

fn road_rules() -> Vec<Filter> {
    vec![
        and(vec![eq("highway", "service"), eq("service", "alley")]),
        and(vec![eq("highway", "service"), eq("service", "driveway")]),
        and(vec![eq("highway", "service"), eq("service", "parking_aisle")]),
        eq("highway", "service"),
        and(vec![eq("highway", "footway"), eq("footway", "sidewalk")]),
        and(vec![eq("highway", "footway"), eq("footway", "crossing")]),
        eq("highway", "footway"),
        and(vec![eq("highway", "residential"), eq("bicycle_road", "yes")]),
        is_in("highway", &["residential", "living_street", "unclassified"]),
        eq("highway", "cycleway"),
        eq("highway", "path"),
        eq("highway", "track"),
        eq("highway", "pedestrian"),
        eq("highway", "steps"),
        is_in("highway", &["primary", "primary_link", "secondary", "tertiary"]),
        is_in("highway", &["motorway", "motorway_link", "trunk", "trunk_link"]),
    ]
}

fn oneway_rules() -> Vec<Filter> {
    vec![
        eq("oneway:bicycle", "yes"),
        eq("oneway:bicycle", "no"),
        and(vec![eq("oneway", "yes"), not(eq("cycleway", "opposite"))]),
        eq("oneway", "no"),
        and(vec![eq("cycleway", "lane"), eq("oneway", "-1")]),
        Filter::Exists { extract: value("cycleway"), exists: true },
    ]
}

fn smoothness_rules() -> Vec<Filter> {
    vec![
        Filter::Exists { extract: value("smoothness"), exists: true },
        is_in("surface", &["asphalt", "concrete"]),
        is_in("surface", &["paving_stones", "compacted"]),
        is_in("surface", &["sett", "cobblestone"]),
        eq("surface", "grass"),
        is_in("tracktype", &["grade1", "grade2"]),
        is_in("tracktype", &["grade3", "grade4", "grade5"]),
    ]
}

#[test]
fn greedy_vs_optimal_on_real_configs() {
    for (label, conditions) in [
        ("tilda/producers.json:road", road_rules()),
        ("public_transport/producers.json:road", road_rules()),
        ("bikelanes/producers.json:oneway", oneway_rules()),
        ("bikelanes/producers.json:smoothness", smoothness_rules()),
    ] {
        let depth = DEFAULT_TREE_MAX_DEPTH;
        let greedy = greedy_cost(&conditions, depth, false, &no_sets(), &no_readings());
        let optimal = optimal_cost(&conditions, depth, false, &no_sets(), &no_readings());
        assert!(
            optimal.worst <= greedy.worst,
            "{label}: optimal search found a worse tree than greedy"
        );
    }
}

#[test]
fn keys_are_named_by_what_they_read() {
    assert_eq!(BranchKey::Tag(read("highway")).label(), "highway");
    assert_eq!(BranchKey::Sentinel(ContextKey::Side).label(), ContextKey::Side.name());
}

fn cat(id: &str, condition: Filter, excludes: &[&str]) -> CategoryDef {
    CategoryDef {
        id: id.to_owned(),
        condition,
        excludes: if excludes.is_empty() {
            None
        } else {
            Some(excludes.iter().map(|s| (*s).to_owned()).collect())
        },
    }
}

fn file(categories: Vec<CategoryDef>, macros: Vec<(String, Filter)>) -> CategoriesFile {
    CategoriesFile { macros, categories, order: vec![], tree: DecisionTree::default() }
}

fn roads() -> CategoriesFile {
    let mut f = file(
        vec![
            cat("any", Filter::Exists { extract: value("highway"), exists: true }, &["major", "closed"]),
            cat("major", eq("highway", "primary"), &["closed"]),
        ],
        vec![("closed".to_owned(), eq("access", "no"))],
    );
    assert!(f.build_order(6, &no_sets(), &no_readings()).is_ok());
    f
}

#[test]
fn what_a_category_excludes_is_tried_first() {
    let f = roads();
    assert_eq!(f.order.len(), 3);
    assert!(matches!(f.order[0], OrderedNode::Skip { .. }));
    assert!(matches!(f.order[1], OrderedNode::Category { idx: 1 }));
    assert!(matches!(f.order[2], OrderedNode::Category { idx: 0 }));
    let id = |pairs: &[(&str, &str)]| with(pairs, |ctx| categorize(ctx, &f).map(|c| c.id.clone()));
    assert_eq!(id(&[("highway", "primary")]), Some("major".to_owned()));
    assert_eq!(id(&[("highway", "path")]), Some("any".to_owned()));
    assert_eq!(id(&[("highway", "primary"), ("access", "no")]), None);
    assert_eq!(id(&[("railway", "rail")]), None);
}

#[test]
fn the_net_and_the_list_choose_alike() {
    let f = roads();
    for obj in objects() {
        let tree = with(&obj, |ctx| categorize(ctx, &f).map(|c| c.id.clone()));
        let list = with(&obj, |ctx| categorize_linear(ctx, &f).map(|c| c.id.clone()));
        assert_eq!(tree, list);
    }
}

#[test]
fn exclusions_in_a_circle_are_refused() {
    let mut f = file(
        vec![cat("a", Filter::Bool(true), &["b"]), cat("b", Filter::Bool(true), &["a"])],
        vec![],
    );
    let err = f.build_order(6, &no_sets(), &no_readings()).err().unwrap();
    assert!(matches!(err, OrderError::Cyclic(names) if names.len() == 2));
    assert!(f.order.is_empty());
}

#[test]
fn exclusions_of_what_is_not_there_are_refused() {
    let mut f = file(vec![cat("a", Filter::Bool(true), &["ghost"])], vec![]);
    let err = f.build_order(6, &no_sets(), &no_readings()).err().unwrap();
    assert!(matches!(err, OrderError::Unknown(name) if name == "ghost"));
}

#[test]
fn priorities_respect_every_exclusion() {
    let names = |v: &[&str]| -> Vec<String> { v.iter().map(|s| (*s).to_owned()).collect() };
    let order = priority_order(
        &names(&["c", "b", "a"]),
        &vec![names(&["b"]), names(&["a"]), names(&[])],
    );
    assert_eq!(order.ok().unwrap(), vec!["a", "b", "c"]);
    assert!(priority_order(&names(&["a"]), &vec![names(&["a"])]).is_err());
}

#[test]
fn normal_forms_keep_the_meaning() {
    let f = not(and(vec![eq("a", "1"), Filter::Or { or: vec![eq("b", "2"), not(eq("c", "3"))] }]));
    let e = filter_to_expr(&f, &no_sets());
    let back = filter_to_expr(&f, &no_sets());
    let nnf = to_nnf(back);
    let negated = to_negated_nnf(&e);
    let dnf = to_dnf(&nnf);
    for obj in [vec![], vec![("a", "1")], vec![("a", "1"), ("b", "2")], vec![("a", "1"), ("c", "3")]]
    {
        let truth = with(&obj, |ctx| eval(&f, ctx));
        assert_eq!(with(&obj, |ctx| eval_expr(&e, ctx)), truth);
        assert_eq!(with(&obj, |ctx| eval_expr(&nnf, ctx)), truth);
        assert_eq!(with(&obj, |ctx| eval_expr(&negated, ctx)), !truth);
        let some = dnf.iter().any(|term| {
            term.iter().all(|l| with(&obj, |ctx| match l {
                Literal::Pos(p) => eval_expr(&Expr::Lit(Literal::Pos(copy(p))), ctx),
                Literal::Neg(p) => !eval_expr(&Expr::Lit(Literal::Pos(copy(p))), ctx),
            }))
        });
        assert_eq!(some, truth);
    }
}

fn copy(p: &Predicate) -> Predicate {
    match p {
        Predicate::Eq(r, v) => Predicate::Eq(read(&r.tag_names()[0]), v.clone()),
        _ => unreachable!(),
    }
}

#[test]
fn contradictory_terms_are_inconsistent() {
    let lit = |k: &str, v: &str| Literal::Pos(Predicate::Eq(read(k), v.to_owned()));
    let neg = |k: &str, v: &str| Literal::Neg(Predicate::Eq(read(k), v.to_owned()));
    assert!(!check_term_consistency(&vec![lit("a", "1"), lit("a", "2")]).0);
    assert!(!check_term_consistency(&vec![lit("a", "1"), neg("a", "1")]).0);
    assert!(check_term_consistency(&vec![lit("a", "1"), lit("b", "2"), neg("a", "2")]).0);
    let exists = Literal::Neg(Predicate::Exists(read("a")));
    assert!(!check_term_consistency(&vec![exists, lit("a", "1")]).0);
}

#[test]
fn categories_that_can_both_hold_overlap() {
    let f = file(
        vec![
            cat("one", eq("highway", "primary"), &[]),
            cat("two", eq("bicycle", "yes"), &[]),
            cat("three", and(vec![eq("highway", "path"), eq("bicycle", "no")]), &[]),
        ],
        vec![],
    );
    let found = find_overlaps(&f, &no_sets());
    assert_eq!(found.len(), 1);
    assert_eq!((found[0].a.as_str(), found[0].b.as_str()), ("one", "two"));
    let all = find_all_topic_overlaps(&vec![("roads".to_owned(), f)], &no_sets());
    assert_eq!(all.len(), 1);
    assert_eq!(all[0].0, "roads");
}

#[test]
fn ranges_are_told_apart_only_by_a_denial() {
    let narrow = || Filter::NumRange {
        extract: value("width"),
        min: Bound::Unbounded,
        max: Bound::Excluded(2.0f64.to_bits()),
    };
    let wide = Filter::NumRange {
        extract: value("width"),
        min: Bound::Included(2.0f64.to_bits()),
        max: Bound::Unbounded,
    };
    let denied = file(vec![cat("narrow", narrow(), &[]), cat("other", not(narrow()), &[])], vec![]);
    assert!(find_overlaps(&denied, &no_sets()).is_empty());
    let ranges = file(vec![cat("narrow", narrow(), &[]), cat("wide", wide, &[])], vec![]);
    assert_eq!(find_overlaps(&ranges, &no_sets()).len(), 1);
    let named = file(vec![cat("a", narrow(), &["b"]), cat("b", narrow(), &[])], vec![]);
    assert!(find_overlaps(&named, &no_sets()).is_empty());
}

#[test]
fn facts_decide_and_simplify_conditions() {
    let key = BranchKey::Tag(read("highway"));
    let fact = Fact::Value(&key, "path");
    let r = no_readings();
    let is = |v: &str| Expr::Lit(Literal::Pos(Predicate::Eq(read("highway"), v.to_owned())));
    let open = || Expr::Lit(Literal::Pos(Predicate::Eq(read("access"), "no".to_owned())));
    assert!(matches!(kleene(&is("path"), &fact, &r), K::T));
    assert!(matches!(kleene(&is("track"), &fact, &r), K::F));
    assert!(matches!(kleene(&open(), &fact, &r), K::U));
    let both = Expr::And(vec![is("path"), open()]);
    let left = simplify(&both, &fact, &r);
    assert!(matches!(left, Expr::Lit(_)));
    for access in ["no", "yes"] {
        let obj = [("highway", "path"), ("access", access)];
        assert_eq!(
            with(&obj, |ctx| eval_expr(&left, ctx)),
            with(&obj, |ctx| eval_expr(&both, ctx))
        );
    }
    let either = Expr::Or(vec![is("track"), is("path")]);
    assert!(matches!(simplify(&either, &fact, &r), Expr::True));
    let others = vec!["path".to_owned()];
    assert!(matches!(kleene(&is("path"), &Fact::Other(&key, &others), &r), K::F));
}

#[test]
fn conjunctions_are_flat_and_notice_contradictions() {
    let lit = |k: &str| Expr::Lit(Literal::Pos(Predicate::Eq(read(k), "1".to_owned())));
    let neg = |k: &str| Expr::Lit(Literal::Neg(Predicate::Eq(read(k), "1".to_owned())));
    assert!(matches!(conjoin(vec![]), Expr::True));
    assert!(matches!(conjoin(vec![Expr::True, lit("a")]), Expr::Lit(_)));
    assert!(matches!(conjoin(vec![lit("a"), Expr::False]), Expr::False));
    assert!(matches!(
        conjoin(vec![lit("a"), Expr::And(vec![lit("b"), neg("a")])]),
        Expr::False
    ));
    assert!(matches!(
        conjoin(vec![lit("a"), Expr::And(vec![lit("b"), lit("a")])]),
        Expr::And(parts) if parts.len() == 2
    ));
}

fn leaves<'a>(t: &'a DecisionTree, out: &mut Vec<&'a Vec<(usize, Expr)>>) {
    match t {
        DecisionTree::Leaf(list) => out.push(list),
        DecisionTree::Branch { children, wildcard, .. } => {
            children.iter().for_each(|(_, c)| leaves(c, out));
            leaves(wildcard, out);
        }
        DecisionTree::AtomBranch { on_true, on_false, .. } => {
            leaves(on_true, out);
            leaves(on_false, out);
        }
    }
}

#[test]
fn leaves_list_conditions_in_their_order() {
    let conds = conditions();
    for depth in [0, 1, 6] {
        let tree = build(&conds, depth, false, &no_sets(), &no_readings());
        assert!(tree.stats().max_depth <= depth);
        let mut all = Vec::new();
        leaves(&tree, &mut all);
        for leaf in all {
            assert!(leaf.windows(2).all(|w| w[0].0 < w[1].0));
            assert!(leaf.iter().all(|(i, _)| *i < conds.len()));
        }
    }
}

fn of_parent(f: Filter) -> Filter {
    Filter::Parent { parent: Box::new(f) }
}

fn with_parent<R>(
    pairs: &[(&str, &str)],
    parent: Option<&[(&str, &str)]>,
    go: impl Fn(&ExtractCtx) -> R,
) -> R {
    let tags = |v: &[(&str, &str)]| -> RawTags {
        v.iter().map(|&(k, v)| (k.to_owned(), v.to_owned())).collect()
    };
    let obj = tags(pairs);
    let parent = parent.map(tags);
    let annotations = Fields::new();
    let sets = no_sets();
    let readings = Readings {
        numbers: vec![("2".to_owned(), 2.0f64.to_bits())],
        lengths: vec![],
    };
    go(&ExtractCtx {
        obj_tags: &obj,
        parent_tags: parent.as_ref(),
        id: "",
        annotations: &annotations,
        value_sets: &sets,
        readings: &readings,
    })
}

#[test]
fn expressions_say_what_filters_say() {
    let contains = |ci: bool| Filter::Contains {
        extract: value("name"),
        contains: "path".to_owned(),
        case_insensitive: ci,
    };
    let unbounded = || Filter::NumRange {
        extract: value("width"),
        min: Bound::Unbounded,
        max: Bound::Unbounded,
    };
    let filters = || {
        let inner = vec![
            eq("highway", "path"),
            not(eq("highway", "path")),
            Filter::HasKeyPrefix { has_key_prefix: "cycle".to_owned() },
            not(Filter::HasKeyPrefix { has_key_prefix: "cycle".to_owned() }),
            Filter::TagsEmpty { tags_empty: true },
            Filter::TagsEmpty { tags_empty: false },
            eq("parent_highway", "path"),
            contains(false),
            contains(true),
            unbounded(),
            not(unbounded()),
            of_parent(not(eq("highway", "path"))),
        ];
        inner
    };
    let objects: [&[(&str, &str)]; 5] = [
        &[],
        &[("highway", "path")],
        &[("parent_highway", "path"), ("name", "The Path")],
        &[("cycleway", "lane"), ("width", "2")],
        &[("highway", "primary"), ("width", "wide"), ("name", "a path")],
    ];
    for nested in [false, true] {
        for i in 0..filters().len() {
            let f = filters().swap_remove(i);
            let f = if nested { of_parent(f) } else { f };
            let e = to_nnf(filter_to_expr(&f, &no_sets()));
            for obj in objects {
                for parent in [None, Some(objects[0]), Some(objects[1]), Some(objects[3])] {
                    with_parent(obj, parent, |ctx| {
                        assert_eq!(eval_expr(&e, ctx), eval(&f, ctx));
                    });
                }
            }
        }
    }
}

#[test]
fn nothing_denied_of_a_parent_holds_without_one() {
    let f = of_parent(not(eq("highway", "path")));
    let e = to_nnf(filter_to_expr(&f, &no_sets()));
    assert!(!with(&[], |ctx| eval_expr(&e, ctx)));
    assert!(!with(&[], |ctx| eval(&f, ctx)));
    let primary: &[(&str, &str)] = &[("highway", "primary")];
    assert!(with_parent(&[], Some(primary), |ctx| eval_expr(&e, ctx)));
}

#[test]
fn reads_of_the_parent_are_named_after_it() {
    let both = Extract::Candidates {
        keys: vec!["a".to_owned(), "b".to_owned()],
        sanitize: vec![],
    };
    let r = TagRead { extract: both, scope: Scope::Parent };
    assert_eq!(r.tag_names(), vec!["parent_a", "parent_b"]);
    assert_eq!(BranchKey::Tag(r).label(), "parent_a/parent_b");
    let own = Literal::Pos(Predicate::Eq(read("parent_a"), "1".to_owned()));
    let other = Literal::Pos(Predicate::Eq(read("a").of_parent(), "2".to_owned()));
    assert!(check_term_consistency(&vec![own, other]).0);
}

#[test]
fn a_divergence_is_warned_of_once() {
    let is = || Literal::Pos(Predicate::Eq(read("highway"), "path".to_owned()));
    let starts = |s: &str| Literal::Pos(Predicate::StartsWith(read("highway"), s.to_owned()));
    let warning = |s: &str| format!("Tag 'highway' Eq(\"path\") diverges from {s}");
    let (ok, found) = check_term_consistency(&vec![is(), starts("cycle")]);
    assert!(ok);
    assert_eq!(found, vec![warning("StartsWith(\"cycle\")")]);
    let (_, found) = check_term_consistency(&vec![is(), starts("cycle"), is()]);
    assert_eq!(found.len(), 1);
    let (_, found) = check_term_consistency(&vec![starts("cycle"), is(), starts("cycle")]);
    assert_eq!(found.len(), 2);
    let part = |ci| Literal::Pos(Predicate::Contains(read("highway"), "x".to_owned(), ci));
    let (_, found) = check_term_consistency(&vec![part(false), is(), starts("pa")]);
    assert_eq!(found, vec![warning("Contains(\"x\")")]);
}

#[test]
fn the_literals_of_a_conjunction_are_sorted() {
    let lit = |k: &str| Expr::Lit(Literal::Pos(Predicate::Eq(read(k), "1".to_owned())));
    let neg = |k: &str| Expr::Lit(Literal::Neg(Predicate::Eq(read(k), "1".to_owned())));
    let prefix = || {
        Expr::Lit(Literal::Pos(Predicate::HasKeyPrefix(Scope::Own, "a".to_owned())))
    };
    let either = || Expr::Or(vec![lit("x"), lit("y")]);
    let shown = |e: &Expr| match e {
        Expr::And(xs) => xs
            .iter()
            .map(|x| match x {
                Expr::Lit(Literal::Pos(p)) => format!("+{}", p.tags_involved()[0]),
                Expr::Lit(Literal::Neg(p)) => format!("-{}", p.tags_involved()[0]),
                _ => "|".to_owned(),
            })
            .collect::<Vec<String>>(),
        _ => vec![],
    };
    assert_eq!(shown(&conjoin(vec![lit("a"), lit("b")])), vec!["+a", "+b"]);
    assert_eq!(shown(&conjoin(vec![lit("b"), lit("a")])), vec!["+a", "+b"]);
    assert_eq!(
        shown(&conjoin(vec![
            neg("c"),
            either(),
            prefix(),
            lit("b"),
            Expr::And(vec![lit("ab"), lit("a"), lit("b")]),
        ])),
        vec!["+a", "+ab", "+b", "+prefix(a)", "-c", "|"]
    );
}

fn through(key: &str, table: &[(&str, &str)]) -> TagRead {
    let entries = table
        .iter()
        .map(|&(k, v)| (k.to_owned(), Some(AtomicJson::Str(v.to_owned()))))
        .collect();
    TagRead::own(Extract::Value { key: key.to_owned(), sanitize: vec![mapping_step(entries, None)] })
}

fn is_value(r: TagRead, v: &str) -> Literal {
    Literal::Pos(Predicate::Eq(r, v.to_owned()))
}

#[test]
fn values_of_different_reads_go_together() {
    let paved = || through("surface", &[("asphalt", "paved"), ("gravel", "unpaved")]);
    let raw = || read("surface");
    assert!(check_term_consistency(&vec![is_value(paved(), "paved"), is_value(raw(), "asphalt")]).0);
    assert!(
        !check_term_consistency(&vec![is_value(paved(), "paved"), is_value(paved(), "unpaved")]).0
    );
    let other_order = || through("surface", &[("gravel", "unpaved"), ("asphalt", "paved")]);
    assert!(
        !check_term_consistency(&vec![
            is_value(paved(), "paved"),
            is_value(other_order(), "unpaved")
        ])
        .0
    );
    let absent = |r: TagRead| Literal::Neg(Predicate::Exists(r));
    assert!(!check_term_consistency(&vec![is_value(paved(), "paved"), absent(raw())]).0);
    assert!(check_term_consistency(&vec![is_value(raw(), "sand"), absent(paved())]).0);
    assert!(!check_term_consistency(&vec![is_value(paved(), "paved"), absent(paved())]).0);
    let first = TagRead::own(Extract::Candidates {
        keys: vec!["cycleway:surface".to_owned(), "surface".to_owned()],
        sanitize: vec![],
    });
    assert!(!check_term_consistency(&vec![is_value(raw(), "sand"), absent(first)]).0);
}

#[test]
fn an_overlap_through_a_table_is_found() {
    let sanitized = Filter::Eq {
        extract: through("surface", &[("asphalt", "paved")]).extract,
        eq: "paved".to_owned(),
    };
    let cats = file(
        vec![cat("paved", sanitized, &[]), cat("asphalt", eq("surface", "asphalt"), &[])],
        vec![],
    );
    let found = find_overlaps(&cats, &no_sets());
    assert_eq!(found.len(), 1);
    assert_eq!((found[0].a.as_str(), found[0].b.as_str()), ("paved", "asphalt"));
}

#[test]
fn each_value_of_a_tag_is_held_against_a_shape() {
    let paved = through("surface", &[("asphalt", "paved")]);
    let starts = Literal::Pos(Predicate::StartsWith(read("surface"), "as".to_owned()));
    let term = vec![starts, is_value(read("surface"), "sand"), is_value(paved, "paved")];
    let (ok, found) = check_term_consistency(&term);
    assert!(ok);
    assert_eq!(
        found,
        vec![
            "Tag 'surface' Eq(\"sand\") diverges from StartsWith(\"as\")",
            "Tag 'surface' Eq(\"paved\") diverges from StartsWith(\"as\")",
        ]
    );
}

fn candidate(index: usize, f: &Filter) -> Candidate {
    let expr = || to_nnf(filter_to_expr(f, &no_sets()));
    Candidate { index, residual: expr(), own: expr() }
}

#[test]
fn a_branch_is_offered_once_and_the_best_is_taken() {
    let exists = || Filter::Exists { extract: value("lit"), exists: true };
    let list = vec![
        candidate(0, &and(vec![eq("highway", "path"), exists()])),
        candidate(1, &and(vec![eq("highway", "track"), exists()])),
        candidate(2, &and(vec![eq("highway", "steps"), eq("highway", "steps")])),
    ];
    let keys = branch_key_candidates(&list, &vec![]);
    assert_eq!(keys.len(), 1);
    assert_eq!(keys[0].label(), "highway");
    assert_eq!(eligible_atoms(&list, &vec![]).len(), 1);
    assert!(branch_key_candidates(&list, &keys).is_empty());
    let (choice, worst) = best_single_branch(&list, &vec![], &vec![], &no_readings());
    assert!(matches!(choice, Some(BranchChoice::Key(k)) if k.label() == "highway"));
    assert_eq!(worst, 1);
    let (none, worst) = best_single_branch(&vec![], &vec![], &vec![], &no_readings());
    assert!(none.is_none());
    assert_eq!(worst, 0);
}
