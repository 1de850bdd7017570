use osmnexus::classify::categories::{
    categorize, resolve_minzoom, CategoriesFile, CategoryDef, MinzoomCase, MinzoomRule, OrderError,
    OrderedNode,
};
use osmnexus::classify::classifier::{classify_rules, Classifier, Rule, ValueSpec};
use osmnexus::classify::derive::traffic_mode_side;
use osmnexus::classify::filter::{eval_filter, expands_within, CategoryContext, Filter, Side};
use osmnexus::classify::lint::{filter_to_expr, find_overlaps, resolves_within, without_macros};
use osmnexus::classify::sanitize::{sided_keys, SanitizerDef, SanitizerRegistry, Step};
use osmnexus::engine::check::runs_within;
use osmnexus::engine::csv_source::{
    flat_tags, object_fields, object_tags, parse_id, read_way, row_id, FieldText, RowError,
};
use osmnexus::engine::discover::{sorted_names, topic_names};
use osmnexus::engine::extract::{Producer, TagSet};
use osmnexus::engine::geometry::{build_geom_rows, build_node_geom_row, build_way_geom_row};
use osmnexus::engine::runner::{OsmMeta, TopicRow, TransformedObject, World};
use osmnexus::engine::selection::{cuts_ways, kept_mask, member_links};
use osmnexus::engine::topic::{
    DeriverBinding, Field, ParamTransform, Sanitizer, TopicSpec, Transform,
};
use osmnexus::engine::topic_runner::{
    ElementKind, LoadError, TagTransform, TopicRunner, TopicSource,
};
use osmnexus::geom::builders::{OsmWay, WayMeasures};
use osmnexus::geom::materialize::MemberRole;
use osmnexus::geom::primitives::{linestring_from_ewkb, point_from_ewkb, Vertex};
use osmnexus::lang::context::ValueSets;
use osmnexus::lang::filter::Spelling;
use osmnexus::text::spell;
use osmnexus::lang::sanitize::{eval_sanitize, ReplaceAt, ReplaceRule, StrOrVec};
use osmnexus::number::Readings;
use osmnexus::tags::RawTags;
use osmnexus::value::{Fields, Number, Value};

fn tags(pairs: &[(&str, &str)]) -> RawTags {
    pairs.iter().map(|&(k, v)| (k.to_owned(), v.to_owned())).collect()
}

fn s(text: &str) -> String {
    text.to_owned()
}

fn no_sets() -> ValueSets {
    ValueSets { sets: vec![] }
}

fn readings() -> Readings {
    Readings {
        numbers: vec![(s("3"), 3.0f64.to_bits())],
        lengths: vec![(s("3 m"), 3.0f64.to_bits())],
    }
}

fn registry() -> SanitizerRegistry {
    SanitizerRegistry::new(vec![
        (
            s("surface"),
            SanitizerDef::Chain(vec![
                Step::Drop { drop: vec![s("")] },
                Step::Cases {
                    cases: vec![
                        (s("stone"), StrOrVec::Many(vec![s("sett"), s("cobblestone")])),
                        (s("tar"), StrOrVec::One(s("asphalt"))),
                    ],
                    on_miss: Some(s("keep")),
                },
                Step::Replace {
                    replace: vec![ReplaceRule { from: s("x"), to: s("y"), at: ReplaceAt::Anywhere }],
                },
            ]),
        ),
        (s("known"), SanitizerDef::One(Step::Filter { filter: vec![s("a"), s("b")] })),
        (s("len"), SanitizerDef::Alias(s("parse_length"))),
        (s("traffic_mode"), SanitizerDef::One(Step::Filter { filter: vec![s("parking"), s("motor")] })),
        (
            s("parking"),
            SanitizerDef::One(Step::Cases {
                cases: vec![(s("parking"), StrOrVec::Many(vec![s("lane"), s("street")]))],
                on_miss: Some(s("drop")),
            }),
        ),
    ])
}

fn text(v: Option<Value>) -> Option<String> {
    v.and_then(|v| v.as_str().map(s))
}

#[test]
fn named_chains_run_step_by_step() {
    let (reg, r) = (registry(), readings());
    assert_eq!(text(reg.apply("surface", "cobblestone", &r)), Some(s("stone")));
    assert_eq!(text(reg.apply("surface", "wax", &r)), Some(s("way")));
    assert_eq!(text(reg.apply("surface", "", &r)), None);
    assert_eq!(text(reg.apply("known", "a", &r)), Some(s("a")));
    assert_eq!(text(reg.apply("known", "c", &r)), None);
    let is_three = |v: Option<Value>| {
        matches!(v, Some(Value::Number(Number::Float { bits })) if f64::from_bits(bits) == 3.0)
    };
    assert!(is_three(reg.apply("len", "3 m", &r)));
    assert!(is_three(reg.apply("parse_length", "3 m", &r)));
    assert!(reg.apply("nobody", "3 m", &r).is_none());
}

#[test]
fn sided_reads_fall_back() {
    assert_eq!(sided_keys("width", "left", true), vec!["width:left", "width:both", "width"]);
    assert_eq!(sided_keys("width", "right", true), vec!["width:right", "width:both"]);
    assert_eq!(sided_keys("width", "left", false), vec!["width:left", "width:both"]);
}

#[test]
fn traffic_mode_is_explicit_or_inferred_from_parking() {
    let (reg, r) = (registry(), readings());
    let none = tags(&[]);
    let parked = tags(&[("parking:left", "lane"), ("parking:right", "no")]);
    let mode = |obj: &RawTags, scope: Option<&str>, obj_side: &str, out: &str| {
        traffic_mode_side(obj, &parked, scope, obj_side, out, &reg, &r)
    };
    assert_eq!(mode(&none, Some("both"), "self", "left"), Some(s("parking")));
    assert_eq!(mode(&none, Some("both"), "self", "right"), None);
    assert_eq!(mode(&none, Some("directional"), "left", "left"), Some(s("parking")));
    assert_eq!(mode(&none, Some("directional"), "right", "left"), None);
    assert_eq!(mode(&none, None, "left", "left"), None);
    let explicit = tags(&[("traffic_mode:right", "motor")]);
    assert_eq!(mode(&explicit, Some("both"), "self", "left"), None);
    assert_eq!(mode(&explicit, Some("both"), "self", "right"), Some(s("motor")));
}

fn eq(tag: &str, v: &str) -> Filter {
    Filter::TagEq { tag: s(tag), eq: s(v), sanitize: None }
}

#[test]
fn conditions_read_tags_macros_and_numbers() {
    let (reg, sets, r) = (registry(), no_sets(), readings());
    let macros = vec![
        (s("road"), eq("highway", "primary")),
        (s("wide_road"), Filter::And { and: vec![
            Filter::Macro { name: s("road") },
            Filter::NumGte { num: s("width"), sanitize: Some(s("len")), gte: 3.0f64.to_bits() },
        ] }),
    ];
    let hold = |f: &Filter, pairs: &[(&str, &str)]| {
        assert!(expands_within(f, &macros, 8));
        eval_filter(f, &tags(pairs), &macros, &reg, &sets, &r)
    };
    let wide = Filter::Macro { name: s("wide_road") };
    assert!(hold(&wide, &[("highway", "primary"), ("width", "3 m")]));
    assert!(!hold(&wide, &[("highway", "primary"), ("width", "wide")]));
    assert!(!hold(&wide, &[("highway", "path"), ("width", "3 m")]));
    assert!(hold(
        &Filter::NumLt { num: s("lanes"), sanitize: None, lt: 4.0f64.to_bits() },
        &[("lanes", "3")]
    ));
    assert!(hold(
        &Filter::TagIn { tag: s("surface"), within: vec![s("stone")], sanitize: Some(s("surface")) },
        &[("surface", "sett")]
    ));
    assert!(hold(
        &Filter::FirstTagExists { first_tag: vec![s("a"), s("b")], exists: true },
        &[("b", "1")]
    ));
    assert!(hold(&Filter::Side { side: s("self") }, &[]));
    assert!(!hold(&Filter::ParentTagEq { parent_tag: s("a"), eq: s("1"), sanitize: None }, &[("a", "1")]));
    assert!(hold(&Filter::HasParent { has_parent: false }, &[]));
    assert!(!expands_within(&Filter::Macro { name: s("loop") }, &vec![(s("loop"), Filter::Macro { name: s("loop") })], 50));
}

#[test]
fn rules_give_the_value_of_the_first_that_holds() {
    let (reg, sets, r) = (registry(), no_sets(), readings());
    let rules = vec![
        Rule { when: eq("surface", "sett"), value: ValueSpec::Const(Value::String(s("bad"))) },
        Rule { when: Filter::Bool(true), value: ValueSpec::TagOr { tag_or: s("smoothness"), or: s("unknown") } },
    ];
    let value = |pairs: &[(&str, &str)]| text(classify_rules(&rules, &tags(pairs), &reg, &sets, &r));
    assert_eq!(value(&[("surface", "sett")]), Some(s("bad")));
    assert_eq!(value(&[("smoothness", "good")]), Some(s("good")));
    assert_eq!(value(&[]), Some(s("unknown")));
    assert!(classify_rules(&Vec::new(), &tags(&[]), &reg, &sets, &r).is_none());
}

fn category(id: &str, condition: Filter, excludes: Option<Vec<String>>) -> CategoryDef {
    CategoryDef {
        id: s(id),
        condition,
        excludes,
        minzoom: None,
        derivers: None,
        consts: Fields::new(),
        private: Fields::new(),
        parking_inference: None,
    }
}

fn ctx<'a>(
    obj: &'a RawTags,
    reg: &'a SanitizerRegistry,
    sets: &'a ValueSets,
    r: &'a Readings,
) -> CategoryContext<'a> {
    CategoryContext {
        tags: obj,
        side: Side::Self_,
        prefix: None,
        parent_highway: None,
        parent_tags: None,
        infix: None,
        sanitizers: reg,
        value_sets: sets,
        readings: r,
    }
}

#[test]
fn categories_are_tried_in_priority_order() {
    let mut file = CategoriesFile {
        macros: vec![(s("closed"), eq("access", "no"))],
        categories: vec![
            category("any", Filter::TagExists { tag: s("highway"), exists: true }, Some(vec![s("big"), s("closed")])),
            category("big", eq("highway", "primary"), None),
        ],
        order: vec![],
    };
    assert!(file.build_order().is_ok());
    assert!(file.order.iter().any(|n| matches!(n, OrderedNode::Skip { .. })));
    let (reg, sets, r) = (registry(), no_sets(), readings());
    let id = |pairs: &[(&str, &str)]| {
        let obj = tags(pairs);
        categorize(&ctx(&obj, &reg, &sets, &r), &file).map(|c| c.id.clone())
    };
    assert_eq!(id(&[("highway", "primary")]), Some(s("big")));
    assert_eq!(id(&[("highway", "path")]), Some(s("any")));
    assert_eq!(id(&[("highway", "path"), ("access", "no")]), None);

    let mut cyclic = CategoriesFile {
        macros: vec![],
        categories: vec![category("a", Filter::Bool(true), Some(vec![s("a")]))],
        order: vec![],
    };
    assert!(matches!(cyclic.build_order(), Err(OrderError::Cyclic(_))));
    let mut unknown = CategoriesFile {
        macros: vec![],
        categories: vec![category("a", Filter::Bool(true), Some(vec![s("z")]))],
        order: vec![],
    };
    assert!(matches!(unknown.build_order(), Err(OrderError::Unknown(name)) if name == "z"));
}

#[test]
fn the_first_zoom_case_that_holds_wins() {
    let (reg, sets, r) = (registry(), no_sets(), readings());
    let rule = MinzoomRule::Conditional {
        default: 12,
        rules: vec![
            MinzoomCase { when: eq("highway", "primary"), zoom: 6 },
            MinzoomCase { when: Filter::TagExists { tag: s("highway"), exists: true }, zoom: 9 },
        ],
    };
    let zoom = |pairs: &[(&str, &str)]| {
        let obj = tags(pairs);
        resolve_minzoom(&rule, &ctx(&obj, &reg, &sets, &r), &Vec::new())
    };
    assert_eq!(zoom(&[("highway", "primary")]), 6);
    assert_eq!(zoom(&[("highway", "path")]), 9);
    assert_eq!(zoom(&[]), 12);
    let obj = tags(&[]);
    assert_eq!(resolve_minzoom(&MinzoomRule::Const(4), &ctx(&obj, &reg, &sets, &r), &Vec::new()), 4);
}

fn spec() -> TopicSpec {
    let mut consts = Fields::new();
    consts.insert(s("oneway"), Value::Object(vec![
        (s("value"), Value::String(s("no"))),
        (s("consts"), Value::Object(vec![(s("confidence"), Value::String(s("low")))])),
    ]));
    TopicSpec {
        table: s("roads"),
        transforms: vec![
            Transform::Named(s("lifecycle")),
            Transform::Param(ParamTransform::UnnestSidepathSelf { prefix: s("cycleway") }),
        ],
        osm_fields: vec![Field::named("name")],
        sanitizers: vec![Sanitizer { tag: s("surface"), name: s("surface"), in_keys: None, from: TagSet::Obj }],
        derivers: vec![DeriverBinding::Named(s("kind"))],
        exclude_condition: Some(eq("access", "private")),
        consts,
        private: Fields::new(),
        minzoom: Some(MinzoomRule::Const(9)),
    }
}

fn kind_deriver() -> Producer {
    Producer::Classify {
        rules: vec![Rule { when: eq("highway", "primary"), value: ValueSpec::Const(Value::String(s("large"))) }],
        default: Some(Value::String(s("small"))),
        from: TagSet::Obj,
        consts: Fields::new(),
    }
}

fn source(spec: TopicSpec, categories: Vec<CategoryDef>) -> TopicSource {
    TopicSource {
        spec,
        own_sanitizers: vec![],
        shared_sanitizers: vec![(
            s("surface"),
            SanitizerDef::One(Step::Cases { cases: vec![(s("stone"), StrOrVec::One(s("sett")))], on_miss: None }),
        )],
        deriver_lib: vec![(s("kind"), kind_deriver())],
        categories: vec![(
            ElementKind::Way,
            CategoriesFile { macros: vec![], categories, order: vec![] },
        )],
        shared_macros: vec![(s("closed"), eq("access", "no"))],
    }
}

fn road() -> CategoryDef {
    category("road", Filter::TagExists { tag: s("highway"), exists: true }, Some(vec![s("closed")]))
}

fn own_object(pairs: &[(&str, &str)]) -> TransformedObject {
    TransformedObject { tags: tags(pairs), side: Side::Self_, prefix: None, infix: None, parent_highway: None }
}

fn field<'a>(f: &'a Fields, key: &str) -> Option<&'a str> {
    f.get(key).and_then(|v| v.as_str())
}

fn rows(pairs: &[(&str, &str)], extra: Vec<TransformedObject>) -> Vec<TopicRow> {
    let runner = TopicRunner::load("roads", source(spec(), vec![road()])).ok().unwrap();
    let classifiers: Vec<(String, Classifier)> = Vec::new();
    let (sets, r) = (no_sets(), readings());
    let world = World {
        classifiers: &classifiers,
        value_sets: &sets,
        readings: &r,
        left_hand_traffic: false,
    };
    assert!(runs_within(&runner, &world, 8));
    let mut objs = vec![own_object(pairs)];
    objs.extend(extra);
    let meta = OsmMeta { updated_at: Some(5), updated_by: None, changeset_id: None };
    runner.process(ElementKind::Way, 7, &tags(pairs), &objs, &meta, &world)
}

#[test]
fn a_kept_way_becomes_a_row() {
    let got = rows(&[("highway", "primary"), ("name", "Main"), ("surface", "sett")], vec![]);
    assert_eq!(got.len(), 1);
    let row = &got[0];
    assert_eq!((row.osm_id, row.id.as_str(), row.minzoom), (7, "way/7", 9));
    assert_eq!(row.osm_type, ElementKind::Way.osm_type());
    assert_eq!(field(&row.osm, "name"), Some("Main"));
    assert_eq!(field(&row.derived, "surface"), Some("stone"));
    assert_eq!(field(&row.derived, "kind"), Some("large"));
    assert_eq!(field(&row.derived, "oneway"), Some("no"));
    assert_eq!(field(&row.derived, "oneway_confidence"), Some("low"));
    assert_eq!(field(&row.derived, "category"), Some("road"));
    assert_eq!(field(&row.derived, "id"), Some("way/7"));
    assert_eq!(field(&row.private, "_side"), Some("self"));
    assert_eq!(row.meta.updated_at, Some(5));
}

#[test]
fn side_objects_carry_their_side_and_prefix() {
    let side = TransformedObject {
        tags: tags(&[("highway", "cycleway")]),
        side: Side::Left,
        prefix: Some(s("cycleway")),
        infix: Some(s("both")),
        parent_highway: Some(s("primary")),
    };
    let got = rows(&[("highway", "primary")], vec![side]);
    assert_eq!(got.len(), 2);
    assert_eq!(got[1].id, "way/7/cycleway/left");
    assert_eq!(field(&got[1].private, "_prefix"), Some("cycleway"));
    assert_eq!(field(&got[1].private, "_infix"), Some("both"));
    assert_eq!(field(&got[1].private, "_parent_highway"), Some("primary"));
    assert_eq!(field(&got[1].derived, "kind"), Some("small"));
}

#[test]
fn excluded_and_unclassified_ways_have_no_row() {
    assert!(rows(&[("highway", "primary"), ("access", "private")], vec![]).is_empty());
    assert!(rows(&[("highway", "primary"), ("access", "no")], vec![]).is_empty());
    assert!(rows(&[("building", "yes")], vec![]).is_empty());
}

#[test]
fn a_topic_loads_or_says_why_not() {
    let runner = TopicRunner::load("roads", source(spec(), vec![road()])).ok().unwrap();
    assert_eq!(runner.table(), "roads");
    assert!(runner.has_kind(ElementKind::Way) && !runner.has_kind(ElementKind::Node));
    assert!(matches!(runner.pipeline.tag_transforms[0], TagTransform::Lifecycle));
    assert_eq!(runner.pipeline.sidepath_self_prefixes, vec!["cycleway"]);

    let mut missing = spec();
    missing.derivers.push(DeriverBinding::Bound { deriver: s("ghost"), output: s("x") });
    let err = TopicRunner::load("roads", source(missing, vec![road()])).err().unwrap();
    assert!(matches!(err, LoadError::UnknownDeriver { deriver, .. } if deriver == "ghost"));

    let mut odd = spec();
    odd.transforms.push(Transform::Named(s("teleport")));
    let err = TopicRunner::load("roads", source(odd, vec![road()])).err().unwrap();
    assert!(matches!(err, LoadError::UnknownTransform { transform, .. } if transform == "teleport"));

    let cyclic = category("a", Filter::Bool(true), Some(vec![s("a")]));
    let err = TopicRunner::load("roads", source(spec(), vec![cyclic])).err().unwrap();
    assert!(matches!(err, LoadError::Order { error: OrderError::Cyclic(_), .. }));
}

#[test]
fn only_ways_are_rewritten_and_split() {
    let mut splitting = spec();
    splitting.transforms.push(Transform::Param(ParamTransform::SplitSides {
        highway: s("cycleway"),
        prefix: s("cycleway"),
        directed_keys: vec![s("cycleway:lanes")],
        self_directed_keys: vec![],
    }));
    let runner = TopicRunner::load("roads", source(splitting, vec![road()])).ok().unwrap();
    let splits = runner.transformations_for(ElementKind::Way);
    assert_eq!(splits.len(), 1);
    assert_eq!(splits[0].prefix, "cycleway");
    assert_eq!(runner.tag_transforms_for(ElementKind::Way).len(), 1);
    for kind in [ElementKind::Node, ElementKind::Relation] {
        assert!(runner.transformations_for(kind).is_empty());
        assert!(runner.tag_transforms_for(kind).is_empty());
    }
}

#[test]
fn a_category_overrides_what_its_topic_says() {
    let mut cat = road();
    cat.derivers = Some(vec![DeriverBinding::Bound { deriver: s("kind"), output: s("size") }]);
    cat.consts.insert(s("oneway"), Value::Bool(true));
    let runner = TopicRunner::load("roads", source(spec(), vec![cat])).ok().unwrap();
    let outputs: Vec<&str> = runner.category_derivers[0].1.iter().map(|f| f.output.as_str()).collect();
    assert_eq!(outputs, vec!["kind", "size"]);
    assert!(matches!(runner.category_consts[0].1.get("oneway"), Some(Value::Bool(true))));
}

#[test]
fn kept_topics_are_bits_of_a_mask() {
    let full = rows(&[("highway", "primary")], vec![]);
    let mask = kept_mask(&vec![vec![], full, vec![]]);
    assert_eq!(mask, 0b010);
    assert_eq!(kept_mask(&Vec::new()), 0);
    assert!(cuts_ways(true, 0b010, 0b110));
    assert!(!cuts_ways(true, 0b001, 0b110));
    assert!(!cuts_ways(false, 0b010, 0b110));
}

#[test]
fn every_member_way_is_linked() {
    let links = member_links(9, &vec![(1, MemberRole::Outer), (2, MemberRole::Other)]);
    let pairs: Vec<(i64, i64)> = links.iter().map(|l| (l.relation_osm_id, l.way_osm_id)).collect();
    assert_eq!(pairs, vec![(9, 1), (9, 2)]);
}

#[test]
fn row_ids_are_read_or_refused() {
    assert_eq!(parse_id("42"), Some(42));
    assert_eq!(parse_id("+42"), Some(42));
    assert_eq!(parse_id("-9223372036854775808"), Some(i64::MIN));
    assert_eq!(parse_id("9223372036854775808"), None);
    assert_eq!(parse_id(""), None);
    assert_eq!(parse_id("-"), None);
    assert_eq!(parse_id("4x"), None);
    assert_eq!(row_id(&vec![s("7"), s("{}")]).ok(), Some(7));
    assert!(matches!(row_id(&vec![s("7")]), Err(RowError::FieldCount { found: 1 })));
    assert!(matches!(row_id(&vec![s("x"), s("{}")]), Err(RowError::BadId)));
}

#[test]
fn tag_values_that_are_no_text_are_written_as_json() {
    let list = vec![Spelling {
        bits: 1.5f64.to_bits(),
        plain: s("1.5"),
        exact: s("1.5"),
        json: s("1.5"),
    }];
    let fields = object_fields(Value::Object(vec![
        (s("name"), Value::String(s("A \"b\""))),
        (s("lit"), Value::Bool(true)),
        (s("none"), Value::Null),
        (s("lanes"), Value::Number(Number::Int { value: 2, bits: 2.0f64.to_bits() })),
        (s("width"), Value::Number(Number::Float { bits: 1.5f64.to_bits() })),
        (s("list"), Value::Array(vec![Value::String(s("a\"\n\u{1}")), Value::Object(vec![])])),
    ]));
    let flat = flat_tags(&fields, &list);
    let get = |k: &str| flat.get(k).map(|v| v.as_str());
    assert_eq!(get("name"), Some("A \"b\""));
    assert_eq!(get("lit"), Some("true"));
    assert_eq!(get("none"), Some("null"));
    assert_eq!(get("lanes"), Some("2"));
    assert_eq!(get("width"), Some("1.5"));
    assert_eq!(get("list"), Some("[\"a\\\"\\n\\u0001\",{}]"));
    assert!(object_fields(Value::Null).is_empty());
}

#[test]
fn ways_are_read_from_their_lines() {
    let line = |id: &str, json: &str| vec![s(id), s(json)];
    let json = "{\"name\":\"A \\\"b\\\"\",\"lanes\":2,\"list\":[1.5, null],\"name\":\"B\"}";
    let (id, tags) = read_way(&line("7", json)).ok().unwrap();
    assert_eq!(id, 7);
    assert_eq!(tags.len(), 3);
    let get = |k: &str| tags.get(k).map(|v| v.as_str());
    assert_eq!(get("name"), Some("B"));
    assert_eq!(get("lanes"), Some("2"));
    assert_eq!(get("list"), Some("[1.5,null]"));
    assert!(matches!(read_way(&line("8", "[1]")), Ok((8, t)) if t.is_empty()));
    assert!(matches!(read_way(&line("8", "{")), Err(RowError::BadTags { osm_id: 8 })));
    assert!(matches!(read_way(&line("x", "{")), Err(RowError::BadId)));
    assert!(matches!(read_way(&vec![]), Err(RowError::FieldCount { found: 0 })));
}

#[test]
fn the_fields_of_an_object_are_its_tags() {
    let fields = vec![
        (s("a"), FieldText::Text(s("1"))),
        (s("b"), FieldText::Written(s("2"))),
        (s("a"), FieldText::Written(s("3"))),
    ];
    assert_eq!(object_tags(&Some(fields)), tags(&[("a", "3"), ("b", "2")]));
    assert!(object_tags(&None).is_empty());
}

#[test]
fn shared_folders_are_no_topics() {
    let names = vec![s("roads"), s("_shared"), s("bikelanes")];
    assert_eq!(topic_names(&names), vec!["bikelanes", "roads"]);
    assert_eq!(sorted_names(&names), vec!["_shared", "bikelanes", "roads"]);
}

fn vertex(n: u64) -> Vertex {
    Vertex { place: (n, n), point: (n, n + 1) }
}

#[test]
fn a_way_is_cut_at_its_cut_points() {
    let way = OsmWay {
        id: 5,
        coords: (0..4).map(vertex).collect(),
        cut_points: vec![(0, 100), (1, 101), (3, 103)],
    };
    let measures = WayMeasures { length_m: 9, part_lengths: vec![4, 5], centroid: None };
    let rows = build_geom_rows(&way, &measures);
    assert_eq!(rows.len(), 2);
    assert_eq!((rows[1].seg_idx, rows[1].start_id, rows[1].end_id), (1, 101, 103));
    assert_eq!((rows[1].length_m, rows[1].total_length_m), (5, 9));
    assert_eq!(
        linestring_from_ewkb(&rows[1].geom_ewkb).ok().unwrap(),
        vec![(1, 2), (2, 3), (3, 4)]
    );
    let whole = build_way_geom_row(&way, 9);
    assert_eq!(linestring_from_ewkb(&whole.geom_ewkb).ok().unwrap().len(), 4);
    let node = build_node_geom_row(3, 1, 2);
    assert_eq!(point_from_ewkb(&node.geom_ewkb).ok(), Some((1, 2)));
}

#[test]
fn conditions_stand_without_their_macros() {
    let macros = vec![
        (s("road"), eq("highway", "primary")),
        (
            s("quiet"),
            Filter::Not { not: Box::new(Filter::Macro { name: s("road") }) },
        ),
    ];
    let f = Filter::And {
        and: vec![
            Filter::Macro { name: s("quiet") },
            Filter::ParentTagEq { parent_tag: s("highway"), eq: s("track"), sanitize: None },
            Filter::FirstTagExists { first_tag: vec![s("a"), s("b")], exists: true },
            Filter::NumGt { num: s("width"), sanitize: None, gt: 2.0f64.to_bits() },
        ],
    };
    assert!(resolves_within(&f, &macros, 2) && !resolves_within(&f, &macros, 1));
    assert!(!resolves_within(&Filter::Macro { name: s("ghost") }, &macros, 9));
    let list = vec![Spelling {
        bits: 2.0f64.to_bits(),
        plain: s("2"),
        exact: s("2.0"),
        json: s("2.0"),
    }];
    assert_eq!(
        without_macros(&f, &macros, &registry()).describe(&list),
        "not (highway == \"primary\")\nand\nparent(highway == \"track\")\nand\n[a|b] exists\nand\nwidth > 2"
    );
    let e = filter_to_expr(
        &Filter::Macro { name: s("quiet") },
        &macros,
        &registry(),
        &no_sets(),
    );
    assert!(matches!(e, osmnexus::categorize::expr::Expr::Not(_)));
}

#[test]
fn named_conditions_overlap_too() {
    let file = CategoriesFile {
        macros: vec![(s("road"), eq("highway", "primary"))],
        categories: vec![
            category("a", Filter::Macro { name: s("road") }, None),
            category("b", eq("bicycle", "yes"), None),
            category("c", eq("highway", "path"), Some(vec![s("b")])),
        ],
        order: vec![],
    };
    let found = find_overlaps(&file, &registry(), &no_sets());
    let pairs: Vec<(&str, &str)> =
        found.iter().map(|o| (o.a.as_str(), o.b.as_str())).collect();
    assert_eq!(pairs, vec![("a", "b")]);
}

#[test]
fn overlaps_behind_named_sanitizers_are_found() {
    let named = |eq: &str| Filter::TagEq { tag: s("surface"), eq: s(eq), sanitize: Some(s("surface")) };
    let any = Filter::FirstTagExists { first_tag: vec![s("track"), s("surface")], exists: false };
    let file = CategoriesFile {
        macros: vec![],
        categories: vec![
            category("stone", named("stone"), None),
            category("tar", named("tar"), None),
            category("sett", eq("surface", "sett"), None),
            category("bare", any, None),
        ],
        order: vec![],
    };
    let found = find_overlaps(&file, &registry(), &no_sets());
    let pairs: Vec<(&str, &str)> =
        found.iter().map(|o| (o.a.as_str(), o.b.as_str())).collect();
    assert_eq!(pairs, vec![("stone", "sett"), ("tar", "sett")]);
}

#[test]
fn named_sanitizers_are_written_out_as_chains() {
    let (reg, r) = (registry(), readings());
    for name in ["surface", "known", "len", "parking", "parse_length", "ghost"] {
        let chain = reg.chain(&Some(s(name)));
        for raw in ["", "sett", "asphalt", "wax", "a", "c", "3 m", "lane"] {
            assert_eq!(
                format!("{:?}", eval_sanitize(&chain, raw, &r)),
                format!("{:?}", reg.apply(name, raw, &r)),
            );
        }
    }
    assert!(reg.chain(&None).is_empty());
}

#[test]
fn numbers_of_elements_are_read_back() {
    for n in [0, 7, -7, 1_000_000_007, i64::MAX, i64::MIN] {
        assert_eq!(parse_id(&spell(n)), Some(n));
    }
}

#[test]
fn objects_of_a_way_have_ids_of_their_own() {
    let side = |side: Side, prefix: &str| TransformedObject {
        tags: tags(&[("highway", "cycleway")]),
        side,
        prefix: Some(s(prefix)),
        infix: None,
        parent_highway: Some(s("primary")),
    };
    let got = rows(
        &[("highway", "primary")],
        vec![
            side(Side::Left, "cycleway"),
            side(Side::Right, "cycleway"),
            side(Side::Left, "sidewalk"),
        ],
    );
    let mut ids: Vec<&str> = got.iter().map(|r| r.id.as_str()).collect();
    ids.sort();
    assert_eq!(
        ids,
        vec!["way/7", "way/7/cycleway/left", "way/7/cycleway/right", "way/7/sidewalk/left"]
    );
}
