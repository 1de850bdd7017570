use osmnexus::classify::classifier::{Rule, ValueSpec};
use osmnexus::classify::sanitize::SanitizerRegistry;
use osmnexus::engine::extract::{ready_within, ExtractCtx, Producer, TagSet};
use osmnexus::lang::context::ValueSets;
use osmnexus::lang::extract::Extract;
use osmnexus::lang::producer::MatchOrigin;
use osmnexus::number::Readings;
use osmnexus::tags::RawTags;
use osmnexus::value::{Fields, Value};

fn tags(pairs: &[(&str, &str)]) -> RawTags {
    pairs.iter().map(|&(k, v)| (k.to_owned(), v.to_owned())).collect()
}

fn value_of(
    producer: &Producer,
    obj: &RawTags,
    parent: Option<&RawTags>,
    side: &str,
) -> Option<Value> {
    let sanitizers = SanitizerRegistry::new(Vec::new());
    let derivers = Vec::new();
    let classifiers = Vec::new();
    let value_sets = ValueSets { sets: Vec::new() };
    let readings = Readings { numbers: Vec::new(), lengths: Vec::new() };
    let ctx = ExtractCtx {
        obj_tags: obj,
        parent_tags: parent,
        parking_inference: None,
        obj_side: side,
        sanitizers: &sanitizers,
        derivers: &derivers,
        classifiers: &classifiers,
        value_sets: &value_sets,
        readings: &readings,
        left_hand_traffic: false,
    };
    assert!(ready_within(producer, &derivers, &classifiers, 4));
    producer.eval(&ctx).map(|p| p.value)
}

fn bool_producer(filter: osmnexus::classify::filter::Filter, from: TagSet) -> Producer {
    Producer::Classify {
        rules: vec![Rule { when: filter, value: ValueSpec::Const(Value::Bool(true)) }],
        default: Some(Value::Bool(false)),
        from,
        consts: Fields::new(),
    }
}

fn oneway_yes() -> osmnexus::classify::filter::Filter {
    osmnexus::classify::filter::Filter::TagEq {
        tag: "oneway".to_owned(),
        eq: "yes".to_owned(),
        sanitize: None,
    }
}

#[test]
fn extract_matching_filter_produces_true() {
    let obj = tags(&[("oneway", "yes")]);
    let producer = bool_producer(oneway_yes(), TagSet::Obj);
    let value = value_of(&producer, &obj, None, "self").unwrap();
    assert!(matches!(value, Value::Bool(true)));
}

#[test]
fn extract_non_matching_filter_produces_false() {
    let obj = tags(&[("oneway", "no")]);
    let producer = bool_producer(oneway_yes(), TagSet::Obj);
    let value = value_of(&producer, &obj, None, "self").unwrap();
    assert!(matches!(value, Value::Bool(false)));
}

#[test]
fn extract_missing_tagset_produces_none() {
    let obj = RawTags::default();
    let producer =
        bool_producer(osmnexus::classify::filter::Filter::Bool(true), TagSet::Parent);
    assert!(value_of(&producer, &obj, None, "self").is_none());
}

fn directed(key: &str, from: TagSet) -> Producer {
    Producer::Extract {
        key: Some(key.to_owned()),
        keys: None,
        from,
        side: None,
        sanitize: None,
        consts: Fields::new(),
        directed: true,
    }
}

fn is_text(value: &Value, text: &str) -> bool {
    matches!(value, Value::String(s) if s == text)
}

#[test]
fn extract_parent_source_prefers_existing_obj_value() {
    let obj = tags(&[("cycleway:lanes", "existing")]);
    let parent = tags(&[("cycleway:lanes:forward", "lane")]);
    let producer = directed("cycleway:lanes", TagSet::Parent);
    assert!(value_of(&producer, &obj, Some(&parent), "right").is_none());
}

#[test]
fn extract_parent_source_falls_back_to_bare_then_directed_key() {
    let obj = RawTags::default();
    let parent = tags(&[("cycleway:lanes:forward", "lane")]);
    let producer = directed("cycleway:lanes", TagSet::Parent);
    let value = value_of(&producer, &obj, Some(&parent), "right").unwrap();
    assert!(is_text(&value, "lane"));

    let parent = RawTags::default();
    assert!(value_of(&producer, &obj, Some(&parent), "right").is_none());
}

#[test]
fn extract_self_source_reads_from_obj_own_directed_key() {
    let obj = tags(&[("traffic_sign:forward", "DE:1022-10")]);
    let producer = directed("traffic_sign", TagSet::Obj);
    let value = value_of(&producer, &obj, None, "right").unwrap();
    assert!(is_text(&value, "DE:1022-10"));
}

#[test]
fn extract_noop_for_self_side() {
    let obj = RawTags::default();
    let parent = tags(&[("cycleway:lanes:forward", "lane")]);
    let producer = directed("cycleway:lanes", TagSet::Parent);
    assert!(value_of(&producer, &obj, Some(&parent), "self").is_none());
}

#[test]
fn extract_handedness_flips_suffix() {
    let obj = RawTags::default();
    let parent = tags(&[("cycleway:lanes:backward", "lane")]);
    let producer = directed("cycleway:lanes", TagSet::Parent);
    assert!(value_of(&producer, &obj, Some(&parent), "right").is_none());
    let value = value_of(&producer, &obj, Some(&parent), "left").unwrap();
    assert!(is_text(&value, "lane"));
}

fn rule_table(
    filter: osmnexus::lang::filter::Filter,
    parent: bool,
) -> osmnexus::lang::producer::Producer {
    let base = osmnexus::lang::producer::Producer::Match {
        rules: vec![osmnexus::lang::producer::Rule {
            when: filter,
            value: osmnexus::lang::producer::Producer::Const {
                value: Value::Bool(true),
                annotate: Fields::new(),
            },
        }],
        default: Some(Value::Bool(false)),
        annotate: Fields::new(),
        origin: MatchOrigin::Rules,
        tree: None,
    };
    if parent {
        osmnexus::lang::producer::Producer::Parent(Box::new(base))
    } else {
        base
    }
}

fn produced(
    producer: &osmnexus::lang::producer::Producer,
    obj: &RawTags,
) -> Option<osmnexus::lang::producer::Produced> {
    let annotations = Fields::new();
    let value_sets = ValueSets { sets: Vec::new() };
    let readings = Readings { numbers: Vec::new(), lengths: Vec::new() };
    let ctx = osmnexus::lang::context::ExtractCtx {
        obj_tags: obj,
        parent_tags: None,
        id: "",
        annotations: &annotations,
        value_sets: &value_sets,
        readings: &readings,
    };
    producer.eval(&ctx)
}

fn eq_filter(key: &str, eq: &str) -> osmnexus::lang::filter::Filter {
    osmnexus::lang::filter::Filter::Eq {
        extract: Extract::Value { key: key.to_owned(), sanitize: vec![] },
        eq: eq.to_owned(),
    }
}

#[test]
fn producer_matching_filter_produces_true() {
    let obj = tags(&[("oneway", "yes")]);
    let producer = rule_table(eq_filter("oneway", "yes"), false);
    assert!(matches!(produced(&producer, &obj).unwrap().value, Value::Bool(true)));
}

#[test]
fn producer_non_matching_filter_produces_false() {
    let obj = tags(&[("oneway", "no")]);
    let producer = rule_table(eq_filter("oneway", "yes"), false);
    assert!(matches!(produced(&producer, &obj).unwrap().value, Value::Bool(false)));
}

#[test]
fn producer_missing_tagset_produces_none() {
    let obj = RawTags::default();
    let producer = rule_table(osmnexus::lang::filter::Filter::Bool(true), true);
    assert!(produced(&producer, &obj).is_none());
}

fn wide_table(depth: usize) -> osmnexus::lang::producer::Producer {
    let kinds = ["motorway", "trunk", "primary", "secondary", "tertiary", "service", "track", "path"];
    let mut table = osmnexus::lang::producer::Producer::Match {
        rules: kinds
            .iter()
            .map(|kind| osmnexus::lang::producer::Rule {
                when: eq_filter("highway", kind),
                value: osmnexus::lang::producer::Producer::Const {
                    value: Value::String(format!("is {kind}")),
                    annotate: Fields::new(),
                },
            })
            .collect(),
        default: Some(Value::String("none".to_owned())),
        annotate: Fields::new(),
        origin: MatchOrigin::Rules,
        tree: None,
    };
    if depth > 0 {
        let sets = ValueSets { sets: Vec::new() };
        let readings = Readings { numbers: Vec::new(), lengths: Vec::new() };
        table.compile_trees(depth, &sets, &readings);
    }
    table
}

#[test]
fn a_compiled_table_gives_what_a_plain_one_gives() {
    let plain = wide_table(0);
    let mut net = wide_table(6);
    assert!(matches!(
        &net,
        osmnexus::lang::producer::Producer::Match { tree: Some(_), .. }
    ));
    for kind in ["motorway", "track", "path", "steps"] {
        let obj = tags(&[("highway", kind)]);
        let a = produced(&plain, &obj).unwrap().value;
        let b = produced(&net, &obj).unwrap().value;
        assert_eq!(format!("{a:?}"), format!("{b:?}"));
    }
    net.clear_trees();
    assert!(matches!(&net, osmnexus::lang::producer::Producer::Match { tree: None, .. }));
}

#[test]
fn what_is_not_reached_is_not_asked_for() {
    let sanitizers = SanitizerRegistry::new(Vec::new());
    let (derivers, classifiers) = (Vec::new(), Vec::new());
    let value_sets = ValueSets { sets: Vec::new() };
    let readings = Readings { numbers: Vec::new(), lengths: Vec::new() };
    let obj = tags(&[("highway", "path")]);
    let ctx = ExtractCtx {
        obj_tags: &obj,
        parent_tags: None,
        parking_inference: None,
        obj_side: "self",
        sanitizers: &sanitizers,
        derivers: &derivers,
        classifiers: &classifiers,
        value_sets: &value_sets,
        readings: &readings,
        left_hand_traffic: false,
    };
    let shared = |from: TagSet| Producer::SharedClassify {
        shared: "missing".to_owned(),
        from,
        consts: Fields::new(),
    };
    assert!(!ready_within(&shared(TagSet::Parent), &derivers, &classifiers, 4));
    assert!(shared(TagSet::Parent).eval(&ctx).is_none());
    let read = Producer::Extract {
        key: Some("highway".to_owned()),
        keys: None,
        from: TagSet::Obj,
        side: None,
        sanitize: None,
        consts: Fields::new(),
        directed: false,
    };
    let first = Producer::Fallback { fallback: vec![read, shared(TagSet::Obj)] };
    let found = first.eval(&ctx).map(|p| p.value);
    assert!(matches!(found, Some(Value::String(v)) if v == "path"));
}
