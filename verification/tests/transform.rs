use osmnexus::categorize::pipeline::run_transform_steps;
use osmnexus::categorize::transform::{
    strip_prefix, unnest_prefixed_tags, CloneStep, DirectedFrom, InputTransform, Setting, Spawned,
    TransformStep,
};
use osmnexus::lang::context::ValueSets;
use osmnexus::lang::extract::Extract;
use osmnexus::lang::filter::Filter;
use osmnexus::lang::producer::{MatchOrigin, Producer};
use osmnexus::number::Readings;
use osmnexus::tags::RawTags;
use osmnexus::value::{Fields, Value};

fn tags(pairs: &[(&str, &str)]) -> RawTags {
    pairs.iter().map(|&(k, v)| (k.to_owned(), v.to_owned())).collect()
}

fn texts(list: &[&str]) -> Vec<String> {
    list.iter().map(|s| (*s).to_owned()).collect()
}

fn no_sets() -> ValueSets {
    ValueSets { sets: Vec::new() }
}

fn no_readings() -> Readings {
    Readings { numbers: Vec::new(), lengths: Vec::new() }
}

fn apply(
    step: &InputTransform,
    obj: &mut RawTags,
    annotations: &mut Fields,
    parent: Option<&RawTags>,
) -> bool {
    let sets = no_sets();
    let readings = no_readings();
    let setting = Setting { value_sets: &sets, readings: &readings, left_hand_traffic: false };
    step.apply(obj, annotations, parent, &setting)
}

fn unnest(infix: &str, record: Option<&str>) -> InputTransform {
    InputTransform::UnnestTags {
        prefix: "cycleway".to_owned(),
        infix: infix.to_owned(),
        meta_prefixes: Vec::new(),
        guard: None,
        record_infix_as: record.map(|s| s.to_owned()),
    }
}

fn get<'a>(obj: &'a RawTags, key: &str) -> Option<&'a str> {
    obj.get(key).map(|v| v.as_str())
}

fn noted<'a>(m: &'a Fields, key: &str) -> Option<&'a str> {
    m.get(key).and_then(|v| v.as_str())
}

#[test]
fn self_unnest_scans_and_mutates_the_same_object() {
    let mut obj = tags(&[("highway", "path"), ("cycleway", "track"), ("cycleway:width", "1.5")]);
    let mut annotations = Fields::new();
    let kept = apply(&unnest("", None), &mut obj, &mut annotations, None);
    assert!(kept);
    assert_eq!(get(&obj, "width"), Some("1.5"));
}

#[test]
fn cross_object_unnest_scans_parent_tags_writes_into_tags() {
    let way_tags = tags(&[("highway", "primary"), ("cycleway:right", "lane")]);
    let mut obj = RawTags::default();
    let mut annotations = Fields::new();
    apply(&unnest("right", None), &mut obj, &mut annotations, Some(&way_tags));
    assert_eq!(get(&obj, "cycleway"), Some("lane"));
}

#[test]
fn guard_blocks_unrelated_highway() {
    let mut obj = tags(&[("highway", "primary"), ("cycleway", "track")]);
    let mut annotations = Fields::new();
    let step = InputTransform::UnnestTags {
        prefix: "cycleway".to_owned(),
        infix: String::new(),
        meta_prefixes: Vec::new(),
        guard: Some(Filter::InSet {
            extract: Extract::Value { key: "highway".to_owned(), sanitize: vec![] },
            in_set: "sidepath_highway".to_owned(),
        }),
        record_infix_as: None,
    };
    apply(&step, &mut obj, &mut annotations, None);
    assert!(!obj.contains_key("width"));
}

#[test]
fn record_infix_as_stamps_only_on_success_and_last_wins() {
    let way_tags = tags(&[("cycleway:both", "lane"), ("cycleway:right:width", "2")]);
    let mut obj = RawTags::default();
    let mut annotations = Fields::new();
    for infix in ["", "both", "right"] {
        apply(&unnest(infix, Some("_infix")), &mut obj, &mut annotations, Some(&way_tags));
    }
    assert_eq!(noted(&annotations, "_infix"), Some("right"));
}

#[test]
fn drop_removes_object_when_tags_are_empty() {
    let mut obj = RawTags::default();
    let mut annotations = Fields::new();
    let drop = InputTransform::Drop { when: Filter::TagsEmpty { tags_empty: true } };
    assert!(!apply(&drop, &mut obj, &mut annotations, None));

    obj.insert("cycleway".to_owned(), "lane".to_owned());
    assert!(apply(&drop, &mut obj, &mut annotations, None));
}

fn side_annotations(side: &str) -> Fields {
    let mut m = Fields::new();
    m.insert("_side".to_owned(), Value::String(side.to_owned()));
    m
}

fn directed(key: &str, from: DirectedFrom) -> InputTransform {
    InputTransform::DirectedExtract {
        output: key.to_owned(),
        key: key.to_owned(),
        from,
        sanitize: Vec::new(),
    }
}

#[test]
fn transform_parent_source_prefers_existing_obj_value() {
    let mut obj = tags(&[("cycleway:lanes", "existing")]);
    let parent = tags(&[("cycleway:lanes:forward", "lane")]);
    let mut annotations = side_annotations("right");
    let step = directed("cycleway:lanes", DirectedFrom::Parent);
    apply(&step, &mut obj, &mut annotations, Some(&parent));
    assert_eq!(get(&obj, "cycleway:lanes"), Some("existing"));
}

#[test]
fn transform_parent_source_falls_back_to_bare_then_directed_key() {
    let step = directed("cycleway:lanes", DirectedFrom::Parent);
    let mut obj = RawTags::default();
    let parent = tags(&[("cycleway:lanes:forward", "lane")]);
    let mut annotations = side_annotations("right");
    apply(&step, &mut obj, &mut annotations, Some(&parent));
    assert_eq!(get(&obj, "cycleway:lanes"), Some("lane"));

    let mut obj = RawTags::default();
    let parent = RawTags::default();
    apply(&step, &mut obj, &mut annotations, Some(&parent));
    assert!(!obj.contains_key("cycleway:lanes"));
}

#[test]
fn transform_self_source_reads_from_obj_own_directed_key() {
    let mut obj = tags(&[("traffic_sign:forward", "DE:1022-10")]);
    let mut annotations = side_annotations("right");
    apply(&directed("traffic_sign", DirectedFrom::Obj), &mut obj, &mut annotations, None);
    assert_eq!(get(&obj, "traffic_sign"), Some("DE:1022-10"));
}

#[test]
fn transform_noop_for_self_side() {
    let mut obj = RawTags::default();
    let parent = tags(&[("cycleway:lanes:forward", "lane")]);
    let mut annotations = side_annotations("self");
    let step = directed("cycleway:lanes", DirectedFrom::Parent);
    apply(&step, &mut obj, &mut annotations, Some(&parent));
    assert!(!obj.contains_key("cycleway:lanes"));
}

#[test]
fn transform_handedness_flips_suffix() {
    let parent = tags(&[("cycleway:lanes:backward", "lane")]);
    let step = directed("cycleway:lanes", DirectedFrom::Parent);

    let mut obj = RawTags::default();
    let mut right = side_annotations("right");
    apply(&step, &mut obj, &mut right, Some(&parent));
    assert!(!obj.contains_key("cycleway:lanes"));

    let mut obj = RawTags::default();
    let mut left = side_annotations("left");
    apply(&step, &mut obj, &mut left, Some(&parent));
    assert_eq!(get(&obj, "cycleway:lanes"), Some("lane"));
}

#[test]
fn left_hand_traffic_reads_the_other_direction() {
    let sets = no_sets();
    let readings = no_readings();
    let setting = Setting { value_sets: &sets, readings: &readings, left_hand_traffic: true };
    let parent = tags(&[("cycleway:lanes:backward", "lane")]);
    let mut obj = RawTags::default();
    let mut right = side_annotations("right");
    let step = directed("cycleway:lanes", DirectedFrom::Parent);
    step.apply(&mut obj, &mut right, Some(&parent), &setting);
    assert_eq!(get(&obj, "cycleway:lanes"), Some("lane"));
}

#[test]
fn exact_and_subkey_match_without_meta() {
    let src = tags(&[("cycleway:left", "lane"), ("cycleway:left:width", "1.5")]);
    let mut dest = RawTags::default();
    unnest_prefixed_tags(&src, "cycleway", "left", &Vec::new(), &mut dest);
    assert_eq!(get(&dest, "cycleway"), Some("lane"));
    assert_eq!(get(&dest, "width"), Some("1.5"));
}

#[test]
fn meta_companion_projected_alongside_real_value() {
    let src = tags(&[
        ("cycleway:left", "lane"),
        ("source:cycleway:left", "survey"),
        ("cycleway:left:width", "1.5"),
        ("source:cycleway:left:width", "survey"),
    ]);
    let mut dest = RawTags::default();
    unnest_prefixed_tags(&src, "cycleway", "left", &texts(&["source:", "note:"]), &mut dest);
    assert_eq!(get(&dest, "cycleway"), Some("lane"));
    assert_eq!(get(&dest, "source"), Some("survey"));
    assert_eq!(get(&dest, "width"), Some("1.5"));
    assert_eq!(get(&dest, "source:width"), Some("survey"));
    assert!(!dest.contains_key("note"));
}

#[test]
fn orphaned_meta_tag_is_not_projected() {
    let src = tags(&[("source:cycleway:left", "survey")]);
    let mut dest = RawTags::default();
    unnest_prefixed_tags(&src, "cycleway", "left", &texts(&["source:"]), &mut dest);
    assert!(dest.is_empty());
}

#[test]
fn bare_side_component_after_empty_infix_is_rejected() {
    let src = tags(&[("cycleway:left", "lane")]);
    let mut dest = RawTags::default();
    unnest_prefixed_tags(&src, "cycleway", "", &Vec::new(), &mut dest);
    assert!(dest.is_empty());
}

#[test]
fn a_prefix_comes_off_and_leaves_its_marker() {
    let mut obj = tags(&[("construction:highway", "primary"), ("name", "Main")]);
    strip_prefix(&mut obj, "construction:", "lifecycle", "construction", &Vec::new());
    assert_eq!(get(&obj, "highway"), Some("primary"));
    assert_eq!(get(&obj, "lifecycle"), Some("construction"));
    assert_eq!(get(&obj, "name"), Some("Main"));
    assert!(!obj.contains_key("construction:highway"));
}

#[test]
fn a_nested_marker_stands_under_its_key() {
    let mut obj = tags(&[("temporary:cycleway:left", "lane")]);
    strip_prefix(&mut obj, "temporary:", "lifecycle", "temporary", &texts(&["cycleway"]));
    assert_eq!(get(&obj, "cycleway:left"), Some("lane"));
    assert_eq!(get(&obj, "cycleway:left:lifecycle"), Some("temporary"));
}

fn cycleway_split_steps() -> Vec<TransformStep> {
    ["left", "right"]
        .into_iter()
        .map(|side| {
            let mut steps: Vec<InputTransform> = ["", "both", side]
                .into_iter()
                .map(|infix| InputTransform::UnnestTags {
                    prefix: "cycleway".to_owned(),
                    infix: infix.to_owned(),
                    meta_prefixes: texts(&["source:", "note:"]),
                    guard: None,
                    record_infix_as: Some("_infix".to_owned()),
                })
                .collect();
            steps.push(InputTransform::Drop { when: Filter::TagsEmpty { tags_empty: true } });
            steps.push(InputTransform::TagRule {
                output: "highway".to_owned(),
                source: Producer::Match {
                    rules: Vec::new(),
                    default: Some(Value::String("cycleway".to_owned())),
                    annotate: Fields::new(),
                    origin: MatchOrigin::Default,
                    tree: None,
                },
            });
            TransformStep::Clone(CloneStep {
                when: Some(Filter::Not {
                    not: Box::new(Filter::Eq {
                        extract: Extract::Value { key: "highway".to_owned(), sanitize: vec![] },
                        eq: "cycleway".to_owned(),
                    }),
                }),
                annotate: vec![
                    ("_side".to_owned(), side.to_owned()),
                    ("_prefix".to_owned(), "cycleway".to_owned()),
                ],
                id_suffix: format!("cycleway/{side}"),
                steps,
            })
        })
        .collect()
}

fn run(steps: &Vec<TransformStep>, pairs: &[(&str, &str)]) -> (bool, Vec<Spawned>) {
    let mut obj = tags(pairs);
    let mut annotations = Fields::new();
    let mut clones = Vec::new();
    let sets = no_sets();
    let readings = no_readings();
    let setting = Setting { value_sets: &sets, readings: &readings, left_hand_traffic: false };
    let kept =
        run_transform_steps(&mut obj, &mut annotations, steps, "way/1", &mut clones, &setting);
    (kept, clones)
}

#[test]
fn side_with_no_matching_tags_is_dropped() {
    let (kept, clones) = run(&cycleway_split_steps(), &[("highway", "primary")]);
    assert!(kept);
    assert!(clones.is_empty());
}

#[test]
fn side_with_matching_tags_is_kept_with_correct_id_and_infix() {
    let (_, clones) =
        run(&cycleway_split_steps(), &[("highway", "primary"), ("cycleway:right", "lane")]);
    assert_eq!(clones.len(), 1);
    let clone = &clones[0];
    assert_eq!(clone.id, "way/1/cycleway/right");
    assert_eq!(get(&clone.tags, "highway"), Some("cycleway"));
    assert_eq!(noted(&clone.annotations, "_side"), Some("right"));
    assert_eq!(noted(&clone.annotations, "_infix"), Some("right"));
}

#[test]
fn both_infix_is_overridden_by_side_specific() {
    let (_, clones) = run(
        &cycleway_split_steps(),
        &[("highway", "primary"), ("cycleway:both", "lane"), ("cycleway:right:width", "2")],
    );
    let right =
        clones.iter().find(|c| noted(&c.annotations, "_side") == Some("right")).unwrap();
    assert_eq!(noted(&right.annotations, "_infix"), Some("right"));
}

#[test]
fn already_target_highway_type_is_not_split() {
    let (_, clones) =
        run(&cycleway_split_steps(), &[("highway", "cycleway"), ("cycleway:right", "lane")]);
    assert!(clones.is_empty());
}

#[test]
fn top_level_drop_stops_the_pipeline_and_emits_nothing() {
    let mut steps = vec![TransformStep::Transform(InputTransform::Drop {
        when: Filter::TagsEmpty { tags_empty: false },
    })];
    steps.extend(cycleway_split_steps());
    let (kept, clones) = run(&steps, &[("highway", "primary"), ("cycleway:right", "lane")]);
    assert!(!kept);
    assert!(clones.is_empty());
}

#[test]
fn a_run_adds_behind_the_objects_that_are_there() {
    let mut obj = tags(&[("highway", "primary"), ("cycleway:right", "lane")]);
    let mut annotations = Fields::new();
    let mut clones =
        vec![Spawned { tags: tags(&[]), annotations: Fields::new(), id: "first".to_owned() }];
    let sets = no_sets();
    let readings = no_readings();
    let setting = Setting { value_sets: &sets, readings: &readings, left_hand_traffic: false };
    let steps = cycleway_split_steps();
    run_transform_steps(&mut obj, &mut annotations, &steps, "way/1", &mut clones, &setting);
    let ids: Vec<&str> = clones.iter().map(|c| c.id.as_str()).collect();
    assert_eq!(ids, vec!["first", "way/1/cycleway/right"]);
}

#[test]
fn tag_rules_write_delete_or_leave() {
    let rule = |value: Option<Value>| InputTransform::TagRule {
        output: "highway".to_owned(),
        source: Producer::Match {
            rules: Vec::new(),
            default: value,
            annotate: Fields::new(),
            origin: MatchOrigin::Rules,
            tree: None,
        },
    };
    let mut obj = tags(&[("highway", "primary")]);
    let mut annotations = Fields::new();
    apply(&rule(None), &mut obj, &mut annotations, None);
    assert_eq!(get(&obj, "highway"), Some("primary"));
    apply(&rule(Some(Value::String("path".to_owned()))), &mut obj, &mut annotations, None);
    assert_eq!(get(&obj, "highway"), Some("path"));
    apply(&rule(Some(Value::Null)), &mut obj, &mut annotations, None);
    assert_eq!(get(&obj, "highway"), None);
}

#[test]
fn the_infix_is_noted_where_a_value_is_replaced() {
    let way_tags = tags(&[("cycleway:right", "track")]);
    let mut obj = tags(&[("cycleway", "lane")]);
    let mut annotations = Fields::new();
    annotations.insert("_infix".to_owned(), Value::String("both".to_owned()));
    assert!(apply(&unnest("right", Some("_infix")), &mut obj, &mut annotations, Some(&way_tags)));
    assert_eq!(obj, tags(&[("cycleway", "track")]));
    assert_eq!(noted(&annotations, "_infix"), Some("right"));
    assert!(apply(&unnest("left", Some("_infix")), &mut obj, &mut annotations, Some(&way_tags)));
    assert_eq!(noted(&annotations, "_infix"), Some("right"));
}
