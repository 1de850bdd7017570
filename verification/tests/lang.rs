use osmnexus::lang::context::{side_of, ExtractCtx, ValueSets};
use osmnexus::lang::extract::Extract;
use osmnexus::lang::filter::{eval, eval_filter, Filter, Spelling};
use osmnexus::lang::sanitize::{
    eval_sanitize, resolve_named_sanitizer, AtomicJson, Builtin, ReplaceAt, ReplaceRule, Sanitizer,
    StrOrVec,
};
use osmnexus::lang::table::{cases_step, drop_step, filter_step, mapping_step};
use osmnexus::model::Model;
use osmnexus::number::{in_bounds, Bound, Readings};
use osmnexus::tags::{has_key_prefix, RawTags};
use osmnexus::text::{contains_str, decimal_text, insert_sorted, join, spell, spell_wide, str_lt};
use osmnexus::value::{Fields, Number, Value};

fn tags(pairs: &[(&str, &str)]) -> RawTags {
    pairs.iter().map(|&(k, v)| (k.to_owned(), v.to_owned())).collect()
}

fn sets() -> ValueSets {
    ValueSets {
        sets: vec![("sealed".to_owned(), vec!["asphalt".to_owned(), "concrete".to_owned()])],
    }
}

fn readings() -> Readings {
    Readings {
        numbers: vec![("30".to_owned(), 30.0f64.to_bits()), ("50".to_owned(), 50.0f64.to_bits())],
        lengths: vec![("8 ft".to_owned(), 2.4384f64.to_bits())],
    }
}

fn value(key: &str) -> Extract {
    Extract::Value { key: key.to_owned(), sanitize: vec![] }
}

fn holds(filter: &Filter, pairs: &[(&str, &str)]) -> bool {
    eval_filter(filter, &tags(pairs), &sets(), &readings())
}

#[test]
fn tag_tests_compare_the_value() {
    let road = [("surface", "asphalt"), ("name:de", "Strasse")];
    let eq = Filter::Eq { extract: value("surface"), eq: "asphalt".to_owned() };
    assert!(holds(&eq, &road));
    assert!(!holds(&eq, &[("surface", "sett")]));
    assert!(!holds(&eq, &[]));
    let in_set = Filter::InSet { extract: value("surface"), in_set: "sealed".to_owned() };
    assert!(holds(&in_set, &road));
    assert!(!holds(&in_set, &[("surface", "sett")]));
    let within =
        Filter::In { extract: value("surface"), within: vec!["sett".to_owned()] };
    assert!(!holds(&within, &road));
    assert!(holds(&within, &[("surface", "sett")]));
    let starts = Filter::StartsWith { extract: value("surface"), starts_with: "asp".to_owned() };
    let ends = Filter::EndsWith { extract: value("surface"), ends_with: "alt".to_owned() };
    assert!(holds(&starts, &road) && holds(&ends, &road));
    assert!(!holds(&starts, &[("surface", "grasp")]) && !holds(&ends, &[("surface", "alto")]));
    let prefix = Filter::HasKeyPrefix { has_key_prefix: "name:".to_owned() };
    assert!(holds(&prefix, &road));
    assert!(!holds(&prefix, &[("name", "x")]));
    assert!(has_key_prefix(&tags(&road), "sur"));
    assert!(holds(&Filter::TagsEmpty { tags_empty: true }, &[]));
    assert!(holds(&Filter::HasParent { has_parent: false }, &road));
}

#[test]
fn contains_may_ignore_case() {
    let tag = [("name", "Main STREET")];
    let strict = Filter::Contains {
        extract: value("name"),
        contains: "street".to_owned(),
        case_insensitive: false,
    };
    let loose = Filter::Contains {
        extract: value("name"),
        contains: "street".to_owned(),
        case_insensitive: true,
    };
    assert!(!holds(&strict, &tag));
    assert!(holds(&loose, &tag));
}

#[test]
fn an_absent_tag_exists_nowhere() {
    let here = Filter::Exists { extract: value("surface"), exists: true };
    let gone = Filter::Exists { extract: value("surface"), exists: false };
    assert!(holds(&here, &[("surface", "")]) && !holds(&gone, &[("surface", "")]));
    assert!(!holds(&here, &[]) && holds(&gone, &[]));
    let first = Extract::Candidates {
        keys: vec!["a".to_owned(), "b".to_owned()],
        sanitize: vec![],
    };
    let is_b = Filter::Eq { extract: first, eq: "2".to_owned() };
    assert!(holds(&is_b, &[("b", "2")]));
    assert!(!holds(&is_b, &[("a", "1"), ("b", "2")]));
}

#[test]
fn combinators_combine() {
    let t = || Filter::Bool(true);
    let f = || Filter::Bool(false);
    assert!(holds(&Filter::And { and: vec![] }, &[]));
    assert!(!holds(&Filter::Or { or: vec![] }, &[]));
    assert!(!holds(&Filter::And { and: vec![t(), f()] }, &[]));
    assert!(holds(&Filter::Or { or: vec![f(), t()] }, &[]));
    assert!(holds(&Filter::Not { not: Box::new(f()) }, &[]));
}

#[test]
fn numbers_are_compared_within_their_bounds() {
    let at_least = Filter::NumRange {
        extract: value("maxspeed"),
        min: Bound::Included(30.0f64.to_bits()),
        max: Bound::Excluded(50.0f64.to_bits()),
    };
    assert!(holds(&at_least, &[("maxspeed", "30")]));
    assert!(!holds(&at_least, &[("maxspeed", "50")]));
    assert!(!holds(&at_least, &[("maxspeed", "walk")]));
    let n = |v: f64| v.to_bits();
    assert!(in_bounds(Bound::Excluded(n(-1.0)), Bound::Included(n(0.0)), n(-0.0)));
    assert!(!in_bounds(Bound::Excluded(n(0.0)), Bound::Unbounded, n(-0.0)));
    assert!(!in_bounds(Bound::Included(n(0.0)), Bound::Unbounded, n(f64::NAN)));
    assert!(in_bounds(Bound::Unbounded, Bound::Unbounded, n(f64::INFINITY)));
}

#[test]
fn a_parent_filter_reads_the_parent() {
    let own = tags(&[("highway", "cycleway")]);
    let parent = tags(&[("highway", "primary")]);
    let mut annotations = Fields::new();
    annotations.insert("_side".to_owned(), Value::String("left".to_owned()));
    let (sets, readings) = (sets(), readings());
    let ctx = ExtractCtx {
        obj_tags: &own,
        parent_tags: Some(&parent),
        id: "way/1",
        annotations: &annotations,
        value_sets: &sets,
        readings: &readings,
    };
    let primary = Filter::Eq { extract: value("highway"), eq: "primary".to_owned() };
    assert!(!eval(&primary, &ctx));
    assert!(eval(&Filter::Parent { parent: Box::new(primary) }, &ctx));
    assert!(eval(&Filter::HasParent { has_parent: true }, &ctx));
    assert_eq!(side_of(&ctx), "left");
    let side = |s: &str| Filter::AnnotationEq { key: "_side".to_owned(), eq: s.to_owned() };
    assert!(eval(&side("left"), &ctx) && !eval(&side("self"), &ctx));
    assert!(holds(&side("self"), &[]));
}

#[test]
fn descriptions_read_as_conditions() {
    let list = vec![
        Spelling {
            bits: 30.0f64.to_bits(),
            plain: "30".to_owned(),
            exact: "30.0".to_owned(),
            json: "30.0".to_owned(),
        },
        Spelling {
            bits: 50.0f64.to_bits(),
            plain: "50".to_owned(),
            exact: "50.0".to_owned(),
            json: "50.0".to_owned(),
        },
    ];
    let speed = |min, max| Filter::NumRange { extract: value("maxspeed"), min, max };
    let b30 = 30.0f64.to_bits();
    let b50 = 50.0f64.to_bits();
    assert_eq!(speed(Bound::Included(b30), Bound::Unbounded).describe(&list), "maxspeed >= 30");
    assert_eq!(speed(Bound::Unbounded, Bound::Excluded(b50)).describe(&list), "maxspeed < 50");
    assert_eq!(
        speed(Bound::Included(b30), Bound::Excluded(b50)).describe(&list),
        "maxspeed in Included(30.0)..Excluded(50.0)"
    );
    let sett = Filter::Eq { extract: value("surface"), eq: "a \"b\"".to_owned() };
    assert_eq!(sett.describe(&list), "surface == \"a \\\"b\\\"\"");
    let both = Filter::And {
        and: vec![
            Filter::Bool(true),
            Filter::Or {
                or: vec![
                    Filter::Exists { extract: value("a"), exists: false },
                    Filter::In {
                        extract: Extract::Candidates {
                            keys: vec!["a".to_owned(), "b".to_owned()],
                            sanitize: vec![Sanitizer::Builtin(Builtin::ParseLength)],
                        },
                        within: vec!["x".to_owned(), "y".to_owned()],
                    },
                ],
            },
        ],
    };
    assert_eq!(both.describe(&list), "true\nand\n(a !exists\nor\n[a|b] (sanitized) in [x, y])");
    let not = Filter::Not { not: Box::new(Filter::HasParent { has_parent: true }) };
    assert_eq!(not.describe(&list), "not (has_parent)");
}

fn text(v: Option<Value>) -> Option<String> {
    v.and_then(|v| v.as_str().map(|s| s.to_owned()))
}

#[test]
fn a_chain_stops_where_a_step_drops() {
    let map = Sanitizer::Mapping {
        mapping: vec![
            ("paved".to_owned(), Some(AtomicJson::Str("asphalt".to_owned()))),
            ("yes".to_owned(), Some(AtomicJson::Bool(true))),
            ("bad".to_owned(), None),
        ],
        on_miss: Some("keep".to_owned()),
    };
    let rewrite = Sanitizer::Replace {
        replace: vec![
            ReplaceRule {
                from: "as".to_owned(),
                to: "AS".to_owned(),
                at: ReplaceAt::Prefix,
            },
            ReplaceRule {
                from: "l".to_owned(),
                to: "ll".to_owned(),
                at: ReplaceAt::Anywhere,
            },
        ],
    };
    let chain = vec![map, rewrite];
    let r = readings();
    assert_eq!(text(eval_sanitize(&chain, "paved", &r)), Some("ASphallt".to_owned()));
    assert_eq!(text(eval_sanitize(&chain, "other", &r)), Some("other".to_owned()));
    assert!(eval_sanitize(&chain, "bad", &r).is_none());
    assert!(eval_sanitize(&chain, "yes", &r).is_none());
    let truth = Sanitizer::Mapping {
        mapping: vec![("yes".to_owned(), Some(AtomicJson::Bool(true)))],
        on_miss: None,
    };
    assert!(matches!(eval_sanitize(&vec![truth], "yes", &r), Some(Value::Bool(true))));
    assert_eq!(text(eval_sanitize(&Vec::new(), "raw", &r)), Some("raw".to_owned()));
}

#[test]
fn a_miss_may_keep_drop_or_default() {
    let step = |on_miss: Option<&str>| {
        vec![Sanitizer::Mapping { mapping: vec![], on_miss: on_miss.map(|s| s.to_owned()) }]
    };
    let r = readings();
    assert_eq!(text(eval_sanitize(&step(Some("keep")), "v", &r)), Some("v".to_owned()));
    assert_eq!(text(eval_sanitize(&step(Some("other")), "v", &r)), Some("other".to_owned()));
    assert!(eval_sanitize(&step(Some("drop")), "v", &r).is_none());
    assert!(eval_sanitize(&step(None), "v", &r).is_none());
}

#[test]
fn tables_are_in_order_however_they_are_spelled() {
    let entry = |k: &str, v: &str| (k.to_owned(), Some(AtomicJson::Str(v.to_owned())));
    let one = mapping_step(vec![entry("b", "2"), entry("a", "1"), entry("b", "3")], None);
    let two = mapping_step(vec![entry("a", "1"), entry("b", "3")], None);
    assert!(one.same(&two));
    let cases = vec![
        ("1".to_owned(), StrOrVec::Many(vec!["b".to_owned(), "a".to_owned()])),
        ("3".to_owned(), StrOrVec::One("b".to_owned())),
    ];
    assert!(cases_step(&cases, None).same(&two));
    assert!(matches!(
        &one,
        Sanitizer::Mapping { mapping, .. } if mapping.len() == 2 && mapping[0].0 == "a"
    ));
}

#[test]
fn listed_texts_are_kept_or_dropped() {
    let list = vec!["yes".to_owned(), "no".to_owned(), "yes".to_owned()];
    let r = readings();
    let keep = vec![filter_step(&list)];
    assert_eq!(text(eval_sanitize(&keep, "no", &r)), Some("no".to_owned()));
    assert!(eval_sanitize(&keep, "maybe", &r).is_none());
    let lose = vec![drop_step(&list)];
    assert!(eval_sanitize(&lose, "no", &r).is_none());
    assert_eq!(text(eval_sanitize(&lose, "maybe", &r)), Some("maybe".to_owned()));
    let reversed = vec!["no".to_owned(), "yes".to_owned()];
    assert!(filter_step(&list).same(&filter_step(&reversed)));
    assert!(drop_step(&list).same(&drop_step(&reversed)));
}

#[test]
fn lengths_come_out_as_numbers() {
    let chain = vec![Sanitizer::Builtin(Builtin::ParseLength)];
    let got = eval_sanitize(&chain, "8 ft", &readings());
    assert!(matches!(
        got,
        Some(Value::Number(Number::Float { bits })) if f64::from_bits(bits) == 2.4384
    ));
    assert!(eval_sanitize(&chain, "wide", &readings()).is_none());
    assert_eq!(Builtin::ParseLength.name(), "parse_length");
    assert!(Builtin::from_name("traffic_sign").is_none());
}

#[test]
fn named_sanitizers_resolve_or_say_why_not() {
    let own = vec![("trim".to_owned(), vec![Sanitizer::Replace { replace: vec![] }])];
    assert_eq!(resolve_named_sanitizer("trim", &own).ok().unwrap().len(), 1);
    assert!(matches!(
        resolve_named_sanitizer("parse_length", &own).ok().unwrap()[0],
        Sanitizer::Builtin(Builtin::ParseLength)
    ));
    let unknown = resolve_named_sanitizer("nope", &own).err().unwrap();
    assert_eq!(unknown.name, "nope");
    assert!(unknown.message().contains("nope"));
    assert_eq!(StrOrVec::One("a".to_owned()).into_vec(), vec!["a".to_owned()]);
}

#[test]
fn keys_take_and_lose_a_prefix() {
    let e = Extract::Candidates {
        keys: vec!["a".to_owned(), "b".to_owned()],
        sanitize: vec![],
    };
    assert_eq!(e.prefixed("parent_").tag_names(), vec!["parent_a", "parent_b"]);
    assert_eq!(e.prefixed("parent_").strip_prefix("parent_").tag_names(), vec!["a", "b"]);
    assert_eq!(e.strip_prefix("x").tag_names(), vec!["a", "b"]);
}

#[test]
fn numbers_are_spelled_in_decimal() {
    assert_eq!(spell(i64::MIN), "-9223372036854775808");
    assert_eq!(spell(0), "0");
    assert_eq!(decimal_text(u64::MAX), "18446744073709551615");
    assert_eq!(spell_wide(-170141183460469231731687303715884105728), i128::MIN.to_string());
}

#[test]
fn texts_are_ordered_by_their_characters() {
    assert!(str_lt("a", "b") && str_lt("a", "aa") && !str_lt("a", "a"));
    assert!(str_lt("B", "a") && str_lt("z", "\u{e9}"));
    let mut v: Vec<String> = Vec::new();
    for s in ["m", "a", "z", "m"] {
        insert_sorted(&mut v, s);
    }
    assert_eq!(v, vec!["a", "m", "z"]);
    assert_eq!(join(&v, ", "), "a, m, z");
    assert!(contains_str(&v, "m") && !contains_str(&v, "n"));
}

#[test]
fn fields_keep_one_value_a_key() {
    let mut f = Fields::new();
    f.insert("a".to_owned(), Value::Bool(true));
    f.insert("a".to_owned(), Value::Bool(false));
    assert!(matches!(f.get("a"), Some(Value::Bool(false))));
    assert_eq!(f.list().len(), 1);
    let mut add = Fields::new();
    add.insert("source".to_owned(), Value::String("tag".to_owned()));
    f.join_under("a_", &add);
    assert_eq!(f.get("a_source").and_then(|v| v.as_str()), Some("tag"));
    f.remove("a");
    assert!(f.get("a").is_none() && !f.is_empty());
}

#[test]
fn atoms_come_back_from_json() {
    let atoms = [AtomicJson::Str("a".to_owned()), AtomicJson::Bool(false)];
    for a in atoms {
        let text = format!("{a:?}");
        let back = AtomicJson::from_value(&a.into_value()).unwrap();
        assert_eq!(format!("{back:?}"), text);
    }
    let one = AtomicJson::Num(1.5f64.to_bits());
    assert!(matches!(AtomicJson::from_value(&one.into_value()), Some(AtomicJson::Num(n)) if n == 1.5f64.to_bits()));
    let nan = AtomicJson::Num(f64::NAN.to_bits());
    assert!(matches!(nan.into_value(), Value::Number(Number::Int { value: 0, .. })));
    assert!(AtomicJson::from_value(&Value::Null).is_none());
}

#[test]
fn nothing_holds_of_a_parent_that_is_not_there() {
    let inner = || Filter::Exists { extract: value("highway"), exists: false };
    let on_parent = Filter::Parent { parent: Box::new(inner()) };
    assert!(holds(&inner(), &[]));
    assert!(!holds(&on_parent, &[]));
    let denied = Filter::Parent { parent: Box::new(Filter::Not { not: Box::new(inner()) }) };
    assert!(!holds(&denied, &[]));
}

#[test]
fn chains_run_one_part_after_the_other() {
    let rewrite = |from: &str, to: &str| Sanitizer::Replace {
        replace: vec![ReplaceRule {
            from: from.to_owned(),
            to: to.to_owned(),
            at: ReplaceAt::Anywhere,
        }],
    };
    let r = readings();
    let whole = vec![rewrite("a", "b"), rewrite("b", "c")];
    let first = text(eval_sanitize(&vec![rewrite("a", "b")], "aba", &r)).unwrap();
    assert_eq!(first, "bbb");
    let second = text(eval_sanitize(&vec![rewrite("b", "c")], &first, &r));
    assert_eq!(text(eval_sanitize(&whole, "aba", &r)), second);
    assert_eq!(second, Some("ccc".to_owned()));
    let between = vec![rewrite("", "-")];
    assert_eq!(text(eval_sanitize(&between, "ab", &r)), Some("-a-b-".to_owned()));
}
