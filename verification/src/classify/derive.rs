//! Values that take more than one tag: the traffic mode beside a way.
use vstd::prelude::*;

use crate::classify::sanitize::{sanitized_by, sided, sided_keys, DefV, SanitizerRegistry};
use crate::lang::extract::{first_present, first_set};
use crate::model::Model;
use crate::number::{Readings, ReadingsV};
use crate::tags::{tag_map, RawTags};
use crate::text::str_eq;
use crate::value::{opt_text, text_of, Value};

verus! {

/// The text that a named sanitizer makes of a text.
pub open spec fn text_by(
    reg: Seq<(Seq<char>, DefV)>,
    name: Seq<char>,
    raw: Option<Seq<char>>,
    readings: ReadingsV,
) -> Option<Seq<char>> {
    match raw {
        Some(text) => match sanitized_by(reg, name, text, readings) {
            Some(v) => text_of(v),
            None => None,
        },
        None => None,
    }
}

/// The traffic mode that the tags give for a side.
pub open spec fn tagged_mode(
    tags: Map<Seq<char>, Seq<char>>,
    side: Seq<char>,
    reg: Seq<(Seq<char>, DefV)>,
    readings: ReadingsV,
) -> Option<Seq<char>> {
    text_by(
        reg,
        "traffic_mode"@,
        first_set(tags, sided("traffic_mode"@, side, true)),
        readings,
    )
}

/// The traffic mode that parking on a side gives.
pub open spec fn parking_mode(
    tags: Map<Seq<char>, Seq<char>>,
    side: Seq<char>,
    reg: Seq<(Seq<char>, DefV)>,
    readings: ReadingsV,
) -> Option<Seq<char>> {
    text_by(reg, "parking"@, first_set(tags, sided("parking"@, side, false)), readings)
}

/// The traffic mode on a side: what the tags say, where they say it of either side; else what
/// parking tells, where the category lets it.
pub open spec fn traffic_mode(
    obj: Map<Seq<char>, Seq<char>>,
    parking: Map<Seq<char>, Seq<char>>,
    scope: Option<Seq<char>>,
    obj_side: Seq<char>,
    out_side: Seq<char>,
    reg: Seq<(Seq<char>, DefV)>,
    readings: ReadingsV,
) -> Option<Seq<char>> {
    if tagged_mode(obj, "left"@, reg, readings) is Some || tagged_mode(
        obj,
        "right"@,
        reg,
        readings,
    ) is Some {
        tagged_mode(obj, out_side, reg, readings)
    } else if scope == Some("both"@) || (scope == Some("directional"@) && obj_side == out_side) {
        parking_mode(parking, out_side, reg, readings)
    } else {
        None
    }
}

fn apply_str(reg: &SanitizerRegistry, name: &str, raw: Option<&str>, readings: &Readings) -> (r:
    Option<String>)
    ensures
        r.model() == text_by(reg@, name@, opt_text(raw), readings@),
{
    match raw {
        Some(text) => match reg.apply(name, text, readings) {
            Some(v) => match v {
                Value::String(s) => Some(s),
                _ => None,
            },
            None => None,
        },
        None => None,
    }
}

fn infer_traffic_mode_from_parking(
    tags: &RawTags,
    side: &str,
    reg: &SanitizerRegistry,
    readings: &Readings,
) -> (r: Option<String>)
    ensures
        r.model() == parking_mode(tag_map(*tags), side@, reg@, readings@),
{
    apply_str(reg, "parking", first_present(tags, &sided_keys("parking", side, false)), readings)
}

fn explicit_mode(tags: &RawTags, side: &str, reg: &SanitizerRegistry, readings: &Readings) -> (r:
    Option<String>)
    ensures
        r.model() == tagged_mode(tag_map(*tags), side@, reg@, readings@),
{
    apply_str(
        reg,
        "traffic_mode",
        first_present(tags, &sided_keys("traffic_mode", side, true)),
        readings,
    )
}

/// The traffic mode on the side `out_side` of a way; `obj_side` is the side that the object stands
/// for.
pub fn traffic_mode_side(
    obj_tags: &RawTags,
    parking_tags: &RawTags,
    parking_inference: Option<&str>,
    obj_side: &str,
    out_side: &str,
    reg: &SanitizerRegistry,
    readings: &Readings,
) -> (r: Option<String>)
    ensures
        r.model() == traffic_mode(
            tag_map(*obj_tags),
            tag_map(*parking_tags),
            opt_text(parking_inference),
            obj_side@,
            out_side@,
            reg@,
            readings@,
        ),
{
    if explicit_mode(obj_tags, "left", reg, readings).is_some() || explicit_mode(
        obj_tags,
        "right",
        reg,
        readings,
    ).is_some() {
        return explicit_mode(obj_tags, out_side, reg, readings);
    }
    match parking_inference {
        Some(scope) => {
            if str_eq(scope, "both") || (str_eq(scope, "directional") && str_eq(obj_side, out_side)) {
                infer_traffic_mode_from_parking(parking_tags, out_side, reg, readings)
            } else {
                None
            }
        },
        None => None,
    }
}

} // verus!
