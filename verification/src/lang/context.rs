//! What a filter, a tag read or a producer sees of an object.
use vstd::prelude::*;

use crate::assoc::{find, lookup};
use crate::model::{models, Model};
use crate::number::{Readings, ReadingsV};
use crate::tags::{tag_map, RawTags};
use crate::text::contains_str;
use crate::value::{text_of, Fields, ValueV};

verus! {

/// Named lists of texts.
#[derive(Debug)]
pub struct ValueSets {
    pub sets: Vec<(String, Vec<String>)>,
}

impl ValueSets {
    pub open spec fn view(&self) -> Seq<(Seq<char>, Seq<Seq<char>>)> {
        models(self.sets@)
    }

    /// Whether `v` is one of the texts named `name`.
    pub fn has(&self, name: &str, v: &str) -> (r: bool)
        ensures
            r == value_set(self@, name@).contains(v@),
    {
        match find(&self.sets, name) {
            Some(i) => contains_str(&self.sets[i].1, v),
            None => false,
        }
    }

    /// The texts named `name`.
    pub fn value_set(&self, name: &str) -> (r: Vec<String>)
        ensures
            models(r@) == value_set(self@, name@),
    {
        match find(&self.sets, name) {
            Some(i) => self.sets[i].1.copy(),
            None => {
                let out: Vec<String> = Vec::new();
                proof {
                    assert(models(out@) =~= Seq::<Seq<char>>::empty());
                }
                out
            },
        }
    }
}

/// The texts named `name`; none where the name is unknown.
pub open spec fn value_set(
    sets: Seq<(Seq<char>, Seq<Seq<char>>)>,
    name: Seq<char>,
) -> Seq<Seq<char>> {
    match lookup(sets, name) {
        Some(v) => v,
        None => Seq::empty(),
    }
}

/// An object as the language sees it: its own tags, the tags of the way it was split from, its row
/// id, and what the engine has noted of it; beside them the named value sets and what texts read
/// as.
#[derive(Clone, Copy)]
pub struct ExtractCtx<'a> {
    pub obj_tags: &'a RawTags,
    pub parent_tags: Option<&'a RawTags>,
    pub id: &'a str,
    pub annotations: &'a Fields,
    pub value_sets: &'a ValueSets,
    pub readings: &'a Readings,
}

/// What an object is to the language.
pub struct CtxV {
    pub obj: Map<Seq<char>, Seq<char>>,
    pub parent: Option<Map<Seq<char>, Seq<char>>>,
    pub id: Seq<char>,
    pub annotations: Map<Seq<char>, ValueV>,
    pub value_sets: Seq<(Seq<char>, Seq<Seq<char>>)>,
    pub readings: ReadingsV,
}

impl CtxV {
    /// The same object with other tags of its own.
    pub open spec fn with_obj(self, obj: Map<Seq<char>, Seq<char>>) -> CtxV {
        CtxV { obj, ..self }
    }

    /// The text noted under `key`.
    pub open spec fn annotation(self, key: Seq<char>) -> Option<Seq<char>> {
        if self.annotations.dom().contains(key) {
            text_of(self.annotations[key])
        } else {
            None
        }
    }

    /// The side of the way that the object stands for; an object that was not split is `self`.
    pub open spec fn side(self) -> Seq<char> {
        match self.annotation("_side"@) {
            Some(s) => s,
            None => "self"@,
        }
    }
}

/// The tags of the parent way.
pub open spec fn parent_map(tags: Option<&RawTags>) -> Option<Map<Seq<char>, Seq<char>>> {
    match tags {
        Some(t) => Some(tag_map(*t)),
        None => None,
    }
}

impl<'a> ExtractCtx<'a> {
    pub open spec fn view(&self) -> CtxV {
        CtxV {
            obj: tag_map(*self.obj_tags),
            parent: parent_map(self.parent_tags),
            id: self.id@,
            annotations: self.annotations@,
            value_sets: self.value_sets@,
            readings: self.readings@,
        }
    }

    /// The same object with other tags of its own.
    pub fn with_obj_tags(&self, tags: &'a RawTags) -> (r: ExtractCtx<'a>)
        ensures
            r@ == self@.with_obj(tag_map(*tags)),
    {
        ExtractCtx {
            obj_tags: tags,
            parent_tags: self.parent_tags,
            id: self.id,
            annotations: self.annotations,
            value_sets: self.value_sets,
            readings: self.readings,
        }
    }

    /// The text noted under `key`.
    pub fn annotation(&self, key: &str) -> (r: Option<&'a str>)
        ensures
            crate::value::opt_text(r) == self@.annotation(key@),
    {
        match self.annotations.get(key) {
            Some(v) => v.as_str(),
            None => None,
        }
    }
}

/// The side of the way that the object stands for; an object that was not split is `self`.
pub fn side_of<'a>(ctx: &ExtractCtx<'a>) -> (r: &'a str)
    ensures
        r@ == ctx@.side(),
{
    match ctx.annotation("_side") {
        Some(s) => s,
        None => "self",
    }
}

} // verus!
