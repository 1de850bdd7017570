//! The parts of a topic's own description.
use vstd::prelude::*;

use crate::classify::categories::MinzoomRule;
use crate::classify::filter::Filter;
use crate::engine::extract::{clone_producer, Producer, ProducerV, TagSet};
use crate::lang::sanitize::{spelled_texts, StrOrVec};
use crate::model::{models, Model};
use crate::value::Fields;

verus! {

/// A topic's own description.
#[derive(Debug)]
pub struct TopicSpec {
    pub table: String,
    pub transforms: Vec<Transform>,
    pub osm_fields: Vec<Field>,
    pub sanitizers: Vec<Sanitizer>,
    pub derivers: Vec<DeriverBinding>,
    /// Elements for which this holds are left out.
    pub exclude_condition: Option<Filter>,
    pub consts: Fields,
    pub private: Fields,
    pub minzoom: Option<MinzoomRule>,
}

/// A step that a topic declares: by name alone, or with parameters.
#[derive(Debug)]
pub enum Transform {
    Named(String),
    Param(ParamTransform),
}

/// A declared step with its parameters.
#[derive(Debug)]
pub enum ParamTransform {
    /// Splits the sides of a way off: tags under `prefix` go to an object of its own for each side,
    /// whose `highway` becomes the given one.
    SplitSides {
        highway: String,
        prefix: String,
        directed_keys: Vec<String>,
        self_directed_keys: Vec<String>,
    },
    /// Unnests tags under `prefix` onto a way that is a sidepath itself.
    UnnestSidepathSelf { prefix: String },
    /// Writes what a producer gives to the tag `output`, before categorization.
    TagRules { output: String, source: Producer },
    /// Takes `prefix` off keys and stamps a marker.
    StripPrefix {
        prefix: String,
        stamp_key: String,
        stamp_value: String,
        stamp_nested_under: Vec<String>,
    },
}

/// A produced field.
#[derive(Debug)]
pub struct Field {
    pub output: String,
    pub source: Producer,
}

/// A produced field.
pub struct FieldV {
    pub output: Seq<char>,
    pub source: ProducerV,
}

impl Field {
    pub open spec fn view(&self) -> FieldV {
        FieldV { output: self.output@, source: self.source@ }
    }

    /// The field that reads a tag as it stands, under the tag's own key.
    pub fn named(key: &str) -> (r: Field)
        ensures
            r@ == named_field(key@),
    {
        Field {
            output: key.to_owned(),
            source: Producer::Extract {
                key: Some(key.to_owned()),
                keys: None,
                from: TagSet::Obj,
                side: None,
                sanitize: None,
                consts: Fields::new(),
                directed: false,
            },
        }
    }
}

/// The field that reads a tag as it stands, under the tag's own key.
pub open spec fn named_field(key: Seq<char>) -> FieldV {
    FieldV {
        output: key,
        source: ProducerV::Extract {
            key: Some(key),
            keys: None,
            from: TagSet::Obj,
            side: None,
            sanitize: None,
            consts: Map::empty(),
            directed: false,
        },
    }
}

/// The fields of a list.
pub open spec fn fields_view(v: Seq<Field>) -> Seq<FieldV> {
    v.map_values(|f: Field| f@)
}

/// A copy of a list of fields.
pub fn clone_fields(v: &Vec<Field>) -> (r: Vec<Field>)
    ensures
        fields_view(r@) == fields_view(v@),
{
    let mut out: Vec<Field> = Vec::new();
    for i in 0..v.len()
        invariant
            out@.len() == i,
            forall|j: int| 0 <= j < i ==> (#[trigger] out@[j])@ == v@[j]@,
    {
        out.push(Field { output: v[i].output.clone(), source: clone_producer(&v[i].source) });
    }
    proof {
        assert(fields_view(out@) =~= fields_view(v@));
    }
    out
}

/// A field that is a tag behind a named sanitizer: the first of `in_keys` that is set, or the tag
/// itself where none are given.
#[derive(Debug)]
pub struct Sanitizer {
    pub tag: String,
    pub name: String,
    pub in_keys: Option<StrOrVec>,
    pub from: TagSet,
}

impl Sanitizer {
    /// The keys that are read.
    pub open spec fn spec_input_keys(&self) -> Seq<Seq<char>> {
        match self.in_keys {
            Some(s) => spelled_texts(s),
            None => seq![self.tag@],
        }
    }

    /// The field that the sanitizer stands for.
    pub open spec fn spec_field(&self) -> FieldV {
        FieldV {
            output: self.tag@,
            source: ProducerV::Extract {
                key: None,
                keys: Some(self.spec_input_keys()),
                from: self.from,
                side: None,
                sanitize: Some(self.name@),
                consts: Map::empty(),
                directed: false,
            },
        }
    }

    fn input_keys(&self) -> (r: Vec<String>)
        ensures
            models(r@) == self.spec_input_keys(),
    {
        match &self.in_keys {
            Some(StrOrVec::Many(v)) => v.copy(),
            Some(StrOrVec::One(s)) => {
                let mut out: Vec<String> = Vec::new();
                out.push(s.clone());
                proof {
                    assert(models(out@) =~= seq![s@]);
                }
                out
            },
            None => {
                let mut out: Vec<String> = Vec::new();
                out.push(self.tag.clone());
                proof {
                    assert(models(out@) =~= seq![self.tag@]);
                }
                out
            },
        }
    }

    /// The field that the sanitizer stands for.
    pub fn to_field(&self) -> (r: Field)
        ensures
            r@ == self.spec_field(),
    {
        Field {
            output: self.tag.clone(),
            source: Producer::Extract {
                key: None,
                keys: Some(self.input_keys()),
                from: self.from,
                side: None,
                sanitize: Some(self.name.clone()),
                consts: Fields::new(),
                directed: false,
            },
        }
    }
}

/// A reference to a deriver of the library: by its name alone, which is then the output as well, or
/// with another output.
#[derive(Debug)]
pub enum DeriverBinding {
    Named(String),
    Bound { deriver: String, output: String },
}

impl DeriverBinding {
    /// The name of the deriver.
    pub open spec fn spec_deriver(&self) -> Seq<char> {
        match self {
            DeriverBinding::Named(s) => s@,
            DeriverBinding::Bound { deriver, .. } => deriver@,
        }
    }

    /// The output.
    pub open spec fn spec_output(&self) -> Seq<char> {
        match self {
            DeriverBinding::Named(s) => s@,
            DeriverBinding::Bound { output, .. } => output@,
        }
    }

    /// The name of the deriver.
    pub fn deriver(&self) -> (r: &str)
        ensures
            r@ == self.spec_deriver(),
    {
        match self {
            DeriverBinding::Named(s) => s.as_str(),
            DeriverBinding::Bound { deriver, .. } => deriver.as_str(),
        }
    }

    /// The output.
    pub fn output(&self) -> (r: &str)
        ensures
            r@ == self.spec_output(),
    {
        match self {
            DeriverBinding::Named(s) => s.as_str(),
            DeriverBinding::Bound { output, .. } => output.as_str(),
        }
    }
}

} // verus!
