//! The settings of a run.
use vstd::prelude::*;

verus! {

/// How many branches deep a discrimination net goes unless a run says otherwise.
pub const DEFAULT_TREE_MAX_DEPTH: usize = 6;

/// Where elements are read from: an extract file, or tags alone as comma-separated lines.
#[derive(Debug, Clone, Copy, PartialEq, Eq, Structural)]
pub enum Source {
    Pbf,
    Csv,
}

/// Where rows are written to.
#[derive(Debug, Clone, Copy, PartialEq, Eq, Structural)]
pub enum Output {
    Pg,
    Csv,
    GeoJson,
    GeoJsonSeq,
    Parquet,
}

/// What a topic's routing table holds: the routing columns alone, or the topic's tag columns too.
#[derive(Debug, Clone, Copy, PartialEq, Eq, Structural)]
pub enum TopicEdgeMode {
    Pgrouting,
    All,
}

/// How many decimal places coordinates are rounded to.
#[derive(Debug, Clone, Copy, PartialEq, Eq, Structural)]
pub struct CoordPrecision(pub u32);

/// From this many decimal places on, rounding changes no double and is not done.
pub const PASSTHROUGH: u32 = 17;

impl CoordPrecision {
    /// Whether coordinates are written as they are.
    pub fn is_passthrough(self) -> (r: bool)
        ensures
            r == (self.0 >= PASSTHROUGH),
    {
        self.0 >= PASSTHROUGH
    }
}

/// The settings of a run.
#[derive(Debug)]
pub struct Config {
    pub pbf_file: String,
    pub config_dir: String,
    pub db_host: String,
    pub db_name: String,
    pub db_user: String,
    pub db_password: String,
    pub db_port: u16,
    pub truncate: bool,
    pub threads: usize,
    pub left_hand_traffic: bool,
    pub create_index: bool,
    pub db_writers: usize,
    pub output: Output,
    pub out_dir: String,
    pub coordinate_precision: u32,
    pub tree_max_depth: usize,
    pub topic_edges: TopicEdgeMode,
    pub source: Source,
}

/// Why settings do not go together.
#[derive(Debug, Clone, Copy, PartialEq, Eq, Structural)]
pub enum ConfigError {
    /// An extract is to be read and none is named.
    MissingFile,
    /// Tags without geometry only fill tables of comma-separated lines.
    CsvNeedsCsvOutput,
}

impl Config {
    /// Whether the settings go together.
    pub fn check(&self) -> (r: Result<(), ConfigError>)
        ensures
            r == match self.source {
                Source::Pbf => if self.pbf_file@.len() == 0 {
                    Err(ConfigError::MissingFile)
                } else {
                    Ok(())
                },
                Source::Csv => if self.output != Output::Csv {
                    Err(ConfigError::CsvNeedsCsvOutput)
                } else {
                    Ok(())
                },
            },
    {
        match self.source {
            Source::Pbf => if crate::text::str_eq(self.pbf_file.as_str(), "") {
                proof {
                    reveal_strlit("");
                }
                Err(ConfigError::MissingFile)
            } else {
                proof {
                    reveal_strlit("");
                    if self.pbf_file@.len() == 0 {
                        assert(self.pbf_file@ =~= ""@);
                    }
                }
                Ok(())
            },
            Source::Csv => if self.output != Output::Csv {
                Err(ConfigError::CsvNeedsCsvOutput)
            } else {
                Ok(())
            },
        }
    }

    /// How many connections write one table: at least one.
    pub fn writers(&self) -> (r: usize)
        ensures
            r == (if self.db_writers == 0 {
                1
            } else {
                self.db_writers
            }),
    {
        if self.db_writers == 0 {
            1
        } else {
            self.db_writers
        }
    }
}

} // verus!
