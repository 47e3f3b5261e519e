//! Configuration: the tags that a project sets for writing, recalling and
//! exporting.

use vstd::prelude::*;
use crate::tags::{merge_tags, union_tags};
use crate::text::texts;

verus! {

/// What is set for writing memories.
#[derive(Debug)]
pub struct MemorizeConfig {
    /// Tags that every memory written gets.
    pub tags: Vec<String>,
}

/// What is set for recall.
#[derive(Debug)]
pub struct RecallConfig {
    /// Tags that recall favours.
    pub tags: Vec<String>,
    /// The least score, in millionths, that a recalled memory must have.
    pub min_score: Option<i64>,
    /// How many characters of a body are shown.
    pub body_max_chars: Option<usize>,
}

/// What is set for export.
#[derive(Debug)]
pub struct ExportConfig {
    /// Tags of which an exported memory must have one.
    pub tags: Vec<String>,
}

/// The configuration of a project.
#[derive(Debug)]
pub struct TriviaConfig {
    pub memorize: MemorizeConfig,
    pub recall: RecallConfig,
    pub export: ExportConfig,
    /// Where the store is kept.
    pub database: Option<String>,
}

impl Default for MemorizeConfig {
    fn default() -> (config: MemorizeConfig)
        ensures
            config.tags@.len() == 0,
    {
        MemorizeConfig { tags: Vec::new() }
    }
}

impl Default for RecallConfig {
    fn default() -> (config: RecallConfig)
        ensures
            config.tags@.len() == 0,
            config.min_score is None,
            config.body_max_chars is None,
    {
        RecallConfig { tags: Vec::new(), min_score: None, body_max_chars: None }
    }
}

impl Default for ExportConfig {
    fn default() -> (config: ExportConfig)
        ensures
            config.tags@.len() == 0,
    {
        ExportConfig { tags: Vec::new() }
    }
}

impl Default for TriviaConfig {
    fn default() -> (config: TriviaConfig)
        ensures
            config.memorize.tags@.len() == 0,
            config.recall.tags@.len() == 0,
            config.recall.min_score is None,
            config.recall.body_max_chars is None,
            config.export.tags@.len() == 0,
            config.database is None,
    {
        TriviaConfig {
            memorize: MemorizeConfig { tags: Vec::new() },
            recall: RecallConfig { tags: Vec::new(), min_score: None, body_max_chars: None },
            export: ExportConfig { tags: Vec::new() },
            database: None,
        }
    }
}

impl TriviaConfig {
    /// The tags of the configuration together with those given for one
    /// call: the configured ones first, then the given ones that are not
    /// among them.
    pub fn merge_tags(config_tags: &Vec<String>, explicit_tags: &Vec<String>) -> (merged: Vec<
        String,
    >)
        ensures
            texts(merged@) == union_tags(texts(config_tags@), texts(explicit_tags@)),
    {
        merge_tags(config_tags, explicit_tags)
    }
}

} // verus!
