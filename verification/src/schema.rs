//! Scheme configuration (as in Rime's `*.schema.yaml`): which dictionary a
//! scheme uses and how its engine runs.
//!
//! A shape-code scheme names its table binary, code length and auto-select;
//! a pinyin scheme its pinyin binary (the double-pinyin map, built from
//! `speller.algebra`, is embedded in it).
use vstd::prelude::*;
use crate::text::str_eq;

verus! {

/// A whole scheme configuration.
#[derive(Debug, Clone)]
pub struct SchemaConfig {
    pub schema: SchemaMeta,
    pub engine: EngineSection,
    pub dictionary: DictionarySection,
    pub speller: SpellerSection,
    pub reverse_lookup: ReverseLookupSection,
    pub punctuator: PunctuatorSection,
    pub user_dict: UserDictSection,
}

/// Scheme identity.
#[derive(Debug, Clone)]
pub struct SchemaMeta {
    pub schema_id: String,
    pub name: String,
    pub version: String,
}

/// The engine type: "table" (shape code) or "script" (pinyin).
#[derive(Debug, Clone)]
pub struct EngineSection {
    pub engine_type: String,
}

/// The compiled dictionary and its source.
#[derive(Debug, Clone)]
pub struct DictionarySection {
    pub file: String,
    pub source: String,
}

/// Spelling options.
#[derive(Debug, Clone)]
pub struct SpellerSection {
    pub max_code_length: Option<usize>,
    pub auto_select: Option<bool>,
    pub auto_select_pattern: Option<String>,
    pub alphabet: Option<String>,
    pub algebra: Option<Vec<String>>,
}

/// Reverse lookup: its dictionary, binary and prefix key.
#[derive(Debug, Clone)]
pub struct ReverseLookupSection {
    pub dictionary: String,
    pub file: String,
    pub prefix: Option<String>,
}

/// Punctuation: whether full-width marks are produced.
#[derive(Debug, Clone)]
pub struct PunctuatorSection {
    pub full_shape: Option<bool>,
}

/// Where the user dictionary is kept.
#[derive(Debug, Clone)]
pub struct UserDictSection {
    pub file: String,
}

impl SchemaConfig {
    /// The engine type is "script" (pinyin).
    pub fn is_script(&self) -> (b: bool)
        ensures
            b == (self.engine.engine_type@ == "script"@),
    {
        str_eq(self.engine.engine_type.as_str(), "script")
    }

    /// The engine type is "table" (shape code).
    pub fn is_table(&self) -> (b: bool)
        ensures
            b == (self.engine.engine_type@ == "table"@),
    {
        str_eq(self.engine.engine_type.as_str(), "table")
    }
}

} // verus!
