//! Configuration of the daemon, and its defaults.
//!
//! Thresholds are in billionths, see [`crate::fixed`].

use vstd::prelude::*;

use crate::paths::expand_home;

verus! {

/// How conversations are read.
#[derive(Debug)]
pub struct IngestionConfig {
    pub poll_interval_secs: u64,
    pub batch_size: usize,
    pub claude_model: String,
}

/// How the memory is consolidated.
#[derive(Debug, Clone, Copy, PartialEq, Eq, Structural)]
pub struct ConsolidationConfig {
    pub interval_secs: u64,
    /// How long a session must be idle before it is digested.
    pub idle_threshold_secs: i64,
    /// Longer conversations are digested in parts.
    pub max_turns_per_extraction: usize,
    pub similarity_threshold: i64,
    /// Roots more similar than this are merged.
    pub merge_threshold: i64,
    pub prune_age_days: u32,
    pub min_relevance_prune: i64,
}

/// Where the memory is kept.
#[derive(Debug)]
pub struct DatabaseConfig {
    pub path: String,
}

/// How the language model is reached.
#[derive(Debug)]
pub struct ClaudeConfig {
    /// The environment variable that holds the key.
    pub api_key_env: String,
    /// The model that extracts knowledge, if it is another one than that of
    /// the ingestion.
    pub extraction_model: Option<String>,
    /// The model that sums up what was extracted, if it is another one than
    /// that which extracts.
    pub compression_model: Option<String>,
}

/// The whole configuration.
#[derive(Debug)]
pub struct Config {
    pub ingestion: IngestionConfig,
    pub consolidation: ConsolidationConfig,
    pub database: DatabaseConfig,
    pub claude: ClaudeConfig,
}

pub fn default_poll_interval() -> (r: u64)
    ensures
        r == 30,
{
    30
}

pub fn default_batch_size() -> (r: usize)
    ensures
        r == 100,
{
    100
}

pub fn default_consolidation_interval() -> (r: u64)
    ensures
        r == 7200,
{
    7200
}

pub fn default_idle_threshold() -> (r: i64)
    ensures
        r == 300,
{
    300
}

pub fn default_max_turns() -> (r: usize)
    ensures
        r == 200,
{
    200
}

pub fn default_similarity_threshold() -> (r: i64)
    ensures
        r == 800_000_000,
{
    800_000_000
}

pub fn default_merge_threshold() -> (r: i64)
    ensures
        r == 850_000_000,
{
    850_000_000
}

pub fn default_prune_age_days() -> (r: u32)
    ensures
        r == 30,
{
    30
}

pub fn default_min_relevance_prune() -> (r: i64)
    ensures
        r == 20_000_000,
{
    20_000_000
}

pub fn default_db_path(home: Option<&str>) -> (r: String)
    ensures
        r@ == crate::paths::home_or_here(crate::text::optional_text(home)) + "/.lore/memory.db"@,
{
    let mut s: String = match home {
        Some(h) => h.to_owned(),
        None => ".".to_owned(),
    };
    s.append("/.lore/memory.db");
    s
}

pub fn default_api_key_env() -> (r: String)
    ensures
        r@ == "ANTHROPIC_API_KEY"@,
{
    "ANTHROPIC_API_KEY".to_owned()
}

/// The defaults for ingestion with a model.
pub open spec fn is_default_ingestion(c: IngestionConfig, model: Seq<char>) -> bool {
    c.poll_interval_secs == 30 && c.batch_size == 100 && c.claude_model@ == model
}

/// The default for consolidation.
pub open spec fn default_consolidation() -> ConsolidationConfig {
    ConsolidationConfig {
        interval_secs: 7200,
        idle_threshold_secs: 300,
        max_turns_per_extraction: 200,
        similarity_threshold: 800_000_000,
        merge_threshold: 850_000_000,
        prune_age_days: 30,
        min_relevance_prune: 20_000_000,
    }
}

impl IngestionConfig {
    /// The defaults with a model.
    pub fn with_model(model: String) -> (r: Self)
        ensures
            is_default_ingestion(r, model@),
    {
        IngestionConfig {
            poll_interval_secs: default_poll_interval(),
            batch_size: default_batch_size(),
            claude_model: model,
        }
    }
}

impl Default for ConsolidationConfig {
    fn default() -> (r: Self)
        ensures
            r == default_consolidation(),
    {
        ConsolidationConfig {
            interval_secs: default_consolidation_interval(),
            idle_threshold_secs: default_idle_threshold(),
            max_turns_per_extraction: default_max_turns(),
            similarity_threshold: default_similarity_threshold(),
            merge_threshold: default_merge_threshold(),
            prune_age_days: default_prune_age_days(),
            min_relevance_prune: default_min_relevance_prune(),
        }
    }
}

/// The defaults for the way to the language model.
pub open spec fn is_default_claude(c: ClaudeConfig) -> bool {
    &&& c.api_key_env@ == "ANTHROPIC_API_KEY"@
    &&& c.extraction_model is None
    &&& c.compression_model is None
}

impl Default for ClaudeConfig {
    fn default() -> (r: Self)
        ensures
            is_default_claude(r),
    {
        ClaudeConfig {
            api_key_env: default_api_key_env(),
            extraction_model: None,
            compression_model: None,
        }
    }
}

impl DatabaseConfig {
    /// The default below a home directory.
    pub fn for_home(home: Option<&str>) -> (r: Self)
        ensures
            r.path@ == crate::paths::home_or_here(crate::text::optional_text(home))
                + "/.lore/memory.db"@,
    {
        DatabaseConfig { path: default_db_path(home) }
    }
}

/// The model that extracts knowledge.
pub open spec fn extraction_model_of(c: Config) -> Seq<char> {
    match c.claude.extraction_model {
        Some(m) => m@,
        None => c.ingestion.claude_model@,
    }
}

/// The model that sums up what was extracted.
pub open spec fn compression_model_of(c: Config) -> Seq<char> {
    match c.claude.compression_model {
        Some(m) => m@,
        None => extraction_model_of(c),
    }
}

impl Config {
    /// The model that extracts knowledge.
    pub fn extraction_model(&self) -> (r: String)
        ensures
            r@ == extraction_model_of(*self),
    {
        match &self.claude.extraction_model {
            Some(m) => m.clone(),
            None => self.ingestion.claude_model.clone(),
        }
    }

    /// The model that sums up what was extracted.
    pub fn compression_model(&self) -> (r: String)
        ensures
            r@ == compression_model_of(*self),
    {
        match &self.claude.compression_model {
            Some(m) => m.clone(),
            None => self.extraction_model(),
        }
    }

    /// The defaults below a home directory, with a model.
    pub fn for_home(home: Option<&str>, model: String) -> (r: Self)
        ensures
            is_default_ingestion(r.ingestion, model@),
            r.consolidation == default_consolidation(),
            r.database.path@ == crate::paths::home_or_here(crate::text::optional_text(home))
                + "/.lore/memory.db"@,
            is_default_claude(r.claude),
    {
        Config {
            ingestion: IngestionConfig::with_model(model),
            consolidation: ConsolidationConfig::default(),
            database: DatabaseConfig::for_home(home),
            claude: ClaudeConfig::default(),
        }
    }

    /// The path of the memory, with the home directory in the place of `~`.
    pub fn db_path(&self, home: Option<&str>) -> (r: String)
        ensures
            r@ == crate::paths::expanded(
                self.database.path@,
                match crate::text::optional_text(home) {
                    Some(h) => h,
                    None => Seq::empty(),
                },
            ),
    {
        match home {
            Some(h) => expand_home(self.database.path.as_str(), h),
            None => {
                let none: String = String::new();
                expand_home(self.database.path.as_str(), none.as_str())
            },
        }
    }
}

// ---- laws ----

/// The defaults: a look at the logs every half minute and a consolidation every two hours;
/// a session is idle after five minutes; roots are similar above 0.8 and merged above
/// 0.85.
pub proof fn law_defaults(c: IngestionConfig, model: Seq<char>, way: ClaudeConfig)
    ensures
        is_default_ingestion(c, model) ==> c.poll_interval_secs == 30 && c.batch_size == 100
            && c.claude_model@ == model,
        is_default_claude(way) ==> way.api_key_env@ == "ANTHROPIC_API_KEY"@ && way.extraction_model
            is None && way.compression_model is None,
        default_consolidation().interval_secs == 2 * 60 * 60,
        default_consolidation().idle_threshold_secs == 5 * 60,
        default_consolidation().max_turns_per_extraction == 200,
        default_consolidation().similarity_threshold == 800_000_000,
        default_consolidation().merge_threshold == 850_000_000,
        default_consolidation().prune_age_days == 30,
        default_consolidation().min_relevance_prune == 20_000_000,
        default_consolidation().similarity_threshold < default_consolidation().merge_threshold,
{
}

/// Which models are used: for extraction the one that is named for it, or that of the
/// ingestion; for summaries the one that is named for them, or that of the extraction.
pub proof fn law_models(c: Config)
    ensures
        c.claude.extraction_model is None ==> extraction_model_of(c) == c.ingestion.claude_model@,
        c.claude.extraction_model matches Some(m) ==> extraction_model_of(c) == m@,
        c.claude.compression_model is None ==> compression_model_of(c) == extraction_model_of(c),
        c.claude.compression_model matches Some(m) ==> compression_model_of(c) == m@,
{
}

} // verus!
