//! Memory settings.
use vstd::prelude::*;
use vstd::string::*;

verus! {

/// A weight or a score in `[0, 1]`, held as the bit pattern of a non-negative
/// single-precision number. Such patterns order as the numbers do.
pub type Score = u32;

/// The score 1.
pub const SCORE_ONE: Score = 0x3f80_0000;

/// The score 0.
pub const SCORE_ZERO: Score = 0;

/// The multiplier per idle day, 0.98.
pub const DEFAULT_DECAY_FACTOR: Score = 0x3f7a_e148;

/// The strength of a recall, 0.3.
pub const DEFAULT_REINFORCE_GAIN: Score = 0x3e99_999a;

/// The strength of an ambient injection, 0.
pub const DEFAULT_AMBIENT_GAIN: Score = 0;

/// The weight below which a chunk is dormant, 0.25.
pub const DEFAULT_DORMANT_THRESHOLD: Score = 0x3e80_0000;

/// Where chunk embeddings come from.
#[derive(Debug, Clone, Copy, PartialEq, Eq)]
pub enum EmbeddingProvider {
    /// An embedder on the device.
    Local,
    /// A hosted embedder.
    Cloud,
}

/// Settings of semantic recall.
#[derive(Debug, Clone, Copy, PartialEq, Eq)]
pub struct EmbeddingsConfig {
    /// Whether semantic recall is on.
    pub enabled: bool,
    /// Which embedder backs it.
    pub provider: EmbeddingProvider,
}

impl Default for EmbeddingsConfig {
    fn default() -> (r: Self)
        ensures
            !r.enabled,
            r.provider == EmbeddingProvider::Local,
    {
        EmbeddingsConfig { enabled: false, provider: EmbeddingProvider::Local }
    }
}

/// Settings of usage-driven decay.
#[derive(Debug, Clone, Copy, PartialEq, Eq)]
pub struct DecayConfig {
    /// Whether weights decay and are reinforced.
    pub enabled: bool,
    /// The multiplier per idle day.
    pub factor: Score,
    /// The strength of a recall.
    pub reinforce_gain: Score,
    /// The strength of an ambient injection.
    pub ambient_gain: Score,
    /// The weight below which a chunk is dormant.
    pub dormant_threshold: Score,
}

/// Memory is on.
pub fn default_enabled() -> (r: bool)
    ensures
        r,
{
    true
}

/// The byte budget of the curated section.
pub fn default_budget() -> (r: usize)
    ensures
        r == 4096,
{
    4096
}

/// Eviction to the budget is on.
pub fn default_evict_to_budget() -> (r: bool)
    ensures
        r,
{
    true
}

/// Decay is on.
pub fn default_decay_enabled() -> (r: bool)
    ensures
        r,
{
    true
}

impl Default for DecayConfig {
    fn default() -> (r: Self)
        ensures
            r.enabled,
            r.factor == DEFAULT_DECAY_FACTOR,
            r.reinforce_gain == DEFAULT_REINFORCE_GAIN,
            r.ambient_gain == DEFAULT_AMBIENT_GAIN,
            r.dormant_threshold == DEFAULT_DORMANT_THRESHOLD,
    {
        DecayConfig {
            enabled: default_decay_enabled(),
            factor: DEFAULT_DECAY_FACTOR,
            reinforce_gain: DEFAULT_REINFORCE_GAIN,
            ambient_gain: DEFAULT_AMBIENT_GAIN,
            dormant_threshold: DEFAULT_DORMANT_THRESHOLD,
        }
    }
}

/// Settings of memory.
#[derive(Debug, Clone, Copy, PartialEq, Eq)]
pub struct MemoryConfig {
    /// Whether memory is on.
    pub enabled: bool,
    /// The byte budget of the curated section of the ambient block.
    pub injection_budget_bytes: usize,
    /// Semantic recall.
    pub embeddings: EmbeddingsConfig,
    /// Whether consolidation may evict curated facts to the daily log.
    pub evict_to_budget: bool,
    /// Usage-driven decay.
    pub decay: DecayConfig,
}

impl Default for MemoryConfig {
    fn default() -> (r: Self)
        ensures
            r.enabled,
            r.injection_budget_bytes == 4096,
            !r.embeddings.enabled,
            r.embeddings.provider == EmbeddingProvider::Local,
            r.evict_to_budget,
            r.decay.enabled,
            r.decay.factor == DEFAULT_DECAY_FACTOR,
            r.decay.reinforce_gain == DEFAULT_REINFORCE_GAIN,
            r.decay.ambient_gain == DEFAULT_AMBIENT_GAIN,
            r.decay.dormant_threshold == DEFAULT_DORMANT_THRESHOLD,
    {
        MemoryConfig {
            enabled: default_enabled(),
            injection_budget_bytes: default_budget(),
            embeddings: EmbeddingsConfig::default(),
            evict_to_budget: default_evict_to_budget(),
            decay: DecayConfig::default(),
        }
    }
}

/// A memory directory and its settings.
#[derive(Debug, Clone)]
pub struct Memory {
    /// The directory.
    pub root: String,
    /// The settings.
    pub config: MemoryConfig,
}

} // verus!
