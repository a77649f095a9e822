//! Memory limits and eviction policies.
use vstd::prelude::*;

use crate::client::{lemma_spells, spells};
use crate::command::{is_word, same_word};

verus! {

/// What is done when the memory limit is reached.
#[derive(Clone, Copy, PartialEq, Eq, Structural, Debug)]
pub enum EvictionPolicy {
    /// Refuse writes that need more memory.
    NoEviction,
    /// Evict the least recently used of a few sampled keys.
    AllKeysLru,
    /// Evict sampled keys.
    AllKeysRandom,
}

/// How much memory the entries may take, and what gives way when they would take more.
#[derive(Clone, Copy, PartialEq, Eq, Structural, Debug)]
pub struct MemoryLimits {
    /// The limit in bytes; zero stands for no limit.
    pub max_memory: u64,
    pub eviction_policy: EvictionPolicy,
    /// How many keys are sampled for one eviction of the least recently used.
    pub eviction_sample_size: usize,
}

impl MemoryLimits {
    /// No limit.
    pub open spec fn none() -> MemoryLimits {
        MemoryLimits {
            max_memory: 0,
            eviction_policy: EvictionPolicy::NoEviction,
            eviction_sample_size: 0,
        }
    }

    /// No limit.
    pub fn unlimited() -> (limits: MemoryLimits)
        ensures
            limits == MemoryLimits::none(),
    {
        MemoryLimits {
            max_memory: 0,
            eviction_policy: EvictionPolicy::NoEviction,
            eviction_sample_size: 0,
        }
    }
}

impl EvictionPolicy {
    /// The name of the policy in the configuration and in reports.
    pub open spec fn name(self) -> Seq<char> {
        match self {
            EvictionPolicy::NoEviction => "noeviction"@,
            EvictionPolicy::AllKeysLru => "allkeys-lru"@,
            EvictionPolicy::AllKeysRandom => "allkeys-random"@,
        }
    }

    /// The policy of a name, whatever its case.
    pub open spec fn named(name: Seq<u8>) -> Option<EvictionPolicy> {
        if same_word(name, "noeviction"@) {
            Some(EvictionPolicy::NoEviction)
        } else if same_word(name, "allkeys-lru"@) {
            Some(EvictionPolicy::AllKeysLru)
        } else if same_word(name, "allkeys-random"@) {
            Some(EvictionPolicy::AllKeysRandom)
        } else {
            None
        }
    }

    /// The policy of a name, whatever its case.
    pub fn from_name(name: &[u8]) -> (policy: Option<EvictionPolicy>)
        ensures
            policy == EvictionPolicy::named(name@),
    {
        if is_word(name, "noeviction") {
            Some(EvictionPolicy::NoEviction)
        } else if is_word(name, "allkeys-lru") {
            Some(EvictionPolicy::AllKeysLru)
        } else if is_word(name, "allkeys-random") {
            Some(EvictionPolicy::AllKeysRandom)
        } else {
            None
        }
    }

    /// The name of the policy.
    pub fn as_str(&self) -> (name: &'static str)
        ensures
            name@ == self.name(),
    {
        match self {
            EvictionPolicy::NoEviction => "noeviction",
            EvictionPolicy::AllKeysLru => "allkeys-lru",
            EvictionPolicy::AllKeysRandom => "allkeys-random",
        }
    }
}

/// A policy goes by its own name, in either case, and by no other.
pub proof fn law_policies_have_names(name: Seq<u8>)
    ensures
        EvictionPolicy::named(name) == Some(EvictionPolicy::NoEviction) <==> spells(
            name,
            "noeviction"@,
        ),
        EvictionPolicy::named(name) == Some(EvictionPolicy::AllKeysLru) <==> spells(
            name,
            "allkeys-lru"@,
        ),
        EvictionPolicy::named(name) == Some(EvictionPolicy::AllKeysRandom) <==> spells(
            name,
            "allkeys-random"@,
        ),
{
    reveal_strlit("noeviction");
    reveal_strlit("allkeys-lru");
    reveal_strlit("allkeys-random");
    lemma_spells(name, "noeviction"@);
    lemma_spells(name, "allkeys-lru"@);
    lemma_spells(name, "allkeys-random"@);
}

/// The name under which a policy is reported is one that it goes by.
pub proof fn law_reported_name_is_understood(policy: EvictionPolicy, name: Seq<u8>)
    requires
        spells(name, policy.name()),
    ensures
        EvictionPolicy::named(name) == Some(policy),
{
    law_policies_have_names(name);
}

} // verus!
