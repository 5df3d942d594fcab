//! Data metabolism: blocks are hot, warm, cold or fossil, and the statistics
//! count them. Block temperatures are real numbers and are classified by the
//! caller.

use vstd::prelude::*;

verus! {

/// Seconds between metabolism runs.
pub const METABOLISM_INTERVAL_SECS: u64 = 3600;
/// Tokens burned to rewarm a block.
pub const REWARM_COST_TOKENS: u64 = 10;
/// Days after which a block becomes a fossil.
pub const FOSSILIZATION_AGE_DAYS: u64 = 30;
/// Hot blocks consensus wants.
pub const MIN_HOT_BLOCKS: usize = 10;

/// Temperature class of a block.
#[derive(Debug, Clone, Copy, PartialEq, Eq, Structural)]
pub enum Temperature {
    Hot,
    Warm,
    Cold,
    Fossil,
}

/// Statistics of the metabolism.
#[derive(Debug, Clone, Copy)]
pub struct MetabolismStats {
    pub total_blocks: usize,
    pub hot_blocks: usize,
    pub warm_blocks: usize,
    pub cold_blocks: usize,
    pub fossil_blocks: usize,
    pub total_tokens_burned: u64,
    pub pending_rewarms: usize,
}

/// Number of entries of `s` equal to `t`.
pub open spec fn count_class(s: Seq<Temperature>, t: Temperature) -> nat
    decreases s.len(),
{
    if s.len() == 0 {
        0
    } else {
        count_class(s.drop_last(), t) + if s.last() == t {
            1nat
        } else {
            0nat
        }
    }
}

proof fn lemma_count_class_bound(s: Seq<Temperature>, t: Temperature)
    ensures
        count_class(s, t) <= s.len(),
    decreases s.len(),
{
    if s.len() > 0 {
        lemma_count_class_bound(s.drop_last(), t);
    }
}

impl MetabolismStats {
    /// The statistics of live blocks with the given classes: each class is
    /// counted (fossil classes among live blocks count in none), next to the
    /// number of fossils kept, the tokens burned and the rewarms waiting.
    pub fn from_classes(classes: &[Temperature], fossils: usize, total_tokens_burned: u64, pending_rewarms: usize) -> (st: Self)
        ensures
            st.total_blocks == classes@.len(),
            st.hot_blocks == count_class(classes@, Temperature::Hot),
            st.warm_blocks == count_class(classes@, Temperature::Warm),
            st.cold_blocks == count_class(classes@, Temperature::Cold),
            st.fossil_blocks == fossils,
            st.total_tokens_burned == total_tokens_burned,
            st.pending_rewarms == pending_rewarms,
    {
        let mut hot: usize = 0;
        let mut warm: usize = 0;
        let mut cold: usize = 0;
        let mut i: usize = 0;
        while i < classes.len()
            invariant
                i <= classes@.len(),
                hot == count_class(classes@.take(i as int), Temperature::Hot),
                warm == count_class(classes@.take(i as int), Temperature::Warm),
                cold == count_class(classes@.take(i as int), Temperature::Cold),
                hot <= i && warm <= i && cold <= i,
            decreases classes@.len() - i,
        {
            assert(classes@.take(i + 1).drop_last() =~= classes@.take(i as int));
            match classes[i] {
                Temperature::Hot => {
                    hot = hot + 1;
                },
                Temperature::Warm => {
                    warm = warm + 1;
                },
                Temperature::Cold => {
                    cold = cold + 1;
                },
                Temperature::Fossil => {},
            }
            i = i + 1;
        }
        assert(classes@.take(i as int) =~= classes@);
        MetabolismStats {
            total_blocks: classes.len(),
            hot_blocks: hot,
            warm_blocks: warm,
            cold_blocks: cold,
            fossil_blocks: fossils,
            total_tokens_burned,
            pending_rewarms,
        }
    }
}

} // verus!
