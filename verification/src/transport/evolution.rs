//! Protocol evolution: the kinds of evolutionary events. Genes hold real-valued
//! parameters and are managed by the caller.

use vstd::prelude::*;
use crate::crypto::digest::{blake3_digest, blake3_hash};

verus! {

/// Mutations kept in the history.
pub const MAX_MUTATION_HISTORY: usize = 1000;
/// Genes taken from each parent when crossbreeding.
pub const CROSSBREEDING_GENES: usize = 3;
/// Seconds between evolution cycles.
pub const EVOLUTION_CYCLE_SECS: u64 = 86400;

/// Kind of evolutionary event.
#[derive(Debug, Clone, Copy, PartialEq, Eq, Structural)]
pub enum EvolutionEventType {
    Mutation,
    Spread,
    Death,
    Crossbreed,
    Fixation,
}

/// The id of the gene named `name`: the first 16 bytes of its BLAKE3 hash.
pub fn gene_id(name: &[u8]) -> (id: [u8; 16])
    ensures
        id@ == blake3_digest(name@).take(16),
{
    let h = blake3_hash(name);
    let mut id = [0u8; 16];
    let mut i: usize = 0;
    while i < 16
        invariant
            i <= 16,
            h@ == blake3_digest(name@),
            forall|t: int| 0 <= t < i ==> id@[t] == h@[t],
        decreases 16 - i,
    {
        id[i] = h[i];
        i = i + 1;
    }
    assert(id@ =~= blake3_digest(name@).take(16));
    id
}

} // verus!
