//! Swarm immunity: the threat and node-status vocabulary, the integer distance
//! between position fingerprints, and the node's own hibernation clock.
//! Reputation scores and spatial tension are real numbers and are computed by
//! the caller.

use vstd::prelude::*;

verus! {

/// Threats remembered.
pub const IMMUNE_MEMORY_SIZE: usize = 1000;
/// Healthy neighbours a node wants.
pub const MIN_HEALTHY_NEIGHBORS: usize = 3;
/// Length of a hibernation, in seconds.
pub const HIBERNATION_SECS: u64 = 3600;

/// Kind of attack.
#[derive(Debug, Clone, Copy, PartialEq, Eq, Structural)]
pub enum ThreatType {
    Sybil,
    Eclipse,
    Replay,
    Spoof,
    Unknown,
}

/// Standing of a node in the immune system.
#[derive(Debug, Clone, Copy, PartialEq, Eq, Structural)]
pub enum NodeStatus {
    Healthy,
    Suspicious,
    Quarantined,
    Hibernating,
}

/// Sum of the byte-wise distances of the first `n` bytes.
pub open spec fn spec_hash_diff(a: Seq<u8>, b: Seq<u8>, n: nat) -> nat
    decreases n,
{
    if n == 0 {
        0
    } else {
        spec_hash_diff(a, b, (n - 1) as nat) + if a[n - 1] >= b[n - 1] {
            (a[n - 1] - b[n - 1]) as nat
        } else {
            (b[n - 1] - a[n - 1]) as nat
        }
    }
}

/// Distance between two 32-byte fingerprints: the sum of the byte-wise
/// distances.
pub fn hash_diff(a: &[u8; 32], b: &[u8; 32]) -> (d: u32)
    ensures
        d == spec_hash_diff(a@, b@, 32),
        d <= 32 * 255,
{
    let mut diff: u32 = 0;
    let mut i: usize = 0;
    while i < 32
        invariant
            i <= 32,
            diff == spec_hash_diff(a@, b@, i as nat),
            diff <= 255 * i,
        decreases 32 - i,
    {
        let x = a[i];
        let y = b[i];
        let d: u32 = if x >= y {
            (x - y) as u32
        } else {
            (y - x) as u32
        };
        diff = diff + d;
        i = i + 1;
    }
    diff
}

/// A node's status as the immune system reports it: unknown nodes count as
/// healthy.
pub fn status_or_healthy(known: Option<NodeStatus>) -> (s: NodeStatus)
    ensures
        s == match known {
            Some(k) => k,
            None => NodeStatus::Healthy,
        },
{
    match known {
        Some(k) => k,
        None => NodeStatus::Healthy,
    }
}

/// The node's own state: its status and when a hibernation ends.
#[derive(Debug, Clone, Copy)]
pub struct SelfState {
    pub status: NodeStatus,
    pub hibernation_until: Option<u64>,
}

impl SelfState {
    /// A healthy node, awake.
    pub fn new() -> (s: Self)
        ensures
            s.status == NodeStatus::Healthy,
            s.hibernation_until is None,
    {
        SelfState { status: NodeStatus::Healthy, hibernation_until: None }
    }

    /// Goes to sleep at `now` for `HIBERNATION_SECS`.
    pub fn enter_hibernation(&mut self, now: u64)
        requires
            now + HIBERNATION_SECS <= u64::MAX,
        ensures
            final(self).status == NodeStatus::Hibernating,
            final(self).hibernation_until == Some((now + HIBERNATION_SECS) as u64),
    {
        self.hibernation_until = Some(now + HIBERNATION_SECS);
        self.status = NodeStatus::Hibernating;
    }

    /// The node is hibernating at `now`; a hibernation that is over ends here
    /// (the node is healthy again and no wake time is kept).
    pub fn is_hibernating(&mut self, now: u64) -> (h: bool)
        ensures
            h == (old(self).hibernation_until matches Some(t) && now < t),
            h ==> *final(self) == *old(self),
            !h && old(self).hibernation_until is Some ==> final(self).status == NodeStatus::Healthy
                && final(self).hibernation_until is None,
            old(self).hibernation_until is None ==> *final(self) == *old(self),
    {
        match self.hibernation_until {
            Some(wake) => {
                if now < wake {
                    true
                } else {
                    self.status = NodeStatus::Healthy;
                    self.hibernation_until = None;
                    false
                }
            },
            None => false,
        }
    }
}

/// The distance between fingerprints is symmetric and zero from a fingerprint
/// to itself.
pub proof fn lemma_hash_diff(a: Seq<u8>, b: Seq<u8>, n: nat)
    ensures
        spec_hash_diff(a, b, n) == spec_hash_diff(b, a, n),
        spec_hash_diff(a, a, n) == 0,
    decreases n,
{
    if n > 0 {
        lemma_hash_diff(a, b, (n - 1) as nat);
    }
}

/// Two fingerprints at distance zero agree on every byte compared.
pub proof fn lemma_hash_diff_zero(a: Seq<u8>, b: Seq<u8>, n: nat)
    requires
        spec_hash_diff(a, b, n) == 0,
    ensures
        forall|i: int| 0 <= i < n ==> #[trigger] a[i] == b[i],
    decreases n,
{
    if n > 0 {
        lemma_hash_diff_zero(a, b, (n - 1) as nat);
    }
}

} // verus!
