//! The injected source of randomness.

use rand_chacha::rand_core::RngCore;
use rand_chacha::ChaCha8Rng;
use vstd::prelude::*;

use crate::common::{Duration, RaftConfig};

verus! {

#[verifier::external_type_specification]
#[verifier::external_body]
pub struct ExChaCha8Rng(ChaCha8Rng);

/// Calls `RngCore::next_u64` on the generator. Nothing is claimed of the
/// number that comes back: every 64-bit value is possible.
#[verifier::external_body]
fn next_raw(rng: &mut ChaCha8Rng) -> (raw: u64) {
    rng.next_u64()
}

/// Draws an election timeout from the configured range.
pub fn draw_election_timeout(config: &RaftConfig, rng: &mut ChaCha8Rng) -> (timeout: Duration)
    requires
        config.wf(),
    ensures
        config.admits(timeout),
        exists|raw: u64| timeout == config.timeout_for(raw),
{
    let raw: u64 = next_raw(rng);
    config.election_timeout(raw)
}

} // verus!
