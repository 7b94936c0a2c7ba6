//! The reconnect schedule of the reconnecting client.

use vstd::prelude::*;

verus! {

/// The delays, in seconds, before the first reconnect attempts.
pub open spec fn initial_reconnect_delays() -> Seq<u64> {
    seq![5u64, 10u64, 20u64, 30u64, 40u64, 50u64, 60u64]
}

/// The delay before every attempt after the initial ones.
pub const REPEATED_RECONNECT_DELAY_SECS: u64 = 60;

pub open spec fn spec_reconnect_delay(attempt: int) -> u64 {
    if 0 <= attempt < initial_reconnect_delays().len() {
        initial_reconnect_delays()[attempt]
    } else {
        REPEATED_RECONNECT_DELAY_SECS
    }
}

/// The delay, in seconds, before reconnect attempt number `attempt`
/// (counted from 0): 5, 10, 20, 30, 40, 50 and 60 seconds, then 60 seconds
/// for every attempt after those, forever.
pub fn standard_reconnect_delay_secs(attempt: usize) -> (secs: u64)
    ensures
        secs == spec_reconnect_delay(attempt as int),
        attempt < 7 ==> secs == seq![5u64, 10u64, 20u64, 30u64, 40u64, 50u64, 60u64][attempt as int],
        attempt >= 7 ==> secs == 60,
{
    let initial: [u64; 7] = [5, 10, 20, 30, 40, 50, 60];
    proof {
        assert(initial@ =~= initial_reconnect_delays());
    }
    if attempt < 7 {
        initial[attempt]
    } else {
        REPEATED_RECONNECT_DELAY_SECS
    }
}

/// The schedule: 5, 10, 20, 30, 40, 50 and 60 seconds for the first seven
/// attempts, then 60 seconds for every attempt after them, however many.
pub proof fn lemma_reconnect_schedule(attempt: int)
    requires
        attempt >= 0,
    ensures
        attempt == 0 ==> spec_reconnect_delay(attempt) == 5,
        attempt == 1 ==> spec_reconnect_delay(attempt) == 10,
        attempt == 2 ==> spec_reconnect_delay(attempt) == 20,
        attempt == 3 ==> spec_reconnect_delay(attempt) == 30,
        attempt == 4 ==> spec_reconnect_delay(attempt) == 40,
        attempt == 5 ==> spec_reconnect_delay(attempt) == 50,
        attempt >= 6 ==> spec_reconnect_delay(attempt) == 60,
        spec_reconnect_delay(attempt) <= spec_reconnect_delay(attempt + 1),
{
}

} // verus!
