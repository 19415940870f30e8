//! The wall clock in milliseconds.
use vstd::prelude::*;

use crate::outside::unix_millis;

verus! {

/// Milliseconds as a 64-bit number, 0 where the clock stands before the Unix epoch.
pub fn clock_ms(elapsed: Option<u128>) -> (r: u64)
    ensures
        r == match elapsed {
            Some(ms) => (ms % 0x1_0000_0000_0000_0000) as u64,
            None => 0,
        },
{
    match elapsed {
        Some(ms) => (ms % 0x1_0000_0000_0000_0000) as u64,
        None => 0,
    }
}

/// Milliseconds since the Unix epoch.
pub fn now_ms() -> (r: u64) {
    clock_ms(unix_millis())
}

} // verus!
