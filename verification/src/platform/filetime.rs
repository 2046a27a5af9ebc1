//! Times as Windows counts them: in ticks of 100 nanoseconds since the
//! start of 1601.

use vstd::prelude::*;

verus! {

/// The 100-nanosecond ticks from the start of 1601 to the start of 1970.
pub const TICKS_TO_1970: u64 = 116_444_736_000_000_000;

/// The number of 100-nanosecond ticks from the start of 1601 to a time
/// given in seconds and nanoseconds since 1970; `None` where 64 bits do not
/// hold it.
pub fn ticks_since_1601(secs: u64, nanos: u32) -> (r: Option<u64>)
    ensures
        r == (if secs * 10_000_000 + nanos / 100 + 116_444_736_000_000_000 <= u64::MAX {
            Some((secs * 10_000_000 + nanos / 100 + 116_444_736_000_000_000) as u64)
        } else {
            None
        }),
{
    let fraction: u64 = (nanos / 100) as u64;
    let room: u64 = u64::MAX - TICKS_TO_1970 - fraction;
    if secs > room / 10_000_000 {
        None
    } else {
        Some(secs * 10_000_000 + fraction + TICKS_TO_1970)
    }
}

} // verus!
