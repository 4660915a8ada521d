//! Result codes that the kernel reports.

use vstd::prelude::*;

verus! {

pub const TIMEOUT_REACHED: u32 = 0x09401BFE;
pub const HANDLE_TYPE_MISMATCH: u32 = 0xD8E007F7;
pub const HANDLE_TYPE_MISMATCH_2: u32 = 0xD9001BF7;
/// Reported by ReplyAndReceive when a server session has no request.
pub const SESSION_EMPTY: u32 = 0xC920181A;

} // verus!
