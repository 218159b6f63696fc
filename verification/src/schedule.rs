//! The slot-based authorship schedule: every node derives the same author
//! from the shared wall clock and the sorted peer list, with no messages.

use vstd::prelude::*;

verus! {

/// The width of one authorship slot, in seconds.
pub const SLOT_SECS: u64 = 20;

/// The slot a wall-clock time falls in.
pub fn current_slot(now_secs: u64) -> (r: u64)
    ensures
        r == now_secs / SLOT_SECS,
{
    now_secs / SLOT_SECS
}

/// The index of the slot's author in the sorted peer list.
pub fn author_index(slot: u64, peer_count: usize) -> (r: usize)
    requires
        peer_count > 0,
    ensures
        r == slot as int % peer_count as int,
        r < peer_count,
{
    (slot % (peer_count as u64)) as usize
}

/// How long to wait until the next slot boundary.
pub fn secs_until_next_slot(now_secs: u64) -> (r: u64)
    ensures
        r == SLOT_SECS - now_secs % SLOT_SECS,
        1 <= r <= SLOT_SECS,
{
    SLOT_SECS - now_secs % SLOT_SECS
}

} // verus!
