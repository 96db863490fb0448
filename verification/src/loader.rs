//! The loader's plan: how many sockets it accepts, and where each one goes
//! in the socket pool that the round-robin program reads.
use vstd::prelude::*;
use crate::lb::{lemma_slot_in_pool, slot_for, MAX_SOCKETS};

verus! {

/// Why the loader's command line is refused.
#[derive(Debug, Clone, Copy, PartialEq, Eq, Structural)]
pub enum LoaderArgError {
    /// Fewer than an object path and one socket were given.
    Usage,
    /// More sockets were given than the pool holds.
    TooManySockets,
}

/// Checks the number of command-line arguments (program name included) and
/// gives the number of socket arguments.
pub fn check_loader_args(arg_count: usize) -> (r: Result<usize, LoaderArgError>)
    ensures
        r == if arg_count < 3 {
            Err(LoaderArgError::Usage)
        } else if arg_count - 2 > MAX_SOCKETS {
            Err(LoaderArgError::TooManySockets)
        } else {
            Ok((arg_count - 2) as usize)
        },
{
    if arg_count < 3 {
        return Err(LoaderArgError::Usage);
    }
    let sockets = arg_count - 2;
    if sockets > MAX_SOCKETS as usize {
        return Err(LoaderArgError::TooManySockets);
    }
    Ok(sockets)
}

/// Where the loader puts its sockets: slot `i` of the pool gets the `i`-th
/// descriptor, and the state map's pool size is the number of descriptors.
pub struct PoolLayout {
    pub slots: Vec<(u32, i32)>,
    pub pool_size: u64,
}

/// Slot `i` holds the `i`-th descriptor.
pub open spec fn pool_slots(fds: Seq<i32>) -> Seq<(u32, i32)> {
    Seq::new(fds.len(), |i: int| (i as u32, fds[i]))
}

/// Lays the resolved descriptors out in the socket pool, in argument order.
pub fn pool_layout(fds: &Vec<i32>) -> (layout: PoolLayout)
    ensures
        layout.slots@ == pool_slots(fds@),
        layout.pool_size == fds@.len(),
{
    let mut slots: Vec<(u32, i32)> = Vec::new();
    let mut i: usize = 0;
    while i < fds.len()
        invariant
            i <= fds@.len(),
            slots@ == pool_slots(fds@).take(i as int),
        decreases fds@.len() - i,
    {
        slots.push((i as u32, fds[i]));
        assert(slots@ =~= pool_slots(fds@).take(i + 1));
        i = i + 1;
    }
    assert(pool_slots(fds@).take(i as int) =~= pool_slots(fds@));
    PoolLayout { slots, pool_size: fds.len() as u64 }
}

/// The pool holds 64 sockets, and the layout puts the `i`-th descriptor in
/// slot `i`, for every `i`, keeping the descriptors' order.
pub proof fn lemma_pool_layout_in_order(fds: Seq<i32>, i: int)
    requires
        0 <= i < fds.len() <= 64,
    ensures
        MAX_SOCKETS == 64u32,
        pool_slots(fds).len() == fds.len(),
        pool_slots(fds)[i].0 as int == i,
        pool_slots(fds)[i].1 == fds[i],
{
}

/// Whatever counter the round-robin program reads, the slot it claims in a
/// pool that the loader filled holds one of the loader's descriptors: the
/// loader accepts at most as many sockets as the pool has room for, fills
/// slots `0..n`, and tells the program `n`.
pub proof fn lemma_claimed_slot_is_filled(fds: Seq<i32>, counter: u64)
    requires
        0 < fds.len() <= MAX_SOCKETS,
    ensures
        ({
            let slot = slot_for(counter, fds.len() as u64);
            &&& slot < fds.len()
            &&& slot < MAX_SOCKETS
            &&& pool_slots(fds)[slot as int] == (slot, fds[slot as int])
        }),
{
    lemma_slot_in_pool(counter, fds.len() as u64);
}

} // verus!
