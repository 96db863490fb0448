//! Decisions of the round-robin `sk_lookup` program.
//!
//! The program runs in the kernel: it reads the pool size and a counter from
//! a two-entry state map, picks the socket slot `counter % size`, stores the
//! incremented counter, looks the slot up in the socket pool and assigns the
//! socket found there to the incoming connection. The functions here take
//! what each of those steps observed and say what to do next; the program
//! that runs them performs the map and helper calls.
use vstd::prelude::*;
use vstd::arithmetic::div_mod::{lemma_fundamental_div_mod, lemma_mod_multiples_vanish, lemma_small_mod};
use crate::sk_lookup::{assign_verdict, assign_verdict_spec, is_intercepted, INTERCEPTED_PORT, SK_DROP, SK_PASS};

verus! {

/// Capacity of the socket pool, and so the largest pool the loader accepts.
pub const MAX_SOCKETS: u32 = 64;

/// What the program does next.
#[derive(Debug, Clone, Copy, PartialEq, Eq, Structural)]
pub enum LbAction {
    /// Return this verdict to the kernel.
    Verdict(u32),
    /// Read entry 0 of the state map (the pool size), then call [`on_pool_size`].
    ReadPoolSize,
    /// Read entry 1 of the state map (the counter), then call [`on_counter`].
    ReadCounter { pool_size: u64 },
    /// Store `next_counter` in entry 1, look up `slot` in the socket pool,
    /// then call [`on_socket`].
    Claim { next_counter: u64, slot: u32 },
    /// Assign the socket found to the connection, release the reference,
    /// then call [`on_assign`] with what the assignment returned.
    AssignSocket,
    /// Spin forever: the program never returns a verdict.
    Spin,
}

/// The slot tried for a lookup that read `counter` from a pool of `pool_size` sockets.
pub open spec fn slot_for(counter: u64, pool_size: u64) -> u32 {
    (counter % pool_size) as u32
}

/// The counter stored after a lookup that read `counter`; it wraps to 0.
pub open spec fn next_counter(counter: u64) -> u64 {
    if counter == u64::MAX {
        0
    } else {
        (counter + 1) as u64
    }
}

/// First step: the connection's local port.
pub fn on_lookup(local_port: u32) -> (action: LbAction)
    ensures
        action == if is_intercepted(local_port) {
            LbAction::ReadPoolSize
        } else {
            LbAction::Verdict(SK_PASS)
        },
{
    if local_port != INTERCEPTED_PORT {
        LbAction::Verdict(SK_PASS)
    } else {
        LbAction::ReadPoolSize
    }
}

/// Second step: the pool size read from the state map (`None` when the entry
/// could not be read). An unreadable or empty pool drops the connection.
pub fn on_pool_size(pool_size: Option<u64>) -> (action: LbAction)
    ensures
        action == match pool_size {
            None => LbAction::Verdict(SK_DROP),
            Some(n) => if n == 0 {
                LbAction::Verdict(SK_DROP)
            } else {
                LbAction::ReadCounter { pool_size: n }
            },
        },
{
    match pool_size {
        None => LbAction::Verdict(SK_DROP),
        Some(n) => if n == 0 {
            LbAction::Verdict(SK_DROP)
        } else {
            LbAction::ReadCounter { pool_size: n }
        },
    }
}

/// Third step: the counter read from the state map (`None` when the entry
/// could not be reached), for a pool of `pool_size` sockets.
pub fn on_counter(pool_size: u64, counter: Option<u64>) -> (action: LbAction)
    requires
        pool_size > 0,
    ensures
        action == match counter {
            None => LbAction::Verdict(SK_DROP),
            Some(c) => LbAction::Claim {
                next_counter: next_counter(c),
                slot: slot_for(c, pool_size),
            },
        },
{
    match counter {
        None => LbAction::Verdict(SK_DROP),
        Some(c) => LbAction::Claim {
            next_counter: c.wrapping_add(1),
            slot: (c % pool_size) as u32,
        },
    }
}

/// Fourth step: whether the socket pool held a socket in the claimed slot.
pub fn on_socket(found: bool) -> (action: LbAction)
    ensures
        action == if found {
            LbAction::AssignSocket
        } else {
            LbAction::Verdict(SK_DROP)
        },
{
    if found {
        LbAction::AssignSocket
    } else {
        LbAction::Verdict(SK_DROP)
    }
}

/// Last step: what `bpf_sk_assign` returned.
pub fn on_assign(ret: i64) -> (action: LbAction)
    ensures
        action == LbAction::Verdict(assign_verdict_spec(ret)),
{
    LbAction::Verdict(assign_verdict(ret))
}

/// The program's panic handler: it spins and never returns a verdict.
pub fn panic() -> (action: LbAction)
    ensures
        action == LbAction::Spin,
{
    LbAction::Spin
}


/// The counter after `k` lookups that each claimed a slot, starting from `counter`.
pub open spec fn counter_after(counter: u64, k: nat) -> u64
    decreases k,
{
    if k == 0 {
        counter
    } else {
        next_counter(counter_after(counter, (k - 1) as nat))
    }
}

/// Until it wraps, the counter simply counts the lookups.
pub proof fn lemma_counter_counts(counter: u64, k: nat)
    requires
        counter + k <= u64::MAX,
    ensures
        counter_after(counter, k) == counter + k,
    decreases k,
{
    if k > 0 {
        lemma_counter_counts(counter, (k - 1) as nat);
    }
}

/// The counter goes up by one per claimed slot, and wraps from the largest
/// `u64` to 0.
pub proof fn lemma_next_counter_wraps(counter: u64)
    ensures
        counter < u64::MAX ==> next_counter(counter) == counter + 1,
        counter == u64::MAX ==> next_counter(counter) == 0,
{
}

/// Every slot that a lookup claims lies inside the pool.
pub proof fn lemma_slot_in_pool(counter: u64, pool_size: u64)
    requires
        0 < pool_size <= u32::MAX as u64 + 1,
    ensures
        slot_for(counter, pool_size) < pool_size,
        slot_for(counter, pool_size) as int == counter as int % pool_size as int,
{
}

/// Round robin: over any `pool_size` consecutive lookups that claim a slot
/// (while the counter does not wrap), every slot of the pool is claimed exactly once.
pub proof fn lemma_round_robin_fair(counter: u64, pool_size: u64, slot: u32)
    requires
        0 < pool_size <= u32::MAX as u64 + 1,
        counter + pool_size - 1 <= u64::MAX,
        slot < pool_size,
    ensures
        exists|k: nat| k < pool_size && #[trigger] slot_for(counter_after(counter, k), pool_size) == slot,
        forall|k1: nat, k2: nat|
            k1 < pool_size && k2 < pool_size && #[trigger] slot_for(counter_after(counter, k1), pool_size)
                == slot && #[trigger] slot_for(counter_after(counter, k2), pool_size) == slot ==> k1 == k2,
{
    let n = pool_size as int;
    let c = counter as int;
    let r = c % n;
    lemma_fundamental_div_mod(c, n);
    let q = c / n;
    let k: int = if slot as int >= r { slot - r } else { slot + n - r };
    assert(0 <= k < n);
    lemma_counter_counts(counter, k as nat);
    lemma_mod_multiples_vanish(q, r + k, n);
    assert(c + k == n * q + (r + k));
    if slot as int >= r {
        lemma_small_mod((r + k) as nat, n as nat);
    } else {
        lemma_mod_multiples_vanish(1, slot as int, n);
        assert(r + k == n * 1 + slot);
        lemma_small_mod(slot as nat, n as nat);
    }
    assert(slot_for(counter_after(counter, k as nat), pool_size) == slot);
    assert forall|k1: nat, k2: nat|
        k1 < pool_size && k2 < pool_size && #[trigger] slot_for(counter_after(counter, k1), pool_size)
            == slot && #[trigger] slot_for(counter_after(counter, k2), pool_size) == slot implies k1 == k2 by {
        lemma_counter_counts(counter, k1);
        lemma_counter_counts(counter, k2);
        lemma_fundamental_div_mod(c + k1, n);
        lemma_fundamental_div_mod(c + k2, n);
        let q1 = (c + k1) / n;
        let q2 = (c + k2) / n;
        assert((c + k1) % n == slot as int);
        assert((c + k2) % n == slot as int);
        let sl = slot as int;
        assert(c + k1 == n * q1 + sl);
        assert(c + k2 == n * q2 + sl);
        assert(k1 == k2) by (nonlinear_arith)
            requires
                c + k1 == n * q1 + sl,
                c + k2 == n * q2 + sl,
                0 <= k1 < n,
                0 <= k2 < n,
                n > 0,
        ;
    }
}

} // verus!
