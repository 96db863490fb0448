//! Decisions of the `sk_lookup` program that steers each address family to a
//! socket of its own: IPv4 connections to the socket in slot 0 of a
//! two-slot pool, IPv6 connections to the socket in slot 1.
use vstd::prelude::*;
use crate::sk_lookup::{assign_verdict, assign_verdict_spec, is_intercepted, INTERCEPTED_PORT, SK_DROP, SK_PASS};

verus! {

/// `AF_INET`.
pub const AF_INET: u32 = 2;
/// `AF_INET6`.
pub const AF_INET6: u32 = 10;
/// Pool slot that holds the IPv4 socket.
pub const IPV4_SLOT: u32 = 0;
/// Pool slot that holds the IPv6 socket.
pub const IPV6_SLOT: u32 = 1;
/// Capacity of the two-slot pool.
pub const FAMILY_SLOTS: u32 = 2;

/// What the program does next.
#[derive(Debug, Clone, Copy, PartialEq, Eq, Structural)]
pub enum FamilyAction {
    /// Return this verdict to the kernel.
    Verdict(u32),
    /// Look up `slot` in the socket pool, then call [`on_socket`].
    LookupSlot { slot: u32 },
    /// Assign the socket found to the connection, release the reference,
    /// then call [`on_assign`] with what the assignment returned.
    AssignSocket,
    /// Spin forever: the program never returns a verdict.
    Spin,
}

/// The pool slot that serves an address family, if the program serves it.
pub open spec fn family_slot(family: u32) -> Option<u32> {
    if family == AF_INET {
        Some(IPV4_SLOT)
    } else if family == AF_INET6 {
        Some(IPV6_SLOT)
    } else {
        None
    }
}

/// First step: the connection's local port and address family. Other ports,
/// and families other than IPv4 and IPv6, are left to the kernel.
pub fn on_lookup(local_port: u32, family: u32) -> (action: FamilyAction)
    ensures
        action == if !is_intercepted(local_port) {
            FamilyAction::Verdict(SK_PASS)
        } else {
            match family_slot(family) {
                Some(slot) => FamilyAction::LookupSlot { slot },
                None => FamilyAction::Verdict(SK_PASS),
            }
        },
{
    if local_port != INTERCEPTED_PORT {
        return FamilyAction::Verdict(SK_PASS);
    }
    if family == AF_INET {
        FamilyAction::LookupSlot { slot: IPV4_SLOT }
    } else if family == AF_INET6 {
        FamilyAction::LookupSlot { slot: IPV6_SLOT }
    } else {
        FamilyAction::Verdict(SK_PASS)
    }
}

/// Second step: whether the pool held a socket in the slot looked up.
pub fn on_socket(found: bool) -> (action: FamilyAction)
    ensures
        action == if found {
            FamilyAction::AssignSocket
        } else {
            FamilyAction::Verdict(SK_DROP)
        },
{
    if found {
        FamilyAction::AssignSocket
    } else {
        FamilyAction::Verdict(SK_DROP)
    }
}

/// Last step: what `bpf_sk_assign` returned.
pub fn on_assign(ret: i64) -> (action: FamilyAction)
    ensures
        action == FamilyAction::Verdict(assign_verdict_spec(ret)),
{
    FamilyAction::Verdict(assign_verdict(ret))
}

/// The program's panic handler: it spins and never returns a verdict.
pub fn panic() -> (action: FamilyAction)
    ensures
        action == FamilyAction::Spin,
{
    FamilyAction::Spin
}

/// Every slot the program looks up lies in its two-slot pool, and the two
/// families it serves never share a slot.
pub proof fn lemma_family_slots_distinct(family: u32)
    ensures
        family_slot(family) matches Some(slot) ==> slot < FAMILY_SLOTS,
        family_slot(AF_INET) != family_slot(AF_INET6),
{
}


/// IPv4 (`AF_INET`, 2) is served from slot 0, IPv6 (`AF_INET6`, 10) from
/// slot 1, and no other family is served.
pub proof fn lemma_family_slot_values(family: u32)
    ensures
        family == 2 ==> family_slot(family) == Some(0u32),
        family == 10 ==> family_slot(family) == Some(1u32),
        family != 2 && family != 10 ==> family_slot(family) is None,
{
}

} // verus!
