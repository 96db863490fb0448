//! Verdicts and rules shared by the two `sk_lookup` programs.
use vstd::prelude::*;

verus! {

/// Verdict that drops the connection.
pub const SK_DROP: u32 = 0;

/// Verdict that lets the kernel go on with its own socket lookup (or with
/// the socket that the program assigned).
pub const SK_PASS: u32 = 1;

/// The only local port whose connections the programs steer.
pub const INTERCEPTED_PORT: u32 = 443;

/// Whether a lookup for `local_port` is one that the programs steer.
pub open spec fn is_intercepted(local_port: u32) -> bool {
    local_port == INTERCEPTED_PORT
}

/// The verdict after `bpf_sk_assign` returned `ret`: the connection goes to the
/// assigned socket when the helper succeeded, and is dropped otherwise.
pub open spec fn assign_verdict_spec(ret: i64) -> u32 {
    if ret == 0 {
        SK_PASS
    } else {
        SK_DROP
    }
}

pub fn assign_verdict(ret: i64) -> (verdict: u32)
    ensures
        verdict == assign_verdict_spec(ret),
{
    if ret == 0 {
        SK_PASS
    } else {
        SK_DROP
    }
}


/// The verdicts are the kernel's: `SK_DROP` is 0, `SK_PASS` is 1.
pub proof fn lemma_verdict_values()
    ensures
        SK_DROP == 0u32,
        SK_PASS == 1u32,
{
}

/// Only port 443 is steered; every other local port is left to the kernel.
pub proof fn lemma_only_port_443_is_intercepted(local_port: u32)
    ensures
        is_intercepted(local_port) <==> local_port == 443,
{
}

/// A connection passes after the assignment step exactly when `bpf_sk_assign`
/// returned 0; every other return value, negative errors included, drops it.
pub proof fn lemma_pass_only_after_successful_assign(ret: i64)
    ensures
        ret == 0 ==> assign_verdict_spec(ret) == 1u32,
        ret != 0 ==> assign_verdict_spec(ret) == 0u32,
{
}

} // verus!
