//! Wrapping 8-bit arithmetic with an addend of arbitrary width.

use vstd::prelude::*;

verus! {

/// The cell value `a` after `n` increments, each wrapping from 255 to 0.
pub open spec fn wrap_add(a: u8, n: nat) -> u8 {
    ((a as nat + n) % 256) as u8
}

/// The cell value `a` after `n` decrements, each wrapping from 0 to 255.
pub open spec fn wrap_sub(a: u8, n: nat) -> u8 {
    ((a as int - n as int) % 256) as u8
}

/// Adds `n2` to the cell value `n1` modulo 256.
pub fn unbalanced_wrapping_add(n1: u8, n2: usize) -> (r: u8)
    ensures
        r == wrap_add(n1, n2 as nat),
        r as int == (n1 as int + n2 as int) % 256,
{
    // Adding 256 changes nothing, so only the addend's residue matters.
    let wrapped_n2: u8 = (n2 % 256) as u8;
    n1.wrapping_add(wrapped_n2)
}

/// Subtracts `n2` from the cell value `n1` modulo 256.
pub fn unbalanced_wrapping_sub(n1: u8, n2: usize) -> (r: u8)
    ensures
        r == wrap_sub(n1, n2 as nat),
        r as int == (n1 as int - n2 as int) % 256,
{
    // Subtracting 256 changes nothing, so only the subtrahend's residue matters.
    let wrapped_n2: u8 = (n2 % 256) as u8;
    n1.wrapping_sub(wrapped_n2)
}

/// One wrapping increment after `n` of them is `n + 1` of them.
pub proof fn lemma_wrap_add_step(a: u8, n: nat)
    ensures
        wrap_add(wrap_add(a, n), 1) == wrap_add(a, n + 1),
{
}

/// Only the addend's residue modulo 256 matters.
pub proof fn lemma_wrap_residue(a: u8, n: nat)
    ensures
        wrap_add(a, n) == wrap_add(a, n % 256),
        wrap_sub(a, n) == wrap_sub(a, n % 256),
{
}

} // verus!
