//! The xorshift64* generator.

use vstd::prelude::*;

verus! {

/// The generator's state after one step from `state`.
pub open spec fn xorshift_next(state: u64) -> u64 {
    let a = state ^ (state >> 12);
    let b = a ^ (a << 25);
    b ^ (b >> 27)
}

/// The number the generator gives out on the step from `state`.
pub open spec fn xorshift_output(state: u64) -> u64 {
    xorshift_next(state).wrapping_mul(0x2545F4914F6CDD1Du64)
}

/// Advances the generator by one step and returns the number of that step.
pub fn xorshift64star(state: &mut u64) -> (out: u64)
    ensures
        *final(state) == xorshift_next(*old(state)),
        out == xorshift_output(*old(state)),
{
    *state ^= *state >> 12;
    *state ^= *state << 25;
    *state ^= *state >> 27;
    state.wrapping_mul(0x2545F4914F6CDD1Du64)
}

/// The generator's state after `n` steps from `state`.
pub open spec fn xorshift_after(state: u64, n: nat) -> u64
    decreases n,
{
    if n == 0 {
        state
    } else {
        xorshift_next(xorshift_after(state, (n - 1) as nat))
    }
}

/// The numbers that the generator gives out on its first `n` steps from
/// `state`, in order.
pub open spec fn xorshift_run(state: u64, n: nat) -> Seq<u64>
    decreases n,
{
    if n == 0 {
        Seq::empty()
    } else {
        xorshift_run(state, (n - 1) as nat).push(
            xorshift_output(xorshift_after(state, (n - 1) as nat)),
        )
    }
}

/// Advances the generator by `count` steps and returns their numbers.
pub fn xorshift_take(state: &mut u64, count: usize) -> (draws: Vec<u64>)
    ensures
        draws@.len() == count,
        draws@ == xorshift_run(*old(state), count as nat),
        *final(state) == xorshift_after(*old(state), count as nat),
{
    let mut draws: Vec<u64> = Vec::new();
    let mut n: usize = 0;
    while n < count
        invariant
            n <= count,
            draws@.len() == n,
            draws@ == xorshift_run(*old(state), n as nat),
            *state == xorshift_after(*old(state), n as nat),
        decreases count - n,
    {
        draws.push(xorshift64star(state));
        n += 1;
    }
    draws
}

/// The numbers that the generator gives out from `state` on, by their
/// place.
pub open spec fn xorshift_stream(state: u64) -> spec_fn(int) -> u64 {
    |i: int|
        if i >= 0 {
            xorshift_output(xorshift_after(state, i as nat))
        } else {
            0
        }
}

/// Steps add up: `b` steps after `a` steps are `a + b` steps.
pub proof fn lemma_xorshift_after_add(state: u64, a: nat, b: nat)
    ensures
        xorshift_after(xorshift_after(state, a), b) == xorshift_after(state, a + b),
    decreases b,
{
    if b > 0 {
        lemma_xorshift_after_add(state, a, (b - 1) as nat);
    }
}

/// A run of `n` steps holds `n` numbers, each the number of its step.
pub proof fn lemma_xorshift_run(state: u64, n: nat)
    ensures
        xorshift_run(state, n).len() == n,
        forall|i: int|
            0 <= i < n ==> #[trigger] xorshift_run(state, n)[i] == xorshift_output(
                xorshift_after(state, i as nat),
            ),
    decreases n,
{
    if n > 0 {
        lemma_xorshift_run(state, (n - 1) as nat);
    }
}

} // verus!
