//! Generators of packed test data.
use vstd::prelude::*;

verus! {

/// The first state of the generator of `gen_rand_packed`.
pub const RAND_SEED: u64 = 0x9E37_79B9_7F4A_7C15;

/// The factor by which each state of that generator follows the last.
pub const RAND_FACTOR: u64 = 0xBF58_476D_1CE4_E5B9;

/// The state of the generator after `k` steps: the seed times the factor `k`
/// times, modulo 2^64.
pub open spec fn rand_state(k: nat) -> u64
    decreases k,
{
    if k == 0 {
        RAND_SEED
    } else {
        ((rand_state((k - 1) as nat) as nat * RAND_FACTOR as nat) % 0x1_0000_0000_0000_0000) as u64
    }
}

/// `N` words of pseudo-random data: word `k` is the state after `k + 1` steps.
pub fn gen_rand_packed<const N: usize>() -> (r: [u64; N])
    ensures
        forall|k: int| 0 <= k < N ==> #[trigger] r@[k] == rand_state((k + 1) as nat),
{
    let mut r = [0u64; N];
    let mut rand: u64 = RAND_SEED;
    let mut i: usize = 0;
    while i < N
        invariant
            0 <= i <= N,
            r@.len() == N,
            rand == rand_state(i as nat),
            forall|k: int| 0 <= k < i ==> #[trigger] r@[k] == rand_state((k + 1) as nat),
        decreases N - i,
    {
        rand = rand.wrapping_mul(RAND_FACTOR);
        r[i] = rand;
        i += 1;
    }
    r
}

/// `N` words alternating between `val2` and `val1`, starting with `val2`.
pub fn gen_alternating_value<const N: usize>(val1: u64, val2: u64) -> (r: [u64; N])
    ensures
        forall|k: int| 0 <= k < N ==> #[trigger] r@[k] == if (k + 1) % 2 == 0 { val1 } else { val2 },
{
    let mut r = [0u64; N];
    let mut counter: usize = 0;
    while counter < N
        invariant
            0 <= counter <= N,
            r@.len() == N,
            forall|k: int| 0 <= k < counter ==> #[trigger] r@[k] == if (k + 1) % 2 == 0 {
                val1
            } else {
                val2
            },
        decreases N - counter,
    {
        let value = if (counter + 1) % 2 == 0 { val1 } else { val2 };
        r[counter] = value;
        counter += 1;
    }
    r
}

} // verus!
