//! The compute kernel shared by every backend.
use vstd::prelude::*;
use vstd::arithmetic::div_mod::lemma_add_mod_noop;

verus! {

/// Number of mixing rounds that the kernel performs on each value.
pub const KERNEL_ROUNDS: u32 = 1000;

/// Values produced by the kernel are below this bound.
pub const KERNEL_MODULUS: u32 = 10000;

/// One mixing round: multiply by 31 and add 17 in 32-bit wrapping arithmetic,
/// then reduce modulo 10000.
pub open spec fn kernel_step(x: u32) -> u32 {
    (((31 * x as int + 17) % 0x1_0000_0000) % 10000) as u32
}

/// `n` mixing rounds applied to `x`.
pub open spec fn kernel_rounds(x: u32, n: nat) -> u32
    decreases n,
{
    if n == 0 {
        x
    } else {
        kernel_step(kernel_rounds(x, (n - 1) as nat))
    }
}

/// The kernel: a fixed number of mixing rounds.
pub open spec fn kernel(x: u32) -> u32 {
    kernel_rounds(x, KERNEL_ROUNDS as nat)
}

proof fn lemma_wrapping_step(x: u32)
    ensures
        (x.wrapping_mul(31).wrapping_add(17) % 10000) == kernel_step(x),
{
    let m: int = 0x1_0000_0000;
    let p: int = (x as int * 31) % m;
    lemma_add_mod_noop(31 * x as int, 17, m);
    assert(p + 17 < 2 * m);
    if p + 17 >= m {
        assert((p + 17) % m == p + 17 - m) by {
            vstd::arithmetic::div_mod::lemma_fundamental_div_mod_converse(p + 17, m, 1, p + 17 - m);
        }
    } else {
        vstd::arithmetic::div_mod::lemma_small_mod((p + 17) as nat, m as nat);
        assert((p + 17) % m == p + 17);
    }
}

/// The shared CPU-bound work function: it performs the same fixed number of
/// rounds for every input and returns `kernel(value)`.
pub fn process_value(value: u32) -> (r: u32)
    ensures
        r == kernel(value),
        r < KERNEL_MODULUS,
{
    let mut result = value;
    let mut i: u32 = 0;
    while i < KERNEL_ROUNDS
        invariant
            i <= KERNEL_ROUNDS,
            result == kernel_rounds(value, i as nat),
            i > 0 ==> result < KERNEL_MODULUS,
        decreases KERNEL_ROUNDS - i,
    {
        proof {
            lemma_wrapping_step(result);
        }
        result = result.wrapping_mul(31).wrapping_add(17) % 10000;
        i = i + 1;
    }
    result
}

} // verus!
