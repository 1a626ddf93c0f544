//! Integer utilities: alignment on power-of-two boundaries, ceiling
//! division, powers of two, logarithms, and the saved-register record used
//! by context switching.

use vstd::prelude::*;

verus! {

use vstd::arithmetic::div_mod::lemma_div_decreases;
use vstd::arithmetic::div_mod::lemma_div_denominator;
use vstd::arithmetic::div_mod::lemma_div_pos_is_pos;
use vstd::arithmetic::div_mod::lemma_fundamental_div_mod;
use vstd::arithmetic::power2::lemma2_to64;
use vstd::arithmetic::power2::lemma_pow2_adds;
use vstd::arithmetic::power2::lemma_pow2_pos;
use vstd::arithmetic::power2::lemma_pow2_strictly_increases;
use vstd::arithmetic::power2::pow2;
use vstd::bits::lemma_u32_pow2_no_overflow;
use vstd::bits::lemma_u32_shl_is_mul;
use vstd::bits::lemma_usize_low_bits_mask_is_mod;
use vstd::bits::low_bits_mask;

/// The size in bytes of a memory page.
pub const PAGE_SIZE: usize = 4096;

/// True when `n` is a positive power of two, the only boundaries the
/// alignment helpers accept.
pub open spec fn is_power_of_two(n: usize) -> bool {
    exists|k: nat| k < usize::BITS && n == pow2(k)
}

/// Tells whether the address `addr` is aligned on the boundary `n`.
pub fn is_aligned(addr: usize, n: usize) -> (r: bool)
    requires
        is_power_of_two(n),
    ensures
        r == (addr as int % n as int == 0),
{
    proof {
        let k = choose|k: nat| k < usize::BITS && n == pow2(k);
        lemma_pow2_pos(k);
        lemma_usize_low_bits_mask_is_mod(addr, k);
        assert(n - 1 == low_bits_mask(k));
    }
    (addr & (n - 1)) == 0
}

/// Aligns the address down: the result is the greatest multiple of `n`
/// not above `addr`.
pub fn down_align(addr: usize, n: usize) -> (r: usize)
    requires
        is_power_of_two(n),
    ensures
        r == addr as int - addr as int % n as int,
        r as int % n as int == 0,
        r <= addr,
        addr - r < n,
{
    proof {
        let k = choose|k: nat| k < usize::BITS && n == pow2(k);
        lemma_pow2_pos(k);
        lemma_usize_low_bits_mask_is_mod(addr, k);
        assert(n - 1 == low_bits_mask(k));
        lemma_fundamental_div_mod(addr as int, n as int);
        assert((addr as int - addr as int % n as int) % n as int == 0) by (nonlinear_arith)
            requires
                n > 0,
        ;
    }
    addr - (addr & (n - 1))
}

/// Aligns the address up past it: the result is the least multiple of `n`
/// strictly greater than `addr`.
pub fn up_align(addr: usize, n: usize) -> (r: usize)
    requires
        is_power_of_two(n),
        addr as int - addr as int % n as int + n as int <= usize::MAX,
    ensures
        r == addr as int - addr as int % n as int + n as int,
        r as int % n as int == 0,
        addr < r,
        r - addr <= n,
{
    proof {
        let k = choose|k: nat| k < usize::BITS && n == pow2(k);
        lemma_pow2_pos(k);
        assert((addr as int - addr as int % n as int + n as int) % n as int == 0)
            by (nonlinear_arith)
            requires
                n > 0,
        ;
    }
    down_align(addr, n) + n
}

/// Aligns the address: the result is the least multiple of `n` at or
/// above `addr`.
pub fn align(addr: usize, n: usize) -> (r: usize)
    requires
        is_power_of_two(n),
        addr as int - addr as int % n as int + n as int <= usize::MAX,
    ensures
        r as int % n as int == 0,
        addr <= r,
        r - addr < n,
{
    proof {
        let k = choose|k: nat| k < usize::BITS && n == pow2(k);
        lemma_pow2_pos(k);
        assert(0 <= addr as int % n as int && (addr as int % n as int) < n as int)
            by (nonlinear_arith)
            requires
                n > 0,
        ;
    }
    if is_aligned(addr, n) {
        addr
    } else {
        up_align(addr, n)
    }
}

/// Tells whether the two addresses lie on the same memory page.
pub fn same_page(p0: usize, p1: usize) -> (r: bool)
    ensures
        r == (p0 as int / PAGE_SIZE as int == p1 as int / PAGE_SIZE as int),
{
    proof {
        lemma2_to64();
        assert(is_power_of_two(PAGE_SIZE)) by {
            assert(PAGE_SIZE == pow2(12));
        }
        lemma_fundamental_div_mod(p0 as int, PAGE_SIZE as int);
        lemma_fundamental_div_mod(p1 as int, PAGE_SIZE as int);
        assert(forall|a: int, b: int|
            #[trigger] (a * PAGE_SIZE as int) == #[trigger] (b * PAGE_SIZE as int) ==> a == b)
            by (nonlinear_arith);
    }
    down_align(p0, PAGE_SIZE) == down_align(p1, PAGE_SIZE)
}

/// Computes the ceiling of `n0 / n1` without floating point: the result
/// is the least number of `n1`-sized groups that cover `n0`.
pub fn ceil_division(n0: u32, n1: u32) -> (r: u32)
    requires
        n1 > 0,
    ensures
        n0 <= r * n1,
        r * n1 < n0 + n1,
        r == if n0 as int % n1 as int == 0 {
            n0 as int / n1 as int
        } else {
            n0 as int / n1 as int + 1
        },
{
    proof {
        lemma_fundamental_div_mod(n0 as int, n1 as int);
        lemma_div_pos_is_pos(n0 as int, n1 as int);
        if n1 >= 2 && n0 > 0 {
            lemma_div_decreases(n0 as int, n1 as int);
        }
        let q = n0 as int / n1 as int;
        assert(n1 as int * q == q * n1 as int) by (nonlinear_arith);
        assert((q + 1) * n1 as int == q * n1 as int + n1 as int) by (nonlinear_arith);
        assert(0 <= n0 as int % n1 as int && (n0 as int % n1 as int) < n1 as int)
            by (nonlinear_arith)
            requires
                n1 > 0,
        ;
    }
    if (n0 % n1) != 0 {
        (n0 / n1) + 1
    } else {
        n0 / n1
    }
}

/// Computes two to the power `n` on 32-bit unsigned integers.
pub fn pow2_u32(n: u32) -> (r: u32)
    requires
        n < 32,
    ensures
        r == pow2(n as nat),
{
    proof {
        lemma_u32_pow2_no_overflow(n as nat);
        lemma_u32_shl_is_mul(1, n);
    }
    1u32 << n
}

/// The floor of the base-two logarithm of a positive number (and zero
/// for zero).
pub open spec fn spec_log2(n: u32) -> nat
    decreases n,
{
    if n <= 1 {
        0
    } else {
        1 + spec_log2(n / 2)
    }
}

/// Computes the floor of the base-two logarithm of `n`: the result `r`
/// is `spec_log2(n)` and satisfies `2^r <= n < 2^(r+1)`. For zero, where
/// no logarithm exists, one is returned.
pub fn log2(n: u32) -> (r: u32)
    ensures
        n == 0 ==> r == 1,
        n > 0 ==> r == spec_log2(n) && r < 32 && pow2(r as nat) <= n < pow2((r + 1) as nat),
{
    if n == 0 {
        return 1;
    }
    let mut v = n;
    let mut r: u32 = 0;
    proof {
        lemma2_to64();
    }
    while v >= 2
        invariant
            n > 0,
            1 <= v,
            r < 32,
            v as int == n as int / pow2(r as nat) as int,
            spec_log2(n) == r + spec_log2(v),
        decreases v,
    {
        proof {
            lemma_pow2_pos(r as nat);
            lemma_div_denominator(n as int, pow2(r as nat) as int, 2);
            lemma_pow2_adds(r as nat, 1);
            lemma2_to64();
            assert(pow2(r as nat) as int * 2 == pow2((r + 1) as nat) as int);
            // The quotient is still at least one, so the exponent stays
            // below the word width.
            assert(pow2((r + 1) as nat) <= n) by {
                lemma_pow2_pos((r + 1) as nat);
                assert(v as int / 2 >= 1);
                assert(v as int / 2 == n as int / (pow2(r as nat) as int * 2));
                assert(n as int / pow2((r + 1) as nat) as int >= 1);
                lemma_fundamental_div_mod(n as int, pow2((r + 1) as nat) as int);
                assert(forall|q: int, d: int|
                    q >= 1 && d > 0 ==> #[trigger] (d * q) >= d) by (nonlinear_arith);
            }
            if r + 1 >= 32 {
                lemma_pow2_strictly_increases(31, (r + 1) as nat);
                assert(pow2(32) > u32::MAX);
            }
        }
        v = v / 2;
        r = r + 1;
    }
    proof {
        lemma_pow2_pos(r as nat);
        lemma_fundamental_div_mod(n as int, pow2(r as nat) as int);
        lemma_pow2_adds(r as nat, 1);
        lemma2_to64();
        assert(n as int == 1 * pow2(r as nat) as int + n as int % pow2(r as nat) as int);
        assert(n < pow2((r + 1) as nat)) by (nonlinear_arith)
            requires
                n as int == pow2(r as nat) as int + n as int % pow2(r as nat) as int,
                0 <= n as int % pow2(r as nat) as int,
                (n as int % pow2(r as nat) as int) < pow2(r as nat) as int,
                pow2((r + 1) as nat) as int == 2 * pow2(r as nat) as int,
        ;
    }
    r
}

/// Computes a power-of-two approximation of the square root of `n`:
/// exactly `2^(log2(n) / 2)` for positive `n`, which satisfies
/// `r * r <= n < 4 * r * r`.
pub fn sqrt(n: u32) -> (r: u32)
    ensures
        n == 0 ==> r == 1,
        n > 0 ==> r == pow2((spec_log2(n) / 2) as nat) && n < 4 * (r as int) * (r as int) && (
        r as int) * (r as int) <= n,
{
    let k = log2(n);
    let r = pow2_u32(k / 2);
    proof {
        lemma2_to64();
        if n > 0 {
            let h = (k / 2) as nat;
            lemma_pow2_adds(h, h);
            lemma_pow2_adds(h + h, 1);
            lemma_pow2_adds(h + h, 2);
            lemma2_to64();
            assert(r as int * r as int == pow2(h + h));
            assert(4 * (r as int) * (r as int) == 4 * (r as int * r as int))
                by (nonlinear_arith);
            if k % 2 == 0 {
                assert(h + h == k);
                assert(pow2((k + 1) as nat) == pow2(h + h + 1));
                assert(pow2(h + h + 1) == pow2(h + h) * pow2(1));
                assert(n < 2 * pow2(h + h));
            } else {
                assert(h + h + 1 == k);
                assert(pow2(k as nat) == pow2(h + h) * pow2(1));
                assert(pow2((k + 1) as nat) == pow2(h + h) * pow2(2));
                lemma_pow2_strictly_increases(h + h, k as nat);
                assert(pow2(h + h) < pow2(k as nat) <= n);
                assert(n < 4 * pow2(h + h));
            }
        }
    }
    r
}

/// Returns the size of the type in bits.
pub fn bit_size_of<T>() -> (r: usize)
    requires
        8 * vstd::layout::size_of::<T>() <= usize::MAX,
    ensures
        r == 8 * vstd::layout::size_of::<T>(),
{
    core::mem::size_of::<T>() * 8
}

/// Returns the size in bytes of a bitfield of `n` entries.
pub fn bitfield_size(n: usize) -> (r: usize)
    requires
        n <= u32::MAX,
    ensures
        n <= 8 * r,
        8 * r < n + 8,
{
    let r = ceil_division(n as u32, 8);
    proof {
        assert(n as u32 == n);
        assert(n <= r as int * 8 && r as int * 8 < n + 8);
    }
    r as usize
}

/// The saved register state of an interrupted context.
#[derive(Clone, Copy, Debug, PartialEq, Eq, Structural)]
pub struct Regs {
    pub ebp: i32,
    pub esp: i32,
    pub eip: i32,
    pub eflags: i32,
    pub eax: i32,
    pub ebx: i32,
    pub ecx: i32,
    pub edx: i32,
    pub esi: i32,
    pub edi: i32,
}

impl Regs {
    /// A register record with every register zeroed.
    pub fn zeroed() -> (r: Regs)
        ensures
            r == (Regs {
                ebp: 0,
                esp: 0,
                eip: 0,
                eflags: 0,
                eax: 0,
                ebx: 0,
                ecx: 0,
                edx: 0,
                esi: 0,
                edi: 0,
            }),
    {
        Regs { ebp: 0, esp: 0, eip: 0, eflags: 0, eax: 0, ebx: 0, ecx: 0, edx: 0, esi: 0, edi: 0 }
    }
}

} // verus!
