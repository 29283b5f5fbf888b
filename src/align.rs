//! Page alignment of addresses inside a guest's linear memory.
use vstd::prelude::*;
use vstd::arithmetic::div_mod::lemma_fundamental_div_mod_converse;
use vstd::arithmetic::power2::{pow2, lemma_pow2_pos, lemma_pow2_strictly_increases};
use vstd::bits::{low_bits_mask, lemma_u64_low_bits_mask_is_mod};

verus! {

/// A page size is a power of two that a signed 64-bit address can hold.
pub open spec fn is_page_size(page_size: int) -> bool {
    exists|k: nat| k < 62 && pow2(k) == page_size
}

/// `ptr` rounded up to the next multiple of `page_size`; unchanged when it is
/// already a multiple.
pub open spec fn align_up(ptr: int, page_size: int) -> int {
    if ptr % page_size == 0 {
        ptr
    } else {
        ptr - ptr % page_size + page_size
    }
}

proof fn lemma_clear_low_bits(x: u64, m: u64)
    ensures
        x & !m == x - (x & m),
        (x & m) <= x,
{
    assert(x & !m == x - (x & m) && (x & m) <= x) by (bit_vector);
}

proof fn lemma_round_up_from_below(x: int, ps: int)
    requires
        x >= 0,
        ps > 0,
    ensures
        x - x % ps + ps == align_up(x + 1, ps),
{
    let q = x / ps;
    let r = x % ps;
    assert(x == q * ps + r) by {
        vstd::arithmetic::div_mod::lemma_fundamental_div_mod(x, ps);
        vstd::arithmetic::mul::lemma_mul_is_commutative(q, ps);
    }
    assert(0 <= r < ps) by {
        vstd::arithmetic::div_mod::lemma_mod_bound(x, ps);
    }
    if r + 1 < ps {
        lemma_fundamental_div_mod_converse(x + 1, ps, q, r + 1);
    } else {
        assert(x + 1 == (q + 1) * ps + 0) by (nonlinear_arith)
            requires
                x == q * ps + r,
                r + 1 == ps,
        ;
        lemma_fundamental_div_mod_converse(x + 1, ps, q + 1, 0);
    }
}

/// Rounds `ptr` up to the next page boundary, leaving an already aligned
/// pointer where it is: `((ptr - 1) & !(page_size - 1)) + page_size`.
pub fn page_align(ptr: i64, page_size: i64) -> (r: i64)
    requires
        ptr > 0,
        is_page_size(page_size as int),
        ptr - 1 + page_size <= i64::MAX,
    ensures
        r == align_up(ptr as int, page_size as int),
        r % page_size == 0,
        r >= ptr,
        r < ptr + page_size,
{
    let ghost k = choose|k: nat| k < 62 && pow2(k) == page_size;
    let p: u64 = (ptr - 1) as u64;
    let m: u64 = (page_size - 1) as u64;
    proof {
        lemma_pow2_pos(k);
        lemma_u64_low_bits_mask_is_mod(p, k);
        assert(low_bits_mask(k) == pow2(k) - 1);
        lemma_clear_low_bits(p, m);
        lemma_round_up_from_below(p as int, page_size as int);
        vstd::arithmetic::div_mod::lemma_mod_bound(p as int, page_size as int);
    }
    let base: u64 = p & !m;
    let r = (base + page_size as u64) as i64;
    proof {
        let a = ptr as int;
        let ps = page_size as int;
        if a % ps != 0 {
            vstd::arithmetic::div_mod::lemma_mod_bound(a, ps);
            vstd::arithmetic::div_mod::lemma_mod_sub_multiples_vanish(a, ps);
            assert((a - a % ps + ps) % ps == 0) by {
                vstd::arithmetic::div_mod::lemma_fundamental_div_mod(a, ps);
                let q = a / ps;
                assert(a - a % ps + ps == (q + 1) * ps) by (nonlinear_arith)
                    requires a == ps * q + a % ps;
                vstd::arithmetic::div_mod::lemma_mod_multiples_basic(q + 1, ps);
            }
        }
    }
    r
}

/// Whether `n` can serve as a page size: a power of two below `2^62`.
pub fn is_power_of_two(n: i64) -> (r: bool)
    ensures
        r == is_page_size(n as int),
{
    let mut p: u64 = 1;
    let mut k: u32 = 0;
    proof {
        vstd::arithmetic::power2::lemma2_to64();
    }
    while k < 62
        invariant
            k <= 62,
            p == pow2(k as nat),
            forall|j: nat| j < k ==> pow2(j) != n,
        decreases 62 - k,
    {
        if n >= 0 && p == n as u64 {
            return true;
        }
        proof {
            vstd::arithmetic::power2::lemma_pow2_unfold((k + 1) as nat);
            vstd::arithmetic::power2::lemma2_to64_rest();
            if k + 1 < 62 {
                lemma_pow2_strictly_increases((k + 1) as nat, 62);
            }
            assert(pow2((k + 1) as nat) <= 0x4000_0000_0000_0000);
        }
        p = p * 2;
        k = k + 1;
    }
    false
}

} // verus!
