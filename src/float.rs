//! Widening a single-precision float to double precision, on bit patterns.
use vstd::prelude::*;

verus! {

/// Doubles a nonzero subnormal mantissa `m` until its leading one reaches
/// bit 23; gives the shifted mantissa and the number of doublings `k`.
pub open spec fn normalize(m: nat, k: nat) -> (nat, nat)
    decreases 0x100_0000 - m,
{
    if m == 0 || m >= 0x80_0000 {
        (m, k)
    } else {
        normalize(2 * m, k + 1)
    }
}

/// The bits of the double that has the value of the single with bits
/// `bits`: sign kept; exponent rebiased from 127 to 1023; mantissa moved
/// to the top of the 52-bit field. Subnormal singles become normal
/// doubles; infinities and NaNs keep their payload.
pub open spec fn widen(bits: u32) -> u64 {
    let sign = (bits / 0x8000_0000) as nat;
    let e = ((bits / 0x80_0000) % 0x100) as nat;
    let m = (bits % 0x80_0000) as nat;
    let s = sign * 0x8000_0000_0000_0000;
    let top = 0x10_0000_0000_0000nat;
    if e == 0xff {
        (s + 0x7ff * top + m * 0x2000_0000) as u64
    } else if e == 0 && m == 0 {
        s as u64
    } else if e == 0 {
        let (mm, k) = normalize(m, 0);
        (s + (897 - k) * top + (mm - 0x80_0000) * 0x2000_0000) as u64
    } else {
        (s + (e + 896) * top + m * 0x2000_0000) as u64
    }
}

pub proof fn lemma_normalize(m: nat, k: nat)
    requires
        0 < m < 0x100_0000,
    ensures
        0x80_0000 <= normalize(m, k).0 < 0x100_0000,
    decreases 0x100_0000 - m,
{
    if m < 0x80_0000 {
        lemma_normalize(2 * m, k + 1);
    }
}

pub open spec fn pow2(k: nat) -> nat
    decreases k,
{
    if k == 0 {
        1
    } else {
        2 * pow2((k - 1) as nat)
    }
}

pub proof fn lemma_pow2_large(k: nat)
    requires
        k >= 23,
    ensures
        pow2(k) >= 0x80_0000,
    decreases k,
{
    if k > 23 {
        lemma_pow2_large((k - 1) as nat);
    } else {
        reveal_with_fuel(pow2, 24);
    }
}

/// The double-precision bits of the single-precision value `bits`.
pub fn widen_f32_bits(bits: u32) -> (r: u64)
    ensures
        r == widen(bits),
{
    let sign: u64 = (bits / 0x8000_0000) as u64;
    let e: u64 = ((bits / 0x80_0000) % 0x100) as u64;
    let m: u64 = (bits % 0x80_0000) as u64;
    let s: u64 = if sign == 1 { 0x8000_0000_0000_0000 } else { 0 };
    if e == 0xff {
        s + 0x7ff * 0x10_0000_0000_0000 + m * 0x2000_0000
    } else if e == 0 && m == 0 {
        s
    } else if e == 0 {
        let mut mm: u64 = m;
        let mut k: u64 = 0;
        proof {
            lemma_normalize(m as nat, 0);
        }
        while mm < 0x80_0000
            invariant
                0 < mm < 0x100_0000,
                k <= 23,
                mm >= pow2(k as nat),
                normalize(mm as nat, k as nat) == normalize(m as nat, 0),
            decreases 0x100_0000 - mm,
        {
            proof {
                if k >= 23 {
                    lemma_pow2_large(k as nat);
                }
            }
            mm = mm * 2;
            k = k + 1;
        }
        s + (897 - k) * 0x10_0000_0000_0000 + (mm - 0x80_0000) * 0x2000_0000
    } else {
        s + (e + 896) * 0x10_0000_0000_0000 + m * 0x2000_0000
    }
}

} // verus!
