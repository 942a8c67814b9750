//! Exact comparison of products of four factors (three `u64` values and one
//! small constant), which need up to 200 bits; the products are held in three
//! 64-bit limbs.

use vstd::prelude::*;

verus! {

/// 2^64, the base of a limb.
pub open spec fn base() -> nat {
    0x1_0000_0000_0000_0000nat
}

/// The number `hi * 2^128 + mid * 2^64 + lo`.
pub open spec fn limbs_value(hi: nat, mid: nat, lo: nat) -> nat {
    hi * base() * base() + mid * base() + lo
}

proof fn lemma_split(x: nat)
    ensures
        x == (x / base()) * base() + x % base(),
        x % base() < base(),
{
    let b = base();
    assert(x == (x / b) * b + x % b) by (nonlinear_arith)
        requires
            b > 0,
    ;
    assert(x % b < b) by (nonlinear_arith)
        requires
            b > 0,
    ;
}

proof fn lemma_mul_bound(x: nat, y: nat, bx: nat, by_: nat)
    requires
        x <= bx,
        y <= by_,
    ensures
        x * y <= bx * by_,
{
    assert(x * y <= bx * by_) by (nonlinear_arith)
        requires
            x <= bx,
            y <= by_,
    ;
}

/// `a * b * c * k` as three limbs `(hi, mid, lo)`.
fn product4(a: u64, b: u64, c: u64, k: u64) -> (r: (u128, u64, u64))
    requires
        k < 256,
    ensures
        limbs_value(r.0 as nat, r.1 as nat, r.2 as nat) == a * b * c * k,
{
    let ghost bs = base();
    let m: u128 = 0x1_0000_0000_0000_0000u128;
    assert(m as nat == bs);
    proof {
        lemma_mul_bound(a as nat, b as nat, u64::MAX as nat, u64::MAX as nat);
    }
    let p: u128 = (a as u128) * (b as u128);
    let ph: u128 = p / m;
    let pl: u128 = p % m;
    proof {
        lemma_split(p as nat);
        lemma_mul_bound(pl as nat, c as nat, u64::MAX as nat, u64::MAX as nat);
        assert(ph <= u64::MAX) by (nonlinear_arith)
            requires
                p <= u64::MAX * u64::MAX,
                ph == p / m,
                m == 0x1_0000_0000_0000_0000u128,
        ;
        lemma_mul_bound(ph as nat, c as nat, u64::MAX as nat, u64::MAX as nat);
    }
    let t1: u128 = pl * (c as u128);
    let t2: u128 = ph * (c as u128);
    proof {
        lemma_split(t1 as nat);
        assert(t1 / m <= u64::MAX) by (nonlinear_arith)
            requires
                t1 <= u64::MAX * u64::MAX,
                m == 0x1_0000_0000_0000_0000u128,
        ;
    }
    let q_hi: u128 = t2 + t1 / m;
    let q_lo: u128 = t1 % m;
    proof {
        // p * c == q_hi * m + q_lo
        assert(p * c == q_hi * m + q_lo) by (nonlinear_arith)
            requires
                p == ph * m + pl,
                t1 == pl * c,
                t2 == ph * c,
                t1 == (t1 / m) * m + t1 % m,
                q_hi == t2 + t1 / m,
                q_lo == t1 % m,
        ;
        lemma_split(q_hi as nat);
    }
    let h1: u128 = q_hi / m;
    let h0: u128 = q_hi % m;
    proof {
        assert(h1 <= u64::MAX) by (nonlinear_arith)
            requires
                q_hi < 0x1_0000_0000_0000_0000_0000_0000_0000_0000,
                h1 == q_hi / m,
                m == 0x1_0000_0000_0000_0000u128,
        ;
    }
    proof {
        lemma_mul_bound(q_lo as nat, k as nat, u64::MAX as nat, 255);
        lemma_mul_bound(h0 as nat, k as nat, u64::MAX as nat, 255);
        lemma_mul_bound(h1 as nat, k as nat, u64::MAX as nat, 255);
    }
    let u: u128 = q_lo * (k as u128);
    proof {
        lemma_split(u as nat);
        assert(u / m <= 255) by (nonlinear_arith)
            requires
                u <= u64::MAX * 255,
                m == 0x1_0000_0000_0000_0000u128,
        ;
    }
    let v: u128 = h0 * (k as u128) + u / m;
    proof {
        lemma_split(v as nat);
        assert(v / m <= 256) by (nonlinear_arith)
            requires
                v <= u64::MAX * 255 + 255,
                m == 0x1_0000_0000_0000_0000u128,
        ;
    }
    let w: u128 = h1 * (k as u128) + v / m;
    proof {
        assert(p * c * k == w * m * m + (v % m) * m + u % m) by (nonlinear_arith)
            requires
                p * c == q_hi * m + q_lo,
                q_hi == h1 * m + h0,
                u == q_lo * k,
                u == (u / m) * m + u % m,
                v == h0 * k + u / m,
                v == (v / m) * m + v % m,
                w == h1 * k + v / m,
        ;
        assert(p == a * b);
    }
    (w, (v % m) as u64, (u % m) as u64)
}

proof fn lemma_limbs_compare(h1: nat, m1: nat, l1: nat, h2: nat, m2: nat, l2: nat)
    requires
        m1 < base(),
        l1 < base(),
        m2 < base(),
        l2 < base(),
    ensures
        (limbs_value(h1, m1, l1) >= limbs_value(h2, m2, l2)) == (h1 > h2 || (h1 == h2 && (m1
            > m2 || (m1 == m2 && l1 >= l2)))),
{
    let b = base();
    let lo1 = m1 * b + l1;
    let lo2 = m2 * b + l2;
    assert(lo1 < b * b && lo2 < b * b) by (nonlinear_arith)
        requires
            m1 < b,
            l1 < b,
            m2 < b,
            l2 < b,
            lo1 == m1 * b + l1,
            lo2 == m2 * b + l2,
    ;
    assert((lo1 >= lo2) == (m1 > m2 || (m1 == m2 && l1 >= l2))) by (nonlinear_arith)
        requires
            m1 < b,
            l1 < b,
            m2 < b,
            l2 < b,
            lo1 == m1 * b + l1,
            lo2 == m2 * b + l2,
    ;
    assert((h1 * b * b + lo1 >= h2 * b * b + lo2) == (h1 > h2 || (h1 == h2 && lo1 >= lo2)))
        by (nonlinear_arith)
        requires
            lo1 < b * b,
            lo2 < b * b,
    ;
}

/// Whether `a * b * c * k >= d * e * f * l`, computed exactly.
pub fn product_at_least(a: u64, b: u64, c: u64, k: u64, d: u64, e: u64, f: u64, l: u64) -> (res:
    bool)
    requires
        k < 256,
        l < 256,
    ensures
        res == (a * b * c * k >= d * e * f * l),
{
    let x = product4(a, b, c, k);
    let y = product4(d, e, f, l);
    proof {
        lemma_limbs_compare(x.0 as nat, x.1 as nat, x.2 as nat, y.0 as nat, y.1 as nat, y.2 as nat);
    }
    x.0 > y.0 || (x.0 == y.0 && (x.1 > y.1 || (x.1 == y.1 && x.2 >= y.2)))
}

} // verus!
