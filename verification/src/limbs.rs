//! Little-endian base-2^64 limb sequences.
//!
//! `lnat` gives the natural number a limb sequence denotes; the lemmas and
//! the carry-chain operations here are shared by the 256-bit and 512-bit
//! fixed-width integers built on top of them.

use vstd::prelude::*;

verus! {

use vstd::arithmetic::power2::{pow2, lemma_pow2_adds, lemma_pow2_pos, lemma2_to64};
use vstd::arithmetic::div_mod::lemma_fundamental_div_mod;
use vstd::arithmetic::mul::lemma_mul_inequality;
use vstd::bits::lemma_u128_shr_is_div;

/// The natural number denoted by a little-endian sequence of 64-bit limbs.
pub open spec fn lnat(s: Seq<u64>) -> nat
    decreases s.len(),
{
    if s.len() == 0 {
        0
    } else {
        s[0] as nat + pow2(64) * lnat(s.skip(1))
    }
}

proof fn lemma_ring_a(s0: int, b: int, lo: int, p1: int, hi: int)
    by (nonlinear_arith)
    ensures
        s0 + b * (lo + p1 * hi) == (s0 + b * lo) + (b * p1) * hi,
{
}

proof fn lemma_ring_b(b: int, r: int, d: int, p1: int)
    by (nonlinear_arith)
    ensures
        b * (r + d * p1) == b * r + d * (b * p1),
{
}

proof fn lemma_factor(lo: int, hi: int, b: int, p: int, s: int)
    by (nonlinear_arith)
    requires
        lo + b * hi == s,
    ensures
        lo * p + hi * (p * b) == s * p,
{
}

/// Splitting a limb sequence at position `j` splits its value.
pub proof fn lemma_lnat_split(s: Seq<u64>, j: int)
    requires
        0 <= j <= s.len(),
    ensures
        lnat(s) == lnat(s.take(j)) + pow2((64 * j) as nat) * lnat(s.skip(j)),
    decreases j,
{
    if j == 0 {
        assert(s.take(0) =~= Seq::<u64>::empty());
        assert(s.skip(0) =~= s);
        assert(lnat(Seq::<u64>::empty()) == 0);
        assert(pow2(0) == 1) by { lemma2_to64(); }
        assert(lnat(s.take(0)) == 0);
        assert(pow2((64 * j) as nat) * lnat(s.skip(j)) == 1 * lnat(s));
        assert(lnat(s) == lnat(s.take(j)) + pow2((64 * j) as nat) * lnat(s.skip(j)));
    } else {
        let b = pow2(64) as int;
        lemma_lnat_split(s.skip(1), j - 1);
        assert(s.skip(1).take(j - 1) =~= s.take(j).skip(1));
        assert(s.skip(1).skip(j - 1) =~= s.skip(j));
        let p1 = pow2((64 * (j - 1)) as nat) as int;
        let pj = pow2((64 * j) as nat) as int;
        let s0 = s[0] as int;
        let lo = lnat(s.take(j).skip(1)) as int;
        let hi = lnat(s.skip(j)) as int;
        assert(lnat(s.skip(1)) as int == lo + p1 * hi);
        assert(lnat(s) as int == s0 + b * (lo + p1 * hi));
        assert(s.take(j)[0] == s[0]);
        assert(s.take(j).len() == j);
        assert(lnat(s.take(j)) as int == s0 + b * lo);
        lemma_pow2_adds(64, (64 * (j - 1)) as nat);
        assert((64 + 64 * (j - 1)) as nat == (64 * j) as nat);
        assert(pj == b * p1);
        lemma_ring_a(s0, b, lo, p1, hi);
        assert(lnat(s) as int == lnat(s.take(j)) as int + pj * hi);
    }
}

/// A limb sequence of length `len` denotes a value below `2^(64*len)`.
pub proof fn lemma_lnat_bound(s: Seq<u64>)
    ensures
        lnat(s) < pow2((64 * s.len()) as nat),
    decreases s.len(),
{
    if s.len() == 0 {
        assert(pow2(0) == 1) by { lemma2_to64(); }
    } else {
        let b = pow2(64) as int;
        lemma_lnat_bound(s.skip(1));
        let p1 = pow2((64 * (s.len() - 1)) as nat) as int;
        let r = lnat(s.skip(1)) as int;
        lemma2_to64();
        lemma_mul_inequality(r, p1 - 1, b);
        lemma_pow2_adds(64, (64 * (s.len() - 1)) as nat);
        assert((64 + 64 * (s.len() - 1)) as nat == (64 * s.len()) as nat);
        assert(lnat(s) as int == s[0] + b * r);
        assert(b * r == r * b) by (nonlinear_arith);
        assert((p1 - 1) * b == p1 * b - b) by (nonlinear_arith);
        assert(b * p1 == p1 * b) by (nonlinear_arith);
        assert(s[0] < b);
    }
}

/// Extending a prefix by one limb adds that limb at its weight.
pub proof fn lemma_lnat_take_succ(s: Seq<u64>, j: int)
    requires
        0 <= j < s.len(),
    ensures
        lnat(s.take(j + 1)) == lnat(s.take(j)) + s[j] * pow2((64 * j) as nat),
{
    let t = s.take(j + 1);
    lemma_lnat_split(t, j);
    assert(t.take(j) =~= s.take(j));
    let u = t.skip(j);
    assert(u.len() == 1 && u[0] == s[j]);
    assert(u.skip(1) =~= Seq::<u64>::empty());
    assert(lnat(Seq::<u64>::empty()) == 0);
    assert(lnat(u) == s[j] as nat + pow2(64) * 0);
    let p = pow2((64 * j) as nat) as int;
    assert(p * (s[j] as int) == (s[j] as int) * p) by (nonlinear_arith);
}

/// Replacing limb `j` shifts the value by the weighted difference.
pub proof fn lemma_lnat_update(s: Seq<u64>, j: int, x: u64)
    requires
        0 <= j < s.len(),
    ensures
        lnat(s.update(j, x)) as int == lnat(s) as int
            + (x as int - s[j] as int) * pow2((64 * j) as nat) as int,
    decreases j,
{
    let b = pow2(64) as int;
    if j == 0 {
        assert(s.update(0, x).skip(1) =~= s.skip(1));
        assert(s.update(0, x)[0] == x);
        assert(pow2(0) == 1) by { lemma2_to64(); }
        assert((x as int - s[0] as int) * 1 == x as int - s[0] as int) by (nonlinear_arith);
    } else {
        assert(s.update(j, x).skip(1) =~= s.skip(1).update(j - 1, x));
        lemma_lnat_update(s.skip(1), j - 1, x);
        let p1 = pow2((64 * (j - 1)) as nat) as int;
        let pj = pow2((64 * j) as nat) as int;
        let d = x as int - s[j] as int;
        let r = lnat(s.skip(1)) as int;
        lemma_pow2_adds(64, (64 * (j - 1)) as nat);
        assert((64 + 64 * (j - 1)) as nat == (64 * j) as nat);
        assert(pj == b * p1);
        assert(lnat(s.skip(1).update(j - 1, x)) as int == r + d * p1);
        assert(lnat(s.update(j, x)) as int == s[0] + b * (r + d * p1));
        lemma_ring_b(b, r, d, p1);
        assert(lnat(s) as int == s[0] + b * r);
    }
}

/// Each limb, at its weight, is no more than the whole value.
pub proof fn lemma_lnat_limb_bound(s: Seq<u64>, j: int)
    requires
        0 <= j < s.len(),
    ensures
        s[j] * pow2((64 * j) as nat) <= lnat(s),
{
    lemma_lnat_split(s, j);
    let u = s.skip(j);
    assert(u[0] == s[j]);
    assert(lnat(u) >= s[j]);
    let p = pow2((64 * j) as nat) as int;
    lemma_pow2_pos((64 * j) as nat);
    lemma_mul_inequality(s[j] as int, lnat(u) as int, p);
    assert(s[j] as int * p == p * (s[j] as int)) by (nonlinear_arith);
    assert(lnat(u) as int * p == p * (lnat(u) as int)) by (nonlinear_arith);
}

/// The low 64 bits and the high 64 bits of a 128-bit value.
pub fn split_u128(uv: u128) -> (r: (u64, u64))
    ensures
        r.0 as int == uv as int % pow2(64) as int,
        r.1 as int == uv as int / pow2(64) as int,
        uv as int == r.0 as int + pow2(64) as int * r.1 as int,
{
    proof {
        lemma2_to64();
        lemma_u128_shr_is_div(uv, 64);
        lemma_fundamental_div_mod(uv as int, pow2(64) as int);
        assert((uv as u64) as int == uv as int % (0x1_0000_0000_0000_0000 as int)) by (bit_vector);
        assert(uv >> 64 < 0x1_0000_0000_0000_0000) by (bit_vector);
    }
    (#[verifier::truncate] (uv as u64), (uv >> 64) as u64)
}

/// Addition with carry over `N` limbs: the pair of the wrapped sum and the
/// carry-out denotes the exact sum.
pub fn add_limbs<const N: usize>(a: &[u64; N], b: &[u64; N]) -> (res: ([u64; N], bool))
    ensures
        lnat(res.0@) + (if res.1 { pow2((64 * N) as nat) } else { 0nat }) == lnat(a@) + lnat(b@),
{
    let mut out: [u64; N] = *a;
    let mut carry: u64 = 0;
    for i in 0..N
        invariant
            carry <= 1,
            out@.len() == N,
            lnat(out@.take(i as int)) + carry * pow2((64 * i) as nat)
                == lnat(a@.take(i as int)) + lnat(b@.take(i as int)),
    {
        let ghost out_old = out@;
        let ghost c0 = carry as int;
        let uv: u128 = a[i] as u128 + b[i] as u128 + carry as u128;
        let (lo, hi) = split_u128(uv);
        out[i] = lo;
        carry = hi;
        proof {
            let ii = i as int;
            let bb = pow2(64) as int;
            let p = pow2((64 * ii) as nat) as int;
            lemma2_to64();
            assert(out@.take(ii) =~= out_old.take(ii));
            lemma_lnat_take_succ(out@, ii);
            lemma_lnat_take_succ(a@, ii);
            lemma_lnat_take_succ(b@, ii);
            lemma_pow2_adds((64 * ii) as nat, 64);
            assert((64 * ii + 64) as nat == (64 * (ii + 1)) as nat);
            let ai = a@[ii] as int;
            let bi = b@[ii] as int;
            assert(lo as int + bb * hi as int == ai + bi + c0);
            assert(hi <= 1) by (nonlinear_arith)
                requires
                    lo as int + bb * hi as int == ai + bi + c0,
                    0 <= lo as int,
                    ai < bb && bi < bb && c0 <= 1,
                    bb > 2,
                    hi >= 0,
            ;
            lemma_factor(lo as int, hi as int, bb, p, ai + bi + c0);
            assert((ai + bi + c0) * p == ai * p + bi * p + c0 * p) by (nonlinear_arith);
            assert(pow2((64 * (ii + 1)) as nat) as int == p * bb);
            assert(lnat(out@.take(ii + 1)) as int + (hi as int) * (p * bb)
                == lnat(a@.take(ii + 1)) as int + lnat(b@.take(ii + 1)) as int + c0 * p
                    - c0 * p);
        }
    }
    proof {
        assert(out@.take(N as int) =~= out@);
        assert(a@.take(N as int) =~= a@);
        assert(b@.take(N as int) =~= b@);
    }
    (out, carry == 1)
}

/// Subtraction with borrow over `N` limbs: the wrapped difference plus the
/// borrow-out times the width denotes the exact difference.
pub fn sub_limbs<const N: usize>(a: &[u64; N], b: &[u64; N]) -> (res: ([u64; N], bool))
    ensures
        lnat(res.0@) as int == lnat(a@) as int - lnat(b@) as int
            + (if res.1 { pow2((64 * N) as nat) as int } else { 0int }),
        res.1 <==> lnat(a@) < lnat(b@),
{
    let mut out: [u64; N] = *a;
    let mut borrow: u64 = 0;
    for i in 0..N
        invariant
            borrow <= 1,
            out@.len() == N,
            lnat(out@.take(i as int)) as int == lnat(a@.take(i as int)) as int
                - lnat(b@.take(i as int)) as int + borrow * pow2((64 * i) as nat),
    {
        let ghost out_old = out@;
        let ghost c0 = borrow as int;
        let uv: u128 = 0x1_0000_0000_0000_0000u128 + a[i] as u128 - b[i] as u128
            - borrow as u128;
        let (lo, hi) = split_u128(uv);
        proof {
            let ii = i as int;
            let bb = pow2(64) as int;
            lemma2_to64();
            let ai = a@[ii] as int;
            let bi = b@[ii] as int;
            assert(lo as int + bb * hi as int == bb + ai - bi - c0);
            assert(hi <= 1) by (nonlinear_arith)
                requires
                    lo as int + bb * hi as int == bb + ai - bi - c0,
                    0 <= lo as int,
                    0 <= ai < bb && 0 <= bi < bb && 0 <= c0 <= 1,
                    bb > 2,
                    hi >= 0,
            ;
        }
        out[i] = lo;
        borrow = 1 - hi;
        proof {
            let ii = i as int;
            let bb = pow2(64) as int;
            let p = pow2((64 * ii) as nat) as int;
            lemma2_to64();
            assert(out@.take(ii) =~= out_old.take(ii));
            lemma_lnat_take_succ(out@, ii);
            lemma_lnat_take_succ(a@, ii);
            lemma_lnat_take_succ(b@, ii);
            lemma_pow2_adds((64 * ii) as nat, 64);
            assert((64 * ii + 64) as nat == (64 * (ii + 1)) as nat);
            let ai = a@[ii] as int;
            let bi = b@[ii] as int;
            assert(lo as int + bb * hi as int == bb + ai - bi - c0);
            assert((lo as int) * p == ai * p - bi * p - c0 * p
                + (1 - hi as int) * (bb * p)) by (nonlinear_arith)
                requires
                    lo as int + bb * hi as int == bb + ai - bi - c0,
            ;
            assert(pow2((64 * (ii + 1)) as nat) as int == p * bb);
        }
    }
    proof {
        assert(out@.take(N as int) =~= out@);
        assert(a@.take(N as int) =~= a@);
        assert(b@.take(N as int) =~= b@);
        lemma_lnat_bound(out@);
        lemma_lnat_bound(a@);
        lemma_lnat_bound(b@);
    }
    (out, borrow == 1)
}

/// Multiplication of `N` limbs by a single word: the wrapped product and the
/// carry word denote the exact product.
#[verifier::rlimit(50)]
pub fn mul_u64_limbs<const N: usize>(a: &[u64; N], x: u64) -> (res: ([u64; N], u64))
    ensures
        lnat(res.0@) + res.1 * pow2((64 * N) as nat) == lnat(a@) * x,
{
    let mut out: [u64; N] = *a;
    let mut carry: u64 = 0;
    proof {
        assert(a@.take(0) =~= Seq::<u64>::empty());
        assert(out@.take(0) =~= Seq::<u64>::empty());
        assert(lnat(Seq::<u64>::empty()) == 0);
        assert(0nat * x as nat == 0) by (nonlinear_arith);
    }
    for i in 0..N
        invariant
            out@.len() == N,
            lnat(out@.take(i as int)) + carry * pow2((64 * i) as nat)
                == lnat(a@.take(i as int)) * x,
    {
        let ghost out_old = out@;
        let ghost c0 = carry as int;
        proof {
            lemma2_to64();
            assert((a@[i as int] as int) * (x as int) + 0xFFFF_FFFF_FFFF_FFFFu64
                < 0x1_0000_0000_0000_0000_0000_0000_0000_0000) by (nonlinear_arith)
                requires
                    0 <= a@[i as int] as int <= 0xFFFF_FFFF_FFFF_FFFFu64,
                    0 <= x as int <= 0xFFFF_FFFF_FFFF_FFFFu64,
            ;
        }
        let uv: u128 = a[i] as u128 * x as u128 + carry as u128;
        let (lo, hi) = split_u128(uv);
        out[i] = lo;
        carry = hi;
        proof {
            let ii = i as int;
            let bb = pow2(64) as int;
            let p = pow2((64 * ii) as nat) as int;
            lemma2_to64();
            assert(out@.take(ii) =~= out_old.take(ii));
            lemma_lnat_take_succ(out@, ii);
            lemma_lnat_take_succ(a@, ii);
            lemma_pow2_adds((64 * ii) as nat, 64);
            assert((64 * ii + 64) as nat == (64 * (ii + 1)) as nat);
            let ai = a@[ii] as int;
            let xx = x as int;
            let ta = lnat(a@.take(ii)) as int;
            let to = lnat(out_old.take(ii)) as int;
            assert(lo as int + bb * hi as int == ai * xx + c0);
            assert(to + lo as int * p + (hi as int) * (p * bb)
                == (ta + ai * p) * xx) by (nonlinear_arith)
                requires
                    lo as int + bb * hi as int == ai * xx + c0,
                    to + c0 * p == ta * xx,
            ;
        }
    }
    proof {
        assert(out@.take(N as int) =~= out@);
        assert(a@.take(N as int) =~= a@);
    }
    (out, carry)
}

/// If two limb sequences agree above position `i` and differ at `i`, the one
/// with the smaller limb denotes the smaller value.
pub proof fn lemma_lnat_cmp(a: Seq<u64>, b: Seq<u64>, i: int)
    requires
        a.len() == b.len(),
        0 <= i < a.len(),
        forall|k: int| i < k < a.len() ==> a[k] == b[k],
        a[i] < b[i],
    ensures
        lnat(a) < lnat(b),
{
    let p = pow2((64 * i) as nat) as int;
    let bb = pow2(64) as int;
    lemma_lnat_split(a, i);
    lemma_lnat_split(b, i);
    assert(a.skip(i).skip(1) =~= b.skip(i).skip(1));
    let r = lnat(a.skip(i).skip(1)) as int;
    assert(lnat(a.skip(i)) as int == a[i] + bb * r);
    assert(lnat(b.skip(i)) as int == b[i] + bb * r);
    lemma_lnat_bound(a.take(i));
    assert(a.take(i).len() == i);
    lemma_pow2_pos((64 * i) as nat);
    let sa = lnat(a.skip(i)) as int;
    let sb = lnat(b.skip(i)) as int;
    let ta = lnat(a.take(i)) as int;
    let tb = lnat(b.take(i)) as int;
    assert(sa + 1 <= sb);
    assert(ta + p * sa < p * sb) by (nonlinear_arith)
        requires
            0 <= ta < p,
            sa + 1 <= sb,
            p > 0,
    ;
    assert(lnat(a) as int == ta + p * sa);
    assert(lnat(b) as int == tb + p * sb);
}

/// A limb sequence denotes zero exactly when every limb is zero.
pub proof fn lemma_lnat_zero(s: Seq<u64>)
    ensures
        lnat(s) == 0 <==> (forall|k: int| 0 <= k < s.len() ==> s[k] == 0),
    decreases s.len(),
{
    if s.len() == 0 {
    } else {
        lemma_lnat_zero(s.skip(1));
        lemma_pow2_pos(64);
        if lnat(s) == 0 {
            assert(pow2(64) * lnat(s.skip(1)) >= 0);
            assert(s[0] == 0);
            assert(lnat(s.skip(1)) == 0) by (nonlinear_arith)
                requires
                    pow2(64) * lnat(s.skip(1)) == 0,
                    pow2(64) > 0,
            ;
            assert forall|k: int| 0 <= k < s.len() implies s[k] == 0 by {
                if k > 0 {
                    assert(s.skip(1)[k - 1] == 0);
                }
            }
        }
        if forall|k: int| 0 <= k < s.len() ==> s[k] == 0 {
            assert(s[0] == 0);
            assert forall|k: int| 0 <= k < s.skip(1).len() implies s.skip(1)[k] == 0 by {
                assert(s.skip(1)[k] == s[k + 1]);
            }
            assert(lnat(s.skip(1)) == 0);
            assert(pow2(64) * lnat(s.skip(1)) == pow2(64) * 0);
            assert(lnat(s) == 0);
        }
    }
}

/// Three-way comparison of two `N`-limb values.
pub fn cmp_limbs<const N: usize>(a: &[u64; N], b: &[u64; N]) -> (r: i8)
    ensures
        r == 1i8 <==> lnat(a@) > lnat(b@),
        r == 0i8 <==> lnat(a@) == lnat(b@),
        r == -1i8 <==> lnat(a@) < lnat(b@),
{
    let mut k: usize = N;
    while k > 0
        invariant
            k <= N,
            forall|j: int| k <= j < N ==> a@[j] == b@[j],
        decreases k,
    {
        k = k - 1;
        if a[k] < b[k] {
            proof { lemma_lnat_cmp(a@, b@, k as int); }
            return -1;
        }
        if a[k] > b[k] {
            proof { lemma_lnat_cmp(b@, a@, k as int); }
            return 1;
        }
    }
    proof { assert(a@ =~= b@); }
    0
}

/// Whether an `N`-limb value is zero.
pub fn is_zero_limbs<const N: usize>(a: &[u64; N]) -> (r: bool)
    ensures
        r <==> lnat(a@) == 0,
{
    for i in 0..N
        invariant
            forall|j: int| 0 <= j < i ==> a@[j] == 0,
    {
        if a[i] != 0 {
            proof {
                lemma_lnat_limb_bound(a@, i as int);
                lemma_pow2_pos((64 * i) as nat);
                assert(a@[i as int] * pow2((64 * i) as nat) >= 1 * pow2((64 * i) as nat))
                    by (nonlinear_arith)
                    requires
                        a@[i as int] >= 1,
                        pow2((64 * i) as nat) > 0,
                ;
            }
            return false;
        }
    }
    proof { lemma_lnat_zero(a@); }
    true
}

/// The `N`-limb value holding a single 64-bit word.
pub fn from_u64_limbs<const N: usize>(x: u64) -> (r: [u64; N])
    requires
        N >= 1,
    ensures
        lnat(r@) == x,
{
    broadcast use vstd::array::axiom_spec_array_fill_for_copy_type;

    let mut r: [u64; N] = [0u64; N];
    r[0] = x;
    proof {
        lemma_lnat_split(r@, 1);
        assert forall|k: int| 0 <= k < r@.skip(1).len() implies r@.skip(1)[k] == 0 by {
            assert(r@.skip(1)[k] == r@[k + 1]);
        }
        lemma_lnat_zero(r@.skip(1));
        let t = r@.take(1);
        assert(t.len() == 1 && t[0] == x);
        assert(t.skip(1) =~= Seq::<u64>::empty());
        assert(lnat(Seq::<u64>::empty()) == 0);
        assert(lnat(t) == x as nat + pow2(64) * 0);
        assert(pow2((64 * 1) as nat) * 0 == 0) by (nonlinear_arith);
    }
    r
}

/// The `N`-limb value `2^k`.
pub fn pow2_limbs<const N: usize>(k: usize) -> (r: [u64; N])
    requires
        k < 64 * N,
    ensures
        lnat(r@) == pow2(k as nat),
{
    broadcast use vstd::array::axiom_spec_array_fill_for_copy_type;

    let w = k / 64;
    let s = k % 64;
    let mut r: [u64; N] = [0u64; N];
    let one: u64 = 1;
    proof {
        vstd::bits::lemma_u64_pow2_no_overflow(s as nat);
        vstd::bits::lemma_u64_shl_is_mul(1u64, s as u64);
    }
    r[w] = one << (s as u64);
    proof {
        let ww = w as int;
        assert(r@[ww] == pow2(s as nat));
        lemma_lnat_split(r@, ww);
        lemma_lnat_split(r@.skip(ww), 1);
        assert forall|j: int| 0 <= j < r@.take(ww).len() implies r@.take(ww)[j] == 0 by {
            assert(r@.take(ww)[j] == r@[j]);
        }
        lemma_lnat_zero(r@.take(ww));
        assert forall|j: int| 0 <= j < r@.skip(ww).skip(1).len()
            implies r@.skip(ww).skip(1)[j] == 0 by {
            assert(r@.skip(ww).skip(1)[j] == r@[ww + 1 + j]);
        }
        lemma_lnat_zero(r@.skip(ww).skip(1));
        let t = r@.skip(ww).take(1);
        assert(t.len() == 1 && t[0] == r@[ww]);
        assert(t.skip(1) =~= Seq::<u64>::empty());
        assert(lnat(Seq::<u64>::empty()) == 0);
        assert(lnat(t) == r@[ww] as nat + pow2(64) * 0);
        assert(lnat(r@.skip(ww)) == lnat(t) + pow2(64) * 0);
        assert(lnat(r@) == 0 + pow2((64 * ww) as nat) * pow2(s as nat));
        lemma_pow2_adds((64 * ww) as nat, s as nat);
        assert((64 * ww + s) as nat == k as nat);
    }
    r
}

/// The parity of an `N`-limb value is the parity of its lowest limb.
pub proof fn lemma_lnat_parity(s: Seq<u64>)
    requires
        s.len() >= 1,
    ensures
        lnat(s) % 2 == s[0] % 2,
{
    let r = lnat(s.skip(1)) as int;
    lemma_pow2_adds(1, 63);
    assert(pow2(1) == 2 && pow2(0) == 1) by { lemma2_to64(); }
    assert(pow2(64) * r == 2 * (pow2(63) * r)) by (nonlinear_arith)
        requires
            pow2(64) == 2 * pow2(63),
    ;
    vstd::arithmetic::div_mod::lemma_mod_multiples_vanish(
        pow2(63) as int * r, s[0] as int, 2);
    assert(lnat(s) as int == s[0] + pow2(64) * r);
}

/// Force the lowest bit of an `N`-limb value on: odd values are unchanged,
/// even values grow by one.
pub fn make_odd_limbs<const N: usize>(a: &[u64; N]) -> (r: [u64; N])
    requires
        N >= 1,
    ensures
        lnat(r@) == lnat(a@) + 1 - lnat(a@) % 2,
        lnat(r@) % 2 == 1,
{
    let mut r: [u64; N] = *a;
    proof {
        lemma_lnat_parity(a@);
    }
    if r[0] % 2 == 0 {
        proof {
            lemma_lnat_update(a@, 0, (a@[0] + 1) as u64);
            assert(pow2(0) == 1) by { lemma2_to64(); }
            assert((a@[0] as int + 1 - a@[0] as int) * 1 == 1) by (nonlinear_arith);
        }
        r[0] = r[0] + 1;
        proof {
            lemma_lnat_parity(r@);
        }
    }
    r
}

/// Halve an `N`-limb value.
pub fn shr1_limbs<const N: usize>(a: &[u64; N]) -> (r: [u64; N])
    requires
        N >= 1,
    ensures
        lnat(r@) == lnat(a@) / 2,
{
    let mut out: [u64; N] = *a;
    proof {
        assert(pow2(0) == 1 && pow2(1) == 2) by { lemma2_to64(); }
        assert((a@[0] % 2) * 1 == a@[0] % 2) by (nonlinear_arith);
    }
    for i in 0..N
        invariant
            out@.len() == N,
            2 * lnat(out@.take(i as int)) + a@[0] as int % 2
                == lnat(a@.take(i as int)) as int
                    + (if i < N { (a@[i as int] as int % 2) * pow2((64 * i) as nat) as int }
                        else { 0int }),
    {
        let ghost out_old = out@;
        let hi_bit: u64 = if i + 1 < N { (a[i + 1] % 2) * 0x8000_0000_0000_0000u64 } else { 0 };
        let v: u64 = a[i] / 2 + hi_bit;
        out[i] = v;
        proof {
            let ii = i as int;
            let bb = pow2(64) as int;
            let p = pow2((64 * ii) as nat) as int;
            lemma2_to64();
            lemma_pow2_adds(1, 63);
            assert(out@.take(ii) =~= out_old.take(ii));
            lemma_lnat_take_succ(out@, ii);
            lemma_lnat_take_succ(a@, ii);
            lemma_pow2_adds((64 * ii) as nat, 64);
            assert((64 * ii + 64) as nat == (64 * (ii + 1)) as nat);
            let ai = a@[ii] as int;
            lemma_fundamental_div_mod(ai, 2);
            let m1: int = if ii + 1 < N { a@[ii + 1] as int % 2 } else { 0int };
            assert(2 * (v as int) == ai - ai % 2 + m1 * bb) by (nonlinear_arith)
                requires
                    v as int == ai / 2 + m1 * pow2(63),
                    ai == 2 * (ai / 2) + ai % 2,
                    bb == 2 * pow2(63),
            ;
            assert(2 * ((v as int) * p) == ai * p - (ai % 2) * p + m1 * (bb * p))
                by (nonlinear_arith)
                requires
                    2 * (v as int) == ai - ai % 2 + m1 * bb,
            ;
            assert(pow2((64 * (ii + 1)) as nat) as int == p * bb);
        }
    }
    proof {
        assert(out@.take(N as int) =~= out@);
        assert(a@.take(N as int) =~= a@);
        lemma_lnat_parity(a@);
        lemma_lnat_bound(out@);
        vstd::arithmetic::div_mod::lemma_fundamental_div_mod_converse(
            lnat(a@) as int, 2, lnat(out@) as int, lnat(a@) as int % 2);
    }
    out
}

} // verus!
