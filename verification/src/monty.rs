//! Montgomery reduction engine: digit modular inverse, REDC, and modular
//! exponentiation.
use vstd::prelude::*;

use vstd::arithmetic::div_mod::*;
use vstd::arithmetic::mul::*;
use vstd::arithmetic::power::*;
use vstd::arithmetic::power2::*;

use crate::ubig::{ubig_from_digits, ubig_is_odd, ubig_is_zero, ubig_lt, ubig_mul, ubig_rem, ubig_shr1, ubig_sub, ubig_to_digits, uval};
use crate::digits::{canonical, lemma_canonical_zero, lemma_nat_of_bound, lemma_nat_of_mod_div,
    lemma_nat_of_parity, lemma_nat_of_push_zero, lemma_nat_of_radix, lemma_nat_of_split,
    lemma_nat_of_take_succ, lemma_nat_of_update, lemma_pow2_32, nat_of};

verus! {

/// An even factor makes an even product.
proof fn lemma_even_factor(p: int, a: int)
    requires
        a % 2 == 0,
    ensures
        (p * a) % 2 == 0,
{
    let k = a / 2;
    lemma_fundamental_div_mod(a, 2);
    assert(p * a == 2 * (p * k)) by (nonlinear_arith)
        requires
            a == 2 * k,
    ;
    lemma_mod_multiples_vanish(p * k, 0, 2);
}

/// A product of two odd numbers is odd.
proof fn lemma_odd_times_odd(a: int, t: int)
    requires
        a % 2 == 1,
        t % 2 == 1,
    ensures
        (a * t) % 2 == 1,
{
    lemma_mul_mod_noop_general(a, t, 2);
}

/// The only odd positive factor of a power of two is one.
proof fn lemma_odd_divides_pow2(k: nat, a: int, t: int)
    requires
        a * t == pow2(k),
        a % 2 == 1,
        a >= 1,
    ensures
        a == 1,
    decreases k,
{
    lemma_pow2_pos(k);
    assert(t >= 1) by (nonlinear_arith)
        requires
            a * t == pow2(k),
            pow2(k) >= 1,
            a >= 1,
    ;
    if k == 0 {
        assert(pow2(0) == 1) by {
            lemma2_to64();
        }
        assert(a == 1) by (nonlinear_arith)
            requires
                a * t == 1,
                a >= 1,
                t >= 1,
        ;
    } else {
        lemma_pow2_unfold(k);
        let h = pow2((k - 1) as nat);
        assert(pow2(k) % 2 == 0) by {
            lemma_mod_multiples_vanish(h as int, 0, 2);
        }
        if t % 2 == 1 {
            lemma_odd_times_odd(a, t);
            assert(false);
        }
        lemma_mod_pos_bound(t, 2);
        assert(t % 2 == 0);
        let t2 = t / 2;
        lemma_fundamental_div_mod(t, 2);
        assert(a * t2 == h) by (nonlinear_arith)
            requires
                t == 2 * t2,
                a * t == 2 * h,
        ;
        lemma_odd_divides_pow2((k - 1) as nat, a, t2);
    }
}

/// Calculates the modular inverse of an odd digit modulo 2^32, by the
/// extended Euclidean algorithm on the digit and 2^32.
pub fn inv_mod(num: u32) -> (r: u32)
    requires
        num % 2 == 1,
    ensures
        (r as nat * num as nat) % 0x1_0000_0000 == 1,
{
    let m: u64 = 0x1_0000_0000;
    let mut a: u64 = num as u64;
    let mut b: u64 = m;
    // Bezout coefficients of `num`, kept as residues modulo 2^32.
    let mut u: u64 = 1;
    let mut w: u64 = 0;
    // Exact Bezout coefficients: a == gu*num + gv*m, b == gw*num + gx*m.
    let ghost mut gu: int = 1;
    let ghost mut gv: int = 0;
    let ghost mut gw: int = 0;
    let ghost mut gx: int = 1;
    // The inputs as combinations of a and b: num == gp*a + gq*b, m == gr*a + gs*b.
    let ghost mut gp: int = 1;
    let ghost mut gq: int = 0;
    let ghost mut gr: int = 0;
    let ghost mut gs: int = 1;
    proof {
        lemma_small_mod(1, m as nat);
        lemma_small_mod(0, m as nat);
    }
    while b != 0
        invariant
            m == 0x1_0000_0000,
            num % 2 == 1,
            1 <= a <= m,
            b <= m,
            a as int == gu * (num as int) + gv * (m as int),
            b as int == gw * (num as int) + gx * (m as int),
            num as int == gp * (a as int) + gq * (b as int),
            m as int == gr * (a as int) + gs * (b as int),
            u < m,
            w < m,
            u as int == gu % (m as int),
            w as int == gw % (m as int),
        decreases b,
    {
        let q = a / b;
        let r = a % b;
        proof {
            lemma_fundamental_div_mod(a as int, b as int);
            lemma_mod_pos_bound(a as int, b as int);
            assert(q as int <= a as int) by (nonlinear_arith)
                requires
                    a as int == (b as int) * (q as int) + (r as int),
                    b >= 1,
                    r >= 0,
                    q >= 0,
            ;
        }
        assert(q * w <= 0x1_0000_0000u64 * (0x1_0000_0000u64 - 1)) by (nonlinear_arith)
            requires
                q <= 0x1_0000_0000u64,
                w < 0x1_0000_0000u64,
        ;
        let t = (q * w) % m;
        let neww = (u + m - t) % m;
        proof {
            let qi = q as int;
            let mi = m as int;
            let ni = num as int;
            // The remainder is the matching combination of the inputs.
            assert(r as int == (gu - qi * gw) * ni + (gv - qi * gx) * mi) by (nonlinear_arith)
                requires
                    a as int == gu * ni + gv * mi,
                    b as int == gw * ni + gx * mi,
                    r as int == a as int - qi * (b as int),
            ;
            // The inputs as combinations of the next pair.
            assert(ni == (gp * qi + gq) * (b as int) + gp * (r as int)) by (nonlinear_arith)
                requires
                    ni == gp * (a as int) + gq * (b as int),
                    a as int == qi * (b as int) + r as int,
            ;
            assert(mi == (gr * qi + gs) * (b as int) + gr * (r as int)) by (nonlinear_arith)
                requires
                    mi == gr * (a as int) + gs * (b as int),
                    a as int == qi * (b as int) + r as int,
            ;
            // The residue update matches the exact coefficient update.
            lemma_mul_mod_noop_right(qi, gw, mi);
            assert((qi * (w as int)) % mi == (qi * gw) % mi) by {
                assert(qi * (w as int) == qi * (gw % mi)) by (nonlinear_arith)
                    requires
                        w as int == gw % mi,
                ;
            }
            lemma_mod_bound(qi * (w as int), mi);
            assert(t as int == (qi * gw) % mi);
            lemma_sub_mod_noop(gu, qi * gw, mi);
            assert((gu % mi - (qi * gw) % mi) % mi == (gu - qi * gw) % mi);
            lemma_mod_add_multiples_vanish((u as int) - (t as int), mi);
            assert(neww as int == ((u as int) + mi - (t as int)) % mi);
            assert(neww as int == (gu - qi * gw) % mi);
            let t1 = gw;
            let t2 = gx;
            gw = gu - qi * gw;
            gx = gv - qi * gx;
            gu = t1;
            gv = t2;
            let t3 = gp * qi + gq;
            gq = gp;
            gp = t3;
            let t4 = gr * qi + gs;
            gs = gr;
            gr = t4;
        }
        a = b;
        b = r;
        u = w;
        w = neww;
    }
    proof {
        let mi = m as int;
        let ni = num as int;
        // num == gp * a, so a inherits oddness from num.
        if a as int % 2 == 0 {
            lemma_even_factor(gp, a as int);
            assert(false);
        }
        // m == gr * a, so a is an odd positive factor of 2^32.
        lemma_pow2_32();
        lemma_odd_divides_pow2(32, a as int, gr);
        assert(a == 1);
        // 1 == gu*num + gv*m, so gu*num is 1 modulo m.
        lemma_mod_multiples_vanish(gv, gu * ni, mi);
        assert(mi * gv + gu * ni == gu * ni + gv * mi) by (nonlinear_arith);
        lemma_small_mod(1, m as nat);
        assert((gu * ni) % mi == 1);
        lemma_mul_mod_noop_left(gu, ni, mi);
        assert(((gu % mi) * ni) % mi == 1);
        assert((u as int * ni) % mi == 1);
    }
    u as u32
}

/// Value of the first k digits of a sequence, saturating at the whole value.
spec fn prefix_val(b: Seq<u32>, k: int) -> nat {
    if k <= 0 {
        0
    } else if k >= b.len() {
        nat_of(b)
    } else {
        nat_of(b.take(k))
    }
}

/// Multiply-accumulate with carry propagation: adds b * c * 2^(32*off) into
/// the digit buffer in place, within its existing length.
fn mac_digits(acc: &mut Vec<u32>, b: &Vec<u32>, c: u32, off: usize)
    requires
        off + b@.len() <= old(acc)@.len(),
        nat_of(old(acc)@) + nat_of(b@) * (c as nat) * pow2(32 * off as nat) < pow2(
            32 * old(acc)@.len(),
        ),
    ensures
        final(acc)@.len() == old(acc)@.len(),
        nat_of(final(acc)@) == nat_of(old(acc)@) + nat_of(b@) * (c as nat) * pow2(
            32 * off as nat,
        ),
{
    let len = acc.len();
    let mut j = off;
    let mut carry: u64 = 0;
    proof {
        assert(prefix_val(b@, 0) == 0);
        lemma_mul_basics(pow2(32 * j as nat) as int);
        lemma_mul_basics(c as int);
        lemma_mul_basics(pow2(32 * off as nat) as int);
        assert(prefix_val(b@, 0) * (c as nat) == 0);
        assert((prefix_val(b@, 0) * (c as nat)) * pow2(32 * off as nat) == 0);
    }
    while j < len
        invariant
            off <= j <= len,
            acc@.len() == len,
            len == old(acc)@.len(),
            off + b@.len() <= len,
            carry < 0x1_0000_0000,
            nat_of(acc@) + (carry as nat) * pow2(32 * j as nat) == nat_of(old(acc)@) + prefix_val(
                b@,
                j - off,
            ) * (c as nat) * pow2(32 * off as nat),
        decreases len - j,
    {
        let bj: u32 = if j - off < b.len() {
            b[j - off]
        } else {
            0
        };
        assert((bj as u64) * (c as u64) <= 0xFFFF_FFFFu64 * 0xFFFF_FFFF) by (nonlinear_arith)
            requires
                bj <= 0xFFFF_FFFFu64,
                c <= 0xFFFF_FFFFu64,
        ;
        let t: u64 = acc[j] as u64 + (bj as u64) * (c as u64) + carry;
        let lo: u32 = (t % 0x1_0000_0000) as u32;
        let newcarry: u64 = t / 0x1_0000_0000;
        proof {
            lemma_mod_pos_bound(t as int, 0x1_0000_0000);
            lemma_multiply_divide_lt(t as int, 0x1_0000_0000, 0x1_0000_0000);
        }
        let ghost prev = acc@;
        let ghost pcarry = carry;
        acc.set(j, lo);
        carry = newcarry;
        proof {
            let ji = j as int;
            let pj = pow2(32 * j as nat);
            let pj1 = pow2(32 * (j + 1) as nat);
            let bb = 0x1_0000_0000 as int;
            lemma_pow2_adds(32 * j as nat, 32);
            lemma_pow2_32();
            assert(pj1 == pj * bb);
            lemma_nat_of_update(prev, ji, lo);
            lemma_fundamental_div_mod(t as int, bb);
            // the digit write and the carry keep the running value
            assert(nat_of(acc@) + (carry as nat) * pj1 == nat_of(prev) + (pcarry as nat) * pj + pj
                * (bj as nat) * (c as nat)) by (nonlinear_arith)
                requires
                    nat_of(acc@) + pj * (prev[ji] as nat) == nat_of(prev) + pj * (lo as nat),
                    t as int == bb * ((t as int) / bb) + (t as int) % bb,
                    lo as int == (t as int) % bb,
                    carry as int == (t as int) / bb,
                    t as int == prev[ji] as int + (bj as int) * (c as int) + pcarry as int,
                    pj1 == pj * bb,
                    pj >= 0,
            ;
            // the accumulated prefix of b grows by one digit
            let k = ji - off;
            if k < b@.len() {
                assert(bj == b@[k]);
                if k + 1 < b@.len() {
                    lemma_nat_of_take_succ(b@, k);
                } else {
                    lemma_nat_of_take_succ(b@, k);
                    assert(b@.take(k + 1) =~= b@);
                }
                assert(prefix_val(b@, k + 1) == prefix_val(b@, k) + pow2(32 * k as nat) * (
                bj as nat));
                lemma_pow2_adds(32 * k as nat, 32 * off as nat);
                assert(32 * k as nat + 32 * off as nat == 32 * j as nat);
                assert((prefix_val(b@, k) + pow2(32 * k as nat) * (bj as nat)) * (c as nat) * pow2(
                    32 * off as nat,
                ) == prefix_val(b@, k) * (c as nat) * pow2(32 * off as nat) + pj * (bj as nat) * (
                c as nat)) by (nonlinear_arith)
                    requires
                        pj == pow2(32 * k as nat) * pow2(32 * off as nat),
                ;
            } else {
                assert(bj == 0);
                assert(prefix_val(b@, k + 1) == prefix_val(b@, k));
            }
        }
        j = j + 1;
    }
    proof {
        // a final carry would push the value past its allotted length
        if carry > 0 {
            assert((carry as nat) * pow2(32 * len as nat) >= pow2(32 * len as nat))
                by (nonlinear_arith)
                requires
                    carry >= 1,
            ;
            assert(false);
        }
    }
}

/// Montgomery context: the modulus, its little-endian digits, and the
/// modular inverse of its least-significant digit modulo 2^32.
struct MontyReducer {
    n: num_bigint::BigUint,
    nd: Vec<u32>,
    n0inv: u32,
}

impl MontyReducer {
    spec fn wf(&self) -> bool {
        &&& nat_of(self.nd@) == uval(self.n)
        &&& canonical(self.nd@)
        &&& self.nd@.len() >= 1
        &&& uval(self.n) % 2 == 1
        &&& (self.n0inv as nat * self.nd@[0] as nat) % 0x1_0000_0000 == 1
    }

    fn new(n: &num_bigint::BigUint) -> (r: Self)
        requires
            uval(*n) % 2 == 1,
        ensures
            r.wf(),
            uval(r.n) == uval(*n),
            r.nd@.len() >= 1,
    {
        let nd = ubig_to_digits(n);
        proof {
            lemma_canonical_zero(nd@);
            assert(nd@.len() >= 1);
            lemma_nat_of_parity(nd@);
        }
        let n0inv = inv_mod(nd[0]);
        MontyReducer { n: n.clone(), nd, n0inv }
    }
}

/// Congruent factors make congruent products.
proof fn lemma_mul_mod_congruent(x: int, y: int, x2: int, y2: int, n: int)
    requires
        n > 0,
        x % n == x2 % n,
        y % n == y2 % n,
    ensures
        (x * y) % n == (x2 * y2) % n,
{
    lemma_mul_mod_noop_general(x, y, n);
    lemma_mul_mod_noop_general(x2, y2, n);
}

/// An odd modulus cancels a common factor of two.
proof fn lemma_odd_cancel_two(n: int, x: int, y: int)
    requires
        n > 0,
        n % 2 == 1,
        (2 * x) % n == (2 * y) % n,
    ensures
        x % n == y % n,
{
    lemma_mod_equivalence(2 * x, 2 * y, n);
    assert((2 * x - 2 * y) % n == 0);
    let t = (2 * x - 2 * y) / n;
    lemma_fundamental_div_mod(2 * x - 2 * y, n);
    assert(2 * x - 2 * y == n * t);
    assert((2 * (x - y)) % 2 == 0) by {
        lemma_mod_multiples_vanish(x - y, 0, 2);
    }
    if t % 2 != 0 {
        lemma_mod_bound(t, 2);
        lemma_odd_times_odd(n, t);
        assert((n * t) % 2 == 1);
        assert(n * t == 2 * (x - y)) by (nonlinear_arith)
            requires
                2 * x - 2 * y == n * t,
        ;
        assert(false);
    }
    let s = t / 2;
    lemma_fundamental_div_mod(t, 2);
    assert(x - y == n * s) by (nonlinear_arith)
        requires
            2 * x - 2 * y == n * t,
            t == 2 * s,
    ;
    lemma_mod_multiples_basic(s, n);
    lemma_mul_is_commutative(n, s);
    assert((n * s) % n == 0);
    lemma_mod_equivalence(x, y, n);
}

/// An odd modulus cancels a common power-of-two factor.
proof fn lemma_odd_cancel_pow2(n: int, k: nat, x: int, y: int)
    requires
        n > 0,
        n % 2 == 1,
        (x * pow2(k)) % n == (y * pow2(k)) % n,
    ensures
        x % n == y % n,
    decreases k,
{
    if k == 0 {
        assert(pow2(0) == 1) by {
            lemma2_to64();
        }
        lemma_mul_basics(x);
        lemma_mul_basics(y);
    } else {
        lemma_pow2_unfold(k);
        let h = pow2((k - 1) as nat) as int;
        assert(x * pow2(k) == 2 * (x * h)) by (nonlinear_arith)
            requires
                pow2(k) == 2 * h,
        ;
        assert(y * pow2(k) == 2 * (y * h)) by (nonlinear_arith)
            requires
                pow2(k) == 2 * h,
        ;
        lemma_odd_cancel_two(n, x * h, y * h);
        lemma_odd_cancel_pow2(n, (k - 1) as nat, x, y);
    }
}

/// One reduction step cancels the processed digit: after adding the chosen
/// multiple of the modulus at position i, the value gains a factor of 2^32.
proof fn lemma_redc_step(pre: Seq<u32>, post: Seq<u32>, nd: Seq<u32>, i: int, q: u32, n0inv: u32, mu: u32)
    requires
        0 <= i < pre.len(),
        nd.len() >= 1,
        (n0inv as nat * nd[0] as nat) % 0x1_0000_0000 == 1,
        mu as int == 0x1_0000_0000 - n0inv as int,
        q as int == ((pre[i] as int) * (mu as int)) % 0x1_0000_0000,
        nat_of(pre) % pow2(32 * i as nat) == 0,
        nat_of(post) == nat_of(pre) + nat_of(nd) * (q as nat) * pow2(32 * i as nat),
    ensures
        nat_of(post) % pow2(32 * (i + 1) as nat) == 0,
{
    let bb: int = 0x1_0000_0000;
    let pi = pow2(32 * i as nat) as int;
    let pi1 = pow2(32 * (i + 1) as nat) as int;
    let val = nat_of(pre) as int;
    let vs = nat_of(pre.skip(i)) as int;
    let hs = nat_of(pre.skip(i + 1)) as int;
    let ci = pre[i] as int;
    let nv = nat_of(nd) as int;
    let n0 = nd[0] as int;
    let iv = n0inv as int;
    lemma_pow2_adds(32 * i as nat, 32);
    lemma_pow2_32();
    assert(pi1 == pi * bb);
    lemma_pow2_pos(32 * i as nat);
    // the value below position i is zero, so the value is pi * vs
    lemma_nat_of_mod_div(pre, i);
    lemma_nat_of_split(pre, i);
    assert(val == pi * vs);
    // the digit at position i heads the upper part
    assert(pre.skip(i).drop_first() =~= pre.skip(i + 1));
    assert(pre.skip(i)[0] == pre[i]);
    assert(vs == ci + bb * hs);
    lemma_mod_multiples_vanish(hs, ci, bb);
    lemma_small_mod(ci as nat, bb as nat);
    assert(vs % bb == ci);
    // the inverse relation: iv * n0 == bb * tt + 1
    let tt = (iv * n0) / bb;
    lemma_fundamental_div_mod(iv * n0, bb);
    assert(iv * n0 == bb * tt + 1);
    // ci + (ci * mu) * n0 is a multiple of the radix
    assert(ci + (ci * (mu as int)) * n0 == bb * (ci * (n0 - tt))) by (nonlinear_arith)
        requires
            mu as int == bb - iv,
            iv * n0 == bb * tt + 1,
    ;
    lemma_mul_is_commutative(bb, ci * (n0 - tt));
    lemma_mod_multiples_basic(ci * (n0 - tt), bb);
    assert((ci + (ci * (mu as int)) * n0) % bb == 0);
    // replacing ci * mu by its residue q keeps the sum's residue
    lemma_mul_mod_noop_left(ci * (mu as int), n0, bb);
    assert(((q as int) * n0) % bb == ((ci * (mu as int)) * n0) % bb);
    lemma_add_mod_noop(ci, (q as int) * n0, bb);
    lemma_add_mod_noop(ci, (ci * (mu as int)) * n0, bb);
    assert((ci + (q as int) * n0) % bb == 0);
    // the modulus value has residue n0
    assert(nd.drop_first() =~= nd.skip(1));
    assert(nv == n0 + bb * nat_of(nd.skip(1)));
    lemma_mod_multiples_vanish(nat_of(nd.skip(1)) as int, n0, bb);
    lemma_small_mod(n0 as nat, bb as nat);
    assert(nv % bb == n0);
    lemma_mul_mod_noop_right(q as int, nv, bb);
    assert(((q as int) * nv) % bb == ((q as int) * n0) % bb);
    // so the new upper part is a multiple of the radix
    lemma_add_mod_noop(vs, (q as int) * nv, bb);
    assert((vs + (q as int) * nv) % bb == 0);
    // and the whole new value a multiple of pi * bb
    assert(nat_of(post) as int == pi * (vs + (q as int) * nv)) by (nonlinear_arith)
        requires
            nat_of(post) == nat_of(pre) + nat_of(nd) * (q as nat) * pow2(32 * i as nat),
            val == pi * vs,
            nat_of(pre) == val,
            nat_of(nd) == nv,
            pow2(32 * i as nat) as int == pi,
    ;
    lemma_truncate_middle(vs + (q as int) * nv, pi, bb);
    lemma_mul_basics(pi);
}

/// Montgomery reduction: divides the accumulated value by the Montgomery
/// radix modulo the modulus, with a single conditional final subtraction.
#[verifier::loop_isolation(false)]
#[verifier::rlimit(60)]
fn monty_redc(a: num_bigint::BigUint, mr: &MontyReducer) -> (r: num_bigint::BigUint)
    requires
        mr.wf(),
        uval(a) < uval(mr.n) * pow2(32 * mr.nd@.len()),
    ensures
        uval(r) < uval(mr.n),
        (uval(r) * pow2(32 * mr.nd@.len())) % uval(mr.n) == uval(a) % uval(mr.n),
{
    let ns = mr.nd.len();
    let ghost a0 = uval(a);
    let ghost nv = uval(mr.n);
    let ghost rr = pow2(32 * ns as nat);
    proof {
        assert(nv >= 1);
        lemma_nat_of_bound(mr.nd@);
        lemma_pow2_pos(32 * ns as nat);
    }
    let mut c = ubig_to_digits(&a);
    // Zero-extend the working buffer by 2*ns + 2 digits.
    let mut k: usize = 0;
    let ghost c0len = c@.len();
    while k < ns
        invariant
            k <= ns,
            nat_of(c@) == a0,
            c@.len() == c0len + 2 * k,
        decreases ns - k,
    {
        proof {
            lemma_nat_of_push_zero(c@);
            lemma_nat_of_push_zero(c@.push(0));
        }
        c.push(0);
        c.push(0);
        k = k + 1;
    }
    proof {
        lemma_nat_of_push_zero(c@);
        lemma_nat_of_push_zero(c@.push(0));
    }
    c.push(0);
    c.push(0);
    let len = c.len();
    assert(len >= 2 * ns + 2);
    // mu = -n0inv modulo 2^32; n0inv is nonzero since it has an inverse.
    proof {
        if mr.n0inv == 0 {
            lemma_mul_basics(mr.nd@[0] as int);
            lemma_small_mod(0, 0x1_0000_0000);
            assert(false);
        }
    }
    let mu: u32 = (0xFFFF_FFFFu32 - mr.n0inv) + 1;
    let mut i: usize = 0;
    proof {
        lemma2_to64();
        lemma_mul_basics(nv as int);
        lemma_mul_basics(nat_of(c@) as int);
        lemma_mod_multiples_basic(nat_of(c@) as int, 1);
    }
    while i < ns
        invariant
            i <= ns,
            c@.len() == len,
            nat_of(c@) % pow2(32 * i as nat) == 0,
            nat_of(c@) % nv == a0 % nv,
            nat_of(c@) <= a0 + nv * (pow2(32 * i as nat) - 1),
        decreases ns - i,
    {
        let ci = c[i];
        assert((ci as u64) * (mu as u64) <= 0xFFFF_FFFFu64 * 0xFFFF_FFFF) by (nonlinear_arith)
            requires
                ci <= 0xFFFF_FFFFu64,
                mu <= 0xFFFF_FFFFu64,
        ;
        let q: u32 = (((ci as u64) * (mu as u64)) % 0x1_0000_0000) as u32;
        let ghost val = nat_of(c@);
        let ghost bb: int = 0x1_0000_0000;
        let ghost pi = pow2(32 * i as nat) as int;
        let ghost pi1 = pow2(32 * (i + 1) as nat) as int;
        let ghost prev = c@;
        proof {
            lemma_pow2_adds(32 * i as nat, 32);
            lemma_pow2_32();
            assert(pi1 == pi * bb);
            lemma_pow2_pos(32 * i as nat);
            if i + 1 < ns {
                lemma_pow2_strictly_increases(32 * (i + 1) as nat, 32 * ns as nat);
            }
            assert(pi1 <= rr as int);
            lemma_pow2_adds(32 * ns as nat, 32 * ns as nat);
            lemma_pow2_unfold((32 * ns as nat + 32 * ns as nat) + 1);
            lemma_pow2_strictly_increases((32 * ns as nat + 32 * ns as nat) + 1, 32 * len as nat);
            // the buffer still has room for the scaled addend
            assert(val + nat_of(mr.nd@) * (q as nat) * pow2(32 * i as nat) < pow2(32 * len as nat))
                by (nonlinear_arith)
                requires
                    val <= a0 + nv * (pi - 1),
                    a0 < nv * (rr as int),
                    nv < rr as int,
                    nat_of(mr.nd@) == nv,
                    q < bb,
                    pi >= 1,
                    pi1 == pi * bb,
                    pi1 <= rr as int,
                    pow2(32 * i as nat) as int == pi,
                    (rr as int) * (rr as int) == pow2(32 * ns as nat + 32 * ns as nat) as int,
                    2 * pow2(32 * ns as nat + 32 * ns as nat) == pow2(
                        (32 * ns as nat + 32 * ns as nat) + 1,
                    ),
                    pow2((32 * ns as nat + 32 * ns as nat) + 1) < pow2(32 * len as nat),
                    rr >= 1,
                    nv >= 1,
            ;
        }
        mac_digits(&mut c, &mr.nd, q, i);
        proof {
            lemma_redc_step(prev, c@, mr.nd@, i as int, q, mr.n0inv, mu);
            // the added amount is a multiple of the modulus
            lemma_mul_is_associative(nv as int, q as int, pi);
            lemma_mod_multiples_vanish((q as int) * pi, val as int, nv as int);
            assert(nat_of(c@) % nv == a0 % nv);
            // and the running bound grows by one radix step
            assert(nat_of(c@) <= a0 + nv * (pi1 - 1)) by (nonlinear_arith)
                requires
                    nat_of(c@) == val + nv * (q as nat) * pow2(32 * i as nat),
                    val <= a0 + nv * (pi - 1),
                    q < bb,
                    pow2(32 * i as nat) as int == pi,
                    pi1 == pi * bb,
                    pi >= 1,
                    nv >= 1,
            ;
        }
        i = i + 1;
    }
    // The low half is now zero: the high digits are the candidate result.
    let mut hi: Vec<u32> = Vec::new();
    let mut j: usize = ns;
    while j < len
        invariant
            ns <= j <= len,
            c@.len() == len,
            hi@ == c@.subrange(ns as int, j as int),
        decreases len - j,
    {
        let digit = c[j];
        hi.push(digit);
        j = j + 1;
    }
    let ghost val = nat_of(c@);
    let ghost rv = nat_of(hi@);
    proof {
        assert(hi@ =~= c@.skip(ns as int));
        lemma_nat_of_mod_div(c@, ns as int);
        assert(rv == val / rr);
        lemma_fundamental_div_mod(val as int, rr as int);
        lemma_mul_is_commutative(rr as int, rv as int);
        assert(rv * rr == val);
        assert(val < rr as int * (2 * nv as int)) by (nonlinear_arith)
            requires
                val <= a0 + nv * (rr as int - 1),
                a0 < nv * (rr as int),
                nv >= 1,
                rr >= 1,
        ;
        lemma_multiply_divide_lt(val as int, rr as int, 2 * nv as int);
        assert(rv < 2 * nv);
    }
    let ret = ubig_from_digits(hi);
    if ubig_lt(&ret, &mr.n) {
        ret
    } else {
        let ret2 = ubig_sub(&ret, &mr.n);
        proof {
            assert((rv - nv) * rr as int == (nv as int) * (-(rr as int)) + (rv as int) * (
            rr as int)) by (nonlinear_arith);
            lemma_mod_multiples_vanish(-(rr as int), (rv as int) * (rr as int), nv as int);
        }
        ret2
    }
}

/// Montgomery multiplication: reduces the plain product of two residues.
fn monty_mult(a: num_bigint::BigUint, b: &num_bigint::BigUint, mr: &MontyReducer) -> (r:
    num_bigint::BigUint)
    requires
        mr.wf(),
        uval(a) < uval(mr.n),
        uval(*b) < uval(mr.n),
    ensures
        uval(r) < uval(mr.n),
        (uval(r) * pow2(32 * mr.nd@.len())) % uval(mr.n) == (uval(a) * uval(*b)) % uval(mr.n),
{
    let p = ubig_mul(&a, b);
    proof {
        lemma_nat_of_bound(mr.nd@);
        lemma_pow2_pos(32 * mr.nd@.len());
        assert(uval(p) < uval(mr.n) * pow2(32 * mr.nd@.len())) by (nonlinear_arith)
            requires
                uval(p) == uval(a) * uval(*b),
                uval(a) < uval(mr.n),
                uval(*b) < pow2(32 * mr.nd@.len()),
                uval(mr.n) >= 1,
                pow2(32 * mr.nd@.len()) >= 1,
        ;
    }
    monty_redc(p, mr)
}

/// Montgomery squaring: reduces the plain square of a residue.
fn monty_sqr(a: num_bigint::BigUint, mr: &MontyReducer) -> (r: num_bigint::BigUint)
    requires
        mr.wf(),
        uval(a) < uval(mr.n),
    ensures
        uval(r) < uval(mr.n),
        (uval(r) * pow2(32 * mr.nd@.len())) % uval(mr.n) == (uval(a) * uval(a)) % uval(mr.n),
{
    let p = ubig_mul(&a, &a);
    proof {
        lemma_nat_of_bound(mr.nd@);
        lemma_pow2_pos(32 * mr.nd@.len());
        assert(uval(p) < uval(mr.n) * pow2(32 * mr.nd@.len())) by (nonlinear_arith)
            requires
                uval(p) == uval(a) * uval(a),
                uval(a) < uval(mr.n),
                uval(a) < pow2(32 * mr.nd@.len()),
                uval(mr.n) >= 1,
                pow2(32 * mr.nd@.len()) >= 1,
        ;
    }
    monty_redc(p, mr)
}

/// Modular exponentiation by binary square-and-multiply inside the
/// Montgomery domain: returns base^exponent modulo an odd modulus.
#[verifier::loop_isolation(false)]
#[verifier::rlimit(60)]
pub fn monty_modpow(
    a: &num_bigint::BigUint,
    exp: &num_bigint::BigUint,
    modulus: &num_bigint::BigUint,
) -> (r: num_bigint::BigUint)
    requires
        uval(*modulus) % 2 == 1,
    ensures
        uval(r) as int == pow(uval(*a) as int, uval(*exp)) % (uval(*modulus) as int),
{
    let mr = MontyReducer::new(modulus);
    let ns = mr.nd.len();
    let ghost nv = uval(*modulus) as int;
    let ghost rr = pow2(32 * ns as nat) as int;
    let ghost a0 = uval(*a) as int;
    let ghost e0 = uval(*exp);
    proof {
        assert(nv >= 1);
        lemma_pow2_pos(32 * ns as nat);
    }
    // the Montgomery radix: a one digit past ns zero digits
    let mut v: Vec<u32> = Vec::new();
    let mut k: usize = 0;
    while k < ns
        invariant
            k <= ns,
            v@.len() == k,
            forall|t: int| 0 <= t < k ==> v@[t] == 0,
        decreases ns - k,
    {
        v.push(0);
        k = k + 1;
    }
    v.push(1);
    proof {
        lemma_nat_of_radix(v@, ns as int);
    }
    let rbig = ubig_from_digits(v);
    // map the base into the Montgomery domain, start the accumulator at one
    let am = ubig_mul(a, &rbig);
    let mut apri = ubig_rem(&am, &mr.n);
    let mut ans = ubig_rem(&rbig, &mr.n);
    let mut e = exp.clone();
    let ghost mut kk: nat = 0;
    let ghost mut d: nat = 0;
    proof {
        lemma_mod_bound(uval(am) as int, nv);
        lemma_mod_bound(rr, nv);
        lemma2_to64();
        lemma_pow0(a0);
        lemma_pow1(a0);
        lemma_mul_basics(rr);
        lemma_mul_basics(e0 as int);
        lemma_mod_twice(a0 * rr, nv);
        lemma_mod_twice(rr, nv);
        assert(pow(a0, pow2(0)) == a0);
        assert(uval(apri) as int % nv == (pow(a0, pow2(0)) * rr) % nv);
        assert(uval(ans) as int % nv == (pow(a0, 0) * rr) % nv);
        assert(e0 == uval(e) * pow2(kk) + d);
    }
    let mut done = ubig_is_zero(&e);
    while !done
        invariant
            done == (uval(e) == 0),
            uval(ans) < uval(mr.n),
            uval(apri) < uval(mr.n),
            uval(ans) as int % nv == (pow(a0, d) * rr) % nv,
            uval(apri) as int % nv == (pow(a0, pow2(kk)) * rr) % nv,
            e0 == uval(e) * pow2(kk) + d,
            d < pow2(kk),
        decreases uval(e),
    {
        let ghost ev = uval(e);
        let ghost d_old = d;
        let odd = ubig_is_odd(&e);
        if odd {
            let ghost ansv = uval(ans) as int;
            let newans = monty_mult(ans, &apri, &mr);
            proof {
                lemma_mul_mod_congruent(
                    ansv,
                    uval(apri) as int,
                    pow(a0, d) * rr,
                    pow(a0, pow2(kk)) * rr,
                    nv,
                );
                lemma_pow_adds(a0, d, pow2(kk));
                assert((pow(a0, d) * rr) * (pow(a0, pow2(kk)) * rr) == (pow(
                    a0,
                    (d + pow2(kk)) as nat,
                ) * rr) * rr) by (nonlinear_arith)
                    requires
                        pow(a0, (d + pow2(kk)) as nat) == pow(a0, d) * pow(a0, pow2(kk)),
                ;
                lemma_odd_cancel_pow2(
                    nv,
                    32 * ns as nat,
                    uval(newans) as int,
                    pow(a0, (d + pow2(kk)) as nat) * rr,
                );
                d = d + pow2(kk);
            }
            ans = newans;
        }
        let ghost apriv = uval(apri) as int;
        apri = monty_sqr(apri, &mr);
        proof {
            lemma_mul_mod_congruent(
                apriv,
                apriv,
                pow(a0, pow2(kk)) * rr,
                pow(a0, pow2(kk)) * rr,
                nv,
            );
            lemma_pow_adds(a0, pow2(kk), pow2(kk));
            lemma_pow2_unfold((kk + 1) as nat);
            assert((pow(a0, pow2(kk)) * rr) * (pow(a0, pow2(kk)) * rr) == (pow(
                a0,
                pow2((kk + 1) as nat),
            ) * rr) * rr) by (nonlinear_arith)
                requires
                    pow(a0, (pow2(kk) + pow2(kk)) as nat) == pow(a0, pow2(kk)) * pow(
                        a0,
                        pow2(kk),
                    ),
                    pow2((kk + 1) as nat) == 2 * pow2(kk),
            ;
            lemma_odd_cancel_pow2(
                nv,
                32 * ns as nat,
                uval(apri) as int,
                pow(a0, pow2((kk + 1) as nat)) * rr,
            );
        }
        e = ubig_shr1(&e);
        proof {
            lemma_fundamental_div_mod(ev as int, 2);
            lemma_pow2_unfold((kk + 1) as nat);
            lemma_pow2_pos(kk);
            let e1 = uval(e);
            if odd {
                assert(e0 == e1 * pow2((kk + 1) as nat) + (d_old + pow2(kk))) by (nonlinear_arith)
                    requires
                        e0 == ev * pow2(kk) + d_old,
                        ev == 2 * e1 + 1,
                        pow2((kk + 1) as nat) == 2 * pow2(kk),
                ;
            } else {
                assert(e0 == e1 * pow2((kk + 1) as nat) + d_old) by (nonlinear_arith)
                    requires
                        e0 == ev * pow2(kk) + d_old,
                        ev == 2 * e1,
                        pow2((kk + 1) as nat) == 2 * pow2(kk),
                ;
            }
            kk = kk + 1;
            if ev >= 1 {
                lemma_div_decreases(ev as int, 2);
            }
        }
        done = ubig_is_zero(&e);
    }
    proof {
        lemma_mul_basics(pow2(kk) as int);
        assert(e0 == d);
        assert(uval(ans) < uval(mr.n) * pow2(32 * mr.nd@.len())) by (nonlinear_arith)
            requires
                uval(ans) < uval(mr.n),
                pow2(32 * mr.nd@.len()) >= 1,
                uval(mr.n) >= 1,
        ;
    }
    let ghost ansv2 = uval(ans) as int;
    let result = monty_redc(ans, &mr);
    proof {
        lemma_odd_cancel_pow2(nv, 32 * ns as nat, uval(result) as int, pow(a0, e0));
        lemma_small_mod(uval(result), nv as nat);
    }
    result
}

/// Modular exponentiation that reports an even modulus instead of ruling it
/// out: returns base^exponent modulo the modulus exactly when it is odd,
/// since the reduction engine has no inverse for an even modulus digit.
pub fn try_monty_modpow(
    a: &num_bigint::BigUint,
    exp: &num_bigint::BigUint,
    modulus: &num_bigint::BigUint,
) -> (r: Option<num_bigint::BigUint>)
    ensures
        r is Some <==> uval(*modulus) % 2 == 1,
        r is Some ==> uval(r.unwrap()) as int == pow(uval(*a) as int, uval(*exp)) % (uval(
            *modulus,
        ) as int),
{
    if ubig_is_odd(modulus) {
        Some(monty_modpow(a, exp, modulus))
    } else {
        None
    }
}

/// Raising any base to the exponent zero gives one modulo the modulus.
pub proof fn lemma_modpow_zero_exponent(a: nat, n: nat)
    requires
        n >= 1,
    ensures
        pow(a as int, 0) % (n as int) == 1int % (n as int),
{
    lemma_pow0(a as int);
}

/// Raising zero to any positive exponent gives zero modulo the modulus.
pub proof fn lemma_modpow_zero_base(e: nat, n: nat)
    requires
        n >= 1,
        e > 0,
    ensures
        pow(0, e) % (n as int) == 0,
{
    lemma0_pow(e);
    lemma_small_mod(0, n);
}

/// Returns the modular inverse of the digit modulo 2^32 when the digit is
/// odd, and nothing when it is even, since no inverse exists then.
pub fn try_inv_mod(num: u32) -> (r: Option<u32>)
    ensures
        r is Some <==> num % 2 == 1,
        r is Some ==> (r.unwrap() as nat * num as nat) % 0x1_0000_0000 == 1,
{
    if num % 2 == 1 {
        Some(inv_mod(num))
    } else {
        None
    }
}

} // verus!
