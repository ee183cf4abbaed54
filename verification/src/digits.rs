//! Little-endian base-2^32 digit sequences and their mathematical value.
use vstd::prelude::*;

use vstd::arithmetic::div_mod::*;
use vstd::arithmetic::mul::*;
use vstd::arithmetic::power2::*;

verus! {

/// Value of a little-endian sequence of 32-bit digits.
pub open spec fn nat_of(s: Seq<u32>) -> nat
    decreases s.len(),
{
    if s.len() == 0 {
        0
    } else {
        s[0] as nat + 0x1_0000_0000 * nat_of(s.drop_first())
    }
}

/// A digit sequence is canonical when it has no most-significant zero digit.
pub open spec fn canonical(s: Seq<u32>) -> bool {
    s.len() == 0 || s.last() != 0
}

/// Fewest bits needed to represent a natural number.
pub open spec fn bitlen(n: nat) -> nat
    decreases n,
{
    if n == 0 {
        0
    } else {
        1 + bitlen(n / 2)
    }
}

pub proof fn lemma_pow2_32()
    ensures
        pow2(32) == 0x1_0000_0000,
{
    lemma2_to64();
}

/// The value of a sequence splits at any index into a low and a high part.
pub proof fn lemma_nat_of_split(s: Seq<u32>, i: int)
    requires
        0 <= i <= s.len(),
    ensures
        nat_of(s) == nat_of(s.take(i)) + pow2(32 * i as nat) * nat_of(s.skip(i)),
    decreases i,
{
    if i == 0 {
        assert(s.take(0) =~= Seq::<u32>::empty());
        assert(s.skip(0) =~= s);
        lemma2_to64();
    } else {
        let d = s.drop_first();
        lemma_nat_of_split(d, i - 1);
        assert(s.take(i).drop_first() =~= d.take(i - 1));
        assert(s.skip(i) =~= d.skip(i - 1));
        assert(s.take(i).len() == i);
        assert(s.take(i)[0] == s[0]);
        assert(nat_of(s.take(i)) == s[0] as nat + 0x1_0000_0000 * nat_of(d.take(i - 1)));
        assert(nat_of(s) == s[0] as nat + 0x1_0000_0000 * nat_of(d));
        assert(nat_of(d) == nat_of(d.take(i - 1)) + pow2(32 * (i - 1) as nat) * nat_of(
            d.skip(i - 1),
        ));
        lemma_pow2_adds(32, 32 * (i - 1) as nat);
        lemma_pow2_32();
        assert(32 + 32 * (i - 1) as nat == 32 * i as nat);
        let p = pow2(32 * (i - 1) as nat);
        let h = nat_of(d.skip(i - 1));
        let lo = nat_of(d.take(i - 1));
        assert(0x1_0000_0000 * (lo + p * h) == 0x1_0000_0000 * lo + 0x1_0000_0000 * (p * h))
            by (nonlinear_arith);
        assert(0x1_0000_0000 * (p * h) == (0x1_0000_0000 * p) * h) by (nonlinear_arith);
    }
}

/// The value of a digit sequence is below 2^(32 * length).
pub proof fn lemma_nat_of_bound(s: Seq<u32>)
    ensures
        nat_of(s) < pow2(32 * s.len()),
    decreases s.len(),
{
    if s.len() == 0 {
        lemma2_to64();
    } else {
        let d = s.drop_first();
        lemma_nat_of_bound(d);
        lemma_pow2_adds(32, 32 * (s.len() - 1) as nat);
        lemma_pow2_32();
        let p = pow2(32 * (s.len() - 1) as nat);
        assert(nat_of(d) <= p - 1);
        assert(0x1_0000_0000 * nat_of(d) <= 0x1_0000_0000 * (p - 1)) by (nonlinear_arith)
            requires
                nat_of(d) <= p - 1,
        ;
        assert(s[0] as nat <= 0xFFFF_FFFF);
        assert(0x1_0000_0000 * (p - 1) + 0xFFFF_FFFF < 0x1_0000_0000 * p) by (nonlinear_arith)
            requires
                p >= 1,
        ;
        lemma_pow2_pos(32 * (s.len() - 1) as nat);
    }
}

/// The value splits around a single digit position.
pub proof fn lemma_nat_of_digit(s: Seq<u32>, i: int)
    requires
        0 <= i < s.len(),
    ensures
        nat_of(s) == nat_of(s.take(i)) + pow2(32 * i as nat) * (s[i] as nat) + pow2(
            32 * (i + 1) as nat,
        ) * nat_of(s.skip(i + 1)),
{
    lemma_nat_of_split(s, i);
    let t = s.skip(i);
    assert(t.len() > 0);
    assert(t[0] == s[i]);
    assert(t.drop_first() =~= s.skip(i + 1));
    assert(nat_of(t) == s[i] as nat + 0x1_0000_0000 * nat_of(s.skip(i + 1)));
    lemma_pow2_adds(32 * i as nat, 32);
    lemma_pow2_32();
    let p = pow2(32 * i as nat);
    let h = nat_of(s.skip(i + 1));
    assert(p * (s[i] as nat + 0x1_0000_0000 * h) == p * (s[i] as nat) + (p * 0x1_0000_0000) * h)
        by (nonlinear_arith);
    assert(32 * i as nat + 32 == 32 * (i + 1) as nat);
}

/// Updating one digit changes the value by the scaled digit difference.
pub proof fn lemma_nat_of_update(s: Seq<u32>, i: int, v: u32)
    requires
        0 <= i < s.len(),
    ensures
        nat_of(s.update(i, v)) + pow2(32 * i as nat) * (s[i] as nat) == nat_of(s) + pow2(
            32 * i as nat,
        ) * (v as nat),
{
    let u = s.update(i, v);
    lemma_nat_of_digit(s, i);
    lemma_nat_of_digit(u, i);
    assert(u.take(i) =~= s.take(i));
    assert(u.skip(i + 1) =~= s.skip(i + 1));
}

/// A sequence of zero digits followed by a one digit has the value 2^(32 * n).
pub proof fn lemma_nat_of_radix(s: Seq<u32>, n: int)
    requires
        0 <= n,
        s.len() == n + 1,
        forall|i: int| 0 <= i < n ==> s[i] == 0,
        s[n] == 1,
    ensures
        nat_of(s) == pow2(32 * n as nat),
    decreases n,
{
    if n == 0 {
        assert(nat_of(s.drop_first()) == 0);
        lemma2_to64();
    } else {
        let d = s.drop_first();
        lemma_nat_of_radix(d, n - 1);
        lemma_pow2_adds(32, 32 * (n - 1) as nat);
        lemma_pow2_32();
    }
}

/// Taking one more digit adds that digit at its scaled position.
pub proof fn lemma_nat_of_take_succ(s: Seq<u32>, k: int)
    requires
        0 <= k < s.len(),
    ensures
        nat_of(s.take(k + 1)) == nat_of(s.take(k)) + pow2(32 * k as nat) * (s[k] as nat),
{
    lemma_nat_of_digit(s.take(k + 1), k);
    assert(s.take(k + 1).take(k) =~= s.take(k));
    assert(s.take(k + 1).skip(k + 1) =~= Seq::<u32>::empty());
    assert(s.take(k + 1)[k] == s[k]);
    assert(nat_of(Seq::<u32>::empty()) == 0);
    lemma_mul_basics(pow2(32 * (k + 1) as nat) as int);
}

/// Appending a zero digit leaves the value unchanged.
pub proof fn lemma_nat_of_push_zero(s: Seq<u32>)
    ensures
        nat_of(s.push(0)) == nat_of(s),
{
    let p = s.push(0);
    lemma_nat_of_digit(p, s.len() as int);
    assert(p.take(s.len() as int) =~= s);
    assert(p.skip(s.len() as int + 1) =~= Seq::<u32>::empty());
    assert(p[s.len() as int] == 0);
    assert(nat_of(Seq::<u32>::empty()) == 0);
    lemma_mul_basics(pow2(32 * (s.len() + 1)) as int);
    lemma_mul_basics(pow2(32 * s.len()) as int);
}

/// A canonical sequence has value zero exactly when it is empty.
pub proof fn lemma_canonical_zero(s: Seq<u32>)
    requires
        canonical(s),
    ensures
        (nat_of(s) == 0) <==> (s.len() == 0),
{
    if s.len() > 0 {
        lemma_nat_of_digit(s, s.len() - 1);
        assert(s.last() as nat >= 1);
        lemma_pow2_pos(32 * (s.len() - 1) as nat);
        let p = pow2(32 * (s.len() - 1) as nat);
        assert(p * (s.last() as nat) >= p * 1) by (nonlinear_arith)
            requires
                p >= 1,
                s.last() as nat >= 1,
        ;
    }
}

/// The parity of the value is the parity of the least-significant digit.
pub proof fn lemma_nat_of_parity(s: Seq<u32>)
    requires
        s.len() > 0,
    ensures
        nat_of(s) % 2 == s[0] as nat % 2,
{
    let r = nat_of(s.drop_first());
    assert(nat_of(s) == s[0] as nat + 0x1_0000_0000 * r);
    assert(0x1_0000_0000 * r == 2 * (0x8000_0000 * r)) by (nonlinear_arith);
    lemma_mod_multiples_vanish(0x8000_0000 * r as int, s[0] as int, 2);
}

/// Low digits give the value modulo a power of the radix; high digits give the quotient.
pub proof fn lemma_nat_of_mod_div(s: Seq<u32>, i: int)
    requires
        0 <= i <= s.len(),
    ensures
        nat_of(s) % pow2(32 * i as nat) == nat_of(s.take(i)),
        nat_of(s) / pow2(32 * i as nat) == nat_of(s.skip(i)),
{
    lemma_nat_of_split(s, i);
    let p = pow2(32 * i as nat);
    lemma_pow2_pos(32 * i as nat);
    lemma_nat_of_bound(s.take(i));
    assert(s.take(i).len() == i);
    lemma_mul_is_commutative(p as int, nat_of(s.skip(i)) as int);
    assert(nat_of(s) as int == nat_of(s.skip(i)) as int * p as int + nat_of(s.take(i)) as int);
    lemma_fundamental_div_mod_converse(
        nat_of(s) as int,
        p as int,
        nat_of(s.skip(i)) as int,
        nat_of(s.take(i)) as int,
    );
}

} // verus!
