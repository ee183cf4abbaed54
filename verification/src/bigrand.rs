//! Random generation of big integers: fixed bit sizes, exclusive bounds,
//! half-open ranges, and the uniform-distribution adapters over them.
use vstd::prelude::*;

use vstd::arithmetic::div_mod::*;
use vstd::arithmetic::mul::*;
use vstd::arithmetic::power2::*;

use crate::digits::{lemma_nat_of_bound, lemma_nat_of_digit, nat_of};
use crate::ibig::{ival, ibig_add, ibig_from_sign_magnitude, ibig_from_unsigned, ibig_is_zero,
    ibig_lt, ibig_magnitude, ibig_sub, Sign};
use crate::ubig::{uval, ubig_add, ubig_bits, ubig_from_digits, ubig_from_u32, ubig_is_zero,
    ubig_lt, ubig_sub};

verus! {

#[verifier::external_type_specification]
#[verifier::external_body]
pub struct ExStdRng(rand::rngs::StdRng);

/// A pseudorandom word source; each caller owns its own.
pub struct GenSource {
    rng: rand::rngs::StdRng,
}

/// Relies on rand's SeedableRng::seed_from_u64 for StdRng.
#[verifier::external_body]
fn seeded_rng(seed: u64) -> rand::rngs::StdRng {
    <rand::rngs::StdRng as rand::SeedableRng>::seed_from_u64(seed)
}

/// Relies on rand's SeedableRng::from_seed for StdRng, whose seed is a full
/// 32 bytes.
#[verifier::external_body]
fn seeded_rng_bytes(seed: [u8; 32]) -> rand::rngs::StdRng {
    <rand::rngs::StdRng as rand::SeedableRng>::from_seed(seed)
}

/// Relies on rand's SeedableRng::from_entropy for StdRng.
#[verifier::external_body]
fn entropy_rng() -> rand::rngs::StdRng {
    <rand::rngs::StdRng as rand::SeedableRng>::from_entropy()
}

/// Relies on rand's Rng::fill for u32 slices: fills the buffer with
/// uniformly random words and leaves its length unchanged.
#[verifier::external_body]
fn fill_words(src: &mut GenSource, buf: &mut Vec<u32>)
    ensures
        final(buf)@.len() == old(buf)@.len(),
{
    rand::Rng::fill(&mut src.rng, buf.as_mut_slice())
}

/// Relies on rand's Rng::gen for bool: a fair coin flip.
#[verifier::external_body]
fn coin(src: &mut GenSource) -> bool {
    rand::Rng::gen::<bool>(&mut src.rng)
}

impl GenSource {
    /// Deterministic source from a 64-bit seed.
    pub fn from_seed(seed: u64) -> GenSource {
        GenSource { rng: seeded_rng(seed) }
    }

    /// Deterministic source from a full-width 32-byte seed.
    pub fn from_seed_bytes(seed: [u8; 32]) -> GenSource {
        GenSource { rng: seeded_rng_bytes(seed) }
    }

    /// Source seeded from operating-system entropy.
    pub fn from_entropy() -> GenSource {
        GenSource { rng: entropy_rng() }
    }
}

/// Number of 32-bit words needed to hold the given number of bits.
pub open spec fn words_for(bits: nat) -> nat {
    bits / 32 + if bits % 32 > 0 {
        1nat
    } else {
        0nat
    }
}

/// Right-shifts the most-significant word so that only the requested bits
/// remain, leaves every other word as filled, and assembles the magnitude:
/// a value below 2^bit_size whose digits are exactly the given words with
/// the last one shifted down by the excess bit count.
pub fn biguint_from_random_words(data: Vec<u32>, bit_size: usize) -> (r: num_bigint::BigUint)
    requires
        data@.len() == words_for(bit_size as nat),
    ensures
        uval(r) < pow2(bit_size as nat),
        bit_size as nat % 32 == 0 ==> uval(r) == nat_of(data@),
        bit_size as nat % 32 > 0 ==> uval(r) == nat_of(data@.take(data@.len() - 1)) + pow2(
            32 * (data@.len() - 1) as nat,
        ) * ((data@[data@.len() - 1] as nat) / pow2((32 - bit_size as nat % 32) as nat)),
{
    let ghost d0 = data@;
    let digits = bit_size / 32;
    let rem = bit_size % 32;
    let mut data = data;
    proof {
        lemma2_to64();
    }
    if rem > 0 {
        let last = data.len() - 1;
        let w0 = data[last];
        let rem32: u32 = rem as u32;
        let sh: u32 = 32 - rem32;
        let kept = w0 >> sh;
        data.set(last, kept);
        proof {
            let s = data@;
            assert(s.take(last as int) =~= d0.take(last as int));
            vstd::bits::lemma_u32_shr_is_div(w0, sh);
            assert(kept as nat == (d0[last as int] as nat) / pow2((32 - bit_size as nat % 32) as nat));
            assert(kept < (1u32 << rem32)) by (bit_vector)
                requires
                    kept == w0 >> sh,
                    sh == 32 - rem32,
                    0 < rem32 < 32,
            ;
            lemma_pow2_strictly_increases(rem as nat, 32);
            crate::digits::lemma_pow2_32();
            vstd::bits::lemma_u32_shl_is_mul(1u32, rem32);
            lemma_mul_basics(pow2(rem as nat) as int);
            assert((kept as nat) < pow2(rem as nat));
            lemma_nat_of_digit(s, last as int);
            assert(s.skip(last as int + 1) =~= Seq::<u32>::empty());
            lemma_mul_basics(pow2(32 * (last + 1) as nat) as int);
            lemma_nat_of_bound(s.take(last as int));
            lemma_pow2_adds(32 * last as nat, rem as nat);
            lemma_fundamental_div_mod(bit_size as int, 32);
            assert(32 * last as nat + rem as nat == bit_size as nat);
            assert(nat_of(s) < pow2(bit_size as nat)) by (nonlinear_arith)
                requires
                    nat_of(s) == nat_of(s.take(last as int)) + pow2(32 * last as nat) * (
                    kept as nat),
                    nat_of(s.take(last as int)) < pow2(32 * last as nat),
                    (kept as nat) < pow2(rem as nat),
                    pow2(32 * last as nat) * pow2(rem as nat) == pow2(bit_size as nat),
                    pow2(32 * last as nat) >= 1,
                    pow2(rem as nat) >= 1,
            ;
        }
    } else {
        proof {
            lemma_nat_of_bound(data@);
            lemma_fundamental_div_mod(bit_size as int, 32);
            assert(32 * data@.len() == bit_size as nat);
        }
    }
    ubig_from_digits(data)
}

/// Random generation of big integers from a pseudorandom word source.
pub trait RandBigInt {
    /// Generate a random magnitude of the given bit size: a value in
    /// [0, 2^bit_size).
    fn gen_biguint(&mut self, bit_size: usize) -> (r: num_bigint::BigUint)
        ensures
            uval(r) < pow2(bit_size as nat),
    ;

    /// Generate a random signed value of the given bit size: a value in
    /// (-2^bit_size, 2^bit_size), with the zero bias corrected.
    fn gen_bigint(&mut self, bit_size: usize) -> (r: num_bigint::BigInt)
        ensures
            -(pow2(bit_size as nat) as int) < ival(r) < pow2(bit_size as nat) as int,
    ;

    /// Generate a random magnitude strictly less than the given bound,
    /// which must be nonzero.
    fn gen_biguint_below(&mut self, bound: &num_bigint::BigUint) -> (r: num_bigint::BigUint)
        requires
            uval(*bound) > 0,
        ensures
            uval(r) < uval(*bound),
    ;

    /// Generate a random magnitude within the given range: the lower bound
    /// is inclusive, the upper bound exclusive.
    fn gen_biguint_range(
        &mut self,
        lbound: &num_bigint::BigUint,
        ubound: &num_bigint::BigUint,
    ) -> (r: num_bigint::BigUint)
        requires
            uval(*lbound) < uval(*ubound),
        ensures
            uval(*lbound) <= uval(r) < uval(*ubound),
    ;

    /// Generate a random signed value within the given range: the lower
    /// bound is inclusive, the upper bound exclusive.
    fn gen_bigint_range(
        &mut self,
        lbound: &num_bigint::BigInt,
        ubound: &num_bigint::BigInt,
    ) -> (r: num_bigint::BigInt)
        requires
            ival(*lbound) < ival(*ubound),
        ensures
            ival(*lbound) <= ival(r) < ival(*ubound),
    ;
}

impl RandBigInt for GenSource {
    fn gen_biguint(&mut self, bit_size: usize) -> (r: num_bigint::BigUint) {
        let digits = bit_size / 32;
        let rem = bit_size % 32;
        proof {
            if bit_size > 0 {
                lemma_div_decreases(bit_size as int, 32);
            }
        }
        let extra: usize = if rem > 0 {
            1
        } else {
            0
        };
        let len = digits + extra;
        let mut data: Vec<u32> = vec![0u32; len];
        fill_words(self, &mut data);
        biguint_from_random_words(data, bit_size)
    }

    /// Rejection sampling with a sign coin: each round leaves the loop with
    /// probability at least one half, so the draw budget only makes
    /// termination checkable; running it out is unreachable in practice,
    /// and then zero is an admissible answer.
    #[verifier::loop_isolation(false)]
    fn gen_bigint(&mut self, bit_size: usize) -> (r: num_bigint::BigInt) {
        proof {
            lemma_pow2_pos(bit_size as nat);
        }
        let mut fuel: u64 = 0x1_0000_0000;
        while fuel > 0
            decreases fuel,
        {
            let mag = self.gen_biguint(bit_size);
            if ubig_is_zero(&mag) {
                // a zero magnitude is kept only half the time: both sign
                // choices collapse to zero, which would double its weight
                if !coin(self) {
                    return ibig_from_sign_magnitude(Sign::NoSign, mag);
                }
            } else {
                let s = if coin(self) {
                    Sign::Plus
                } else {
                    Sign::Minus
                };
                return ibig_from_sign_magnitude(s, mag);
            }
            fuel = fuel - 1;
        }
        let zero = ubig_from_u32(0);
        ibig_from_sign_magnitude(Sign::NoSign, zero)
    }

    /// Rejection sampling: each candidate is accepted with probability at
    /// least one half, so the draw budget only makes termination checkable;
    /// running it out is unreachable in practice, and then the bound's
    /// predecessor is an admissible answer.
    #[verifier::loop_isolation(false)]
    fn gen_biguint_below(&mut self, bound: &num_bigint::BigUint) -> (r: num_bigint::BigUint) {
        let bits = ubig_bits(bound);
        let mut fuel: u64 = 0x1_0000_0000;
        while fuel > 0
            decreases fuel,
        {
            let n = self.gen_biguint(bits);
            if ubig_lt(&n, bound) {
                return n;
            }
            fuel = fuel - 1;
        }
        let one = ubig_from_u32(1);
        ubig_sub(bound, &one)
    }

    fn gen_biguint_range(
        &mut self,
        lbound: &num_bigint::BigUint,
        ubound: &num_bigint::BigUint,
    ) -> (r: num_bigint::BigUint) {
        if ubig_is_zero(lbound) {
            self.gen_biguint_below(ubound)
        } else {
            let span = ubig_sub(ubound, lbound);
            let off = self.gen_biguint_below(&span);
            ubig_add(lbound, &off)
        }
    }

    fn gen_bigint_range(
        &mut self,
        lbound: &num_bigint::BigInt,
        ubound: &num_bigint::BigInt,
    ) -> (r: num_bigint::BigInt) {
        if ibig_is_zero(lbound) {
            let mag = ibig_magnitude(ubound);
            ibig_from_unsigned(self.gen_biguint_below(&mag))
        } else if ibig_is_zero(ubound) {
            let mag = ibig_magnitude(lbound);
            let off = ibig_from_unsigned(self.gen_biguint_below(&mag));
            ibig_add(lbound, &off)
        } else {
            let delta = ibig_sub(ubound, lbound);
            let mag = ibig_magnitude(&delta);
            let off = ibig_from_unsigned(self.gen_biguint_below(&mag));
            ibig_add(lbound, &off)
        }
    }
}

impl GenSource {
    /// Bounded sampling that reports a zero bound instead of ruling it out:
    /// gives a value below the bound exactly when the bound is nonzero.
    pub fn try_gen_biguint_below(&mut self, bound: &num_bigint::BigUint) -> (r: Option<
        num_bigint::BigUint,
    >)
        ensures
            r is Some <==> uval(*bound) > 0,
            r is Some ==> uval(r.unwrap()) < uval(*bound),
    {
        if ubig_is_zero(bound) {
            None
        } else {
            Some(self.gen_biguint_below(bound))
        }
    }

    /// Ranged sampling that reports an empty or inverted range: gives a
    /// value in [lbound, ubound) exactly when the range is honest.
    pub fn try_gen_biguint_range(
        &mut self,
        lbound: &num_bigint::BigUint,
        ubound: &num_bigint::BigUint,
    ) -> (r: Option<num_bigint::BigUint>)
        ensures
            r is Some <==> uval(*lbound) < uval(*ubound),
            r is Some ==> uval(*lbound) <= uval(r.unwrap()) < uval(*ubound),
    {
        if ubig_lt(lbound, ubound) {
            Some(self.gen_biguint_range(lbound, ubound))
        } else {
            None
        }
    }

    /// Signed ranged sampling that reports an empty or inverted range.
    pub fn try_gen_bigint_range(
        &mut self,
        lbound: &num_bigint::BigInt,
        ubound: &num_bigint::BigInt,
    ) -> (r: Option<num_bigint::BigInt>)
        ensures
            r is Some <==> ival(*lbound) < ival(*ubound),
            r is Some ==> ival(*lbound) <= ival(r.unwrap()) < ival(*ubound),
    {
        if ibig_lt(lbound, ubound) {
            Some(self.gen_bigint_range(lbound, ubound))
        } else {
            None
        }
    }
}

/// Uniform sampler over a half-open range of magnitudes: [base, base + len).
#[derive(Clone, Debug)]
pub struct UniformBigUint {
    pub base: num_bigint::BigUint,
    pub len: num_bigint::BigUint,
}

impl UniformBigUint {
    /// An honest sampler covers at least one value.
    pub open spec fn wf(&self) -> bool {
        uval(self.len) > 0
    }

    /// Inclusive lower end of the sampled range.
    pub open spec fn low(&self) -> nat {
        uval(self.base)
    }

    /// Exclusive upper end of the sampled range.
    pub open spec fn high(&self) -> nat {
        uval(self.base) + uval(self.len)
    }

    /// Sampler over [low, high); the range must be honest.
    pub fn new(low: num_bigint::BigUint, high: num_bigint::BigUint) -> (r: Self)
        requires
            uval(low) < uval(high),
        ensures
            r.wf(),
            r.low() == uval(low),
            r.high() == uval(high),
    {
        let len = ubig_sub(&high, &low);
        UniformBigUint { base: low, len }
    }

    /// Sampler over [low, high], both ends included.
    pub fn new_inclusive(low: num_bigint::BigUint, high: num_bigint::BigUint) -> (r: Self)
        requires
            uval(low) <= uval(high),
        ensures
            r.wf(),
            r.low() == uval(low),
            r.high() == uval(high) + 1,
    {
        let one = ubig_from_u32(1);
        let past = ubig_add(&high, &one);
        Self::new(low, past)
    }

    /// Builds the sampler exactly when the range is honest.
    pub fn try_new(low: num_bigint::BigUint, high: num_bigint::BigUint) -> (r: Option<Self>)
        ensures
            r is Some <==> uval(low) < uval(high),
            r is Some ==> r.unwrap().wf() && r.unwrap().low() == uval(low) && r.unwrap().high()
                == uval(high),
    {
        if ubig_lt(&low, &high) {
            Some(Self::new(low, high))
        } else {
            None
        }
    }

    /// One draw from the sampler's range.
    pub fn sample(&self, src: &mut GenSource) -> (r: num_bigint::BigUint)
        requires
            self.wf(),
        ensures
            self.low() <= uval(r) < self.high(),
    {
        let off = src.gen_biguint_below(&self.len);
        ubig_add(&self.base, &off)
    }

    /// One-shot draw from [low, high) without building a sampler.
    pub fn sample_single(
        low: &num_bigint::BigUint,
        high: &num_bigint::BigUint,
        src: &mut GenSource,
    ) -> (r: num_bigint::BigUint)
        requires
            uval(*low) < uval(*high),
        ensures
            uval(*low) <= uval(r) < uval(*high),
    {
        src.gen_biguint_range(low, high)
    }
}

/// Uniform sampler over a half-open range of signed values: [base, base + len).
#[derive(Clone, Debug)]
pub struct UniformBigInt {
    pub base: num_bigint::BigInt,
    pub len: num_bigint::BigUint,
}

impl UniformBigInt {
    /// An honest sampler covers at least one value.
    pub open spec fn wf(&self) -> bool {
        uval(self.len) > 0
    }

    /// Inclusive lower end of the sampled range.
    pub open spec fn low(&self) -> int {
        ival(self.base)
    }

    /// Exclusive upper end of the sampled range.
    pub open spec fn high(&self) -> int {
        ival(self.base) + uval(self.len)
    }

    /// Sampler over [low, high); the range must be honest.
    pub fn new(low: num_bigint::BigInt, high: num_bigint::BigInt) -> (r: Self)
        requires
            ival(low) < ival(high),
        ensures
            r.wf(),
            r.low() == ival(low),
            r.high() == ival(high),
    {
        let span = ibig_sub(&high, &low);
        let len = ibig_magnitude(&span);
        UniformBigInt { base: low, len }
    }

    /// Sampler over [low, high], both ends included.
    pub fn new_inclusive(low: num_bigint::BigInt, high: num_bigint::BigInt) -> (r: Self)
        requires
            ival(low) <= ival(high),
        ensures
            r.wf(),
            r.low() == ival(low),
            r.high() == ival(high) + 1,
    {
        let one = ibig_from_unsigned(ubig_from_u32(1));
        let past = ibig_add(&high, &one);
        Self::new(low, past)
    }

    /// Builds the sampler exactly when the range is honest.
    pub fn try_new(low: num_bigint::BigInt, high: num_bigint::BigInt) -> (r: Option<Self>)
        ensures
            r is Some <==> ival(low) < ival(high),
            r is Some ==> r.unwrap().wf() && r.unwrap().low() == ival(low) && r.unwrap().high()
                == ival(high),
    {
        if ibig_lt(&low, &high) {
            Some(Self::new(low, high))
        } else {
            None
        }
    }

    /// One draw from the sampler's range.
    pub fn sample(&self, src: &mut GenSource) -> (r: num_bigint::BigInt)
        requires
            self.wf(),
        ensures
            self.low() <= ival(r) < self.high(),
    {
        let off = ibig_from_unsigned(src.gen_biguint_below(&self.len));
        ibig_add(&self.base, &off)
    }

    /// One-shot draw from [low, high) without building a sampler.
    pub fn sample_single(
        low: &num_bigint::BigInt,
        high: &num_bigint::BigInt,
        src: &mut GenSource,
    ) -> (r: num_bigint::BigInt)
        requires
            ival(*low) < ival(*high),
        ensures
            ival(*low) <= ival(r) < ival(*high),
    {
        src.gen_bigint_range(low, high)
    }
}

/// A random distribution of big integer values of a fixed bit size.
#[derive(Clone, Copy, Debug)]
pub struct RandomBits {
    pub bits: usize,
}

impl RandomBits {
    /// Distribution of values of the given bit size.
    pub fn new(bits: usize) -> (r: RandomBits)
        ensures
            r.bits == bits,
    {
        RandomBits { bits }
    }

    /// Random magnitude in [0, 2^bits).
    pub fn sample_biguint(&self, src: &mut GenSource) -> (r: num_bigint::BigUint)
        ensures
            uval(r) < pow2(self.bits as nat),
    {
        src.gen_biguint(self.bits)
    }

    /// Random signed value in (-2^bits, 2^bits), zero-bias corrected.
    pub fn sample_bigint(&self, src: &mut GenSource) -> (r: num_bigint::BigInt)
        ensures
            -(pow2(self.bits as nat) as int) < ival(r) < pow2(self.bits as nat) as int,
    {
        src.gen_bigint(self.bits)
    }
}

} // verus!
