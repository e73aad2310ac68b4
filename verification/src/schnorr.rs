//! Schnorr zero-knowledge identification over the multiplicative group
//! modulo the Mersenne prime 2^61 - 1.
//!
//! A prover who knows the discrete logarithm `x` of a public key
//! `y = g^x mod p` convinces a verifier of that knowledge in three moves:
//! a commitment `t = g^r mod p` built from a single-use blinding factor
//! `r`, a challenge `c` chosen by the verifier, and a response
//! `s = (r + c * x) mod (p - 1)`. The verifier accepts when
//! `g^s == t * y^c (mod p)`.

use vstd::prelude::*;
use vstd::arithmetic::power::*;
use vstd::arithmetic::power2::*;
use vstd::arithmetic::div_mod::*;

verus! {

/// The fixed group modulus, the Mersenne prime 2^61 - 1.
pub const MODULUS: u64 = 2305843009213693951;

/// The fixed group generator.
pub const GENERATOR: u64 = 2;

/// The group parameters: a prime modulus and a generator of a
/// multiplicative subgroup modulo it.
pub struct SchnorrParams {
    /// Prime modulus.
    pub p: u64,
    /// Generator.
    pub g: u64,
}

impl SchnorrParams {
    /// True of parameters as `new` builds them: the fixed modulus and
    /// generator, with the generator a nontrivial group element.
    pub open spec fn wf(self) -> bool {
        &&& self.p == MODULUS
        &&& self.g == GENERATOR
    }

    /// The fixed parameters: modulus 2^61 - 1 and generator 2.
    pub fn new() -> (params: Self)
        ensures
            params.wf(),
            params.p == MODULUS,
            params.g == GENERATOR,
    {
        let p = 2305843009213693951u64;
        let g = 2u64;

        SchnorrParams { p, g }
    }

    /// Binary (square-and-multiply) modular exponentiation:
    /// `base^exp mod p`, with `base^0 == 1` for every base, including
    /// base 0 and base p. Intermediate products are taken in 128 bits,
    /// twice the modulus width, so no reduction is ever applied to an
    /// overflowed value.
    pub fn mod_pow(&self, base: u64, exp: u64) -> (r: u64)
        requires
            self.p > 1,
        ensures
            r < self.p,
            r as int == pow(base as int, exp as nat) % (self.p as int),
            exp == 0 ==> r == 1,
    {
        proof {
            lemma_pow0(base as int);
            lemma_small_mod(1nat, self.p as nat);
        }
        if exp == 0 {
            return 1;
        }

        let ghost base0: int = base as int;
        let ghost exp0: nat = exp as nat;
        let ghost pi: int = self.p as int;

        let mut result: u128 = 1;
        let mut b: u128 = base as u128 % (self.p as u128);
        let mut e: u64 = exp;
        let p: u128 = self.p as u128;

        proof {
            lemma_pow_mod_noop(base0, exp0, pi);
        }

        while e > 0
            invariant
                p == pi,
                1 < pi,
                p <= u64::MAX,
                result < p,
                b < p,
                (result as int * pow(b as int, e as nat)) % pi == pow(base0, exp0) % pi,
            decreases e,
        {
            let ghost r_in: int = result as int;
            let ghost b_in: int = b as int;
            let ghost e_in: nat = e as nat;
            let ghost half: nat = (e_in / 2) as nat;

            proof {
                assert(result * b < p * p && b * b < p * p) by (nonlinear_arith)
                    requires
                        result < p,
                        b < p,
                        p > 1,
                ;
                assert(p * p <= u128::MAX as int + 1) by (nonlinear_arith)
                    requires
                        p <= u64::MAX,
                ;
                // b^e == b * (b^2)^half when e is odd, (b^2)^half when even
                lemma_square_is_pow2(b_in);
                lemma_pow_multiplies(b_in, 2, half);
                lemma_pow1(b_in);
                if e_in % 2 == 1 {
                    lemma_pow_adds(b_in, 1, (2 * half) as nat);
                }
            }
            if e % 2 == 1 {
                result = (result * b) % p;
                proof {
                    lemma_mod_bound(r_in * b_in, pi);
                    // (r*b mod p) * ((b*b)^half mod p) reduces like r*b^e
                    lemma_mul_mod_noop_general(r_in * b_in, pow(b_in * b_in, half), pi);
                    assert(r_in * b_in * pow(b_in * b_in, half)
                        == r_in * (b_in * pow(b_in * b_in, half))) by (nonlinear_arith);
                    assert((result as int * (pow(b_in * b_in, half) % pi)) % pi
                        == (r_in * pow(b_in, e_in)) % pi);
                }
            } else {
                proof {
                    lemma_mul_mod_noop_general(r_in, pow(b_in * b_in, half), pi);
                    assert((result as int * (pow(b_in * b_in, half) % pi)) % pi
                        == (r_in * pow(b_in, e_in)) % pi);
                }
            }
            e = e / 2;
            b = (b * b) % p;
            proof {
                lemma_mod_bound(b_in * b_in, pi);
                lemma_pow_mod_noop(b_in * b_in, half, pi);
                lemma_mul_mod_noop_general(result as int, pow(b as int, half), pi);
                lemma_mul_mod_noop_general(result as int, pow(b_in * b_in, half), pi);
            }
        }
        proof {
            lemma_pow0(b as int);
            lemma_small_mod(result as nat, pi as nat);
        }
        result as u64
    }
}

/// The product of two 64-bit values fits in 128 bits.
proof fn lemma_u64_product_fits(a: u64, b: u64)
    ensures
        a as int * b as int <= u64::MAX as int * u64::MAX as int,
        (u64::MAX as int) * (u64::MAX as int) < (u128::MAX as int),
{
    assert(a as int * b as int <= u64::MAX as int * u64::MAX as int) by (nonlinear_arith)
        requires
            a <= u64::MAX,
            b <= u64::MAX,
    ;
}

/// Relies on rand::Rng::gen_range on the range `1..upper`: a draw from
/// the running thread's generator, uniform over [1, upper), which
/// panics only when the range is empty.
#[verifier::external_body]
fn sample_in_range(upper: u64) -> (r: u64)
    requires
        upper > 1,
    ensures
        1 <= r < upper,
{
    let mut rng = rand::thread_rng();
    rand::Rng::gen_range(&mut rng, 1..upper)
}

/// A discrete-log keypair: `public_key == g^secret_key mod p`.
pub struct SchnorrKeypair {
    /// The prover's secret exponent, drawn from [1, p - 2].
    pub secret_key: u64,
    /// The group element `g^secret_key mod p`.
    pub public_key: u64,
}

impl SchnorrKeypair {
    /// Draws a fresh secret key uniformly from [1, p - 2] and derives
    /// the matching public key. Every outcome of the draw yields a
    /// keypair whose public key is reproducible from its secret key.
    pub fn generate(params: &SchnorrParams) -> (keypair: Self)
        requires
            params.p > 2,
        ensures
            1 <= keypair.secret_key < params.p - 1,
            keypair.public_key < params.p,
            keypair.public_key as int
                == pow(params.g as int, keypair.secret_key as nat) % (params.p as int),
    {
        let secret_key = sample_in_range(params.p - 1);
        let public_key = params.mod_pow(params.g, secret_key);

        SchnorrKeypair { secret_key, public_key }
    }
}

/// One completed proof transcript: commitment `t`, challenge `c`, and
/// response `s`. Immutable once assembled; the verifier checks it
/// against a public key.
pub struct SchnorrProof {
    /// The prover's commitment `t = g^r mod p`.
    pub commitment: u64,
    /// The verifier's challenge `c`.
    pub challenge: u64,
    /// The prover's response `s = (r + c * x) mod (p - 1)`.
    pub response: u64,
}

/// The Schnorr verification equation over the mathematical integers:
/// the transcript `(t, c, s)` is accepted for public key `y` exactly
/// when `g^s == t * y^c (mod p)`.
pub open spec fn accepts(params: SchnorrParams, t: int, c: nat, s: nat, y: int) -> bool {
    pow(params.g as int, s) % (params.p as int) == (t * pow(y, c)) % (params.p as int)
}

impl SchnorrProof {
    /// Draws a single-use blinding factor `r` uniformly from [1, p - 2]
    /// and commits to it with `t = g^r mod p`. Every outcome of the
    /// draw yields a commitment reproducible from its blinding factor.
    /// The blinding factor must never be reused: see
    /// `lemma_blinding_reuse_recovers_secret`.
    pub fn create_commitment(params: &SchnorrParams) -> (res: (u64, u64))
        requires
            params.p > 2,
        ensures
            1 <= res.1 < params.p - 1,
            res.0 < params.p,
            res.0 as int == pow(params.g as int, res.1 as nat) % (params.p as int),
    {
        let r = sample_in_range(params.p - 1);
        let commitment = params.mod_pow(params.g, r);
        (commitment, r)
    }

    /// The prover's response `s = (r + c * x) mod (p - 1)`: the
    /// exponents live in the ring modulo the group order `p - 1`, not
    /// modulo `p`. The product `c * x` is taken in 128 bits before
    /// reduction.
    pub fn create_response(r: u64, challenge: u64, secret_key: u64, p: u64) -> (s: u64)
        requires
            p > 1,
        ensures
            s < p - 1,
            s as int == (r + challenge * secret_key) % (p - 1),
    {
        let q: u128 = (p - 1) as u128;
        proof {
            lemma_u64_product_fits(challenge, secret_key);
        }
        let cx: u128 = (challenge as u128 * secret_key as u128) % q;
        let s: u128 = (r as u128 + cx) % q;
        proof {
            let qi = (p - 1) as int;
            lemma_mod_bound(challenge as int * secret_key as int, qi);
            lemma_add_mod_noop_right(r as int, challenge as int * secret_key as int, qi);
            lemma_mod_bound(r as int + cx as int, qi);
        }
        s as u64
    }

    /// The verifier's check: `g^s == t * y^c (mod p)`. Read-only and
    /// repeatable; the result is exactly the verification equation on
    /// the transcript and the given public key. The product
    /// `t * (y^c mod p)` is taken in 128 bits before reduction.
    pub fn verify(&self, params: &SchnorrParams, public_key: u64) -> (valid: bool)
        requires
            params.p > 1,
        ensures
            valid == accepts(
                *params,
                self.commitment as int,
                self.challenge as nat,
                self.response as nat,
                public_key as int,
            ),
    {
        let left = params.mod_pow(params.g, self.response);
        let right_part = params.mod_pow(public_key, self.challenge);
        proof {
            lemma_u64_product_fits(self.commitment, right_part);
        }
        let right = ((self.commitment as u128 * right_part as u128) % (params.p as u128)) as u64;
        proof {
            let pi = params.p as int;
            lemma_mul_mod_noop_general(
                self.commitment as int,
                pow(public_key as int, self.challenge as nat),
                pi,
            );
            lemma_mod_bound(self.commitment as int * right_part as int, pi);
        }
        left == right
    }
}

/// One raised to any power is one.
proof fn lemma_pow_one(e: nat)
    ensures
        pow(1, e) == 1,
    decreases e,
{
    reveal(pow);
    if e > 0 {
        lemma_pow_one((e - 1) as nat);
    }
}

/// The generator's 61st power reduces to one: 2^61 is exactly p + 1.
proof fn lemma_generator_pow_61()
    ensures
        pow(GENERATOR as int, 61) % (MODULUS as int) == 1,
{
    lemma_pow2(61);
    lemma2_to64_rest();
    assert(pow(GENERATOR as int, 61) == MODULUS as int + 1);
    lemma_mod_multiples_vanish(1, 1, MODULUS as int);
    lemma_small_mod(1nat, MODULUS as nat);
}

/// Fermat-style identity for the fixed group: `g^(p - 1) mod p == 1`.
/// The generator's order, 61, divides the group order `p - 1`.
pub proof fn lemma_generator_order()
    ensures
        pow(GENERATOR as int, (MODULUS - 1) as nat) % (MODULUS as int) == 1,
{
    let g = GENERATOR as int;
    let p = MODULUS as int;
    let k: nat = 37800705069076950;
    lemma_generator_pow_61();
    lemma_pow_multiplies(g, 61, k);
    assert(61 * k == (MODULUS - 1) as nat);
    lemma_pow_mod_noop(pow(g, 61), k, p);
    lemma_pow_one(k);
    lemma_small_mod(1nat, MODULUS as nat);
}

/// A power of the generator depends on its exponent only through the
/// exponent's residue modulo the group order `p - 1`.
pub proof fn lemma_exponent_reduction(e: nat)
    ensures
        pow(GENERATOR as int, (e % ((MODULUS - 1) as nat))) % (MODULUS as int)
            == pow(GENERATOR as int, e) % (MODULUS as int),
{
    let g = GENERATOR as int;
    let p = MODULUS as int;
    let q: nat = (MODULUS - 1) as nat;
    let quo: nat = e / q;
    let rem: nat = e % q;
    lemma_fundamental_div_mod(e as int, q as int);
    assert(e == q * quo + rem);
    lemma_pow_adds(g, (q * quo) as nat, rem);
    lemma_pow_multiplies(g, q, quo);
    lemma_generator_order();
    lemma_pow_mod_noop(pow(g, q), quo, p);
    lemma_pow_one(quo);
    lemma_small_mod(1nat, MODULUS as nat);
    assert(pow(g, (q * quo) as nat) % p == 1);
    lemma_mul_mod_noop_general(pow(g, (q * quo) as nat), pow(g, rem), p);
    assert((1 * (pow(g, rem) % p)) % p == pow(g, e) % p);
    lemma_mod_bound(pow(g, rem), p);
    lemma_small_mod((pow(g, rem) % p) as nat, MODULUS as nat);
}

/// Completeness of the protocol: for every valid triple of secret key,
/// blinding factor and challenge, the honestly built transcript —
/// commitment `g^r mod p`, response `(r + c * x) mod (p - 1)` — is
/// accepted by the verification equation against the matching public
/// key `g^x mod p`.
pub proof fn lemma_honest_proof_accepted(params: SchnorrParams, x: nat, r: nat, c: nat)
    requires
        params.wf(),
        1 <= x <= MODULUS - 2,
        1 <= r <= MODULUS - 2,
        1 <= c < MODULUS - 1,
    ensures
        accepts(
            params,
            pow(params.g as int, r) % (params.p as int),
            c,
            ((r + c * x) % ((MODULUS - 1) as nat)) as nat,
            pow(params.g as int, x) % (params.p as int),
        ),
{
    let g = GENERATOR as int;
    let p = MODULUS as int;
    let q: nat = (MODULUS - 1) as nat;
    let e: nat = (r + c * x) as nat;
    let a = pow(g, r);
    let b = pow(g, (x * c) as nat);
    let y = pow(g, x) % p;
    let t = a % p;
    // left side: the response exponent reduces like the raw exponent
    lemma_exponent_reduction(e);
    // right side: y^c mod p is g^(x c) mod p
    lemma_pow_mod_noop(pow(g, x), c, p);
    lemma_pow_multiplies(g, x, c);
    // strip both reductions off the product t * y^c
    lemma_mul_mod_noop_general(a, pow(y, c), p);
    lemma_mul_mod_noop_general(a, b, p);
    assert((t * pow(y, c)) % p == (a * b) % p);
    // and recombine the two powers of g
    lemma_pow_adds(g, r, (x * c) as nat);
    assert(e == r + x * c);
    assert(pow(g, e) % p == (a * b) % p);
}

/// The single-use contract on blinding factors, shown as the known
/// weakness it guards against: one blinding factor reused for two
/// different challenges lets anyone holding both responses recover the
/// secret key, by multiplying the response difference with the inverse
/// of the challenge difference modulo the group order.
pub proof fn lemma_blinding_reuse_recovers_secret(x: nat, r: nat, c1: nat, c2: nat, inv: int)
    requires
        1 <= x <= MODULUS - 2,
        1 <= r <= MODULUS - 2,
        1 <= c1 < MODULUS - 1,
        1 <= c2 < MODULUS - 1,
        ((c1 - c2) * inv) % ((MODULUS - 1) as int) == 1,
    ensures
        ({
            let q = (MODULUS - 1) as int;
            let s1 = (r + c1 * x) as int % q;
            let s2 = (r + c2 * x) as int % q;
            ((s1 - s2) * inv) % q == x
        }),
{
    let q = (MODULUS - 1) as int;
    let s1 = (r + c1 * x) as int % q;
    let s2 = (r + c2 * x) as int % q;
    let d = (c1 - c2) * x;
    lemma_sub_mod_noop((r + c1 * x) as int, (r + c2 * x) as int, q);
    assert((r + c1 * x) - (r + c2 * x) == (c1 - c2) * x) by (nonlinear_arith);
    assert((s1 - s2) % q == d % q);
    lemma_mul_mod_noop_general(s1 - s2, inv, q);
    lemma_mul_mod_noop_general(d, inv, q);
    assert(((s1 - s2) * inv) % q == (d * inv) % q);
    assert(((c1 - c2) * x) * inv == ((c1 - c2) * inv) * x) by (nonlinear_arith);
    lemma_mul_mod_noop_general((c1 - c2) * inv, x as int, q);
    assert((d * inv) % q == (1 * (x as int)) % q);
    lemma_small_mod(x, (MODULUS - 1) as nat);
}

} // verus!
