//! A small xorshift pseudo-random generator with a Weyl counter.
use vstd::arithmetic::power2::pow2;
use vstd::prelude::*;

verus! {

/// The seed bytes read as a little-endian 32-bit integer.
pub open spec fn seed_value(seed: Seq<u8>) -> int {
    seed[0] + 256 * seed[1] + 65536 * seed[2] + 16777216 * seed[3]
}

/// One xorshift round (shifts 13, 17, 5) on the state word.
pub open spec fn xorshift_step(x: u32) -> u32 {
    let a = x ^ (x << 13u32);
    let b = a ^ (a >> 17u32);
    b ^ (b << 5u32)
}

/// The Weyl increment added to the counter on each draw.
pub const COUNTER_STEP: u32 = 1234567891;

/// Addition modulo 2^32.
pub open spec fn add_mod32(a: u32, b: u32) -> u32 {
    ((a + b) % 0x1_0000_0000int) as u32
}

/// The generator state `(state, counter)` after one draw from `g`.
pub open spec fn rng_advance(g: (u32, u32)) -> (u32, u32) {
    (xorshift_step(g.0), add_mod32(g.1, COUNTER_STEP))
}

/// The 32-bit word that one draw from `g` returns.
pub open spec fn rng_word(g: (u32, u32)) -> u32 {
    let n = rng_advance(g);
    add_mod32(n.0, n.1)
}

/// The value that a draw of `bits` low bits from `g` returns.
pub open spec fn rng_bits(g: (u32, u32), bits: nat) -> int {
    rng_word(g) as int % pow2(bits) as int
}

/// The state of a generator seeded with the four bytes `seed`.
pub open spec fn rng_seeded(seed: Seq<u8>) -> (u32, u32) {
    ((seed_value(seed) as u32 | 1u32), seed_value(seed) as u32)
}

/// Generator state: a xorshift word and a counter.
pub struct XorShift32 {
    state: u32,
    counter: u32,
}

impl View for XorShift32 {
    type V = (u32, u32);

    /// The pair `(state, counter)`.
    closed spec fn view(&self) -> (u32, u32) {
        (self.state, self.counter)
    }
}

impl XorShift32 {
    /// Seeds the generator with four bytes read as a little-endian word; the
    /// state has its low bit forced on so that it never becomes zero.
    pub fn new(seed: [u8; 4]) -> (r: Self)
        ensures
            r@ == rng_seeded(seed@),
    {
        let b0 = seed[0] as u32;
        let b1 = seed[1] as u32;
        let b2 = seed[2] as u32;
        let b3 = seed[3] as u32;
        let state: u32 = b0 | (b1 << 8u32) | (b2 << 16u32) | (b3 << 24u32);
        assert(state == b0 + 256 * b1 + 65536 * b2 + 16777216 * b3) by (bit_vector)
            requires
                b0 < 256,
                b1 < 256,
                b2 < 256,
                b3 < 256,
                state == b0 | (b1 << 8u32) | (b2 << 16u32) | (b3 << 24u32),
        ;
        XorShift32 { state: state | 1, counter: state }
    }

    /// Draws a 32-bit word.
    pub fn gen_u32(&mut self) -> (r: u32)
        ensures
            final(self)@ == rng_advance(old(self)@),
            r == rng_word(old(self)@),
    {
        self.state = self.state ^ (self.state << 13u32);
        self.state = self.state ^ (self.state >> 17u32);
        self.state = self.state ^ (self.state << 5u32);
        self.counter = self.counter.wrapping_add(COUNTER_STEP);
        self.state.wrapping_add(self.counter)
    }

    /// Draws a word and keeps its `bits` low bits.
    pub fn gen_bits(&mut self, bits: usize) -> (r: u32)
        requires
            bits <= 32,
        ensures
            final(self)@ == rng_advance(old(self)@),
            r == rng_bits(old(self)@, bits as nat),
    {
        let x = self.gen_u32();
        let mask: u32 = if bits == 0 {
            0
        } else {
            u32::MAX >> (32 - bits as u32)
        };
        let r = x & mask;
        proof {
            let b = bits as u64;
            vstd::bits::lemma_u64_pow2_no_overflow(b as nat);
            vstd::bits::lemma_u64_shl_is_mul(1u64, b);
            vstd::bits::lemma_u64_low_bits_mask_is_mod(x as u64, b as nat);
            assert(r as u64 == (x as u64) & (((1u64 << b) - 1) as u64)) by (bit_vector)
                requires
                    b <= 32,
                    b == 0 ==> mask == 0,
                    b > 0 ==> mask == 0xffff_ffffu32 >> (32 - b) as u32,
                    r == x & mask,
            ;
        }
        r
    }
}

/// The generator state after `k` draws from `g`.
pub open spec fn rng_after(g: (u32, u32), k: nat) -> (u32, u32)
    decreases k,
{
    if k == 0 {
        g
    } else {
        rng_advance(rng_after(g, (k - 1) as nat))
    }
}

/// A seeded generator never falls into the all-zero xorshift state: the seed
/// makes the state odd, and a xorshift round never turns a nonzero word into
/// zero.
pub proof fn lemma_state_never_zero(seed: Seq<u8>, k: nat)
    ensures
        rng_after(rng_seeded(seed), k).0 != 0,
    decreases k,
{
    if k == 0 {
        let v = seed_value(seed) as u32;
        assert(v | 1u32 != 0u32) by (bit_vector);
    } else {
        lemma_state_never_zero(seed, (k - 1) as nat);
        let x = rng_after(rng_seeded(seed), (k - 1) as nat).0;
        assert(x != 0u32 ==> (x ^ (x << 13u32)) ^ ((x ^ (x << 13u32)) >> 17u32) ^ (((x ^ (x
            << 13u32)) ^ ((x ^ (x << 13u32)) >> 17u32)) << 5u32) != 0u32) by (bit_vector);
    }
}

} // verus!
