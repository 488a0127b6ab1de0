//! Random numbers: the ChaCha20 block function as a generator, seeded from what
//! the hardware gives.
use vstd::prelude::*;

use crate::bytes::{self, push_le32, put};

verus! {

/// The first word of every state that was seeded.
pub const CHACHA_FIRST: u32 = 0x6170_7865;

pub const CHACHA_SECOND: u32 = 0x3320_646e;

pub const CHACHA_THIRD: u32 = 0x7962_2d32;

pub const CHACHA_FOURTH: u32 = 0x6b20_6574;

/// After how many bytes the generator is seeded anew.
pub const RESEED_AFTER: usize = 65536;

/// How many words of entropy a seed takes.
pub const SEED_WORDS: usize = 18;

// ---------------------------------------------------------------------------
// The block function
// ---------------------------------------------------------------------------
pub open spec fn sum32(x: u32, y: u32) -> u32 {
    ((x + y) % 0x1_0000_0000) as u32
}

pub open spec fn left16(x: u32) -> u32 {
    (x << 16u32) | (x >> 16u32)
}

pub open spec fn left12(x: u32) -> u32 {
    (x << 12u32) | (x >> 20u32)
}

pub open spec fn left8(x: u32) -> u32 {
    (x << 8u32) | (x >> 24u32)
}

pub open spec fn left7(x: u32) -> u32 {
    (x << 7u32) | (x >> 25u32)
}

/// Four words mixed.
pub open spec fn mixed(a: u32, b: u32, c: u32, d: u32) -> (u32, u32, u32, u32) {
    let a1 = sum32(a, b);
    let d1 = left16(d ^ a1);
    let c1 = sum32(c, d1);
    let b1 = left12(b ^ c1);
    let a2 = sum32(a1, b1);
    let d2 = left8(d1 ^ a2);
    let c2 = sum32(c1, d2);
    let b2 = left7(b1 ^ c2);
    (a2, b2, c2, d2)
}

#[verifier::opaque]
pub open spec fn quarter(x: Seq<u32>, a: int, b: int, c: int, d: int) -> Seq<u32> {
    let (a2, b2, c2, d2) = mixed(x[a], x[b], x[c], x[d]);
    x.update(a, a2).update(b, b2).update(c, c2).update(d, d2)
}

/// A column round and a diagonal round.
pub open spec fn double_round(x: Seq<u32>) -> Seq<u32> {
    let x1 = quarter(x, 0, 4, 8, 12);
    let x2 = quarter(x1, 1, 5, 9, 13);
    let x3 = quarter(x2, 2, 6, 10, 14);
    let x4 = quarter(x3, 3, 7, 11, 15);
    let x5 = quarter(x4, 0, 5, 10, 15);
    let x6 = quarter(x5, 1, 6, 11, 12);
    let x7 = quarter(x6, 2, 7, 8, 13);
    quarter(x7, 3, 4, 9, 14)
}

pub open spec fn rounds(x: Seq<u32>, n: nat) -> Seq<u32>
    decreases n,
{
    if n == 0 {
        x
    } else {
        double_round(rounds(x, (n - 1) as nat))
    }
}

/// The sums of two states as bytes, up to word `n`.
pub open spec fn word_bytes(x: Seq<u32>, state: Seq<u32>, n: nat) -> Seq<u8>
    decreases n,
{
    if n == 0 {
        Seq::empty()
    } else {
        word_bytes(x, state, (n - 1) as nat) + bytes::le32_bytes(sum32(x[n - 1], state[n - 1]))
    }
}

/// The block that a state gives.
pub open spec fn block(state: Seq<u32>) -> Seq<u8> {
    word_bytes(rounds(state, 10), state, 16)
}

fn add32(x: u32, y: u32) -> (r: u32)
    ensures
        r == sum32(x, y),
{
    ((x as u64 + y as u64) % 0x1_0000_0000) as u32
}

/// Mixes four words of a state.
pub fn quarter_round(x: &mut [u32; 16], a: usize, b: usize, c: usize, d: usize)
    requires
        a < 16,
        b < 16,
        c < 16,
        d < 16,
        a != b,
        a != c,
        a != d,
        b != c,
        b != d,
        c != d,
    ensures
        final(x)@ == quarter(old(x)@, a as int, b as int, c as int, d as int),
{
    let a1: u32 = add32(x[a], x[b]);
    let d0: u32 = x[d] ^ a1;
    let d1: u32 = (d0 << 16u32) | (d0 >> 16u32);
    let c1: u32 = add32(x[c], d1);
    let b0: u32 = x[b] ^ c1;
    let b1: u32 = (b0 << 12u32) | (b0 >> 20u32);
    let a2: u32 = add32(a1, b1);
    let d3: u32 = d1 ^ a2;
    let d2: u32 = (d3 << 8u32) | (d3 >> 24u32);
    let c2: u32 = add32(c1, d2);
    let b3: u32 = b1 ^ c2;
    let b2: u32 = (b3 << 7u32) | (b3 >> 25u32);
    x[a] = a2;
    x[b] = b2;
    x[c] = c2;
    x[d] = d2;
    proof {
        reveal(quarter);
        assert(x@ =~= quarter(old(x)@, a as int, b as int, c as int, d as int));
    }
}

/// The block that a state gives, by twenty rounds.
pub fn chacha_block(state: &[u32; 16]) -> (r: Vec<u8>)
    ensures
        r@ == block(state@),
        r@.len() == 64,
{
    let mut x: [u32; 16] = *state;
    let mut i: usize = 0;
    while i < 10
        invariant
            i <= 10,
            x@ == rounds(state@, i as nat),
        decreases 10 - i,
    {
        quarter_round(&mut x, 0, 4, 8, 12);
        quarter_round(&mut x, 1, 5, 9, 13);
        quarter_round(&mut x, 2, 6, 10, 14);
        quarter_round(&mut x, 3, 7, 11, 15);
        quarter_round(&mut x, 0, 5, 10, 15);
        quarter_round(&mut x, 1, 6, 11, 12);
        quarter_round(&mut x, 2, 7, 8, 13);
        quarter_round(&mut x, 3, 4, 9, 14);
        i += 1;
    }
    let mut out: Vec<u8> = Vec::new();
    let mut k: usize = 0;
    assert(out@ =~= word_bytes(x@, state@, 0));
    while k < 16
        invariant
            k <= 16,
            out@ == word_bytes(x@, state@, k as nat),
            out@.len() == 4 * k,
        decreases 16 - k,
    {
        push_le32(&mut out, add32(x[k], state[k]));
        k += 1;
    }
    out
}

// ---------------------------------------------------------------------------
// The generator
// ---------------------------------------------------------------------------
#[derive(Debug)]
pub struct ChaCha20Csprng {
    pub state: [u32; 16],
    pub buffer: [u8; 64],
    pub buffer_idx: usize,
    pub counter: u64,
    pub bytes_generated: usize,
}

#[verifier::ext_equal]
pub struct CsprngView {
    pub state: Seq<u32>,
    pub buffer: Seq<u8>,
    pub buffer_idx: usize,
    pub counter: u64,
    pub bytes_generated: usize,
}

impl View for ChaCha20Csprng {
    type V = CsprngView;

    open spec fn view(&self) -> CsprngView {
        CsprngView {
            state: self.state@,
            buffer: self.buffer@,
            buffer_idx: self.buffer_idx,
            counter: self.counter,
            bytes_generated: self.bytes_generated,
        }
    }
}

impl CsprngView {
    /// Whether the next block takes a new seed.
    pub open spec fn needs_seed(self) -> bool {
        self.state[0] != CHACHA_FIRST || self.bytes_generated >= RESEED_AFTER
    }
}

pub open spec fn low32(x: u64) -> u32 {
    (x % 0x1_0000_0000) as u32
}

pub open spec fn high32(x: u64) -> u32 {
    (x / 0x1_0000_0000) as u32
}

/// A word of the key, from two words of entropy: the low half of one and the
/// high half of the other.
pub open spec fn key_word(entropy: Seq<u64>, i: int) -> u32 {
    low32(entropy[2 * i]) ^ high32(entropy[2 * i + 1])
}

/// The state that a seed gives.
pub open spec fn seeded_state(entropy: Seq<u64>) -> Seq<u32> {
    Seq::new(
        16,
        |i: int|
            if i == 0 {
                CHACHA_FIRST
            } else if i == 1 {
                CHACHA_SECOND
            } else if i == 2 {
                CHACHA_THIRD
            } else if i == 3 {
                CHACHA_FOURTH
            } else if i < 12 {
                key_word(entropy, i - 4)
            } else if i == 12 {
                1
            } else if i == 13 {
                0
            } else if i == 14 {
                low32(entropy[16]) ^ 0xfeed_face
            } else {
                high32(entropy[17]) ^ 0xdead_beef
            },
    )
}

pub open spec fn seeded(g: CsprngView, entropy: Seq<u64>) -> CsprngView {
    CsprngView {
        state: seeded_state(entropy),
        counter: 1,
        buffer_idx: 64,
        bytes_generated: 0,
        ..g
    }
}

pub open spec fn following(counter: u64) -> u64 {
    if counter == u64::MAX {
        0
    } else {
        (counter + 1) as u64
    }
}

/// The generator with a new block.
pub open spec fn refilled(g: CsprngView) -> CsprngView {
    let counter = following(g.counter);
    let state = g.state.update(12, low32(counter)).update(13, high32(counter));
    CsprngView {
        state,
        buffer: block(state),
        buffer_idx: 0,
        counter,
        bytes_generated: (g.bytes_generated + 64) as usize,
    }
}

pub open spec fn smaller(a: int, b: int) -> int {
    if a <= b {
        a
    } else {
        b
    }
}

/// The bytes of a buffer from a place on filled with random ones. Where a seed
/// is needed first, the place that was reached is the last part.
pub open spec fn filled(g: CsprngView, dest: Seq<u8>, from: int) -> (CsprngView, Seq<u8>, int)
    decreases dest.len() - from,
{
    if from >= dest.len() || from < 0 {
        (g, dest, from)
    } else if g.buffer_idx >= 64 && g.needs_seed() {
        (g, dest, from)
    } else {
        let h = if g.buffer_idx >= 64 {
            refilled(g)
        } else {
            g
        };
        let n = smaller(64 - h.buffer_idx, dest.len() - from);
        if n <= 0 {
            (h, dest, from)
        } else {
            filled(
                CsprngView { buffer_idx: (h.buffer_idx + n) as usize, ..h },
                bytes::splice(dest, from, h.buffer.subrange(h.buffer_idx as int, h.buffer_idx + n)),
                from + n,
            )
        }
    }
}

impl ChaCha20Csprng {
    pub open spec fn wf(&self) -> bool {
        self.buffer_idx <= 64 && self.bytes_generated <= RESEED_AFTER + 64
    }

    pub fn new() -> (r: Self)
        ensures
            r.wf(),
            r@.needs_seed(),
            r@.state == Seq::new(16, |i: int| 0u32),
            r@.buffer == Seq::new(64, |i: int| 0u8),
            r.buffer_idx == 64,
            r.counter == 0,
            r.bytes_generated == 0,
    {
        let state: [u32; 16] = [0; 16];
        let buffer: [u8; 64] = [0; 64];
        assert(state@ =~= Seq::new(16, |i: int| 0u32));
        assert(buffer@ =~= Seq::new(64, |i: int| 0u8));
        ChaCha20Csprng { state, buffer, buffer_idx: 64, counter: 0, bytes_generated: 0 }
    }

    /// Seeds the generator with words of entropy.
    pub fn seed_with_entropy(&mut self, entropy: &[u64; 18])
        ensures
            final(self).wf(),
            final(self)@ == seeded(old(self)@, entropy@),
            !final(self)@.needs_seed(),
    {
        self.state[0] = CHACHA_FIRST;
        self.state[1] = CHACHA_SECOND;
        self.state[2] = CHACHA_THIRD;
        self.state[3] = CHACHA_FOURTH;
        let mut i: usize = 0;
        while i < 8
            invariant
                i <= 8,
                self.state@[0] == CHACHA_FIRST,
                self.state@[1] == CHACHA_SECOND,
                self.state@[2] == CHACHA_THIRD,
                self.state@[3] == CHACHA_FOURTH,
                self.buffer == old(self).buffer,
                forall|j: int| 0 <= j < i ==> #[trigger] self.state@[4 + j] == key_word(entropy@, j),
            decreases 8 - i,
        {
            let low: u32 = (entropy[2 * i] % 0x1_0000_0000) as u32;
            let high: u32 = (entropy[2 * i + 1] / 0x1_0000_0000) as u32;
            self.state[4 + i] = low ^ high;
            i += 1;
        }
        self.counter = 1;
        self.state[12] = 1;
        self.state[13] = 0;
        self.state[14] = ((entropy[16] % 0x1_0000_0000) as u32) ^ 0xfeed_face;
        self.state[15] = ((entropy[17] / 0x1_0000_0000) as u32) ^ 0xdead_beef;
        self.buffer_idx = 64;
        self.bytes_generated = 0;
        proof {
            let expected = seeded_state(entropy@);
            assert forall|k: int| 0 <= k < 16 implies self.state@[k] == expected[k] by {
                if 4 <= k < 12 {
                    assert(self.state@[4 + (k - 4)] == key_word(entropy@, k - 4));
                }
            }
            assert(self.state@ =~= expected);
        }
    }

    /// Makes a new block.
    fn generate_block(&mut self)
        requires
            old(self).wf(),
            !old(self)@.needs_seed(),
        ensures
            final(self).wf(),
            final(self)@ == refilled(old(self)@),
    {
        self.counter = self.counter.wrapping_add(1);
        self.state[12] = (self.counter % 0x1_0000_0000) as u32;
        self.state[13] = (self.counter / 0x1_0000_0000) as u32;
        let out: Vec<u8> = chacha_block(&self.state);
        let mut i: usize = 0;
        let ghost state = self.state@;
        while i < 64
            invariant
                i <= 64,
                out@.len() == 64,
                self.state@ == state,
                self.counter == following(old(self).counter),
                self.bytes_generated == old(self).bytes_generated,
                forall|j: int| 0 <= j < i ==> #[trigger] self.buffer@[j] == out@[j],
            decreases 64 - i,
        {
            self.buffer[i] = out[i];
            i += 1;
        }
        assert(self.buffer@ =~= out@);
        self.buffer_idx = 0;
        self.bytes_generated = self.bytes_generated + 64;
    }

    /// Fills a buffer from a place on, as far as the seed reaches. The result
    /// is the place where it stopped: the end of the buffer, or where a seed is
    /// needed first.
    pub fn fill_bytes(&mut self, dest: &mut [u8], from: usize) -> (r: usize)
        requires
            old(self).wf(),
            from <= old(dest)@.len(),
        ensures
            final(self).wf(),
            (final(self)@, final(dest)@, r as int) == filled(
                old(self)@,
                old(dest)@,
                from as int,
            ),
            from <= r <= final(dest)@.len(),
            final(dest)@.len() == old(dest)@.len(),
            r < final(dest)@.len() ==> final(self)@.needs_seed(),
    {
        let mut offset: usize = from;
        let ghost goal = filled(self@, dest@, from as int);
        while offset < dest.len()
            invariant
                self.wf(),
                from <= offset <= dest@.len(),
                dest@.len() == old(dest)@.len(),
                goal == filled(old(self)@, old(dest)@, from as int),
                goal == filled(self@, dest@, offset as int),
            decreases dest@.len() - offset,
        {
            if self.buffer_idx >= 64 {
                if self.state[0] != CHACHA_FIRST || self.bytes_generated >= RESEED_AFTER {
                    return offset;
                }
                self.generate_block();
            }
            let available: usize = 64 - self.buffer_idx;
            let needed: usize = dest.len() - offset;
            let n: usize = if available <= needed {
                available
            } else {
                needed
            };
            put(
                dest,
                offset,
                vstd::slice::slice_subrange(&self.buffer, self.buffer_idx, self.buffer_idx + n),
            );
            self.buffer_idx = self.buffer_idx + n;
            offset += n;
        }
        offset
    }
}

// ---------------------------------------------------------------------------
// Entropy
// ---------------------------------------------------------------------------
#[derive(Clone, Copy, Debug, PartialEq, Eq, Structural)]
pub enum EntropySource {
    VirtioRng,
    RdRand,
    RdtscFallback,
}

/// The best source that there is.
pub fn init(virtio_found: bool, rdrand_supported: bool) -> (r: EntropySource)
    ensures
        r == if virtio_found {
            EntropySource::VirtioRng
        } else if rdrand_supported {
            EntropySource::RdRand
        } else {
            EntropySource::RdtscFallback
        },
{
    if virtio_found {
        EntropySource::VirtioRng
    } else if rdrand_supported {
        EntropySource::RdRand
    } else {
        EntropySource::RdtscFallback
    }
}

/// What the hardware gave for one word: bytes of a device, a number of the
/// processor, and the time-stamp counter.
#[derive(Clone, Copy, Debug, PartialEq, Eq, Structural)]
pub struct Reading {
    pub virtio: Option<u64>,
    pub rdrand: Option<u64>,
    pub tsc: u64,
}

pub open spec fn wrapped_sum(x: u64, y: u64) -> u64 {
    ((x + y) % 0x1_0000_0000_0000_0000) as u64
}

pub open spec fn wrapped_product(x: u64, y: u64) -> u64 {
    ((x * y) % 0x1_0000_0000_0000_0000) as u64
}

/// The mixing steps of splitmix64.
pub open spec fn splitmix(z: u64) -> u64 {
    let z1 = wrapped_product(z ^ (z >> 30u64), 0xbf58_476d_1ce4_e5b9);
    let z2 = wrapped_product(z1 ^ (z1 >> 27u64), 0x94d0_49bb_1331_11eb);
    z2 ^ (z2 >> 31u64)
}

pub open spec fn usable(value: u64) -> bool {
    value != 0 && value != u64::MAX
}

/// A word of entropy and the next state of the jitter counter.
pub open spec fn entropy_of(reading: Reading, jitter: u64) -> (u64, u64) {
    match reading.virtio {
        Some(word) => (word, jitter),
        None => match reading.rdrand {
            Some(value) if usable(value) => (
                value ^ ((reading.tsc << 13u64) | (reading.tsc >> 51u64)),
                jitter,
            ),
            _ => (
                splitmix(reading.tsc ^ jitter),
                wrapped_sum(jitter, 0x9e37_79b9_7f4a_7c15),
            ),
        },
    }
}

pub const FIRST_JITTER: u64 = 0xdead_beef_1234_5678;

fn multiply(x: u64, y: u64) -> (r: u64)
    ensures
        r == wrapped_product(x, y),
{
    proof {
        assert(0 <= x * y <= 0xffff_ffff_ffff_ffff * 0xffff_ffff_ffff_ffff) by (nonlinear_arith)
            requires
                0 <= x <= 0xffff_ffff_ffff_ffff,
                0 <= y <= 0xffff_ffff_ffff_ffff,
        ;
    }
    ((x as u128 * y as u128) % 0x1_0000_0000_0000_0000) as u64
}

/// A word of entropy from what the hardware gave: the device before the
/// processor, and the time-stamp counter where neither will do.
pub fn get_hardware_entropy(reading: Reading, jitter: &mut u64) -> (r: u64)
    ensures
        (r, *final(jitter)) == entropy_of(reading, *old(jitter)),
{
    if let Some(word) = reading.virtio {
        return word;
    }
    if let Some(value) = reading.rdrand {
        if value != 0 && value != u64::MAX {
            return value ^ ((reading.tsc << 13u64) | (reading.tsc >> 51u64));
        }
    }
    let z: u64 = reading.tsc ^ *jitter;
    *jitter = ((*jitter as u128 + 0x9e37_79b9_7f4a_7c15) % 0x1_0000_0000_0000_0000) as u64;
    let z1: u64 = multiply(z ^ (z >> 30u64), 0xbf58_476d_1ce4_e5b9);
    let z2: u64 = multiply(z1 ^ (z1 >> 27u64), 0x94d0_49bb_1331_11eb);
    z2 ^ (z2 >> 31u64)
}

/// The generator of the system and where its seed comes from.
#[derive(Debug)]
pub struct RandomState {
    pub csprng: ChaCha20Csprng,
    pub source: EntropySource,
    pub jitter: u64,
}

pub fn active_entropy_source(state: &RandomState) -> (r: EntropySource)
    ensures
        r == state.source,
{
    state.source
}

/// What a request for random bytes came to.
#[derive(Clone, Copy, Debug, PartialEq, Eq, Structural)]
pub enum Filling {
    Done(usize),
    /// A seed is needed before the byte at this place.
    NeedsSeed(usize),
}

pub open spec fn random_filled(g: CsprngView, dest: Seq<u8>, from: int) -> (
    CsprngView,
    Seq<u8>,
    Filling,
) {
    if g.state[0] != CHACHA_FIRST {
        (g, dest, Filling::NeedsSeed(from as usize))
    } else {
        let (h, bytes, at) = filled(g, dest, from);
        if at >= dest.len() {
            (h, bytes, Filling::Done(dest.len() as usize))
        } else {
            (h, bytes, Filling::NeedsSeed(at as usize))
        }
    }
}

/// Fills a buffer with random bytes, from a place on.
pub fn get_random_bytes(state: &mut RandomState, dest: &mut [u8], from: usize) -> (r: Filling)
    requires
        old(state).csprng.wf(),
        from <= old(dest)@.len(),
    ensures
        final(state).csprng.wf(),
        final(state).source == old(state).source,
        final(state).jitter == old(state).jitter,
        (final(state).csprng@, final(dest)@, r) == random_filled(
            old(state).csprng@,
            old(dest)@,
            from as int,
        ),
{
    if state.csprng.state[0] != CHACHA_FIRST {
        return Filling::NeedsSeed(from);
    }
    let at: usize = state.csprng.fill_bytes(dest, from);
    assert(dest@.len() == dest.len());
    if at >= dest.len() {
        Filling::Done(dest.len())
    } else {
        Filling::NeedsSeed(at)
    }
}

// ---------------------------------------------------------------------------
// Laws
// ---------------------------------------------------------------------------
/// A generator that was just seeded has bytes for any request of at most what a
/// seed is good for: no other seed is needed in between.
pub proof fn law_seed_suffices(g: CsprngView, dest: Seq<u8>, from: int)
    requires
        0 <= from <= dest.len(),
        g.buffer.len() == 64,
        g.state.len() == 16,
        g.state[0] == CHACHA_FIRST,
        g.buffer_idx <= 64,
        g.bytes_generated % 64 == 0,
        g.bytes_generated <= RESEED_AFTER,
        dest.len() - from <= RESEED_AFTER - g.bytes_generated + (64 - g.buffer_idx),
    ensures
        filled(g, dest, from).2 == dest.len(),
    decreases dest.len() - from,
{
    if from < dest.len() {
        let h = if g.buffer_idx >= 64 {
            refilled(g)
        } else {
            g
        };
        if g.buffer_idx >= 64 {
            lemma_block_length(h.state);
        }
        let n = smaller(64 - h.buffer_idx, dest.len() - from);
        law_seed_suffices(
            CsprngView { buffer_idx: (h.buffer_idx + n) as usize, ..h },
            bytes::splice(dest, from, h.buffer.subrange(h.buffer_idx as int, h.buffer_idx + n)),
            from + n,
        );
    }
}

proof fn lemma_block_length(state: Seq<u32>)
    ensures
        block(state).len() == 64,
{
    lemma_words_length(rounds(state, 10), state, 16);
}

proof fn lemma_words_length(x: Seq<u32>, state: Seq<u32>, n: nat)
    ensures
        word_bytes(x, state, n).len() == 4 * n,
    decreases n,
{
    if n > 0 {
        lemma_words_length(x, state, (n - 1) as nat);
    }
}

} // verus!
