//! The seeded pseudo-random byte generator.
//!
//! Seed bytes are hashed and added into a 16-byte mixing state. Once enough
//! seed bytes have been mixed in, output is the MD5 digest of the mixing
//! state, which counts up by one for each digest taken.
//!
//! A generator that was finished with `random_final` holds no secret and
//! gives no output; `random_init` starts it again.

use vstd::prelude::*;
use vstd::arithmetic::div_mod::lemma_fundamental_div_mod_converse;
use md5::{Digest, Md5};
use crate::RSAError;
use crate::radix::{
    be_bytes, be_value, byte_pow, counter_successor, le_byte_value, le_bytes,
    lemma_be_value_bound, lemma_counter_successor, lemma_le_byte_value_push,
    lemma_le_bytes_of_value, lemma_npow, zero_bytes,
};

verus! {

/// The number of seed bytes that a generator asks for before it gives output.
pub const RANDOM_BYTES_NEEDED: usize = 256;

/// The MD5 digest of a byte string.
pub uninterp spec fn md5_digest(data: Seq<u8>) -> Seq<u8>;

/// `Md5::digest` of the `md-5` crate: the 16-byte MD5 digest of `data`.
/// The contract gives the digest its name, `md5_digest`, and claims only
/// that the digest is a function of the bytes hashed.
#[verifier::external_body]
fn md5_hash(data: &[u8]) -> (digest: [u8; 16])
    ensures
        digest@ == md5_digest(data@),
{
    Md5::digest(data).into()
}

/// The digest as the generator holds it: its 16 bytes.
pub open spec fn md5_block(data: Seq<u8>) -> Seq<u8> {
    Seq::new(16, |i: int| md5_digest(data)[i])
}

/// The 16 bytes of the MD5 digest of `data`.
fn digest_block(data: &[u8]) -> (digest: [u8; 16])
    ensures
        digest@ == md5_block(data@),
{
    let digest = md5_hash(data);
    assert(digest@ =~= md5_block(data@));
    digest
}

/// What a generator holds, as mathematical values.
pub struct GeneratorState {
    /// The seed bytes still to be mixed in before output is given.
    pub bytes_needed: nat,
    /// The mixing state.
    pub state: Seq<u8>,
    /// How many bytes at the end of `output` have not been handed out.
    pub output_available: nat,
    /// The last digest taken.
    pub output: Seq<u8>,
    /// Whether the generator was finished.
    pub finished: bool,
}

/// The generator: a mixing state, and a buffer of output not yet handed out.
#[derive(Debug)]
pub struct RandomStruct {
    bytes_needed: usize,
    state: [u8; 16],
    output_available: usize,
    output: [u8; 16],
    finished: bool,
}

impl View for RandomStruct {
    type V = GeneratorState;

    closed spec fn view(&self) -> GeneratorState {
        GeneratorState {
            bytes_needed: self.bytes_needed as nat,
            state: self.state@,
            output_available: self.output_available as nat,
            output: self.output@,
            finished: self.finished,
        }
    }
}

/// Whether the generator is in order: a mixing state and an output buffer
/// of 16 bytes each, and no more output left than the buffer holds. Every
/// generator is, whatever was done with it.
pub open spec fn well_formed(g: GeneratorState) -> bool {
    &&& g.state.len() == 16
    &&& g.output.len() == 16
    &&& g.output_available <= 16
}

/// The generator started again: it asks for the full count of seed bytes,
/// its mixing state is zero and it holds no output.
pub open spec fn initialised(g: GeneratorState) -> GeneratorState {
    GeneratorState {
        bytes_needed: RANDOM_BYTES_NEEDED as nat,
        state: zero_bytes(16),
        output_available: 0,
        finished: false,
        ..g
    }
}

/// A generator as `new` makes it: nothing mixed in, no output.
pub open spec fn fresh_state() -> GeneratorState {
    GeneratorState {
        bytes_needed: RANDOM_BYTES_NEEDED as nat,
        state: zero_bytes(16),
        output_available: 0,
        output: zero_bytes(16),
        finished: false,
    }
}

/// The mixing state with a digest added to it. Both are read as numbers
/// with the least significant byte first, and the sum is taken within the
/// width of the state.
pub open spec fn mixed_state(state: Seq<u8>, digest: Seq<u8>) -> Seq<u8> {
    le_bytes((le_byte_value(state) + le_byte_value(digest)) % byte_pow(state.len()), state.len())
}

/// The mixing state counted up by one. It is read as a number with the most
/// significant byte first, and wraps to zero after the largest value.
pub open spec fn next_counter(state: Seq<u8>) -> Seq<u8> {
    be_bytes((be_value(state) + 1) % byte_pow(state.len()), state.len())
}

/// The generator after `block` has been mixed in.
pub open spec fn update_state(g: GeneratorState, block: Seq<u8>) -> GeneratorState {
    GeneratorState {
        state: mixed_state(g.state, md5_block(block)),
        bytes_needed: if g.bytes_needed >= block.len() {
            (g.bytes_needed - block.len()) as nat
        } else {
            0
        },
        ..g
    }
}

/// Whether the generator may give output.
pub open spec fn is_ready(g: GeneratorState) -> bool {
    g.bytes_needed == 0 && !g.finished
}

/// The generator with a new digest in its output buffer.
pub open spec fn refilled(g: GeneratorState) -> GeneratorState {
    GeneratorState {
        output: md5_block(g.state),
        output_available: 16,
        state: next_counter(g.state),
        ..g
    }
}

/// The next `n` bytes of a ready generator, and the generator after them:
/// what the output buffer still holds comes first, then digest after digest.
pub open spec fn generate_stream(g: GeneratorState, n: nat) -> (Seq<u8>, GeneratorState)
    decreases
            n,
            (if g.output_available == 0 {
                1nat
            } else {
                0nat
            }),
{
    if n <= g.output_available {
        let start = 16 - g.output_available;
        (
            g.output.subrange(start, start + n),
            GeneratorState { output_available: (g.output_available - n) as nat, ..g },
        )
    } else {
        let head = g.output.subrange(16 - g.output_available, 16);
        let (tail, end) = generate_stream(refilled(g), (n - g.output_available) as nat);
        (head + tail, end)
    }
}

/// What a request for `n` bytes gives, and the generator after it.
pub open spec fn generate_result(g: GeneratorState, n: nat) -> (
    Result<Seq<u8>, RSAError>,
    GeneratorState,
) {
    if is_ready(g) {
        (Ok(generate_stream(g, n).0), generate_stream(g, n).1)
    } else {
        (Err(RSAError::NeedRandom), g)
    }
}

/// Appends `src[from..to]` to `dst`.
fn append_range(dst: &mut Vec<u8>, src: &[u8; 16], from: usize, to: usize)
    requires
        from <= to <= 16,
    ensures
        final(dst)@ == old(dst)@ + src@.subrange(from as int, to as int),
{
    let ghost start = dst@;
    let mut k: usize = from;
    while k < to
        invariant
            from <= k <= to <= 16,
            dst@ == start + src@.subrange(from as int, k as int),
        decreases to - k,
    {
        dst.push(src[k]);
        assert(src@.subrange(from as int, k + 1) =~= src@.subrange(from as int, k as int).push(
            src@[k as int],
        ));
        assert(dst@ =~= start + src@.subrange(from as int, k + 1));
        k += 1;
    }
}

/// The counter after `state`.
fn increment(state: [u8; 16]) -> (r: [u8; 16])
    ensures
        r@ == next_counter(state@),
{
    let mut next = state;
    let mut i: usize = 16;
    let mut carry = true;
    proof {
        assert(state@.take(16) =~= state@);
        assert(state@ + zero_bytes(0) =~= state@);
        assert(counter_successor(state@) + zero_bytes(0) =~= counter_successor(state@));
    }
    while carry && i > 0
        invariant
            i <= 16,
            carry ==> counter_successor(state@) == counter_successor(state@.take(i as int))
                + zero_bytes((16 - i) as nat),
            carry ==> next@ == state@.take(i as int) + zero_bytes((16 - i) as nat),
            !carry ==> next@ == counter_successor(state@),
        decreases i,
    {
        let byte = state[i - 1];
        let ghost before = next@;
        next[i - 1] = byte.wrapping_add(1);
        proof {
            let front = state@.take(i as int);
            assert(front.drop_last() =~= state@.take(i - 1));
            assert(front.last() == byte);
            if byte == 0xFF {
                assert(counter_successor(front) + zero_bytes((16 - i) as nat)
                    =~= counter_successor(state@.take(i - 1)) + zero_bytes((16 - i + 1) as nat))
                    by {
                    lemma_counter_successor(state@.take(i - 1));
                }
                assert(next@ =~= state@.take(i - 1) + zero_bytes((16 - i + 1) as nat));
            } else {
                assert(next@ =~= counter_successor(front) + zero_bytes((16 - i) as nat));
            }
        }
        if byte != 0xFF {
            carry = false;
        }
        i -= 1;
    }
    proof {
        lemma_counter_successor(state@);
        if carry {
            assert(state@.take(0) =~= Seq::<u8>::empty());
            assert(counter_successor(Seq::<u8>::empty()) =~= Seq::<u8>::empty());
            assert(next@ =~= counter_successor(state@));
        }
    }
    next
}

impl RandomStruct {
    #[verifier::type_invariant]
    spec fn buffer_in_bounds(&self) -> bool {
        self.output_available <= 16
    }

    /// A generator that asks for `RANDOM_BYTES_NEEDED` seed bytes.
    pub fn new() -> (r: Self)
        ensures
            r@ == fresh_state(),
            well_formed(r@),
    {
        let r = Self {
            bytes_needed: RANDOM_BYTES_NEEDED,
            state: [0u8; 16],
            output_available: 0,
            output: [0u8; 16],
            finished: false,
        };
        proof {
            assert(r.state@ =~= zero_bytes(16));
            assert(r.output@ =~= zero_bytes(16));
        }
        r
    }

    /// Starts the generator again: it asks for the full count of seed bytes,
    /// its mixing state is zero and it holds no output.
    pub fn random_init(&mut self)
        ensures
            final(self)@ == initialised(old(self)@),
            well_formed(old(self)@),
            well_formed(final(self)@),
    {
        proof {
            use_type_invariant(&*self);
        }
        self.bytes_needed = RANDOM_BYTES_NEEDED;
        self.state = [0u8; 16];
        self.output_available = 0;
        self.finished = false;
        proof {
            assert(self.state@ =~= zero_bytes(16));
        }
    }

    /// Mixes `block` in: its digest is added to the mixing state, and its
    /// length is taken off the count of seed bytes still needed.
    pub fn random_update(&mut self, block: &[u8])
        ensures
            final(self)@ == update_state(old(self)@, block@),
            well_formed(old(self)@),
            well_formed(final(self)@),
    {
        proof {
            use_type_invariant(&*self);
        }
        let digest = digest_block(block);
        let ghost before = self.state@;
        let mut state = self.state;
        let mut x: u32 = 0;
        let mut i: usize = 0;
        proof {
            lemma_npow(256, 0);
            assert(state@.take(0) =~= Seq::<u8>::empty());
            assert(digest@.take(0) =~= Seq::<u8>::empty());
            assert(Seq::<u8>::empty().reverse() =~= Seq::<u8>::empty());
        }
        while i < 16
            invariant
                i <= 16,
                x <= 1,
                forall|j: int| i <= j < 16 ==> state@[j] == before[j],
                before.len() == 16,
                le_byte_value(state@.take(i as int)) + x * byte_pow(i as nat) == le_byte_value(
                    before.take(i as int),
                ) + le_byte_value(digest@.take(i as int)),
            decreases 16 - i,
        {
            let ghost carry_in = x;
            let ghost previous = state@;
            x = x + state[i] as u32 + digest[i] as u32;
            let ghost total = x;
            assert(x & 0xFF == x % 256 && x >> 8 == x / 256) by (bit_vector);
            state[i] = (x & 0xFF) as u8;
            x = x >> 8;
            proof {
                let w = byte_pow(i as nat) as int;
                let low = (total % 256) as u8;
                lemma_npow(256, i as nat);
                assert(state@.take(i + 1) =~= previous.take(i as int).push(low));
                assert(before.take(i + 1) =~= before.take(i as int).push(before[i as int]));
                assert(digest@.take(i + 1) =~= digest@.take(i as int).push(digest@[i as int]));
                lemma_le_byte_value_push(previous.take(i as int), low);
                lemma_le_byte_value_push(before.take(i as int), before[i as int]);
                lemma_le_byte_value_push(digest@.take(i as int), digest@[i as int]);
                let (a, b) = (before[i as int] as int, digest@[i as int] as int);
                assert(low * w + x * (256 * w) == a * w + b * w + carry_in * w)
                    by (nonlinear_arith)
                    requires
                        low + x * 256 == a + b + carry_in,
                ;
            }
            i += 1;
        }
        proof {
            assert(state@.take(16) =~= state@);
            assert(before.take(16) =~= before);
            assert(digest@.take(16) =~= digest@);
            lemma_be_value_bound(state@.reverse());
            let w = byte_pow(16) as int;
            assert(w * x == x * w) by (nonlinear_arith);
            lemma_fundamental_div_mod_converse(
                (le_byte_value(before) + le_byte_value(digest@)) as int,
                w,
                x as int,
                le_byte_value(state@) as int,
            );
            lemma_le_bytes_of_value(state@);
        }
        self.state = state;
        if self.bytes_needed >= block.len() {
            self.bytes_needed = self.bytes_needed - block.len();
        } else {
            self.bytes_needed = 0;
        }
    }

    /// The number of seed bytes still to be mixed in.
    pub fn get_random_bytes_needed(&self) -> (n: usize)
        ensures
            n == self@.bytes_needed,
    {
        self.bytes_needed
    }

    /// The next `block_len` bytes of output. A generator that still needs
    /// seed bytes, or that was finished, fails with `NeedRandom` and stays
    /// as it is.
    pub fn generate_bytes(&mut self, block_len: usize) -> (r: Result<Vec<u8>, RSAError>)
        ensures
            final(self)@ == generate_result(old(self)@, block_len as nat).1,
            match r {
                Ok(bytes) => generate_result(old(self)@, block_len as nat).0 == Ok::<
                    Seq<u8>,
                    RSAError,
                >(bytes@),
                Err(e) => generate_result(old(self)@, block_len as nat).0 == Err::<
                    Seq<u8>,
                    RSAError,
                >(e),
            },
            r is Ok <==> is_ready(old(self)@),
            r matches Ok(bytes) ==> bytes@.len() == block_len,
            well_formed(old(self)@),
            well_formed(final(self)@),
    {
        proof {
            use_type_invariant(&*self);
        }
        if self.bytes_needed != 0 || self.finished {
            return Err(RSAError::NeedRandom);
        }
        let ghost start = self@;
        let mut available: usize = self.output_available;
        let mut remaining: usize = block_len;
        let mut block: Vec<u8> = Vec::new();
        proof {
            assert(block@ + generate_stream(start, block_len as nat).0 =~= generate_stream(
                start,
                block_len as nat,
            ).0);
        }
        while remaining > available
            invariant
                available <= 16,
                self.output_available <= 16,
                block@.len() + remaining == block_len,
                block@ + generate_stream(
                    GeneratorState { output_available: available as nat, ..self@ },
                    remaining as nat,
                ).0 == generate_stream(start, block_len as nat).0,
                generate_stream(
                    GeneratorState { output_available: available as nat, ..self@ },
                    remaining as nat,
                ).1 == generate_stream(start, block_len as nat).1,
            decreases
                    remaining,
                    (if available == 0 {
                        1nat
                    } else {
                        0nat
                    }),
        {
            let ghost current = GeneratorState { output_available: available as nat, ..self@ };
            let ghost taken = block@;
            append_range(&mut block, &self.output, 16 - available, 16);
            remaining -= available;
            self.output = digest_block(self.state.as_slice());
            available = 16;
            self.state = increment(self.state);
            proof {
                let next = GeneratorState { output_available: 16, ..self@ };
                assert(next == refilled(current));
                let head = current.output.subrange(16 - current.output_available, 16);
                let tail = generate_stream(next, remaining as nat).0;
                assert((taken + head) + tail =~= taken + (head + tail));
            }
        }
        let from = 16 - available;
        append_range(&mut block, &self.output, from, from + remaining);
        self.output_available = available - remaining;
        Ok(block)
    }

    /// Finishes the generator: the count of seed bytes needed, the mixing
    /// state and the output buffer are all set to zero, and the generator
    /// gives no output until `random_init` starts it again.
    pub fn random_final(&mut self)
        ensures
            final(self)@ == (GeneratorState {
                bytes_needed: 0,
                state: zero_bytes(16),
                output_available: 0,
                output: zero_bytes(16),
                finished: true,
            }),
            !is_ready(final(self)@),
            well_formed(final(self)@),
    {
        proof {
            use_type_invariant(&*self);
        }
        self.bytes_needed = 0;
        self.state = [0u8; 16];
        self.output_available = 0;
        self.output = [0u8; 16];
        self.finished = true;
        proof {
            assert(self.state@ =~= zero_bytes(16));
            assert(self.output@ =~= zero_bytes(16));
        }
    }
}

/// The generator after the blocks have been mixed in, one after another.
pub open spec fn after_updates(g: GeneratorState, blocks: Seq<Seq<u8>>) -> GeneratorState
    decreases blocks.len(),
{
    if blocks.len() == 0 {
        g
    } else {
        update_state(after_updates(g, blocks.drop_last()), blocks.last())
    }
}

/// The number of bytes in all the blocks together.
pub open spec fn total_len(blocks: Seq<Seq<u8>>) -> nat
    decreases blocks.len(),
{
    if blocks.len() == 0 {
        0
    } else {
        total_len(blocks.drop_last()) + blocks.last().len()
    }
}

/// What a sequence of requests gives, request by request.
pub open spec fn request_results(g: GeneratorState, requests: Seq<nat>) -> Seq<
    Result<Seq<u8>, RSAError>,
>
    decreases requests.len(),
{
    if requests.len() == 0 {
        Seq::empty()
    } else {
        seq![generate_result(g, requests[0]).0] + request_results(
            generate_result(g, requests[0]).1,
            requests.drop_first(),
        )
    }
}

/// Two generators that ask for the same number of seed bytes, hold the same
/// mixing state and the same output not yet handed out. Where no output is
/// left, the buffers may differ.
pub open spec fn alike(a: GeneratorState, b: GeneratorState) -> bool {
    &&& a.bytes_needed == b.bytes_needed
    &&& a.state == b.state
    &&& a.finished == b.finished
    &&& a.output_available == b.output_available
    &&& (a.output == b.output || (a.output_available == 0 && a.output.len() == 16
        && b.output.len() == 16))
}

/// Two generators that are alike answer one request with the same bytes,
/// and are alike after it.
proof fn lemma_alike_stream(a: GeneratorState, b: GeneratorState, n: nat)
    requires
        alike(a, b),
    ensures
        generate_result(a, n).0 == generate_result(b, n).0,
        alike(generate_result(a, n).1, generate_result(b, n).1),
{
    if is_ready(a) {
        if a.output != b.output {
            assert(a.output.subrange(16, 16) =~= b.output.subrange(16, 16));
        }
        if n > a.output_available {
            assert(refilled(a) == refilled(b));
        }
    }
}

/// The generator is deterministic: two generators that are alike, seeded
/// with the same blocks, answer the same sequence of requests with the same
/// bytes.
pub proof fn lemma_generator_deterministic(
    a: GeneratorState,
    b: GeneratorState,
    blocks: Seq<Seq<u8>>,
    requests: Seq<nat>,
)
    requires
        alike(a, b),
    ensures
        alike(after_updates(a, blocks), after_updates(b, blocks)),
        request_results(after_updates(a, blocks), requests) == request_results(
            after_updates(b, blocks),
            requests,
        ),
    decreases blocks.len(), requests.len(),
{
    if blocks.len() > 0 {
        lemma_generator_deterministic(a, b, blocks.drop_last(), Seq::empty());
    }
    let (x, y) = (after_updates(a, blocks), after_updates(b, blocks));
    assert(alike(x, y));
    if requests.len() > 0 {
        lemma_alike_stream(x, y, requests[0]);
        lemma_generator_deterministic(
            generate_result(x, requests[0]).1,
            generate_result(y, requests[0]).1,
            Seq::empty(),
            requests.drop_first(),
        );
    }
}

/// A generator that is in order stays in order, whatever is mixed in and
/// whatever is asked of it, and a request that it answers gives as many
/// bytes as were asked for.
pub proof fn lemma_well_formed_kept(g: GeneratorState, block: Seq<u8>, n: nat)
    requires
        well_formed(g),
    ensures
        well_formed(update_state(g, block)),
        well_formed(refilled(g)),
        well_formed(generate_stream(g, n).1),
        generate_stream(g, n).0.len() == n,
        well_formed(generate_result(g, n).1),
        generate_result(g, n).0 matches Ok(bytes) ==> bytes.len() == n,
    decreases
            n,
            (if g.output_available == 0 {
                1nat
            } else {
                0nat
            }),
{
    if n > g.output_available {
        lemma_well_formed_kept(refilled(g), block, (n - g.output_available) as nat);
    }
}

/// Requests in pieces give the stream of one request: what two requests
/// give, one after the other, is what one request for as many bytes gives,
/// and the generator is the same after it.
pub proof fn lemma_stream_in_pieces(g: GeneratorState, a: nat, b: nat)
    requires
        well_formed(g),
    ensures
        generate_stream(g, a + b).0 == generate_stream(g, a).0 + generate_stream(
            generate_stream(g, a).1,
            b,
        ).0,
        generate_stream(g, a + b).1 == generate_stream(generate_stream(g, a).1, b).1,
    decreases
            a,
            (if g.output_available == 0 {
                1nat
            } else {
                0nat
            }),
{
    let start = 16 - g.output_available;
    let first = generate_stream(g, a).0;
    let after = generate_stream(g, a).1;
    let second = generate_stream(after, b).0;
    if a <= g.output_available {
        if b <= g.output_available - a {
            assert(g.output.subrange(start, start + a + b) =~= first + second);
        } else {
            assert(refilled(after) == refilled(g));
            assert(g.output.subrange(start, 16) =~= first + g.output.subrange(start + a, 16));
            let tail = generate_stream(refilled(g), (a + b - g.output_available) as nat).0;
            assert((first + g.output.subrange(start + a, 16)) + tail =~= first + (
            g.output.subrange(start + a, 16) + tail));
        }
    } else {
        let head = g.output.subrange(start, 16);
        let rest = (a - g.output_available) as nat;
        lemma_well_formed_kept(g, Seq::empty(), 0);
        lemma_stream_in_pieces(refilled(g), rest, b);
        let tail = generate_stream(refilled(g), rest).0;
        assert((head + tail) + second =~= head + (tail + second));
    }
}

/// A generator that is started again behaves as a new one: seeded with the
/// same blocks, it answers the same requests with the same bytes.
pub proof fn lemma_initialised_as_new(
    g: GeneratorState,
    blocks: Seq<Seq<u8>>,
    requests: Seq<nat>,
)
    requires
        well_formed(g),
    ensures
        request_results(after_updates(initialised(g), blocks), requests) == request_results(
            after_updates(fresh_state(), blocks),
            requests,
        ),
{
    lemma_generator_deterministic(initialised(g), fresh_state(), blocks, requests);
}

/// The generator gives no output before its seed: while the blocks mixed
/// in hold fewer bytes than the generator asked for, every request fails
/// with `NeedRandom`.
pub proof fn lemma_underseeded_generator_fails(g: GeneratorState, blocks: Seq<Seq<u8>>, n: nat)
    requires
        total_len(blocks) < g.bytes_needed,
    ensures
        after_updates(g, blocks).bytes_needed == g.bytes_needed - total_len(blocks),
        generate_result(after_updates(g, blocks), n).0 == Err::<Seq<u8>, RSAError>(
            RSAError::NeedRandom,
        ),
        generate_result(after_updates(g, blocks), n).1 == after_updates(g, blocks),
    decreases blocks.len(),
{
    if blocks.len() > 0 {
        lemma_underseeded_generator_fails(g, blocks.drop_last(), n);
    }
}

impl Default for RandomStruct {
    fn default() -> (r: Self)
        ensures
            r@ == fresh_state(),
            well_formed(r@),
    {
        Self::new()
    }
}

} // verus!
