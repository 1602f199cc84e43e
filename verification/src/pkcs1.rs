//! PKCS#1 v1.5 block padding.
//!
//! A padded block is as long as the modulus: a zero byte, the block type,
//! at least eight filler bytes, a zero separator, and the payload. In a
//! block of type 1 the filler bytes are `0xFF`; in a block of type 2 they
//! are nonzero bytes from the generator.

use vstd::prelude::*;
use crate::RSAError;
use crate::r_random::{generate_result, GeneratorState, RandomStruct};

verus! {

/// The least number of bytes that padding adds to a payload.
pub const PADDING_OVERHEAD: usize = 11;

/// The number of bytes that are drawn for one filler byte before the
/// generator is given up as one that hands out zero bytes only.
pub const FILLER_DRAW_LIMIT: usize = 4096;

/// `n` bytes of `0xFF`.
pub open spec fn ff_bytes(n: nat) -> Seq<u8> {
    Seq::new(n, |i: int| 0xFFu8)
}

/// The block of type 1 that holds `payload` at the length `len`.
pub open spec fn type1_block(payload: Seq<u8>, len: nat) -> Seq<u8> {
    seq![0u8, 1u8] + ff_bytes((len - payload.len() - 3) as nat) + seq![0u8] + payload
}

/// The block of type 2 that holds `payload` behind the filler bytes `filler`.
pub open spec fn type2_block(filler: Seq<u8>, payload: Seq<u8>) -> Seq<u8> {
    seq![0u8, 2u8] + filler + seq![0u8] + payload
}

/// Whether `byte` may stand among the filler bytes of a block of the type.
pub open spec fn is_filler(byte: u8, block_type: u8) -> bool {
    if block_type == 1 {
        byte == 0xFF
    } else {
        byte != 0
    }
}

/// Whether every byte of `filler` is nonzero.
pub open spec fn all_nonzero(filler: Seq<u8>) -> bool {
    forall|i: int| 0 <= i < filler.len() ==> filler[i] != 0
}

/// The position of the first byte from `from` on that is no filler byte;
/// the length of the block where there is none.
pub open spec fn filler_end(block: Seq<u8>, block_type: u8, from: int) -> int
    decreases block.len() - from,
{
    if from >= block.len() {
        block.len() as int
    } else if !is_filler(block[from], block_type) {
        from
    } else {
        filler_end(block, block_type, from + 1)
    }
}

/// The payload of a padded block, where the block is well formed: it starts
/// with a zero byte and the block type, a zero separator ends the filler
/// bytes, and there are at least eight of these.
pub open spec fn unpadded(block: Seq<u8>, block_type: u8) -> Option<Seq<u8>> {
    if block.len() < 2 || block[0] != 0 || block[1] != block_type {
        None
    } else {
        let end = filler_end(block, block_type, 2);
        if end >= block.len() || block[end] != 0 || end < 10 {
            None
        } else {
            Some(block.skip(end + 1))
        }
    }
}

/// One nonzero byte from the generator, and the generator after it: bytes
/// are drawn until one is nonzero, `tries` times at most.
pub open spec fn draw_nonzero(g: GeneratorState, tries: nat) -> (
    Result<u8, RSAError>,
    GeneratorState,
)
    decreases tries,
{
    if tries == 0 {
        (Err(RSAError::NeedRandom), g)
    } else {
        match generate_result(g, 1) {
            (Err(e), next) => (Err(e), next),
            (Ok(bytes), next) => if bytes[0] != 0 {
                (Ok(bytes[0]), next)
            } else {
                draw_nonzero(next, (tries - 1) as nat)
            },
        }
    }
}

/// `count` nonzero bytes from the generator, and the generator after them.
pub open spec fn draw_filler(g: GeneratorState, count: nat) -> (
    Result<Seq<u8>, RSAError>,
    GeneratorState,
)
    decreases count,
{
    if count == 0 {
        (Ok(Seq::empty()), g)
    } else {
        match draw_filler(g, (count - 1) as nat) {
            (Err(e), next) => (Err(e), next),
            (Ok(filler), next) => match draw_nonzero(next, FILLER_DRAW_LIMIT as nat) {
                (Err(e), last) => (Err(e), last),
                (Ok(byte), last) => (Ok(filler.push(byte)), last),
            },
        }
    }
}

/// The block of type 2 that holds `payload` at the length `len`, with its
/// filler bytes drawn from the generator, and the generator after it.
pub open spec fn type2_padding(g: GeneratorState, payload: Seq<u8>, len: nat) -> (
    Result<Seq<u8>, RSAError>,
    GeneratorState,
) {
    if payload.len() + PADDING_OVERHEAD > len {
        (Err(RSAError::Len), g)
    } else {
        match draw_filler(g, (len - payload.len() - 3) as nat) {
            (Err(e), next) => (Err(e), next),
            (Ok(filler), next) => (Ok(type2_block(filler, payload)), next),
        }
    }
}

/// Appends the bytes of `src` to `dst`.
pub(crate) fn append_bytes(dst: &mut Vec<u8>, src: &[u8])
    ensures
        final(dst)@ == old(dst)@ + src@,
{
    let ghost start = dst@;
    let mut k: usize = 0;
    while k < src.len()
        invariant
            k <= src@.len(),
            dst@ == start + src@.take(k as int),
        decreases src@.len() - k,
    {
        dst.push(src[k]);
        assert(src@.take(k + 1) =~= src@.take(k as int).push(src@[k as int]));
        assert(dst@ =~= start + src@.take(k + 1));
        k += 1;
    }
    assert(src@.take(src@.len() as int) =~= src@);
}

/// Pads `payload` to a block of type 1 of the length `len`. A payload that
/// leaves no room for the padding fails with `Len`.
pub fn pad_type1(payload: &[u8], len: usize) -> (r: Result<Vec<u8>, RSAError>)
    ensures
        payload@.len() + PADDING_OVERHEAD > len ==> r == Err::<Vec<u8>, RSAError>(RSAError::Len),
        payload@.len() + PADDING_OVERHEAD <= len ==> r is Ok && r->Ok_0@ == type1_block(
            payload@,
            len as nat,
        ),
        r matches Ok(block) ==> block@.len() == len,
{
    if len < PADDING_OVERHEAD || payload.len() > len - PADDING_OVERHEAD {
        return Err(RSAError::Len);
    }
    let fill = len - payload.len() - 3;
    let mut block: Vec<u8> = Vec::with_capacity(len);
    block.push(0);
    block.push(1);
    let mut i: usize = 0;
    while i < fill
        invariant
            i <= fill,
            block@ == seq![0u8, 1u8] + ff_bytes(i as nat),
        decreases fill - i,
    {
        block.push(0xFF);
        assert(block@ =~= seq![0u8, 1u8] + ff_bytes((i + 1) as nat));
        i += 1;
    }
    block.push(0);
    append_bytes(&mut block, payload);
    assert(block@ =~= type1_block(payload@, len as nat));
    Ok(block)
}

/// One nonzero byte from the generator.
fn nonzero_byte(random_struct: &mut RandomStruct) -> (r: Result<u8, RSAError>)
    ensures
        r == draw_nonzero(old(random_struct)@, FILLER_DRAW_LIMIT as nat).0,
        final(random_struct)@ == draw_nonzero(old(random_struct)@, FILLER_DRAW_LIMIT as nat).1,
        r matches Ok(byte) ==> byte != 0,
{
    let mut tries: usize = FILLER_DRAW_LIMIT;
    while tries > 0
        invariant
            draw_nonzero(random_struct@, tries as nat) == draw_nonzero(
                old(random_struct)@,
                FILLER_DRAW_LIMIT as nat,
            ),
        decreases tries,
    {
        match random_struct.generate_bytes(1) {
            Err(e) => {
                return Err(e);
            },
            Ok(bytes) => {
                let byte = bytes[0];
                if byte != 0 {
                    return Ok(byte);
                }
            },
        }
        tries -= 1;
    }
    Err(RSAError::NeedRandom)
}

/// Pads `payload` to a block of type 2 of the length `len`, with nonzero
/// filler bytes from the generator. A payload that leaves no room for the
/// padding fails with `Len`, before any byte is drawn; a generator that
/// gives no nonzero byte fails with `NeedRandom`.
pub fn pad_type2(payload: &[u8], len: usize, random_struct: &mut RandomStruct) -> (r: Result<
    Vec<u8>,
    RSAError,
>)
    ensures
        final(random_struct)@ == type2_padding(old(random_struct)@, payload@, len as nat).1,
        match r {
            Ok(block) => type2_padding(old(random_struct)@, payload@, len as nat).0 == Ok::<
                Seq<u8>,
                RSAError,
            >(block@),
            Err(e) => type2_padding(old(random_struct)@, payload@, len as nat).0 == Err::<
                Seq<u8>,
                RSAError,
            >(e),
        },
        r matches Ok(block) ==> block@.len() == len && exists|filler: Seq<u8>|
            #![auto]
            filler.len() == len - payload@.len() - 3 && all_nonzero(filler) && block@
                == type2_block(filler, payload@),
{
    if len < PADDING_OVERHEAD || payload.len() > len - PADDING_OVERHEAD {
        return Err(RSAError::Len);
    }
    let fill = len - payload.len() - 3;
    let mut block: Vec<u8> = Vec::with_capacity(len);
    block.push(0);
    block.push(2);
    let ghost mut filler = Seq::<u8>::empty();
    let mut i: usize = 0;
    while i < fill
        invariant
            i <= fill,
            fill == len - payload@.len() - 3,
            payload@.len() + PADDING_OVERHEAD <= len,
            filler.len() == i,
            all_nonzero(filler),
            block@ == seq![0u8, 2u8] + filler,
            draw_filler(old(random_struct)@, i as nat) == (
                Ok::<Seq<u8>, RSAError>(filler),
                random_struct@,
            ),
        decreases fill - i,
    {
        match nonzero_byte(random_struct) {
            Err(e) => {
                proof {
                    lemma_draw_filler_fails(old(random_struct)@, (i + 1) as nat, fill as nat);
                }
                return Err(e);
            },
            Ok(byte) => {
                block.push(byte);
                proof {
                    filler = filler.push(byte);
                    assert(block@ =~= seq![0u8, 2u8] + filler);
                }
            },
        }
        i += 1;
    }
    block.push(0);
    append_bytes(&mut block, payload);
    assert(block@ =~= type2_block(filler, payload@));
    Ok(block)
}

/// Whether `byte` may stand among the filler bytes of a block of the type.
fn filler_byte(byte: u8, block_type: u8) -> (r: bool)
    ensures
        r == is_filler(byte, block_type),
{
    if block_type == 1 {
        byte == 0xFF
    } else {
        byte != 0
    }
}

/// The payload of a padded block of the given type. A block that is not
/// well formed fails with `Data`, whatever is wrong with it.
pub fn unpad(block: &[u8], block_type: u8) -> (r: Result<Vec<u8>, RSAError>)
    ensures
        match r {
            Ok(payload) => unpadded(block@, block_type) == Some(payload@),
            Err(e) => e == RSAError::Data && unpadded(block@, block_type) is None,
        },
{
    let len = block.len();
    if len < 2 || block[0] != 0 || block[1] != block_type {
        return Err(RSAError::Data);
    }
    let mut end: usize = 2;
    while end < len && filler_byte(block[end], block_type)
        invariant
            2 <= end <= len,
            len == block@.len(),
            filler_end(block@, block_type, end as int) == filler_end(block@, block_type, 2),
        decreases len - end,
    {
        end += 1;
    }
    if end >= len || block[end] != 0 || end < 10 {
        return Err(RSAError::Data);
    }
    let mut payload: Vec<u8> = Vec::with_capacity(len - end - 1);
    let mut k: usize = end + 1;
    while k < len
        invariant
            end + 1 <= k <= len,
            len == block@.len(),
            payload@ == block@.subrange(end + 1, k as int),
        decreases len - k,
    {
        payload.push(block[k]);
        assert(block@.subrange(end + 1, k + 1) =~= block@.subrange(end + 1, k as int).push(
            block@[k as int],
        ));
        k += 1;
    }
    assert(block@.subrange(end + 1, len as int) =~= block@.skip(end + 1));
    Ok(payload)
}

/// Padding to a block of type 1 and taking the padding off again gives
/// the payload back.
pub proof fn lemma_unpad_type1(payload: Seq<u8>, len: nat)
    requires
        payload.len() + PADDING_OVERHEAD <= len,
    ensures
        type1_block(payload, len).len() == len,
        unpadded(type1_block(payload, len), 1) == Some(payload),
{
    let end = len - payload.len() - 1;
    let block = type1_block(payload, len);
    lemma_filler_end(block, 1, 2, end);
    assert(block.skip(end + 1) =~= payload);
}

/// Taking the padding off a block of type 2 with at least eight nonzero
/// filler bytes gives the payload back.
pub proof fn lemma_unpad_type2(filler: Seq<u8>, payload: Seq<u8>)
    requires
        filler.len() >= 8,
        all_nonzero(filler),
    ensures
        type2_block(filler, payload).len() == filler.len() + payload.len() + 3,
        unpadded(type2_block(filler, payload), 2) == Some(payload),
{
    let block = type2_block(filler, payload);
    assert forall|i: int| 2 <= i < 2 + filler.len() implies is_filler(#[trigger] block[i], 2) by {
        assert(block[i] == filler[i - 2]);
    }
    let end = 2 + filler.len() as int;
    lemma_filler_end(block, 2, 2, end);
    assert(block.skip(end + 1) =~= payload);
}

/// A byte that was drawn as a filler byte is not zero.
proof fn lemma_drawn_nonzero(g: GeneratorState, tries: nat)
    ensures
        draw_nonzero(g, tries).0 matches Ok(byte) ==> byte != 0,
    decreases tries,
{
    if tries > 0 {
        if let (Ok(bytes), next) = generate_result(g, 1) {
            if bytes[0] == 0 {
                lemma_drawn_nonzero(next, (tries - 1) as nat);
            }
        }
    }
}

/// Filler bytes that were drawn are as many as were asked for, and none
/// of them is zero.
pub proof fn lemma_drawn_filler(g: GeneratorState, count: nat)
    ensures
        draw_filler(g, count).0 matches Ok(filler) ==> filler.len() == count && all_nonzero(
            filler,
        ),
    decreases count,
{
    if count > 0 {
        lemma_drawn_filler(g, (count - 1) as nat);
        if let (Ok(filler), next) = draw_filler(g, (count - 1) as nat) {
            lemma_drawn_nonzero(next, FILLER_DRAW_LIMIT as nat);
        }
    }
}

/// Once a filler byte could not be drawn, drawing more of them fails alike.
proof fn lemma_draw_filler_fails(g: GeneratorState, k: nat, count: nat)
    requires
        k <= count,
        draw_filler(g, k).0 is Err,
    ensures
        draw_filler(g, count) == draw_filler(g, k),
    decreases count,
{
    if k < count {
        lemma_draw_filler_fails(g, k, (count - 1) as nat);
    }
}

/// Filler bytes from `from` up to a byte at `end` that is none.
proof fn lemma_filler_end(block: Seq<u8>, block_type: u8, from: int, end: int)
    requires
        0 <= from <= end < block.len(),
        forall|i: int| from <= i < end ==> is_filler(#[trigger] block[i], block_type),
        !is_filler(block[end], block_type),
    ensures
        filler_end(block, block_type, from) == end,
    decreases end - from,
{
    if from < end {
        lemma_filler_end(block, block_type, from + 1, end);
    }
}

} // verus!
