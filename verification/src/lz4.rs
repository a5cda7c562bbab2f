//! LZ4 block compression.
#[allow(unused_imports)]
use crate::bytes::le;
use vstd::prelude::*;

verus! {

/// The largest input that is compressed: room for its block can be reckoned in 32 bits.
pub const MAX_LZ4_INPUT_BYTES: usize = 39045157;

/// The largest output that a block is decompressed to.
pub const MAX_LZ4_OUTPUT_BYTES: usize = 27262976;

/// How many bytes 0xff in a row may hold a length that cannot be reckoned with: it must
/// fit in 32 bits, and the place in the output that it leads to in a word of the machine.
pub open spec fn overlong_run() -> usize {
    if usize::MAX > 0xffff_ffff {
        16843009
    } else {
        16736095
    }
}

/// Whether a block has no run of bytes 0xff that may hold such a length.
pub open spec fn short_runs(block: Seq<u8>) -> bool {
    forall|at: int|
        0 <= at && at + overlong_run() <= block.len() ==> !(#[trigger] is_run(
            block,
            at,
            at + overlong_run(),
        ))
}

/// Whether all bytes from `from` up to `to` are 0xff.
pub open spec fn is_run(block: Seq<u8>, from: int, to: int) -> bool {
    forall|i: int| from <= i < to ==> #[trigger] block[i] == 0xff
}

/// How many bytes 0xff in a row are too many in a block.
pub fn overlong_run_bytes() -> (bytes: usize)
    ensures
        bytes == overlong_run(),
{
    if usize::MAX > 0xffff_ffff {
        16843009
    } else {
        16736095
    }
}

/// Whether a block has no run of bytes 0xff that may hold an overlong length.
pub fn has_short_runs(block: &[u8]) -> (yes: bool)
    ensures
        yes == short_runs(block@),
{
    let limit: usize = overlong_run_bytes();
    let mut i: usize = 0;
    let mut run: usize = 0;
    while i < block.len()
        invariant
            limit == overlong_run(),
            run <= i <= block@.len(),
            run < limit,
            is_run(block@, i - run, i as int),
            run < i ==> block@[i - run - 1] != 0xff,
            forall|at: int|
                0 <= at && at + limit <= i ==> !(#[trigger] is_run(
                    block@,
                    at,
                    at + limit,
                )),
        decreases block@.len() - i,
    {
        if block[i] == 0xff {
            run = run + 1;
        } else {
            run = 0;
        }
        i = i + 1;
        if run == limit {
            assert(is_run(block@, i - run, i - run + limit));
            return false;
        }
        assert forall|at: int| 0 <= at && at + limit <= i implies !(#[trigger] is_run(
            block@,
            at,
            at + limit,
        )) by {
            if at + limit == i {
                if run == 0 {
                    assert(block@[i - 1] != 0xff);
                } else {
                    assert(block@[i - run - 1] != 0xff);
                }
            }
        }
    }
    true
}

/// What `lz4_flex::block::decompress` makes of `block` with `size` bytes of room:
/// the data, or what its error says.
pub uninterp spec fn lz4_content(block: Seq<u8>, size: nat) -> Result<Seq<u8>, Seq<char>>;

/// Whether an outcome of decompression is `data`.
pub open spec fn unpacks_to(outcome: Result<Seq<u8>, Seq<char>>, data: Seq<u8>) -> bool {
    outcome matches Ok(d) && d == data
}

/// Whether an outcome of decompression is an error that says `text`.
pub open spec fn unpacking_says(outcome: Result<Seq<u8>, Seq<char>>, text: Seq<char>) -> bool {
    outcome matches Err(e) && e == text
}

/// Whether `block` is an LZ4 block of `data`: it decompresses to the data, and it
/// is no shorter than a 255th of them.
pub open spec fn is_pack(data: Seq<u8>, block: Seq<u8>) -> bool {
    &&& data.len() <= 255 * block.len()
    &&& unpacks_to(lz4_content(block, data.len()), data)
}

/// `lz4_flex::block::compress_prepend_size`: the length of the data in four bytes,
/// least significant first, and then an LZ4 block of the data, which
/// `lz4_flex::block::decompress` with room for the data gives back. The format
/// spends a byte on every 255 bytes of a match, so a block is never shorter than a
/// 255th of its data. Which of the possible blocks it is stays open: it depends on
/// the word size and the byte order of the machine.
#[verifier::external_body]
pub(crate) fn compress(data: &[u8]) -> (out: Vec<u8>)
    requires
        data@.len() <= MAX_LZ4_INPUT_BYTES,
    ensures
        out@.len() >= 4,
        out@.subrange(0, 4) == le(data@.len(), 4),
        is_pack(data@, out@.subrange(4, out@.len() as int)),
{
    lz4_flex::block::compress_prepend_size(data)
}

/// `lz4_flex::block::decompress`: the outcome depends on the block and the room
/// alone, and what comes out is never longer than the room. An error is given as
/// the text it displays. It reckons lengths in 32 bits and places in the output in
/// words of the machine, so blocks with a run of 0xff that may lead out of them are
/// left out, and so is more room than is asked for here.
#[verifier::external_body]
pub(crate) fn decompress(block: &[u8], size: usize) -> (outcome: Result<Vec<u8>, String>)
    requires
        short_runs(block@),
        size <= MAX_LZ4_OUTPUT_BYTES,
    ensures
        match outcome {
            Ok(data) => data@.len() <= size && unpacks_to(
                lz4_content(block@, size as nat),
                data@,
            ),
            Err(e) => unpacking_says(lz4_content(block@, size as nat), e@),
        },
{
    match lz4_flex::block::decompress(block, size) {
        Ok(data) => Ok(data),
        Err(error) => Err(error.to_string()),
    }
}

} // verus!
