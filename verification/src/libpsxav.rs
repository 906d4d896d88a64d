//! The buffer handed to the SPU ADPCM encoder: how large it is made for a
//! number of samples, and how it is cut to the length the encoder reports.
use vstd::prelude::*;

verus! {

/// Samples that one encoded block holds.
pub const SAMPLES_PER_BLOCK: usize = 28;

/// Bytes of one encoded block.
pub const BYTES_PER_BLOCK: usize = 16;

/// Number of blocks the encoder's output buffer is made for:
/// `(sample_count + 27) / 28`, rounded up.
pub open spec fn encoder_blocks(sample_count: int) -> int {
    if (sample_count + 27) % 28 == 0 {
        (sample_count + 27) / 28
    } else {
        (sample_count + 27) / 28 + 1
    }
}

/// Size in bytes of the buffer the encoder writes into for
/// `sample_count` samples: 16 bytes per block, for
/// `ceil((sample_count + 27) / 28)` blocks.  That is at least one block per
/// started group of 28 samples.
pub fn encoded_buffer_size(sample_count: usize) -> (size: usize)
    requires
        encoder_blocks(sample_count as int) * 16 <= usize::MAX,
    ensures
        size == encoder_blocks(sample_count as int) * 16,
        size == 16 * ((sample_count + 54) / 28),
        size % 16 == 0,
        size >= 16 * ((sample_count + 27) / 28),
{
    // ceil((n + 27) / 28) == (n + 54) / 28, split to stay clear of overflow
    let whole = sample_count / SAMPLES_PER_BLOCK;
    let rest = sample_count % SAMPLES_PER_BLOCK;
    let blocks = whole + (rest + 54) / SAMPLES_PER_BLOCK;
    assert(sample_count == 28 * whole + rest);
    assert((sample_count + 27) / 28 == whole + (rest + 27) / 28);
    assert((sample_count + 27) % 28 == (rest + 27) % 28);
    assert(blocks == encoder_blocks(sample_count as int));
    blocks * BYTES_PER_BLOCK
}

/// Cuts the encoder's buffer to the length it reports; a length that is
/// negative or not shorter than the buffer leaves it as it is.
pub fn truncate_encoded(buffer: Vec<u8>, encoded_length: i32) -> (out: Vec<u8>)
    ensures
        out@ == if 0 <= encoded_length < buffer@.len() {
            buffer@.take(encoded_length as int)
        } else {
            buffer@
        },
{
    let mut out = buffer;
    if encoded_length >= 0 {
        out.truncate(encoded_length as usize);
    }
    out
}

} // verus!
