//! SPU ADPCM: decoding of 16-byte blocks into 16-bit PCM samples, the
//! loop flags of an encoded buffer, and the checks a WAV input must pass
//! before it is encoded.
use vstd::prelude::*;
use vstd::slice::slice_subrange;
use vstd::arithmetic::power2::pow2;
use vstd::bits::{lemma_u32_shl_is_mul, lemma_u32_pow2_no_overflow};

verus! {

/// `v` saturated to the range of `i16`.
pub open spec fn clamp_to_i16(v: int) -> i16 {
    if v > i16::MAX {
        i16::MAX
    } else if v < i16::MIN {
        i16::MIN
    } else {
        v as i16
    }
}

/// Saturates a 32-bit value to 16 bits.
pub fn clamp_i16(v: i32) -> (r: i16)
    ensures
        r == clamp_to_i16(v as int),
{
    if v > i16::MAX as i32 {
        i16::MAX
    } else if v < i16::MIN as i32 {
        i16::MIN
    } else {
        v as i16
    }
}

/// The shift of a block: the low nibble of its first byte.
pub open spec fn block_shift(block: Seq<u8>) -> nat {
    (block[0] % 16) as nat
}

/// The prediction filter of a block: the high nibble of its first byte,
/// where values above 4 select filter 0.
pub open spec fn block_filter(block: Seq<u8>) -> int {
    let f = block[0] / 16;
    if f > 4 {
        0
    } else {
        f as int
    }
}

/// First prediction coefficient of a filter, in 1/64.
pub open spec fn filter_k0(filter: int) -> int {
    if filter == 1 {
        60
    } else if filter == 2 {
        115
    } else if filter == 3 {
        98
    } else if filter == 4 {
        122
    } else {
        0
    }
}

/// Second prediction coefficient of a filter, in 1/64.
pub open spec fn filter_k1(filter: int) -> int {
    if filter == 2 {
        -52
    } else if filter == 3 {
        -55
    } else if filter == 4 {
        -60
    } else {
        0
    }
}

/// The `j`-th nibble of the block's data as a signed value in -8..=7;
/// the low nibble of each data byte comes before its high nibble.
pub open spec fn block_nibble(block: Seq<u8>, j: int) -> int {
    let b = block[2 + j / 2];
    let n = if j % 2 == 0 {
        b % 16
    } else {
        b / 16
    };
    if n >= 8 {
        n - 16
    } else {
        n as int
    }
}

/// The prediction from the two previous samples, rounded to the nearest
/// (halves up) after scaling by 1/64.
pub open spec fn prediction(filter: int, hist1: int, hist2: int) -> int {
    (hist1 * filter_k0(filter) + hist2 * filter_k1(filter) + 32) / 64
}

/// The `j`-th sample of the block before saturation: the nibble scaled by
/// `2^(12 - shift)` (rounded down) plus the prediction.
pub open spec fn raw_sample(block: Seq<u8>, j: int, hist1: int, hist2: int) -> int {
    block_nibble(block, j) * 4096 / (pow2(block_shift(block)) as int)
        + prediction(block_filter(block), hist1, hist2)
}

/// The first `n` samples of a block decoded from the history
/// `(hist1, hist2)`, with the history after them.
pub open spec fn decoded_prefix(block: Seq<u8>, hist1: int, hist2: int, n: nat) -> (Seq<i16>, int, int)
    decreases n,
{
    if n == 0 {
        (Seq::empty(), hist1, hist2)
    } else {
        let prev = decoded_prefix(block, hist1, hist2, (n - 1) as nat);
        let s = clamp_to_i16(raw_sample(block, n - 1, prev.1, prev.2));
        (prev.0.push(s), s as int, prev.1)
    }
}

/// A whole block decoded from the history `(hist1, hist2)`: 28 samples
/// and the new history, or nothing and the old history for a block shorter
/// than 16 bytes.
pub open spec fn decoded_block(block: Seq<u8>, hist1: int, hist2: int) -> (Seq<i16>, int, int) {
    if block.len() < 16 {
        (Seq::empty(), hist1, hist2)
    } else {
        decoded_prefix(block, hist1, hist2, 28)
    }
}

/// The prediction of a filter from two history values is computed without
/// overflowing 32 bits.
pub open spec fn prediction_fits(filter: int, hist1: int, hist2: int) -> bool {
    let a = hist1 * filter_k0(filter);
    let b = hist2 * filter_k1(filter);
    &&& i32::MIN <= a <= i32::MAX
    &&& i32::MIN <= b <= i32::MAX
    &&& i32::MIN <= a + b <= i32::MAX
    &&& i32::MIN <= a + b + 32 <= i32::MAX
}

/// Decoding a block from the history `(hist1, hist2)` never overflows: the
/// only predictions that see a value outside `i16` are the first two.
pub open spec fn block_decodable(block: Seq<u8>, hist1: int, hist2: int) -> bool {
    block.len() >= 16 ==> {
        let f = block_filter(block);
        &&& prediction_fits(f, hist1, hist2)
        &&& prediction_fits(f, clamp_to_i16(raw_sample(block, 0, hist1, hist2)) as int, hist1)
    }
}

proof fn lemma_small_history_fits(filter: int, hist1: int, hist2: int)
    requires
        0 <= filter <= 4,
        i16::MIN <= hist1 <= i16::MAX,
        i16::MIN <= hist2 <= i16::MAX,
    ensures
        prediction_fits(filter, hist1, hist2),
{
    let k0 = filter_k0(filter);
    let k1 = filter_k1(filter);
    assert(-32768 * 122 <= hist1 * k0 <= 32768 * 122) by (nonlinear_arith)
        requires
            0 <= k0 <= 122,
            -32768 <= hist1 <= 32767,
    ;
    assert(-32768 * 60 <= hist2 * k1 <= 32768 * 60) by (nonlinear_arith)
        requires
            -60 <= k1 <= 0,
            -32768 <= hist2 <= 32767,
    ;
}

/// The signed value of the nibble of `byte` at bit `nib_shift` (0 or 4).
fn signed_nibble(byte: u8, nib_shift: u8) -> (nib: i32)
    requires
        nib_shift == 0 || nib_shift == 4,
    ensures
        -8 <= nib <= 7,
        nib == ({
            let n = if nib_shift == 0 { byte % 16 } else { byte / 16 };
            if n >= 8 { n - 16 } else { n as int }
        }),
{
    assert(byte >> 0u8 & 0x0F == byte % 16) by (bit_vector);
    assert(byte >> 4u8 & 0x0F == byte / 16) by (bit_vector);
    let mut nib = ((byte >> nib_shift) & 0x0F) as i32;
    // sign-extend the 4-bit value
    if nib >= 8 {
        nib -= 16;
    }
    nib
}

/// One decoded sample: the nibble scaled by the shift, plus the
/// prediction from the two previous samples, saturated to 16 bits.
fn decode_sample(nib: i32, shift: u32, k0: i32, k1: i32, hist1: i32, hist2: i32) -> (s: i16)
    requires
        -8 <= nib <= 7,
        shift < 16,
        -60 <= k1 <= 0 <= k0 <= 122,
        ({
            let a = hist1 * k0;
            let b = hist2 * k1;
            &&& i32::MIN <= a <= i32::MAX
            &&& i32::MIN <= b <= i32::MAX
            &&& i32::MIN <= a + b <= i32::MAX
            &&& i32::MIN <= a + b + 32 <= i32::MAX
        }),
    ensures
        s == clamp_to_i16(
            nib * 4096 / (pow2(shift as nat) as int) + (hist1 * k0 + hist2 * k1 + 32) / 64,
        ),
{
    assert(nib << 12u32 == nib * 4096) by (bit_vector)
        requires
            -8 <= nib <= 7,
    ;
    let scaled = nib << 12;
    assert((scaled >> shift) as int == (scaled as int) / ((1i32 << shift) as int)) by (bit_vector)
        requires
            shift < 16,
            -32768 <= scaled <= 28672,
    ;
    assert((1i32 << shift) as int == (1u32 << shift) as int) by (bit_vector)
        requires
            shift < 16,
    ;
    proof {
        lemma_u32_pow2_no_overflow(shift as nat);
        lemma_u32_shl_is_mul(1, shift);
    }
    let mut sample = scaled >> shift;
    let pred = hist1 * k0 + hist2 * k1 + 32;
    assert((pred >> 6i32) as int == pred as int / 64) by (bit_vector);
    assert(-32768 <= sample <= 28672) by (nonlinear_arith)
        requires
            sample as int == (nib * 4096) as int / (pow2(shift as nat) as int),
            pow2(shift as nat) >= 1,
            -8 <= nib <= 7,
    ;
    sample += pred >> 6;
    clamp_i16(sample)
}

/// Decodes one 16-byte ADPCM block from the history `hist` (the last and
/// the one but last sample before it).  Returns the 28 samples and the new
/// history; a block shorter than 16 bytes decodes to nothing and leaves
/// the history as it is.
#[verifier::rlimit(40)]
pub fn decode_block_int(block: &[u8], hist: (i32, i32)) -> (r: (Vec<i16>, (i32, i32)))
    requires
        block_decodable(block@, hist.0 as int, hist.1 as int),
    ensures
        r.0@ == decoded_block(block@, hist.0 as int, hist.1 as int).0,
        r.1.0 == decoded_block(block@, hist.0 as int, hist.1 as int).1,
        r.1.1 == decoded_block(block@, hist.0 as int, hist.1 as int).2,
        block@.len() >= 16 ==> {
            &&& i16::MIN <= r.1.0 <= i16::MAX
            &&& i16::MIN <= r.1.1 <= i16::MAX
        },
{
    if block.len() < 16 {
        return (Vec::new(), hist);
    }
    let ghost bs = block@;
    let ghost f = block_filter(bs);

    let header = block[0];
    assert(header & 0x0F == header % 16) by (bit_vector);
    assert(header >> 4 & 0x0F == header / 16) by (bit_vector);
    let shift = (header & 0x0F) as u32;
    let mut filter = ((header >> 4) & 0x0F) as usize;
    if filter > 4 {
        filter = 0;
    }
    // integer coefficient tables (filter coefficients * 64)
    let k0_table: [i32; 5] = [0, 60, 115, 98, 122];
    let k1_table: [i32; 5] = [0, 0, -52, -55, -60];
    let k0 = k0_table[filter];
    let k1 = k1_table[filter];
    assert(k0 == filter_k0(f) && k1 == filter_k1(f));

    let mut samples: Vec<i16> = Vec::with_capacity(28);
    let mut hist1 = hist.0;
    let mut hist2 = hist.1;

    // 14 data bytes hold 28 nibbles, so 28 samples
    for i in 0..14
        invariant
            bs == block@,
            bs.len() >= 16,
            f == block_filter(bs),
            shift == block_shift(bs),
            k0 == filter_k0(f),
            k1 == filter_k1(f),
            0 <= f <= 4,
            block_decodable(bs, hist.0 as int, hist.1 as int),
            samples@ == decoded_prefix(bs, hist.0 as int, hist.1 as int, (2 * i) as nat).0,
            hist1 == decoded_prefix(bs, hist.0 as int, hist.1 as int, (2 * i) as nat).1,
            hist2 == decoded_prefix(bs, hist.0 as int, hist.1 as int, (2 * i) as nat).2,
            i == 0 ==> hist1 == hist.0 && hist2 == hist.1,
            i > 0 ==> i16::MIN <= hist1 <= i16::MAX && i16::MIN <= hist2 <= i16::MAX,
    {
        let byte = block[2 + i];
        let ghost j = 2 * i as int;

        // low nibble first
        let nib = signed_nibble(byte, 0);
        assert(nib == block_nibble(bs, j));
        if i > 0 {
            proof { lemma_small_history_fits(f, hist1 as int, hist2 as int); }
        }
        let s = decode_sample(nib, shift, k0, k1, hist1, hist2);
        assert(s == clamp_to_i16(raw_sample(bs, j, hist1 as int, hist2 as int)));
        samples.push(s);
        hist2 = hist1;
        hist1 = s as i32;
        assert(decoded_prefix(bs, hist.0 as int, hist.1 as int, (j + 1) as nat)
            == (samples@, hist1 as int, hist2 as int));

        // then the high nibble
        let nib = signed_nibble(byte, 4);
        assert(nib == block_nibble(bs, j + 1));
        proof {
            if i > 0 {
                lemma_small_history_fits(f, hist1 as int, hist2 as int);
            }
        }
        let s = decode_sample(nib, shift, k0, k1, hist1, hist2);
        assert(s == clamp_to_i16(raw_sample(bs, j + 1, hist1 as int, hist2 as int)));
        samples.push(s);
        hist2 = hist1;
        hist1 = s as i32;
        assert(decoded_prefix(bs, hist.0 as int, hist.1 as int, (j + 2) as nat)
            == (samples@, hist1 as int, hist2 as int));
    }

    (samples, (hist1, hist2))
}

/// The samples of the first `n` blocks of a stream, decoded one after the
/// other with the history carried from block to block (starting from
/// silence), and the history after them.
pub open spec fn decoded_blocks(data: Seq<u8>, n: nat) -> (Seq<i16>, int, int)
    decreases n,
{
    if n == 0 {
        (Seq::empty(), 0, 0)
    } else {
        let prev = decoded_blocks(data, (n - 1) as nat);
        let b = decoded_block(data.subrange(16 * (n - 1), 16 * n as int), prev.1, prev.2);
        (prev.0 + b.0, b.1, b.2)
    }
}

/// The samples of a whole ADPCM stream: every complete block, in order;
/// trailing bytes that do not fill a block are ignored.
pub open spec fn decoded_stream(data: Seq<u8>) -> Seq<i16> {
    decoded_blocks(data, data.len() / 16).0
}

proof fn lemma_decoded_prefix_len(block: Seq<u8>, hist1: int, hist2: int, n: nat)
    ensures
        decoded_prefix(block, hist1, hist2, n).0.len() == n,
    decreases n,
{
    if n > 0 {
        lemma_decoded_prefix_len(block, hist1, hist2, (n - 1) as nat);
    }
}

/// A stream of `n` complete blocks decodes to 28 samples per block.
pub proof fn lemma_decoded_blocks_len(data: Seq<u8>, n: nat)
    requires
        16 * n <= data.len(),
    ensures
        decoded_blocks(data, n).0.len() == 28 * n,
    decreases n,
{
    if n > 0 {
        lemma_decoded_blocks_len(data, (n - 1) as nat);
        let prev = decoded_blocks(data, (n - 1) as nat);
        lemma_decoded_prefix_len(data.subrange(16 * (n - 1), 16 * n as int), prev.1, prev.2, 28);
    }
}

/// Decodes an ADPCM stream into 16-bit samples: its complete 16-byte
/// blocks in order, each from the two last samples of the block before
/// (silence before the first).
pub fn decode_samples(data: &[u8]) -> (samples: Vec<i16>)
    ensures
        samples@ == decoded_stream(data@),
        samples@.len() == 28 * (data@.len() / 16),
{
    let mut samples: Vec<i16> = Vec::new();
    let mut hist = (0i32, 0i32);

    let mut pos = 0usize;
    while data.len() - pos >= 16
        invariant
            pos % 16 == 0,
            pos <= data.len(),
            samples@ == decoded_blocks(data@, (pos / 16) as nat).0,
            hist.0 == decoded_blocks(data@, (pos / 16) as nat).1,
            hist.1 == decoded_blocks(data@, (pos / 16) as nat).2,
            i16::MIN <= hist.0 <= i16::MAX,
            i16::MIN <= hist.1 <= i16::MAX,
        decreases data.len() - pos,
    {
        let block = slice_subrange(data, pos, pos + 16);
        proof {
            let f = block_filter(block@);
            assert(0 <= f <= 4);
            lemma_small_history_fits(f, hist.0 as int, hist.1 as int);
            let c = clamp_to_i16(raw_sample(block@, 0, hist.0 as int, hist.1 as int));
            lemma_small_history_fits(f, c as int, hist.0 as int);
        }
        let (mut block_samples, new_hist) = decode_block_int(block, hist);
        samples.append(&mut block_samples);
        hist = new_hist;
        pos += 16;
        assert(pos / 16 == (pos - 16) / 16 + 1);
    }
    proof {
        assert(pos / 16 == data@.len() / 16);
        lemma_decoded_blocks_len(data@, (pos / 16) as nat);
    }
    samples
}

/// The loop flag (bit 2) of the flags byte at `index`, where a missing
/// byte reads as 0.
pub open spec fn loop_flag_at(buffer: Seq<u8>, index: int) -> bool {
    0 <= index < buffer.len() && buffer[index] & 4 != 0
}

/// Whether an encoded buffer loops: the loop flag is set in the flags byte
/// of the first or of the second block.
pub fn detect_loop(buffer: &[u8]) -> (looped: bool)
    ensures
        looped == (loop_flag_at(buffer@, 1) || loop_flag_at(buffer@, 17)),
        looped == ((buffer@.len() > 1 && buffer@[1] & 4 == 4) || (buffer@.len() > 17 && buffer@[17] & 4 == 4)),
{
    let flags1 = buffer.get(1).cloned().unwrap_or(0u8);
    let flags2 = buffer.get(17).cloned().unwrap_or(0u8);
    assert(0u8 & 4 == 0) by (bit_vector);
    assert(flags1 & 4 != 0 <==> flags1 & 4 == 4) by (bit_vector);
    assert(flags2 & 4 != 0 <==> flags2 & 4 == 4) by (bit_vector);
    (flags1 & 0x04 != 0) || (flags2 & 0x04 != 0)
}

/// Only the loop-start flag (bit 2) of the flags bytes of the first two
/// blocks decides whether a buffer loops: two buffers that agree on it
/// (and on which of the two bytes exist) agree on the answer, whatever
/// their other bits and bytes hold.
pub proof fn lemma_loop_depends_only_on_bit_2(a: Seq<u8>, b: Seq<u8>)
    requires
        (a.len() > 1) == (b.len() > 1),
        (a.len() > 17) == (b.len() > 17),
        a.len() > 1 ==> a[1] & 4 == b[1] & 4,
        a.len() > 17 ==> a[17] & 4 == b[17] & 4,
    ensures
        (loop_flag_at(a, 1) || loop_flag_at(a, 17)) == (loop_flag_at(b, 1) || loop_flag_at(b, 17)),
{
}

/// Why a WAV file cannot be encoded.
#[derive(Debug, Clone, Copy, PartialEq, Eq)]
pub enum WavFormatError {
    /// The file has more than one channel (or none).
    NotMono,
    /// The samples are not 16 bits wide.
    Not16Bit,
}

impl WavFormatError {
    /// The message that reports the error.
    pub fn message(&self) -> (msg: &'static str)
        ensures
            msg@ == match self {
                WavFormatError::NotMono => "WAV file must have only 1 track (mono)."@,
                WavFormatError::Not16Bit => "WAV file must be 16-bit."@,
            },
    {
        match self {
            WavFormatError::NotMono => "WAV file must have only 1 track (mono).",
            WavFormatError::Not16Bit => "WAV file must be 16-bit.",
        }
    }
}

/// Checks that a WAV file can be encoded: it must be mono, with 16-bit
/// samples; the channel count is checked first.
pub fn check_wav_format(channels: u16, bits_per_sample: u16) -> (r: Result<(), WavFormatError>)
    ensures
        channels != 1 ==> r == Err::<(), WavFormatError>(WavFormatError::NotMono),
        channels == 1 && bits_per_sample != 16 ==> r == Err::<(), WavFormatError>(WavFormatError::Not16Bit),
        channels == 1 && bits_per_sample == 16 ==> r is Ok,
{
    if channels != 1 {
        return Err(WavFormatError::NotMono);
    }
    if bits_per_sample != 16 {
        return Err(WavFormatError::Not16Bit);
    }
    Ok(())
}

/// The loop start handed to the encoder: the first sample when the sound
/// loops, -1 (no loop) otherwise.
pub fn loop_start(loop_enabled: bool) -> (start: i8)
    ensures
        start == (if loop_enabled { 0i8 } else { -1i8 }),
{
    if loop_enabled {
        0
    } else {
        -1
    }
}

proof fn lemma_prefix_steps(block: Seq<u8>, hist1: int, hist2: int, n: nat)
    ensures
        decoded_prefix(block, hist1, hist2, n).0.len() == n,
        n == 0 ==> decoded_prefix(block, hist1, hist2, n).1 == hist1
            && decoded_prefix(block, hist1, hist2, n).2 == hist2,
        n == 1 ==> decoded_prefix(block, hist1, hist2, n).2 == hist1,
        n >= 1 ==> decoded_prefix(block, hist1, hist2, n).1 == decoded_prefix(block, hist1, hist2, n).0[n - 1] as int,
        n >= 2 ==> decoded_prefix(block, hist1, hist2, n).2 == decoded_prefix(block, hist1, hist2, n).0[n - 2] as int,
        forall|j: int| 0 <= j < n ==> {
            let prev = #[trigger] decoded_prefix(block, hist1, hist2, j as nat);
            decoded_prefix(block, hist1, hist2, n).0[j] == clamp_to_i16(raw_sample(block, j, prev.1, prev.2))
        },
    decreases n,
{
    if n > 0 {
        lemma_prefix_steps(block, hist1, hist2, (n - 1) as nat);
        let prev = decoded_prefix(block, hist1, hist2, (n - 1) as nat);
        let cur = decoded_prefix(block, hist1, hist2, n);
        assert forall|j: int| 0 <= j < n implies {
            let p = #[trigger] decoded_prefix(block, hist1, hist2, j as nat);
            cur.0[j] == clamp_to_i16(raw_sample(block, j, p.1, p.2))
        } by {
            if j < n - 1 {
                assert(cur.0[j] == prev.0[j]);
            }
        }
    }
}

/// The sample that the SPU ADPCM recurrence gives for data nibble `j` of
/// a block, from the two samples before it.
#[verifier::opaque]
pub open spec fn spu_adpcm_sample(block: Seq<u8>, j: int, prev1: int, prev2: int) -> int {
    let filter = block[0] / 16;
    let c0: int = if filter == 1 { 60 } else if filter == 2 { 115 } else if filter == 3 { 98 }
        else if filter == 4 { 122 } else { 0 };
    let c1: int = if filter == 2 { -52 } else if filter == 3 { -55 } else if filter == 4 { -60 }
        else { 0 };
    let byte = block[2 + j / 2];
    let raw = if j % 2 == 0 { byte % 16 } else { byte / 16 };
    let nibble: int = if raw >= 8 { raw - 16 } else { raw as int };
    let v = nibble * 4096 / (pow2((block[0] % 16) as nat) as int) + (c0 * prev1 + c1 * prev2 + 32) / 64;
    if v > 32767 { 32767 } else if v < -32768 { -32768 } else { v }
}

/// Decoding a block follows the SPU ADPCM recurrence (`spu_adpcm_sample`):
/// sample `j` is the `j`-th data nibble (the low nibble of each data byte
/// first, as a signed 4-bit value) shifted left by 12 and arithmetically
/// right by the header's low nibble, plus the prediction
/// `(c0 * s[j-1] + c1 * s[j-2] + 32) >> 6` from the two samples before it
/// (the history for the first two), where the header's high nibble selects
/// `(c0, c1)` from the SPU filter table (0, 0), (60, 0), (115, -52),
/// (98, -55), (122, -60), any higher filter number acting as filter 0; each
/// sample is saturated to 16 bits.  A block gives 28 samples, and the
/// history after it is its last two.
pub proof fn lemma_block_decoding_recurrence(block: Seq<u8>, hist1: int, hist2: int)
    requires
        block.len() >= 16,
    ensures
        decoded_block(block, hist1, hist2).0.len() == 28,
        decoded_block(block, hist1, hist2).1 == decoded_block(block, hist1, hist2).0[27] as int,
        decoded_block(block, hist1, hist2).2 == decoded_block(block, hist1, hist2).0[26] as int,
        forall|j: int| #![trigger decoded_block(block, hist1, hist2).0[j]]
            0 <= j < 28 ==> decoded_block(block, hist1, hist2).0[j] as int == spu_adpcm_sample(
                block,
                j,
                if j == 0 { hist1 } else { decoded_block(block, hist1, hist2).0[j - 1] as int },
                if j == 0 { hist2 } else if j == 1 { hist1 } else { decoded_block(block, hist1, hist2).0[j - 2] as int },
            ),
{
    reveal(spu_adpcm_sample);
    lemma_prefix_steps(block, hist1, hist2, 28);
    let out = decoded_block(block, hist1, hist2).0;
    assert forall|j: int| #![trigger out[j]] 0 <= j < 28 implies out[j] as int == spu_adpcm_sample(
        block,
        j,
        if j == 0 { hist1 } else { out[j - 1] as int },
        if j == 0 { hist2 } else if j == 1 { hist1 } else { out[j - 2] as int },
    ) by {
        lemma_prefix_steps(block, hist1, hist2, j as nat);
        let p = decoded_prefix(block, hist1, hist2, j as nat);
        assert(out[j] == clamp_to_i16(raw_sample(block, j, p.1, p.2)));
        if j >= 1 {
            let q = decoded_prefix(block, hist1, hist2, (j - 1) as nat);
            assert(p.0[j - 1] == clamp_to_i16(raw_sample(block, j - 1, q.1, q.2)));
            assert(p.0[j - 1] == out[j - 1]);
            assert(p.1 == out[j - 1] as int);
        }
        if j >= 2 {
            let r = decoded_prefix(block, hist1, hist2, (j - 2) as nat);
            assert(p.0[j - 2] == clamp_to_i16(raw_sample(block, j - 2, r.1, r.2)));
            assert(p.0[j - 2] == out[j - 2]);
            assert(p.2 == out[j - 2] as int);
        }
    }
}

/// The samples of `n` blocks of a stream follow the ADPCM recurrence at `p`.
pub open spec fn stream_step_holds(data: Seq<u8>, samples: Seq<i16>, p: int) -> bool {
    samples[p] as int == spu_adpcm_sample(
        data.subrange(16 * (p / 28), 16 * (p / 28) + 16),
        p % 28,
        if p == 0 { 0 } else { samples[p - 1] as int },
        if p <= 1 { 0 } else { samples[p - 2] as int },
    )
}

proof fn lemma_blocks_keep(data: Seq<u8>, m: nat, p: int)
    requires
        16 * (m + 1) <= data.len(),
        decoded_blocks(data, m).0.len() == 28 * m,
        0 <= p < 28 * m,
        stream_step_holds(data, decoded_blocks(data, m).0, p),
    ensures
        stream_step_holds(data, decoded_blocks(data, m + 1).0, p),
{
    let prev = decoded_blocks(data, m).0;
    let cur = decoded_blocks(data, m + 1).0;
    assert(cur[p] == prev[p]);
    if p >= 1 {
        assert(cur[p - 1] == prev[p - 1]);
    }
    if p >= 2 {
        assert(cur[p - 2] == prev[p - 2]);
    }
}

proof fn lemma_blocks_new(data: Seq<u8>, m: nat, p: int)
    requires
        16 * (m + 1) <= data.len(),
        decoded_blocks(data, m).0.len() == 28 * m,
        m == 0 ==> decoded_blocks(data, m).1 == 0 && decoded_blocks(data, m).2 == 0,
        m > 0 ==> decoded_blocks(data, m).1 == decoded_blocks(data, m).0[28 * m - 1] as int
            && decoded_blocks(data, m).2 == decoded_blocks(data, m).0[28 * m - 2] as int,
        28 * m <= p < 28 * (m + 1),
    ensures
        stream_step_holds(data, decoded_blocks(data, m + 1).0, p),
        decoded_blocks(data, m + 1).0.len() == 28 * (m + 1),
        decoded_blocks(data, m + 1).1 == decoded_blocks(data, m + 1).0[28 * (m + 1) - 1] as int,
        decoded_blocks(data, m + 1).2 == decoded_blocks(data, m + 1).0[28 * (m + 1) - 2] as int,
{
    let prev = decoded_blocks(data, m);
    let block = data.subrange(16 * m as int, 16 * m as int + 16);
    assert(block =~= data.subrange(16 * m as int, 16 * (m + 1) as int));
    lemma_block_decoding_recurrence(block, prev.1, prev.2);
    let b = decoded_block(block, prev.1, prev.2);
    let cur = decoded_blocks(data, m + 1);
    assert(cur.0 == prev.0 + b.0);
    let j = p - 28 * m;
    assert(p / 28 == m && p % 28 == j);
    assert(cur.0[p] == b.0[j]);
    if j >= 1 {
        assert(cur.0[p - 1] == b.0[j - 1]);
    }
    if j >= 2 {
        assert(cur.0[p - 2] == b.0[j - 2]);
    }
    if j == 0 && m > 0 {
        assert(cur.0[p - 1] == prev.0[p - 1]);
        assert(cur.0[p - 2] == prev.0[p - 2]);
    }
    if j == 1 && m > 0 {
        assert(cur.0[p - 2] == prev.0[p - 2]);
    }
    assert(b.0[j] as int == spu_adpcm_sample(
        block,
        j,
        if j == 0 { prev.1 } else { b.0[j - 1] as int },
        if j == 0 { prev.2 } else if j == 1 { prev.1 } else { b.0[j - 2] as int },
    ));
    assert(cur.0[28 * (m + 1) - 1] == b.0[27]);
    assert(cur.0[28 * (m + 1) - 2] == b.0[26]);
}

proof fn lemma_blocks_recurrence(data: Seq<u8>, n: nat)
    requires
        16 * n <= data.len(),
    ensures
        decoded_blocks(data, n).0.len() == 28 * n,
        n == 0 ==> decoded_blocks(data, n).1 == 0 && decoded_blocks(data, n).2 == 0,
        n > 0 ==> decoded_blocks(data, n).1 == decoded_blocks(data, n).0[28 * n - 1] as int
            && decoded_blocks(data, n).2 == decoded_blocks(data, n).0[28 * n - 2] as int,
        forall|p: int| 0 <= p < 28 * n ==> #[trigger] stream_step_holds(data, decoded_blocks(data, n).0, p),
    decreases n,
{
    if n > 0 {
        let m = (n - 1) as nat;
        lemma_blocks_recurrence(data, m);
        lemma_blocks_new(data, m, 28 * m as int);
        assert forall|p: int| 0 <= p < 28 * n implies #[trigger] stream_step_holds(data, decoded_blocks(data, n).0, p) by {
            if p < 28 * m {
                lemma_blocks_keep(data, m, p);
            } else {
                lemma_blocks_new(data, m, p);
            }
        }
    }
}

/// Decoding a stream follows the SPU ADPCM recurrence across block
/// boundaries: sample `p` is `spu_adpcm_sample` of the block that holds it
/// (block `p / 28`, bytes `16 * (p / 28)` to `16 * (p / 28) + 16`), at data
/// nibble `p % 28`, from the two samples just before it in the stream
/// (silence before the first); there are 28 samples per complete block.
pub proof fn lemma_stream_decoding_recurrence(data: Seq<u8>)
    ensures
        decoded_stream(data).len() == 28 * (data.len() / 16),
        forall|p: int| #![trigger decoded_stream(data)[p]]
            0 <= p < decoded_stream(data).len() ==> decoded_stream(data)[p] as int == spu_adpcm_sample(
                data.subrange(16 * (p / 28), 16 * (p / 28) + 16),
                p % 28,
                if p == 0 { 0 } else { decoded_stream(data)[p - 1] as int },
                if p <= 1 { 0 } else { decoded_stream(data)[p - 2] as int },
            ),
{
    lemma_blocks_recurrence(data, data.len() / 16);
    assert forall|p: int| #![trigger decoded_stream(data)[p]]
        0 <= p < decoded_stream(data).len() implies decoded_stream(data)[p] as int == spu_adpcm_sample(
            data.subrange(16 * (p / 28), 16 * (p / 28) + 16),
            p % 28,
            if p == 0 { 0 } else { decoded_stream(data)[p - 1] as int },
            if p <= 1 { 0 } else { decoded_stream(data)[p - 2] as int },
        ) by {
        assert(stream_step_holds(data, decoded_stream(data), p));
    }
}

} // verus!
