//! SFX sound banks: the pitch tables of the sound driver and the bank
//! file format (a little-endian count, one offset and pitch value per
//! sound, then the sound data).
use vstd::prelude::*;
use vstd::string::is_ascii_spec_bytes;
use vstd::string::StringSliceAdditionalSpecFns;
use vstd::slice::{slice_subrange, slice_to_vec};
use byteorder::{ByteOrder, LittleEndian, WriteBytesExt};
use crate::spu::{pitch_frequency, pitch_value_frequency, stored_pitch};
use crate::args::SoundFormat;
use crate::config::{extracted_sound_file, sound_filename_of, Config, SoundFile};

verus! {

/// The semitone table of the sound driver: twelve little-endian `u16`
/// values, each written as four hex digits.
pub const SEMITONE_TABLE_HEX: &'static str = "00809C87AC8F379845A1DCAA04B5C8BF2FCB44D711E4A1F1";

/// The fine-tune table of the sound driver: 128 little-endian `u16`
/// values, each written as four hex digits.
pub const FINE_TABLE_HEX: &'static str = "00800E801D802C803B804A8058806780768085809480A380B180C080CF80DE80ED80FC800B811A8129813881468155816481738182819181A081AF81BE81CD81DC81EB81FA810982188227823682458254826382728282829182A082AF82BE82CD82DC82EB82FA820A83198328833783468355836483748383839283A183B083C083CF83DE83ED83FD830C841B842A843A84498458846884778486849584A584B484C384D384E284F1840185108520852F853E854E855D856D857C858B859B85AA85BA85C985D985E885F8850786178626863686458655866486748683869386A286B286C186D186E086F08600870F871F872E873E874E875D876D877D878C87";

/// The value of an ASCII hex digit (either case).
pub open spec fn hex_digit(b: u8) -> Option<u8> {
    if 48 <= b <= 57 {
        Some((b - 48) as u8)
    } else if 65 <= b <= 70 {
        Some((b - 55) as u8)
    } else if 97 <= b <= 102 {
        Some((b - 87) as u8)
    } else {
        None
    }
}

/// A two-byte string read as a base-16 `u8`, as `u8::from_str_radix`
/// reads it: two hex digits, or a `+` sign and one hex digit.
pub open spec fn hex_pair(b0: u8, b1: u8) -> Option<u8> {
    if b0 == 43 {
        hex_digit(b1)
    } else {
        match (hex_digit(b0), hex_digit(b1)) {
            (Some(h), Some(l)) => Some((h * 16 + l) as u8),
            _ => None,
        }
    }
}

/// The table entry that the `k`-th four-byte chunk stands for: its first
/// byte pair is the low byte and its second pair the high byte; a chunk
/// with a pair that does not parse stands for no entry.
pub open spec fn chunk_entry(bytes: Seq<u8>, k: int) -> Option<u16> {
    match (hex_pair(bytes[4 * k], bytes[4 * k + 1]), hex_pair(bytes[4 * k + 2], bytes[4 * k + 3])) {
        (Some(lo), Some(hi)) => Some((lo + 256 * hi) as u16),
        _ => None,
    }
}

/// The entries of the first `n` complete chunks, in order.
pub open spec fn chunk_entries(bytes: Seq<u8>, n: nat) -> Seq<u16>
    decreases n,
{
    if n == 0 {
        Seq::empty()
    } else {
        let prev = chunk_entries(bytes, (n - 1) as nat);
        match chunk_entry(bytes, n - 1) {
            Some(v) => prev.push(v),
            None => prev,
        }
    }
}

/// The table that a hex text stands for: the entries of its complete
/// four-byte chunks; a trailing partial chunk is ignored.
pub open spec fn hex_table(bytes: Seq<u8>) -> Seq<u16> {
    chunk_entries(bytes, bytes.len() / 4)
}

/// Reads two bytes of text as a base-16 `u8`.
fn parse_hex_pair(b0: u8, b1: u8) -> (r: Option<u8>)
    ensures
        r == hex_pair(b0, b1),
{
    let hi = hex_digit_value(b0);
    let lo = hex_digit_value(b1);
    if b0 == 43 {
        // a leading '+' sign
        lo
    } else {
        match (hi, lo) {
            (Some(h), Some(l)) => Some(h * 16 + l),
            _ => None,
        }
    }
}

fn hex_digit_value(b: u8) -> (r: Option<u8>)
    ensures
        r == hex_digit(b),
{
    // ASCII '0'..='9', 'A'..='F', 'a'..='f'
    if 48 <= b && b <= 57 {
        Some(b - 48)
    } else if 65 <= b && b <= 70 {
        Some(b - 55)
    } else if 97 <= b && b <= 102 {
        Some(b - 87)
    } else {
        None
    }
}

/// The upper-case ASCII hex digit of a value below 16.
pub open spec fn upper_hex_char(d: int) -> u8 {
    if d < 10 {
        (48 + d) as u8
    } else {
        (55 + d) as u8
    }
}

/// The lower-case ASCII hex digit of a value below 16.
pub open spec fn lower_hex_char(d: int) -> u8 {
    if d < 10 {
        (48 + d) as u8
    } else {
        (87 + d) as u8
    }
}

/// A `u16` written as four hex digits, low byte first, each byte high
/// digit first (in upper or lower case), reads back as the value.
pub proof fn lemma_hex_table_reads_u16(v: u16, upper: bool)
    ensures
        ({
            let lo = v as int % 256;
            let hi = v as int / 256;
            let h = |d: int| if upper { upper_hex_char(d) } else { lower_hex_char(d) };
            hex_table(seq![h(lo / 16), h(lo % 16), h(hi / 16), h(hi % 16)]) == seq![v]
        }),
{
    let lo = v as int % 256;
    let hi = v as int / 256;
    let h = |d: int| if upper { upper_hex_char(d) } else { lower_hex_char(d) };
    let bytes = seq![h(lo / 16), h(lo % 16), h(hi / 16), h(hi % 16)];
    assert(hex_pair(bytes[0], bytes[1]) == Some(lo as u8));
    assert(hex_pair(bytes[2], bytes[3]) == Some(hi as u8));
    assert(chunk_entries(bytes, 0) == Seq::<u16>::empty());
    assert(hex_table(bytes) =~= seq![v]);
}

/// All bytes are hex digits.
pub open spec fn all_hex(bytes: Seq<u8>) -> bool {
    forall|i: int| 0 <= i < bytes.len() ==> (#[trigger] hex_digit(bytes[i])) is Some
}

proof fn lemma_chunk_entries_len(bytes: Seq<u8>, n: nat)
    requires
        all_hex(bytes),
        4 * n <= bytes.len(),
    ensures
        chunk_entries(bytes, n).len() == n,
    decreases n,
{
    if n > 0 {
        lemma_chunk_entries_len(bytes, (n - 1) as nat);
        let k = n - 1;
        assert(hex_digit(bytes[4 * k]) is Some);
        assert(hex_digit(bytes[4 * k + 1]) is Some);
        assert(hex_digit(bytes[4 * k + 2]) is Some);
        assert(hex_digit(bytes[4 * k + 3]) is Some);
    }
}

/// A text of hex digits whose length is a multiple of four stands for one
/// entry per four digits.
pub proof fn lemma_hex_table_len(bytes: Seq<u8>)
    requires
        all_hex(bytes),
    ensures
        hex_table(bytes).len() == bytes.len() / 4,
{
    lemma_chunk_entries_len(bytes, bytes.len() / 4);
}

/// The semitone table has 12 entries and the fine-tune table 128.
#[verifier::rlimit(40)]
pub proof fn lemma_driver_table_lengths()
    ensures
        hex_table(SEMITONE_TABLE_HEX.spec_bytes()).len() == 12,
        hex_table(FINE_TABLE_HEX.spec_bytes()).len() == 128,
{
    reveal_strlit("00809C87AC8F379845A1DCAA04B5C8BF2FCB44D711E4A1F1");
    reveal_strlit("00800E801D802C803B804A8058806780768085809480A380B180C080CF80DE80ED80FC800B811A8129813881468155816481738182819181A081AF81BE81CD81DC81EB81FA810982188227823682458254826382728282829182A082AF82BE82CD82DC82EB82FA820A83198328833783468355836483748383839283A183B083C083CF83DE83ED83FD830C841B842A843A84498458846884778486849584A584B484C384D384E284F1840185108520852F853E854E855D856D857C858B859B85AA85BA85C985D985E885F8850786178626863686458655866486748683869386A286B286C186D186E086F08600870F871F872E873E874E875D876D877D878C87");
    broadcast use is_ascii_spec_bytes;
    let s = SEMITONE_TABLE_HEX;
    let f = FINE_TABLE_HEX;
    assert(vstd::string::is_ascii(s));
    assert(vstd::string::is_ascii(f));
    assert(forall|i: int| 0 <= i < 48 ==> #[trigger] hex_digit(s@[i] as u8) is Some);
    assert(forall|i: int| 0 <= i < 512 ==> #[trigger] hex_digit(f@[i] as u8) is Some);
    assert(all_hex(s.spec_bytes()));
    assert(all_hex(f.spec_bytes()));
    lemma_hex_table_len(s.spec_bytes());
    lemma_hex_table_len(f.spec_bytes());
}

/// One sound of a bank: its encoded data, the pitch value stored with it,
/// and the playback rate in Hz that the pitch value stands for.
pub struct SoundEntry {
    pub buffer: Vec<u8>,
    pub pitch_value: u32,
    pub frequency: u32,
}

/// A sound bank: its sounds, and the pitch tables that turn their stored
/// pitch values into playback rates.
pub struct SFXFile {
    pub entries: Vec<SoundEntry>,
    pub semitone_table: Vec<u16>,
    pub fine_table: Vec<u16>,
}

/// Why bytes are not a sound bank.
#[derive(Debug, Clone, Copy, PartialEq, Eq)]
pub enum SfxError {
    /// The data ends inside the count or the table of offsets and pitches.
    TruncatedHeader,
    /// The data of the sound at `index` reaches past the end of the bank.
    TruncatedData { index: usize },
}

/// The semitone table of the sound driver.
pub open spec fn driver_semitone_table() -> Seq<u16> {
    hex_table(SEMITONE_TABLE_HEX.spec_bytes())
}

/// The fine-tune table of the sound driver.
pub open spec fn driver_fine_table() -> Seq<u16> {
    hex_table(FINE_TABLE_HEX.spec_bytes())
}

/// The little-endian `u32` at `pos`.
pub open spec fn le_u32(data: Seq<u8>, pos: int) -> u32 {
    (data[pos] as int + data[pos + 1] as int * 0x100 + data[pos + 2] as int * 0x10000
        + data[pos + 3] as int * 0x1000000) as u32
}

/// The little-endian bytes of `n`.
pub open spec fn u32_le_bytes(n: u32) -> Seq<u8> {
    seq![
        (n % 0x100) as u8,
        (n / 0x100 % 0x100) as u8,
        (n / 0x10000 % 0x100) as u8,
        (n / 0x1000000) as u8,
    ]
}

/// The number of sounds that a bank declares.
pub open spec fn sound_count(data: Seq<u8>) -> int {
    le_u32(data, 0) as int
}

/// The data holds the count and the whole table of offsets and pitches.
pub open spec fn header_complete(data: Seq<u8>) -> bool {
    data.len() >= 4 && data.len() >= 4 + 8 * sound_count(data)
}

/// Where the data of sound `i` starts.
pub open spec fn entry_offset(data: Seq<u8>, i: int) -> int {
    le_u32(data, 4 + 8 * i) as int
}

/// The pitch value stored for sound `i`.
pub open spec fn entry_pitch(data: Seq<u8>, i: int) -> u32 {
    le_u32(data, 8 + 8 * i)
}

/// The size of the data of sound `i`: up to the next sound's offset, and
/// for the last sound up to the end of the bank, in 32-bit arithmetic.
pub open spec fn entry_size(data: Seq<u8>, i: int) -> int {
    if i + 1 < sound_count(data) {
        (entry_offset(data, i + 1) - entry_offset(data, i)) % 0x1_0000_0000
    } else {
        (data.len() - entry_offset(data, i)) % 0x1_0000_0000
    }
}

/// The data of sound `i` lies inside the bank (or is empty).
pub open spec fn entry_readable(data: Seq<u8>, i: int) -> bool {
    entry_size(data, i) == 0 || entry_offset(data, i) + entry_size(data, i) <= data.len()
}

/// The data of the first `n` sounds lies inside the bank.
pub open spec fn entries_readable(data: Seq<u8>, n: int) -> bool {
    forall|i: int| 0 <= i < n ==> #[trigger] entry_readable(data, i)
}

/// The data of sound `i`.
pub open spec fn entry_bytes(data: Seq<u8>, i: int) -> Seq<u8> {
    if entry_size(data, i) == 0 {
        Seq::empty()
    } else {
        data.subrange(entry_offset(data, i), entry_offset(data, i) + entry_size(data, i))
    }
}

/// `byteorder`'s `LittleEndian::read_u32` on the four bytes at `pos`:
/// their little-endian value.
#[verifier::external_body]
fn read_u32_le(data: &[u8], pos: usize) -> (n: u32)
    requires
        pos + 4 <= data@.len(),
    ensures
        n == le_u32(data@, pos as int),
{
    LittleEndian::read_u32(&data[pos..pos + 4])
}

/// `byteorder`'s `WriteBytesExt::write_u32::<LittleEndian>` on a vector:
/// appends the little-endian bytes of `n` (writing to a `Vec` cannot fail).
#[verifier::external_body]
fn append_u32_le(out: &mut Vec<u8>, n: u32)
    ensures
        final(out)@ == old(out)@ + u32_le_bytes(n),
{
    let _ = out.write_u32::<LittleEndian>(n);
}

/// Reads the data of sound `i`, given the table of offsets and pitch
/// values; `None` when it does not lie inside the bank.
fn read_sound(data: &[u8], index: &Vec<(u32, u32)>, i: usize) -> (r: Option<Vec<u8>>)
    requires
        header_complete(data@),
        index@.len() == sound_count(data@),
        i < index@.len(),
        forall|j: int| 0 <= j < index@.len() ==> (#[trigger] index@[j]).0 == entry_offset(data@, j)
            && index@[j].1 == entry_pitch(data@, j),
    ensures
        r is Some <==> entry_readable(data@, i as int),
        r matches Some(b) ==> b@ == entry_bytes(data@, i as int),
{
    let count = index.len();
    let offset = index[i].0;
    // the size of the sound's data, in 32-bit arithmetic
    let size: u32 = if i + 1 < count {
        index[i + 1].0.wrapping_sub(offset)
    } else {
        if offset as usize > data.len() {
            // the size wraps to a value that reaches past the end
            return None;
        }
        let rest = data.len() as u64 - offset as u64;
        assert(rest as u32 == rest % 0x1_0000_0000) by (bit_vector);
        #[verifier::truncate]
        (rest as u32)
    };
    assert(size == entry_size(data@, i as int));
    if size != 0 && offset as u64 + size as u64 > data.len() as u64 {
        return None;
    }
    if size == 0 {
        Some(Vec::new())
    } else {
        Some(slice_to_vec(slice_subrange(data, offset as usize, offset as usize + size as usize)))
    }
}

impl SFXFile {
    /// An empty bank with the sound driver's pitch tables.
    pub fn new() -> (f: SFXFile)
        ensures
            f.entries@.len() == 0,
            f.semitone_table@ == driver_semitone_table(),
            f.fine_table@ == driver_fine_table(),
            f.semitone_table@.len() == 12,
            f.fine_table@.len() == 128,
    {
        proof {
            lemma_driver_table_lengths();
        }
        SFXFile {
            entries: Vec::new(),
            semitone_table: Self::load_table(SEMITONE_TABLE_HEX),
            fine_table: Self::load_table(FINE_TABLE_HEX),
        }
    }

    /// Decodes a pitch table written as hex text, four hex digits (a
    /// little-endian `u16`) per entry.
    pub fn load_table(hex: &str) -> (table: Vec<u16>)
        ensures
            table@ == hex_table(hex.spec_bytes()),
    {
        let bytes = hex.as_bytes();
        let n = bytes.len() / 4;
        let mut table: Vec<u16> = Vec::new();
        for c in 0..n
            invariant
                n == bytes@.len() / 4,
                4 * n <= bytes.len(),
                bytes@ == hex.spec_bytes(),
                table@ == chunk_entries(bytes@, c as nat),
        {
            assert(4 * c + 3 < bytes@.len());
            let base = 4 * c;
            let lo = parse_hex_pair(bytes[base], bytes[base + 1]);
            let hi = parse_hex_pair(bytes[base + 2], bytes[base + 3]);
            match (lo, hi) {
                (Some(lo), Some(hi)) => {
                    table.push(lo as u16 + (hi as u16) * 256);
                },
                _ => {},
            }
        }
        table
    }

    /// Reads a sound bank: a little-endian `u32` count, then a little-endian
    /// offset and pitch value per sound; the data of each sound runs from its
    /// offset to the next sound's offset, and for the last sound to the end
    /// of the bank.  Each sound gets the playback rate of its pitch value.
    #[verifier::rlimit(40)]
    pub fn from_bytes(data: &[u8]) -> (r: Result<SFXFile, SfxError>)
        ensures
            match r {
                Ok(f) => {
                    &&& header_complete(data@)
                    &&& entries_readable(data@, sound_count(data@))
                    &&& f.entries@.len() == sound_count(data@)
                    &&& forall|i: int| 0 <= i < sound_count(data@) ==> {
                        &&& (#[trigger] f.entries@[i]).buffer@ == entry_bytes(data@, i)
                        &&& f.entries@[i].pitch_value == entry_pitch(data@, i)
                        &&& f.entries@[i].frequency == pitch_frequency(
                            stored_pitch(entry_pitch(data@, i), driver_semitone_table(), driver_fine_table()),
                        )
                    }
                    &&& f.semitone_table@ == driver_semitone_table()
                    &&& f.fine_table@ == driver_fine_table()
                },
                Err(SfxError::TruncatedHeader) => !header_complete(data@),
                Err(SfxError::TruncatedData { index }) => {
                    &&& header_complete(data@)
                    &&& index < sound_count(data@)
                    &&& entries_readable(data@, index as int)
                    &&& !entry_readable(data@, index as int)
                },
            },
    {
        if data.len() < 4 {
            return Err(SfxError::TruncatedHeader);
        }
        // parse the table of offsets and pitch values
        let declared = read_u32_le(data, 0);
        let count = declared as usize;
        if (data.len() - 4) / 8 < count {
            return Err(SfxError::TruncatedHeader);
        }
        let mut index: Vec<(u32, u32)> = Vec::new();
        for i in 0..count
            invariant
                count == sound_count(data@),
                4 + 8 * count <= data.len(),
                index@.len() == i,
                forall|j: int| 0 <= j < i ==> (#[trigger] index@[j]).0 == entry_offset(data@, j)
                    && index@[j].1 == entry_pitch(data@, j),
        {
            let offset = read_u32_le(data, 4 + 8 * i);
            let pitch_value = read_u32_le(data, 8 + 8 * i);
            index.push((offset, pitch_value));
        }

        let mut sfx_file = SFXFile::new();
        for i in 0..count
            invariant
                count == sound_count(data@),
                header_complete(data@),
                index@.len() == count,
                forall|j: int| 0 <= j < count ==> (#[trigger] index@[j]).0 == entry_offset(data@, j)
                    && index@[j].1 == entry_pitch(data@, j),
                sfx_file.semitone_table@ == driver_semitone_table(),
                sfx_file.fine_table@ == driver_fine_table(),
                sfx_file.semitone_table@.len() == 12,
                sfx_file.fine_table@.len() == 128,
                sfx_file.entries@.len() == i,
                entries_readable(data@, i as int),
                forall|j: int| 0 <= j < i ==> {
                    &&& (#[trigger] sfx_file.entries@[j]).buffer@ == entry_bytes(data@, j)
                    &&& sfx_file.entries@[j].pitch_value == entry_pitch(data@, j)
                    &&& sfx_file.entries@[j].frequency == pitch_frequency(
                        stored_pitch(entry_pitch(data@, j), driver_semitone_table(), driver_fine_table()),
                    )
                },
        {
            let pitch_value = index[i].1;
            let buffer = match read_sound(data, &index, i) {
                Some(buffer) => buffer,
                None => {
                    return Err(SfxError::TruncatedData { index: i });
                },
            };
            let frequency = pitch_value_frequency(
                pitch_value,
                sfx_file.semitone_table.as_slice(),
                sfx_file.fine_table.as_slice(),
            );
            sfx_file.entries.push(SoundEntry { buffer, pitch_value, frequency });
        }
        Ok(sfx_file)
    }

    /// Adds a sound to build into the bank, with the data and pitch value
    /// of its configuration entry; its playback rate is left at 0.
    pub fn add_sound(&mut self, buffer: Vec<u8>, pitch_value: u32)
        ensures
            final(self).entries@ == old(self).entries@.push(
                (SoundEntry { buffer, pitch_value, frequency: 0 }),
            ),
            final(self).semitone_table == old(self).semitone_table,
            final(self).fine_table == old(self).fine_table,
    {
        self.entries.push(SoundEntry { buffer, pitch_value, frequency: 0 });
    }

    /// The configuration that rebuilds the bank from its extracted sounds:
    /// sound `i` is written as `sound_filename(i, format)` and keeps its
    /// pitch value.
    pub fn extraction_config(&self, format: SoundFormat) -> (config: Config)
        requires
            self.entries@.len() < usize::MAX,
        ensures
            config.sounds@.len() == self.entries@.len(),
            forall|i: int| 0 <= i < self.entries@.len() ==> {
                &&& (#[trigger] config.sounds@[i]).filename@ == sound_filename_of(i as nat, format)
                &&& config.sounds@[i].format == format
                &&& config.sounds@[i].pitch_value == self.entries@[i].pitch_value
            },
    {
        let mut sounds: Vec<SoundFile> = Vec::new();
        for i in 0..self.entries.len()
            invariant
                self.entries@.len() < usize::MAX,
                sounds@.len() == i,
                forall|j: int| 0 <= j < i ==> {
                    &&& (#[trigger] sounds@[j]).filename@ == sound_filename_of(j as nat, format)
                    &&& sounds@[j].format == format
                    &&& sounds@[j].pitch_value == self.entries@[j].pitch_value
                },
        {
            sounds.push(extracted_sound_file(i, self.entries[i].pitch_value, format));
        }
        Config { sounds }
    }

    /// Writes the bank: the number of sounds, then the offset and pitch
    /// value of each sound, then the data of the sounds one after the other.
    /// The count and the offsets are written as 32-bit values.
    pub fn to_bytes(&self) -> (out: Vec<u8>)
        requires
            packed_len(self.entries@) <= usize::MAX,
        ensures
            out@ == packed_file(self.entries@),
    {
        reveal(packed_file);
        let n = self.entries.len();
        let mut out: Vec<u8> = Vec::new();

        // sound count
        assert(n as u32 == (n as u64) % 0x1_0000_0000) by (bit_vector);
        append_u32_le(&mut out, n as u32);

        // offsets and pitch values; the data of the first sound follows them
        proof {
            lemma_buffers_len_monotonic(self.entries@, 0, n as int);
        }
        let mut position: usize = 4 + 8 * n;
        for i in 0..n
            invariant
                n == self.entries@.len(),
                packed_len(self.entries@) <= usize::MAX,
                position == 4 + 8 * n + buffers_len(self.entries@, i as int),
                out@ == u32_le_bytes((n as int % 0x1_0000_0000) as u32) + packed_index(self.entries@, i as nat),
        {
            proof {
                lemma_buffers_len_monotonic(self.entries@, i + 1, n as int);
            }
            assert(position as u32 == (position as u64) % 0x1_0000_0000) by (bit_vector);
            append_u32_le(&mut out, position as u32);
            append_u32_le(&mut out, self.entries[i].pitch_value);
            position += self.entries[i].buffer.len();
        }

        // the data of the sounds
        for i in 0..n
            invariant
                n == self.entries@.len(),
                out@ == u32_le_bytes((n as int % 0x1_0000_0000) as u32) + packed_index(self.entries@, n as nat)
                    + packed_data(self.entries@, i as nat),
        {
            let ghost before = out@;
            out.extend_from_slice(self.entries[i].buffer.as_slice());
            assert(out@ =~= before + self.entries@[i as int].buffer@);
        }
        out
    }
}

/// The total size of the data of the first `n` sounds.
pub open spec fn buffers_len(entries: Seq<SoundEntry>, n: int) -> int
    decreases n,
{
    if n <= 0 {
        0
    } else {
        buffers_len(entries, n - 1) + entries[n - 1].buffer@.len()
    }
}

/// The size of the bank that holds these sounds.
pub open spec fn packed_len(entries: Seq<SoundEntry>) -> int {
    4 + 8 * entries.len() + buffers_len(entries, entries.len() as int)
}

/// The offset written for sound `i`: where its data starts, as a 32-bit
/// value.
pub open spec fn packed_offset(entries: Seq<SoundEntry>, i: int) -> u32 {
    ((4 + 8 * entries.len() + buffers_len(entries, i)) % 0x1_0000_0000) as u32
}

/// The offsets and pitch values of the first `n` sounds.
pub open spec fn packed_index(entries: Seq<SoundEntry>, n: nat) -> Seq<u8>
    decreases n,
{
    if n == 0 {
        Seq::empty()
    } else {
        packed_index(entries, (n - 1) as nat) + u32_le_bytes(packed_offset(entries, n - 1))
            + u32_le_bytes(entries[n - 1].pitch_value)
    }
}

/// The data of the first `n` sounds, one after the other.
pub open spec fn packed_data(entries: Seq<SoundEntry>, n: nat) -> Seq<u8>
    decreases n,
{
    if n == 0 {
        Seq::empty()
    } else {
        packed_data(entries, (n - 1) as nat) + entries[n - 1].buffer@
    }
}

/// The bank that holds these sounds.
#[verifier::opaque]
pub open spec fn packed_file(entries: Seq<SoundEntry>) -> Seq<u8> {
    u32_le_bytes((entries.len() % 0x1_0000_0000) as u32) + packed_index(entries, entries.len())
        + packed_data(entries, entries.len())
}

proof fn lemma_buffers_len_monotonic(entries: Seq<SoundEntry>, i: int, j: int)
    requires
        0 <= i <= j <= entries.len(),
    ensures
        0 <= buffers_len(entries, i) <= buffers_len(entries, j),
    decreases j - i,
{
    if i < j {
        lemma_buffers_len_monotonic(entries, i, j - 1);
    } else {
        lemma_buffers_len_nonnegative(entries, i);
    }
}

proof fn lemma_buffers_len_nonnegative(entries: Seq<SoundEntry>, i: int)
    ensures
        0 <= buffers_len(entries, i),
    decreases i,
{
    if i > 0 {
        lemma_buffers_len_nonnegative(entries, i - 1);
    }
}

proof fn lemma_le_u32_of_bytes(data: Seq<u8>, pos: int, n: u32)
    requires
        0 <= pos,
        pos + 4 <= data.len(),
        data.subrange(pos, pos + 4) == u32_le_bytes(n),
    ensures
        le_u32(data, pos) == n,
{
    assert(data[pos] == data.subrange(pos, pos + 4)[0]);
    assert(data[pos + 1] == data.subrange(pos, pos + 4)[1]);
    assert(data[pos + 2] == data.subrange(pos, pos + 4)[2]);
    assert(data[pos + 3] == data.subrange(pos, pos + 4)[3]);
    assert(n == n % 0x100 + (n / 0x100 % 0x100) * 0x100 + (n / 0x10000 % 0x100) * 0x10000
        + (n / 0x1000000) * 0x1000000) by (bit_vector);
}

proof fn lemma_packed_index(entries: Seq<SoundEntry>, m: nat, i: int)
    requires
        0 <= i < m,
    ensures
        packed_index(entries, m).len() == 8 * m,
        packed_index(entries, m).subrange(8 * i, 8 * i + 4) == u32_le_bytes(packed_offset(entries, i)),
        packed_index(entries, m).subrange(8 * i + 4, 8 * i + 8) == u32_le_bytes(entries[i].pitch_value),
    decreases m,
{
    lemma_packed_index_len(entries, m);
    let prev = packed_index(entries, (m - 1) as nat);
    lemma_packed_index_len(entries, (m - 1) as nat);
    if i < m - 1 {
        lemma_packed_index(entries, (m - 1) as nat, i);
        assert(packed_index(entries, m).subrange(8 * i, 8 * i + 4) =~= prev.subrange(8 * i, 8 * i + 4));
        assert(packed_index(entries, m).subrange(8 * i + 4, 8 * i + 8) =~= prev.subrange(8 * i + 4, 8 * i + 8));
    } else {
        assert(packed_index(entries, m).subrange(8 * i, 8 * i + 4)
            =~= u32_le_bytes(packed_offset(entries, i)));
        assert(packed_index(entries, m).subrange(8 * i + 4, 8 * i + 8)
            =~= u32_le_bytes(entries[i].pitch_value));
    }
}

proof fn lemma_packed_index_len(entries: Seq<SoundEntry>, m: nat)
    ensures
        packed_index(entries, m).len() == 8 * m,
    decreases m,
{
    if m > 0 {
        lemma_packed_index_len(entries, (m - 1) as nat);
    }
}

proof fn lemma_packed_data(entries: Seq<SoundEntry>, m: nat, i: int)
    requires
        0 <= i < m <= entries.len(),
    ensures
        packed_data(entries, m).len() == buffers_len(entries, m as int),
        packed_data(entries, m).subrange(buffers_len(entries, i), buffers_len(entries, i + 1))
            == entries[i].buffer@,
    decreases m,
{
    lemma_packed_data_len(entries, m);
    lemma_packed_data_len(entries, (m - 1) as nat);
    lemma_buffers_len_monotonic(entries, i, i + 1);
    let prev = packed_data(entries, (m - 1) as nat);
    if i < m - 1 {
        lemma_buffers_len_monotonic(entries, i + 1, m - 1);
        lemma_packed_data(entries, (m - 1) as nat, i);
        assert(packed_data(entries, m).subrange(buffers_len(entries, i), buffers_len(entries, i + 1))
            =~= prev.subrange(buffers_len(entries, i), buffers_len(entries, i + 1)));
    } else {
        assert(packed_data(entries, m).subrange(buffers_len(entries, i), buffers_len(entries, i + 1))
            =~= entries[i].buffer@);
    }
}

proof fn lemma_packed_data_len(entries: Seq<SoundEntry>, m: nat)
    ensures
        packed_data(entries, m).len() == buffers_len(entries, m as int),
    decreases m,
{
    if m > 0 {
        lemma_packed_data_len(entries, (m - 1) as nat);
    }
}

#[verifier::spinoff_prover]
#[verifier::rlimit(40)]
proof fn lemma_packed_count(entries: Seq<SoundEntry>)
    requires
        packed_len(entries) < 0x1_0000_0000,
    ensures
        packed_file(entries).len() == packed_len(entries),
        sound_count(packed_file(entries)) == entries.len(),
        header_complete(packed_file(entries)),
{
    reveal(packed_file);
    let n = entries.len();
    let data = packed_file(entries);
    let head = u32_le_bytes((n as int % 0x1_0000_0000) as u32);
    lemma_packed_index_len(entries, n);
    lemma_packed_data_len(entries, n);
    lemma_buffers_len_nonnegative(entries, n as int);
    assert(data.subrange(0, 4) =~= head);
    lemma_le_u32_of_bytes(data, 0, (n as int % 0x1_0000_0000) as u32);
}

#[verifier::spinoff_prover]
#[verifier::rlimit(40)]
proof fn lemma_packed_layout(entries: Seq<SoundEntry>)
    requires
        packed_len(entries) < 0x1_0000_0000,
    ensures
        packed_file(entries).len() == packed_len(entries),
        packed_file(entries).subrange(4, 4 + 8 * entries.len() as int) == packed_index(entries, entries.len()),
        packed_file(entries).subrange(4 + 8 * entries.len() as int, packed_len(entries))
            == packed_data(entries, entries.len()),
{
    reveal(packed_file);
    let n = entries.len();
    let data = packed_file(entries);
    lemma_packed_index_len(entries, n);
    lemma_packed_data_len(entries, n);
    lemma_buffers_len_nonnegative(entries, n as int);
    assert(data.subrange(4, 4 + 8 * n as int) =~= packed_index(entries, n));
    assert(data.subrange(4 + 8 * n as int, packed_len(entries)) =~= packed_data(entries, n));
}

proof fn lemma_subrange_of_subrange(s: Seq<u8>, a: int, b: int, c: int, d: int)
    requires
        0 <= a <= b <= s.len(),
        0 <= c <= d <= b - a,
    ensures
        s.subrange(a, b).subrange(c, d) == s.subrange(a + c, a + d),
{
    assert(s.subrange(a, b).subrange(c, d) =~= s.subrange(a + c, a + d));
}

#[verifier::spinoff_prover]
#[verifier::rlimit(40)]
proof fn lemma_packed_record(entries: Seq<SoundEntry>, i: int)
    requires
        packed_len(entries) < 0x1_0000_0000,
        0 <= i < entries.len(),
    ensures
        packed_file(entries).len() == packed_len(entries),
        packed_file(entries).subrange(4 + 8 * i, 8 + 8 * i) == u32_le_bytes(packed_offset(entries, i)),
        packed_file(entries).subrange(8 + 8 * i, 12 + 8 * i) == u32_le_bytes(entries[i].pitch_value),
{
    let n = entries.len();
    let data = packed_file(entries);
    lemma_packed_layout(entries);
    lemma_packed_index(entries, n, i);
    lemma_buffers_len_nonnegative(entries, n as int);
    lemma_subrange_of_subrange(data, 4, (4 + 8 * n) as int, 8 * i, 8 * i + 4);
    lemma_subrange_of_subrange(data, 4, (4 + 8 * n) as int, 8 * i + 4, 8 * i + 8);
}

#[verifier::spinoff_prover]
#[verifier::rlimit(40)]
proof fn lemma_packed_entry_header(entries: Seq<SoundEntry>, i: int)
    requires
        packed_len(entries) < 0x1_0000_0000,
        0 <= i < entries.len(),
    ensures
        entry_offset(packed_file(entries), i) == 4 + 8 * entries.len() + buffers_len(entries, i),
        entry_pitch(packed_file(entries), i) == entries[i].pitch_value,
{
    let data = packed_file(entries);
    lemma_packed_record(entries, i);
    lemma_buffers_len_monotonic(entries, i, entries.len() as int);
    lemma_le_u32_of_bytes(data, 4 + 8 * i, packed_offset(entries, i));
    lemma_le_u32_of_bytes(data, 8 + 8 * i, entries[i].pitch_value);
}

#[verifier::spinoff_prover]
#[verifier::rlimit(40)]
proof fn lemma_packed_entry_size(entries: Seq<SoundEntry>, i: int)
    requires
        packed_len(entries) < 0x1_0000_0000,
        0 <= i < entries.len(),
    ensures
        entry_offset(packed_file(entries), i) == 4 + 8 * entries.len() + buffers_len(entries, i),
        entry_size(packed_file(entries), i) == entries[i].buffer@.len(),
{
    let n = entries.len() as int;
    let data = packed_file(entries);
    lemma_packed_count(entries);
    lemma_packed_entry_header(entries, i);
    lemma_buffers_len_monotonic(entries, i, i + 1);
    lemma_buffers_len_monotonic(entries, i + 1, n);
    let len = entries[i].buffer@.len() as int;
    assert(buffers_len(entries, i + 1) == buffers_len(entries, i) + len);
    if i + 1 < n {
        lemma_packed_entry_header(entries, i + 1);
        assert(entry_offset(data, i + 1) - entry_offset(data, i) == len);
    } else {
        assert(data.len() - entry_offset(data, i) == len);
    }
    assert(0 <= len < 0x1_0000_0000);
    assert(len % 0x1_0000_0000 == len);
}

#[verifier::spinoff_prover]
#[verifier::rlimit(40)]
proof fn lemma_packed_entry_data(entries: Seq<SoundEntry>, i: int)
    requires
        packed_len(entries) < 0x1_0000_0000,
        0 <= i < entries.len(),
    ensures
        entry_readable(packed_file(entries), i),
        entry_bytes(packed_file(entries), i) == entries[i].buffer@,
{
    let n = entries.len();
    let data = packed_file(entries);
    lemma_packed_layout(entries);
    lemma_packed_entry_size(entries, i);
    lemma_packed_data(entries, n, i);
    lemma_buffers_len_monotonic(entries, i, i + 1);
    lemma_buffers_len_monotonic(entries, i + 1, n as int);
    let start = 4 + 8 * n + buffers_len(entries, i);
    let len = entries[i].buffer@.len();
    if len > 0 {
        lemma_subrange_of_subrange(
            data,
            (4 + 8 * n) as int,
            packed_len(entries),
            buffers_len(entries, i),
            buffers_len(entries, i + 1),
        );
    } else {
        assert(entries[i].buffer@ =~= Seq::<u8>::empty());
    }
}

/// A bank written by `to_bytes` reads back as the same sounds: the same
/// number of them, each with its data and its pitch value, as long as the
/// bank is smaller than 4 GiB (the count and the offsets are 32-bit).
pub proof fn lemma_packed_file_reads_back(entries: Seq<SoundEntry>)
    requires
        packed_len(entries) < 0x1_0000_0000,
    ensures
        header_complete(packed_file(entries)),
        sound_count(packed_file(entries)) == entries.len(),
        entries_readable(packed_file(entries), entries.len() as int),
        forall|i: int| 0 <= i < entries.len() ==> {
            &&& #[trigger] entry_bytes(packed_file(entries), i) == entries[i].buffer@
            &&& entry_pitch(packed_file(entries), i) == entries[i].pitch_value
        },
{
    lemma_packed_count(entries);
    assert forall|i: int| 0 <= i < entries.len() implies #[trigger] entry_readable(packed_file(entries), i) by {
        lemma_packed_entry_data(entries, i);
    }
    assert forall|i: int| 0 <= i < entries.len() implies {
        &&& #[trigger] entry_bytes(packed_file(entries), i) == entries[i].buffer@
        &&& entry_pitch(packed_file(entries), i) == entries[i].pitch_value
    } by {
        lemma_packed_entry_header(entries, i);
        lemma_packed_entry_data(entries, i);
    }
}

} // verus!
