//! SPU pitch computation: from a note (in semitones, with a fine tune) to
//! the 4.12 fixed-point pitch register value, through the semitone and
//! fine-tune tables of the sound driver.
use vstd::prelude::*;
use vstd::arithmetic::power2::pow2;
use vstd::bits::{lemma_u32_shr_is_div, lemma_u32_shl_is_mul, lemma_u32_pow2_no_overflow};
use vstd::arithmetic::power2::{lemma2_to64, lemma_pow2_pos, lemma_pow2_unfold};
use vstd::arithmetic::div_mod::{lemma_fundamental_div_mod, lemma_mod_pos_bound};

verus! {

/// Fine tune plus its centre, in 1/128 of a semitone.
pub open spec fn fine_sum(center_fine: int, note_fine: int) -> int {
    note_fine + center_fine
}

/// Distance of the note from the root note, in whole semitones
/// (the fine tune carries over into whole semitones, rounding down).
pub open spec fn note_distance(root_note: int, center_fine: int, note: int, note_fine: int) -> int {
    note + fine_sum(center_fine, note_fine) / 128 - root_note
}

/// Position of the note inside its octave: the index into the semitone table.
pub open spec fn semitone_index(root_note: int, center_fine: int, note: int, note_fine: int) -> int {
    note_distance(root_note, center_fine, note, note_fine) % 12
}

/// The octave of the note, counted from two octaves above the root.
pub open spec fn octave(root_note: int, center_fine: int, note: int, note_fine: int) -> int {
    note_distance(root_note, center_fine, note, note_fine) / 12 - 2
}

/// Index into the fine-tune table: the fine sum modulo 128.
pub open spec fn fine_index(center_fine: int, note_fine: int) -> int {
    fine_sum(center_fine, note_fine) % 128
}

/// What `spu_note2pitch` computes.  At or above the reference octave the
/// pitch is the semitone table entry itself; below it, the entry scaled by
/// the fine-tune entry (a 0.16 fixed-point factor) is halved once per
/// octave with rounding, and only the low 16 bits are kept.
pub open spec fn note_pitch(
    root_note: int,
    center_fine: int,
    note: int,
    note_fine: int,
    semitone_table: Seq<u16>,
    fine_table: Seq<u16>,
) -> u16 {
    let sem = semitone_table[semitone_index(root_note, center_fine, note, note_fine)];
    let oct = octave(root_note, center_fine, note, note_fine);
    if oct >= 0 {
        sem
    } else {
        let shift = -oct;
        let scaled = (sem as int * fine_table[fine_index(center_fine, note_fine)] as int) / 65536;
        let rounded = scaled + pow2(((shift - 1) % 32) as nat);
        ((rounded / pow2((shift % 32) as nat) as int) % 65536) as u16
    }
}

/// The conditions under which `spu_note2pitch` computes without overflow
/// and indexes inside both tables.
pub open spec fn note2pitch_defined(
    root_note: i32,
    center_fine: i32,
    note: i32,
    note_fine: i32,
    semitone_len: int,
    fine_len: int,
) -> bool {
    &&& i32::MIN <= fine_sum(center_fine as int, note_fine as int) <= i32::MAX
    &&& i32::MIN <= note + fine_sum(center_fine as int, note_fine as int) / 128 <= i32::MAX
    &&& i32::MIN <= note_distance(root_note as int, center_fine as int, note as int, note_fine as int) <= i32::MAX
    &&& semitone_index(root_note as int, center_fine as int, note as int, note_fine as int) < semitone_len
    &&& octave(root_note as int, center_fine as int, note as int, note_fine as int) < 0
        ==> fine_index(center_fine as int, note_fine as int) < fine_len
}

/// Converts a note into an SPU pitch value.
///
/// `param1` is the root note, `param2` the centre fine tune, `param3` the
/// note and `param4` its fine tune.
pub fn spu_note2pitch(
    param1: i32,
    param2: i32,
    param3: i32,
    param4: i32,
    semitone_table: &[u16],
    fine_table: &[u16],
) -> (pitch: u16)
    requires
        note2pitch_defined(param1, param2, param3, param4, semitone_table@.len() as int, fine_table@.len() as int),
    ensures
        pitch == note_pitch(param1 as int, param2 as int, param3 as int, param4 as int, semitone_table@, fine_table@),
{
    let fine = param4 + param2;
    assert((fine >> 7i32) as int == fine as int / 128) by (bit_vector);
    let ivar5 = param3 + (fine >> 7) - param1;
    let svar2 = if ivar5 < 0 && ivar5 % 12 != 0 {
        ivar5 / 12 - 1
    } else {
        ivar5 / 12
    };
    let mut svar6 = svar2 - 2;

    let mut ivar5 = ((ivar5 % 12) + 12) % 12;

    if ivar5 < 0 {
        ivar5 += 12;
        svar6 -= 1;
    }
    assert(ivar5 == semitone_index(param1 as int, param2 as int, param3 as int, param4 as int));
    assert(svar6 == octave(param1 as int, param2 as int, param3 as int, param4 as int));

    if svar6 >= 0 {
        semitone_table[ivar5 as usize]
    } else {
        let uvar1 = (-svar6) as u32;
        let sem = semitone_table[ivar5 as usize] as u32;
        let fidx = (fine & 0x7F) as usize;
        assert((fine & 0x7Fi32) as int == fine as int % 128) by (bit_vector);
        let fine_val = fine_table[fidx] as u32;
        assert(sem * fine_val <= 65535 * 65535) by (nonlinear_arith)
            requires sem <= 65535, fine_val <= 65535;
        let product = sem * fine_val;
        let mut val = product >> 16;
        proof {
            lemma2_to64();
            lemma_u32_shr_is_div(product, 16);
        }
        let below = uvar1 - 1;
        let k = below & 0x1F;
        assert(below & 0x1F == below % 32) by (bit_vector);
        proof {
            lemma_u32_pow2_no_overflow(k as nat);
            lemma_u32_shl_is_mul(1, k);
        }
        let bit = 1u32 << k;
        assert(val <= 65535);
        val += bit;
        let m = uvar1 & 0x1F;
        assert(uvar1 & 0x1F == uvar1 % 32) by (bit_vector);
        proof {
            lemma_u32_shr_is_div(val, m);
        }
        val >>= m;
        assert(val & 0xFFFF == val % 65536) by (bit_vector);
        let low = val & 0xFFFF;
        low as u16
    }
}

/// The root note of the sound driver: a stored pitch value of
/// `ROOT_NOTE * 256` plays a sample at its recorded rate.
pub const ROOT_NOTE: i32 = 0x24;

/// The pitch register value for a pitch value as stored in a sound bank:
/// the note in its high bits and the fine tune in its low byte, against a
/// root note of `ROOT_NOTE` with a centre fine tune of 0.
pub open spec fn stored_pitch(stored_value: u32, semitone_table: Seq<u16>, fine_table: Seq<u16>) -> u16 {
    note_pitch(0x24, 0, stored_value as int / 256, stored_value as int % 256, semitone_table, fine_table)
}

/// The playback rate in Hz, rounded down, of an SPU pitch value: the pitch
/// is a 4.12 fixed-point multiple of 44100 Hz.
pub open spec fn pitch_frequency(pitch: u16) -> u32 {
    (pitch as int * 44100 / 4096) as u32
}

/// The playback rate, in whole Hz (rounded down), of a pitch value as
/// stored in a sound bank.
pub fn pitch_value_frequency(stored_value: u32, semitone_table: &[u16], fine_table: &[u16]) -> (hz: u32)
    requires
        note2pitch_defined(
            ROOT_NOTE,
            0,
            (stored_value / 256) as i32,
            (stored_value % 256) as i32,
            semitone_table@.len() as int,
            fine_table@.len() as int,
        ),
    ensures
        hz == pitch_frequency(stored_pitch(stored_value, semitone_table@, fine_table@)),
{
    let root_note = ROOT_NOTE;
    let center_fine = 0x00;
    let note = (stored_value / 256) as i32;
    let note_fine = (stored_value & 0xFF) as i32;
    assert(stored_value & 0xFF == stored_value % 256) by (bit_vector);

    let pitch_val = spu_note2pitch(root_note, center_fine, note, note_fine, semitone_table, fine_table);

    // pitch_val * 44100 < 2^32, and pitch_val / 4096 * 44100 is exact in
    // binary floating point, so rounding it down is integer division
    (pitch_val as u32 * 44100) / 4096
}

/// A fine tune of 128 (in 1/128 semitone) is one semitone: the pitch
/// depends on the note and the fine tune only through their sum, so moving
/// 128 from the fine tune to the note leaves it unchanged.
pub proof fn lemma_fine_tune_is_part_of_note(
    root_note: int,
    center_fine: int,
    note: int,
    note_fine: int,
    semitone_table: Seq<u16>,
    fine_table: Seq<u16>,
)
    ensures
        note_pitch(root_note, center_fine, note + 1, note_fine - 128, semitone_table, fine_table)
            == note_pitch(root_note, center_fine, note, note_fine, semitone_table, fine_table),
{
    let x = note_fine + center_fine;
    assert((x - 128) / 128 == x / 128 - 1);
    assert((x - 128) % 128 == x % 128);
}

proof fn lemma_round_halves(a: int, t: int)
    requires
        a >= 0,
        t >= 1,
    ensures
        -1 <= 2 * ((a + 2 * t) / (4 * t)) - (a + t) / (2 * t) <= 1,
        0 <= (a + t) / (2 * t) <= a + 1,
        0 <= (a + 2 * t) / (4 * t) <= a + 1,
{
    let x = (a + 2 * t) / (4 * t);
    let y = (a + t) / (2 * t);
    lemma_fundamental_div_mod(a + 2 * t, 4 * t);
    lemma_fundamental_div_mod(a + t, 2 * t);
    lemma_mod_pos_bound(a + 2 * t, 4 * t);
    lemma_mod_pos_bound(a + t, 2 * t);
    let r = (a + 2 * t) % (4 * t);
    let q = (a + t) % (2 * t);
    assert(-1 <= 2 * x - y <= 1 && 0 <= y <= a + 1 && 0 <= x <= a + 1) by (nonlinear_arith)
        requires
            a + 2 * t == 4 * t * x + r,
            0 <= r < 4 * t,
            a + t == 2 * t * y + q,
            0 <= q < 2 * t,
            a >= 0,
            t >= 1,
    ;
}

/// Below the reference octave, a note an octave (12 semitones) lower has
/// half the pitch, up to the rounding of one halving: twice its pitch is
/// within 1 of the pitch of the note above.  (This holds down to 29
/// octaves below the reference, where the shift stays inside 32 bits.)
pub proof fn lemma_octave_down_halves_pitch(
    root_note: int,
    center_fine: int,
    note: int,
    note_fine: int,
    semitone_table: Seq<u16>,
    fine_table: Seq<u16>,
)
    requires
        -324 <= note + (note_fine + center_fine) / 128 - root_note < 24,
    ensures
        -1 <= 2 * note_pitch(root_note, center_fine, note - 12, note_fine, semitone_table, fine_table)
            - note_pitch(root_note, center_fine, note, note_fine, semitone_table, fine_table) <= 1,
{
    let d = note_distance(root_note, center_fine, note, note_fine);
    assert(note_distance(root_note, center_fine, note - 12, note_fine) == d - 12);
    assert((d - 12) % 12 == d % 12);
    assert((d - 12) / 12 == d / 12 - 1);
    let oct = octave(root_note, center_fine, note, note_fine);
    assert(-29 <= oct < 0);
    let shift = -oct;
    let sem = semitone_table[semitone_index(root_note, center_fine, note, note_fine)];
    let fine = fine_table[fine_index(center_fine, note_fine)];
    let a = (sem as int * fine as int) / 65536;
    assert(0 <= sem as int * fine as int <= 65535 * 65535) by (nonlinear_arith)
        requires
            0 <= sem <= 65535,
            0 <= fine <= 65535,
    ;
    assert(0 <= a < 65535);
    let t = pow2((shift - 1) as nat) as int;
    lemma_pow2_pos((shift - 1) as nat);
    lemma_pow2_unfold(shift as nat);
    lemma_pow2_unfold((shift + 1) as nat);
    assert(pow2(shift as nat) == 2 * t);
    assert(pow2((shift + 1) as nat) == 4 * t);
    lemma_round_halves(a, t);
    assert((shift - 1) % 32 == shift - 1 && shift % 32 == shift);
    assert(shift % 32 == shift && (shift + 1) % 32 == shift + 1);
}

/// The octave just below the reference octave (12 to 23 semitones above
/// the root) halves, with rounding, the semitone entry scaled by the fine
/// tune entry (a 0.16 fixed-point factor); from 24 semitones above the
/// root up, the pitch is the semitone entry itself.
pub proof fn lemma_reference_octaves(
    root_note: int,
    center_fine: int,
    note: int,
    note_fine: int,
    semitone_table: Seq<u16>,
    fine_table: Seq<u16>,
)
    ensures
        ({
            let d = note + (note_fine + center_fine) / 128 - root_note;
            let sem = semitone_table[d % 12] as int;
            let fine = fine_table[(note_fine + center_fine) % 128] as int;
            &&& 12 <= d < 24 ==> note_pitch(root_note, center_fine, note, note_fine, semitone_table, fine_table)
                == (sem * fine / 65536 + 1) / 2
            &&& 24 <= d ==> note_pitch(root_note, center_fine, note, note_fine, semitone_table, fine_table)
                == sem
        }),
{
    let d = note + (note_fine + center_fine) / 128 - root_note;
    if 12 <= d < 24 {
        let sem = semitone_table[d % 12] as int;
        let fine = fine_table[(note_fine + center_fine) % 128] as int;
        assert(0 <= sem * fine <= 65535 * 65535) by (nonlinear_arith)
            requires
                0 <= sem <= 65535,
                0 <= fine <= 65535,
        ;
        lemma2_to64();
        assert(pow2(0) == 1 && pow2(1) == 2);
    }
}

} // verus!
