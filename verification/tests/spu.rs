use mksfx::sfx::SFXFile;
use mksfx::spu::{pitch_value_frequency, spu_note2pitch};

fn tables() -> (Vec<u16>, Vec<u16>) {
    let f = SFXFile::new();
    (f.semitone_table, f.fine_table)
}

#[test]
fn root_note_plays_at_44100_hz() {
    let (s, f) = tables();
    assert_eq!(spu_note2pitch(0x24, 0, 0x24, 0, &s, &f), 4096);
    assert_eq!(pitch_value_frequency(0x2400, &s, &f), 44100);
}

#[test]
fn octaves_double_and_halve_the_rate() {
    let (s, f) = tables();
    assert_eq!(pitch_value_frequency(0x3000, &s, &f), 88200);
    assert_eq!(pitch_value_frequency(0x1800, &s, &f), 22050);
}

#[test]
fn fine_tune_carries_into_semitones() {
    let (s, f) = tables();
    assert_eq!(pitch_value_frequency(0x2480, &s, &f), 46727);
    assert_eq!(pitch_value_frequency(0x2500, &s, &f), 46727);
    assert_eq!(pitch_value_frequency(0x2401, &s, &f), 44121);
    assert_eq!(pitch_value_frequency(0x2300, &s, &f), 41623);
}

#[test]
fn reference_octave_and_above_use_the_table_entry() {
    let (s, f) = tables();
    assert_eq!(spu_note2pitch(0x24, 0, 0x3C, 0, &s, &f), 0x8000);
    assert_eq!(pitch_value_frequency(0x3C00, &s, &f), 352800);
    assert_eq!(pitch_value_frequency(0x4800, &s, &f), 352800);
    assert_eq!(pitch_value_frequency(0xFFFF_FFFF, &s, &f), 444499);
    assert_eq!(spu_note2pitch(0, 0, 30, 0, &s, &f), 46340);
}

#[test]
fn lowest_stored_value() {
    let (s, f) = tables();
    assert_eq!(pitch_value_frequency(0, &s, &f), 5512);
}

#[test]
fn negative_notes_and_fine_tunes_round_down() {
    let (s, f) = tables();
    assert_eq!(spu_note2pitch(0, 0, -5, -300, &s, &f), 2680);
    assert_eq!(spu_note2pitch(10, 3, 0, 200, &s, &f), 2519);
}
