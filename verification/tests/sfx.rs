use mksfx::args::SoundFormat;
use mksfx::sfx::{SFXFile, SfxError, SoundEntry};

fn entry(buffer: Vec<u8>, pitch_value: u32) -> SoundEntry {
    SoundEntry { buffer, pitch_value, frequency: 0 }
}

#[test]
fn driver_tables() {
    let f = SFXFile::new();
    assert!(f.entries.is_empty());
    assert_eq!(
        f.semitone_table,
        vec![0x8000, 0x879C, 0x8FAC, 0x9837, 0xA145, 0xAADC, 0xB504, 0xBFC8, 0xCB2F, 0xD744, 0xE411, 0xF1A1]
    );
    assert_eq!(f.fine_table.len(), 128);
    assert_eq!(f.fine_table[0], 0x8000);
    assert_eq!(f.fine_table[1], 0x800E);
    assert_eq!(f.fine_table[127], 0x878C);
}

#[test]
fn table_text_parsing() {
    assert_eq!(SFXFile::load_table(""), Vec::<u16>::new());
    assert_eq!(SFXFile::load_table("3412"), vec![0x1234]);
    assert_eq!(SFXFile::load_table("abCD"), vec![0xCDAB]);
    // a partial last chunk is ignored
    assert_eq!(SFXFile::load_table("34120A0"), vec![0x1234]);
    // a chunk with a pair that does not parse is skipped
    assert_eq!(SFXFile::load_table("zz1234125678"), vec![0x1234, 0x7856]);
    assert_eq!(SFXFile::load_table("-1000001"), vec![0x0100]);
    // a pair may be a '+' sign and one digit
    assert_eq!(SFXFile::load_table("+F00"), vec![0x000F]);
    assert_eq!(SFXFile::load_table("+++1"), Vec::<u16>::new());
    assert_eq!(SFXFile::load_table("FFFF"), vec![0xFFFF]);
}

#[test]
fn pack_layout() {
    let mut f = SFXFile::new();
    f.entries.push(entry(vec![1, 2, 3], 0x2400));
    f.entries.push(entry(vec![], 0x1234_5678));
    f.entries.push(entry(vec![9], 7));
    let bytes = f.to_bytes();
    assert_eq!(
        bytes,
        vec![
            3, 0, 0, 0, //
            28, 0, 0, 0, 0x00, 0x24, 0, 0, //
            31, 0, 0, 0, 0x78, 0x56, 0x34, 0x12, //
            31, 0, 0, 0, 7, 0, 0, 0, //
            1, 2, 3, 9
        ]
    );
}

#[test]
fn pack_then_read_back() {
    let mut f = SFXFile::new();
    f.add_sound(vec![1, 2, 3, 4, 5], 0x2400);
    f.add_sound(vec![], 0x3000);
    f.add_sound(vec![0xAA; 40], 0x1800);
    assert!(f.entries.iter().all(|e| e.frequency == 0));
    let bytes = f.to_bytes();
    let g = SFXFile::from_bytes(&bytes).unwrap();
    assert_eq!(g.entries.len(), 3);
    for (a, b) in f.entries.iter().zip(g.entries.iter()) {
        assert_eq!(a.buffer, b.buffer);
        assert_eq!(a.pitch_value, b.pitch_value);
    }
    assert_eq!(g.entries[0].frequency, 44100);
    assert_eq!(g.entries[1].frequency, 88200);
    assert_eq!(g.entries[2].frequency, 22050);
    assert_eq!(g.semitone_table, f.semitone_table);
    assert_eq!(g.fine_table, f.fine_table);
}

#[test]
fn empty_bank() {
    let f = SFXFile::new();
    let bytes = f.to_bytes();
    assert_eq!(bytes, vec![0, 0, 0, 0]);
    let g = SFXFile::from_bytes(&bytes).unwrap();
    assert!(g.entries.is_empty());
}

#[test]
fn truncated_header() {
    assert_eq!(SFXFile::from_bytes(&[]).err(), Some(SfxError::TruncatedHeader));
    assert_eq!(SFXFile::from_bytes(&[1, 0, 0]).err(), Some(SfxError::TruncatedHeader));
    assert_eq!(SFXFile::from_bytes(&[1, 0, 0, 0, 12, 0, 0, 0, 0, 0, 0]).err(), Some(SfxError::TruncatedHeader));
    assert_eq!(SFXFile::from_bytes(&[0xFF, 0xFF, 0xFF, 0xFF]).err(), Some(SfxError::TruncatedHeader));
}

#[test]
fn sound_data_past_the_end() {
    // the last sound starts past the end of the bank
    let data = vec![1, 0, 0, 0, 20, 0, 0, 0, 0, 0x24, 0, 0];
    assert_eq!(SFXFile::from_bytes(&data).err(), Some(SfxError::TruncatedData { index: 0 }));
    // the first sound runs past the end (its size comes from the next offset)
    let data = vec![2, 0, 0, 0, 20, 0, 0, 0, 0, 0, 0, 0, 40, 0, 0, 0, 0, 0, 0, 0, 1, 2];
    assert_eq!(SFXFile::from_bytes(&data).err(), Some(SfxError::TruncatedData { index: 0 }));
    // offsets that go backwards wrap to a huge size
    let data = vec![2, 0, 0, 0, 21, 0, 0, 0, 0, 0, 0, 0, 20, 0, 0, 0, 0, 0, 0, 0, 1, 2];
    assert_eq!(SFXFile::from_bytes(&data).err(), Some(SfxError::TruncatedData { index: 0 }));
}

#[test]
fn sizes_come_from_the_offsets() {
    // sound 0 is the byte at 20, sound 1 runs from 21 to the end
    let data = vec![2, 0, 0, 0, 20, 0, 0, 0, 0, 0x24, 0, 0, 21, 0, 0, 0, 0, 0x30, 0, 0, 7, 8, 9];
    let f = SFXFile::from_bytes(&data).unwrap();
    assert_eq!(f.entries[0].buffer, vec![7]);
    assert_eq!(f.entries[1].buffer, vec![8, 9]);
    assert_eq!(f.entries[0].pitch_value, 0x2400);
    assert_eq!(f.entries[1].frequency, 88200);
    // an empty sound may even start past the end
    let data = vec![2, 0, 0, 0, 99, 0, 0, 0, 0, 0, 0, 0, 99, 0, 0, 0, 0, 0, 0, 0];
    let f = SFXFile::from_bytes(&data);
    assert_eq!(f.err(), Some(SfxError::TruncatedData { index: 1 }));
    let data = vec![2, 0, 0, 0, 99, 0, 0, 0, 0, 0, 0, 0, 20, 0, 0, 0, 0, 0, 0, 0];
    // sound 0: size wraps (20 - 99), so it cannot be read
    assert_eq!(SFXFile::from_bytes(&data).err(), Some(SfxError::TruncatedData { index: 0 }));
    let data = vec![2, 0, 0, 0, 30, 0, 0, 0, 0, 0, 0, 0, 30, 0, 0, 0, 0, 0, 0, 0, 5, 6];
    // sound 0 is empty although it starts past the end; sound 1 cannot be read
    assert_eq!(SFXFile::from_bytes(&data).err(), Some(SfxError::TruncatedData { index: 1 }));
}

#[test]
fn extraction_config_names_and_pitches() {
    let mut f = SFXFile::new();
    f.add_sound(vec![1], 0x2400);
    f.add_sound(vec![2], 0x3000);
    let c = f.extraction_config(SoundFormat::Raw);
    assert_eq!(c.sounds.len(), 2);
    assert_eq!(c.sounds[0].filename, "sound001.raw");
    assert_eq!(c.sounds[1].filename, "sound002.raw");
    assert_eq!(c.sounds[1].pitch_value, 0x3000);
    assert_eq!(c.sounds[0].format, SoundFormat::Raw);
}
