use mksfx::args::{output_directory, SoundFormat};
use mksfx::config::{default_format, extracted_sound_file, is_default_format, sound_filename};
use mksfx::libpsxav::{encoded_buffer_size, truncate_encoded};

#[test]
fn default_format_is_wav() {
    assert_eq!(default_format(), SoundFormat::Wav);
    assert!(is_default_format(&default_format()));
    assert!(!is_default_format(&SoundFormat::Raw));
}

#[test]
fn format_names() {
    assert_eq!(SoundFormat::Wav.name(), "wav");
    assert_eq!(SoundFormat::Raw.name(), "raw");
}

#[test]
fn sound_file_names() {
    assert_eq!(sound_filename(0, SoundFormat::Wav), "sound001.wav");
    assert_eq!(sound_filename(8, SoundFormat::Wav), "sound009.wav");
    assert_eq!(sound_filename(9, SoundFormat::Raw), "sound010.raw");
    assert_eq!(sound_filename(98, SoundFormat::Wav), "sound099.wav");
    assert_eq!(sound_filename(99, SoundFormat::Raw), "sound100.raw");
    assert_eq!(sound_filename(1233, SoundFormat::Wav), "sound1234.wav");
    assert_eq!(sound_filename(41, SoundFormat::Raw), format!("sound{:03}.{}", 42, "raw"));
}

#[test]
fn extracted_entry() {
    let f = extracted_sound_file(4, 0x2400, SoundFormat::Raw);
    assert_eq!(f.filename, "sound005.raw");
    assert_eq!(f.pitch_value, 0x2400);
    assert_eq!(f.format, SoundFormat::Raw);
}

#[test]
fn output_directory_defaults_to_current() {
    assert_eq!(output_directory(None), ".");
    assert_eq!(output_directory(Some("out".to_string())), "out");
}

#[test]
fn encoder_buffer_sizes() {
    assert_eq!(encoded_buffer_size(0), 16);
    assert_eq!(encoded_buffer_size(1), 16);
    assert_eq!(encoded_buffer_size(2), 32);
    assert_eq!(encoded_buffer_size(28), 32);
    assert_eq!(encoded_buffer_size(29), 32);
    assert_eq!(encoded_buffer_size(30), 48);
    assert_eq!(encoded_buffer_size(56), 48);
    for n in 0..1000usize {
        let float_size = (((n as f64 + 28.0 - 1.0) / 28.0).ceil() as usize) * 16;
        assert_eq!(encoded_buffer_size(n), float_size);
    }
}

#[test]
fn encoder_buffer_truncation() {
    let b = vec![1u8, 2, 3, 4];
    assert_eq!(truncate_encoded(b.clone(), 2), vec![1, 2]);
    assert_eq!(truncate_encoded(b.clone(), 0), Vec::<u8>::new());
    assert_eq!(truncate_encoded(b.clone(), 4), b);
    assert_eq!(truncate_encoded(b.clone(), 9), b);
    assert_eq!(truncate_encoded(b.clone(), -1), b);
}
