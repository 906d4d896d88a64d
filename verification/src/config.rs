//! The build configuration of a sound bank: the list of sound files with
//! their format and pitch value, and the names given to extracted sounds.
use vstd::prelude::*;
use crate::args::{format_name, SoundFormat};

verus! {

/// The sounds of a bank, in order.
pub struct Config {
    pub sounds: Vec<SoundFile>,
}

/// One sound of a bank: the file it is read from, the file's format, and
/// the pitch value to store with it.
pub struct SoundFile {
    pub filename: String,
    pub format: SoundFormat,
    pub pitch_value: u32,
}

/// The format a sound file has when the configuration names none.
pub fn default_format() -> (format: SoundFormat)
    ensures
        format == SoundFormat::Wav,
{
    SoundFormat::Wav
}

/// Whether a format is the default one (and so need not be written out).
pub fn is_default_format(f: &SoundFormat) -> (b: bool)
    ensures
        b == (*f == SoundFormat::Wav),
{
    *f == SoundFormat::Wav
}

/// The character of a decimal digit.
pub open spec fn digit_char(d: nat) -> char {
    if d == 0 {
        '0'
    } else if d == 1 {
        '1'
    } else if d == 2 {
        '2'
    } else if d == 3 {
        '3'
    } else if d == 4 {
        '4'
    } else if d == 5 {
        '5'
    } else if d == 6 {
        '6'
    } else if d == 7 {
        '7'
    } else if d == 8 {
        '8'
    } else {
        '9'
    }
}

/// The decimal digits of `n`, without leading zeros.
pub open spec fn decimal(n: nat) -> Seq<char>
    decreases n,
{
    if n < 10 {
        seq![digit_char(n)]
    } else {
        decimal(n / 10).push(digit_char(n % 10))
    }
}

/// The decimal digits of `n`, with zeros in front to make at least three.
pub open spec fn decimal_width3(n: nat) -> Seq<char> {
    let d = decimal(n);
    if d.len() >= 3 {
        d
    } else {
        Seq::new((3 - d.len()) as nat, |i: int| '0') + d
    }
}

/// The name of the `index`-th extracted sound (counting from 0):
/// `sound`, the number `index + 1` in at least three digits, a dot, and the
/// format's extension.
pub open spec fn sound_filename_of(index: nat, format: SoundFormat) -> Seq<char> {
    seq!['s', 'o', 'u', 'n', 'd'] + decimal_width3(index + 1) + seq!['.'] + format_name(format)
}

proof fn lemma_decimal_len(n: nat)
    ensures
        n < 10 ==> decimal(n).len() == 1,
        10 <= n < 100 ==> decimal(n).len() == 2,
        100 <= n ==> decimal(n).len() >= 3,
    decreases n,
{
    if n >= 10 {
        lemma_decimal_len(n / 10);
    }
}

fn digit_str(d: usize) -> (s: &'static str)
    requires
        d < 10,
    ensures
        s@ == seq![digit_char(d as nat)],
{
    if d == 0 {
        proof { reveal_strlit("0"); }
        "0"
    } else if d == 1 {
        proof { reveal_strlit("1"); }
        "1"
    } else if d == 2 {
        proof { reveal_strlit("2"); }
        "2"
    } else if d == 3 {
        proof { reveal_strlit("3"); }
        "3"
    } else if d == 4 {
        proof { reveal_strlit("4"); }
        "4"
    } else if d == 5 {
        proof { reveal_strlit("5"); }
        "5"
    } else if d == 6 {
        proof { reveal_strlit("6"); }
        "6"
    } else if d == 7 {
        proof { reveal_strlit("7"); }
        "7"
    } else if d == 8 {
        proof { reveal_strlit("8"); }
        "8"
    } else {
        proof { reveal_strlit("9"); }
        "9"
    }
}

fn append_decimal(s: &mut String, n: usize)
    ensures
        final(s)@ == old(s)@ + decimal(n as nat),
    decreases n,
{
    if n >= 10 {
        append_decimal(s, n / 10);
    }
    s.append(digit_str(n % 10));
}

/// The name of the `index`-th extracted sound (counting from 0), as
/// `format!("sound{:03}.{}", index + 1, format)` writes it.
pub fn sound_filename(index: usize, format: SoundFormat) -> (name: String)
    requires
        index < usize::MAX,
    ensures
        name@ == sound_filename_of(index as nat, format),
{
    let number = index + 1;
    let mut name = String::new();
    proof {
        reveal_strlit("sound");
        reveal_strlit("00");
        reveal_strlit("0");
        reveal_strlit(".");
        lemma_decimal_len(number as nat);
    }
    name.append("sound");
    if number < 10 {
        name.append("00");
    } else if number < 100 {
        name.append("0");
    }
    append_decimal(&mut name, number);
    name.append(".");
    name.append(format.name());
    assert(name@ =~= sound_filename_of(index as nat, format));
    name
}

/// The configuration entry for the `index`-th sound extracted from a bank
/// (counting from 0): the name it is written under, its format, and its
/// stored pitch value.
pub fn extracted_sound_file(index: usize, pitch_value: u32, format: SoundFormat) -> (file: SoundFile)
    requires
        index < usize::MAX,
    ensures
        file.filename@ == sound_filename_of(index as nat, format),
        file.format == format,
        file.pitch_value == pitch_value,
{
    SoundFile { filename: sound_filename(index, format), pitch_value, format }
}

/// The number that a string of decimal digits reads as.
pub open spec fn decimal_value(s: Seq<char>) -> int
    decreases s.len(),
{
    if s.len() == 0 {
        0
    } else {
        decimal_value(s.drop_last()) * 10 + (s.last() as int - '0' as int)
    }
}

/// Every character is a decimal digit.
pub open spec fn all_decimal_digits(s: Seq<char>) -> bool {
    forall|i: int| 0 <= i < s.len() ==> '0' <= #[trigger] s[i] <= '9'
}

/// The digits written for a number are decimal digits, and read back as
/// the number.
pub proof fn lemma_decimal_reads_back(n: nat)
    ensures
        all_decimal_digits(decimal(n)),
        decimal_value(decimal(n)) == n,
        decimal(n).len() >= 1,
    decreases n,
{
    assert('0' as int == 48 && '9' as int == 57);
    assert(digit_char(n % 10) as int == 48 + n % 10);
    assert(decimal(n).last() == digit_char(n % 10));
    if n >= 10 {
        lemma_decimal_reads_back(n / 10);
        let prev = decimal(n / 10);
        assert(decimal(n).drop_last() =~= prev);
        assert(decimal_value(decimal(n)) == decimal_value(prev) * 10 + (n % 10));
    } else {
        assert(decimal(n).drop_last() =~= Seq::<char>::empty());
        assert(decimal_value(Seq::<char>::empty()) == 0);
    }
}

proof fn lemma_leading_zero(s: Seq<char>)
    ensures
        decimal_value(seq!['0'] + s) == decimal_value(s),
    decreases s.len(),
{
    if s.len() > 0 {
        lemma_leading_zero(s.drop_last());
        assert((seq!['0'] + s).drop_last() =~= seq!['0'] + s.drop_last());
        assert((seq!['0'] + s).last() == s.last());
    } else {
        assert((seq!['0'] + s).drop_last() =~= Seq::<char>::empty());
        assert(decimal_value(Seq::<char>::empty()) == 0);
        assert((seq!['0'] + s).last() == '0');
    }
}

/// The digits of a number padded to three read back as the number.
pub proof fn lemma_decimal_width3_reads_back(n: nat)
    ensures
        all_decimal_digits(decimal_width3(n)),
        decimal_value(decimal_width3(n)) == n,
        decimal_width3(n).len() >= 3,
{
    lemma_decimal_reads_back(n);
    let d = decimal(n);
    if d.len() == 1 {
        assert(decimal_width3(n) =~= seq!['0'] + (seq!['0'] + d));
        lemma_leading_zero(d);
        lemma_leading_zero(seq!['0'] + d);
    } else if d.len() == 2 {
        assert(decimal_width3(n) =~= seq!['0'] + d);
        lemma_leading_zero(d);
    }
}

/// The name of the `index`-th extracted sound is `sound`, then decimal
/// digits that read as `index + 1`, then a dot and the three-letter
/// extension of the format.
pub proof fn lemma_sound_filename_number(index: nat, format: SoundFormat)
    ensures
        ({
            let name = sound_filename_of(index, format);
            &&& name.len() >= 12
            &&& name.subrange(0, 5) == seq!['s', 'o', 'u', 'n', 'd']
            &&& all_decimal_digits(name.subrange(5, name.len() - 4))
            &&& decimal_value(name.subrange(5, name.len() - 4)) == index + 1
            &&& name.subrange(name.len() - 4, name.len() as int) == seq!['.'] + format_name(format)
        }),
{
    lemma_decimal_width3_reads_back(index + 1);
    let name = sound_filename_of(index, format);
    let w = decimal_width3(index + 1);
    assert(name.subrange(0, 5) =~= seq!['s', 'o', 'u', 'n', 'd']);
    assert(name.subrange(5, name.len() - 4) =~= w);
    assert(name.subrange(name.len() - 4, name.len() as int) =~= seq!['.'] + format_name(format));
}

/// Different sounds, or different formats, never get the same file name.
pub proof fn lemma_sound_filenames_distinct(i: nat, j: nat, fi: SoundFormat, fj: SoundFormat)
    requires
        i != j || fi != fj,
    ensures
        sound_filename_of(i, fi) != sound_filename_of(j, fj),
{
    lemma_sound_filename_number(i, fi);
    lemma_sound_filename_number(j, fj);
    let a = sound_filename_of(i, fi);
    let b = sound_filename_of(j, fj);
    if a == b {
        assert(a.subrange(5, a.len() - 4) == b.subrange(5, b.len() - 4));
        assert(i == j);
        assert(seq!['.'] + format_name(fi) == seq!['.'] + format_name(fj));
        assert((seq!['.'] + format_name(fi))[1] == (seq!['.'] + format_name(fj))[1]);
        assert(fi == fj);
    }
}

} // verus!
