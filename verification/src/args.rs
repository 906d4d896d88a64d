//! The command line of the tool, as plain data: what to do and with which
//! files, and the format that extracted sounds are written in.
use vstd::prelude::*;

verus! {

/// The parsed command line.
pub struct Arguments {
    pub command: Commands,
}

/// What the tool is asked to do.
pub enum Commands {
    /// Extract an SFX file to a directory.
    Extract {
        /// Path to an SFX file.
        input_sfx: String,
        /// Output directory for the extracted sound files (default: the
        /// current directory).
        output_dir: Option<String>,
        /// Format of the extracted sound files.
        format: SoundFormat,
    },
    /// Build an SFX file from a config file.
    Build {
        /// Path to a YAML config file.
        input_config: String,
        /// Path of the SFX file to write.
        output_sfx: String,
    },
}

/// The format of a sound file on disk: a WAV file, or the raw encoded SPU
/// ADPCM data.
#[derive(Clone, Copy, PartialEq, Eq, PartialOrd, Ord, Debug, Structural)]
pub enum SoundFormat {
    Wav,
    Raw,
}

/// The lower-case name of a format, which is also its file extension.
pub open spec fn format_name(format: SoundFormat) -> Seq<char> {
    match format {
        SoundFormat::Wav => seq!['w', 'a', 'v'],
        SoundFormat::Raw => seq!['r', 'a', 'w'],
    }
}

impl SoundFormat {
    /// The lower-case name of the format ("wav" or "raw"), which is also
    /// the extension of its files.
    pub fn name(&self) -> (name: &'static str)
        ensures
            name@ == format_name(*self),
    {
        match self {
            SoundFormat::Wav => {
                proof {
                    reveal_strlit("wav");
                }
                "wav"
            },
            SoundFormat::Raw => {
                proof {
                    reveal_strlit("raw");
                }
                "raw"
            },
        }
    }
}

/// The directory that extracted sounds go to: the one given, or else the
/// current directory (".").
pub fn output_directory(output_dir: Option<String>) -> (dir: String)
    ensures
        dir@ == match output_dir {
            Some(d) => d@,
            None => seq!['.'],
        },
{
    match output_dir {
        Some(d) => d,
        None => {
            proof {
                reveal_strlit(".");
            }
            ".".to_owned()
        },
    }
}

} // verus!
