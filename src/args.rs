use vstd::prelude::*;

verus! {

/// The command line of the program.
pub struct Args {
    pub subcommand: Command,
}

/// What the program is asked to do.
pub enum Command {
    Decode(Decode),
}

/// The options of a decode.
pub struct Decode {
    /// The format of the file to decode.
    pub format: Format,
    /// The file or audio device to decode from.
    pub input: String,
    /// The file to write the output to.
    pub output: String,
    /// Whether the audio device should be used as input.
    pub audio_input: bool,
    /// Whether checksums should be ignored.
    pub ignore_checksums: bool,
}

/// How the decoded bursts are read.
#[derive(Debug, Clone, Copy, PartialEq, Eq, Structural)]
pub enum Format {
    /// Each burst is written out as it is.
    Raw,
    /// The bursts are the records of one text file.
    Text,
}

impl Format {
    /// The name of the format, as given on the command line.
    pub fn as_str(&self) -> (r: &'static str)
        ensures
            *self == Format::Raw ==> r@ == "raw"@,
            *self == Format::Text ==> r@ == "text"@,
    {
        match self {
            Format::Raw => "raw",
            Format::Text => "text",
        }
    }
}

} // verus!
