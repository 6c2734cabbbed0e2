//! The command-line surface of the tool: which subcommand was asked for and
//! its argument. The surrounding binary parses `argv` into this shape and
//! turns the library's failures into messages and a non-zero exit.

use vstd::prelude::*;

verus! {

/// A parsed command line: exactly one subcommand.
pub struct Cli {
    pub commands: Commands,
}

/// The subcommands the tool offers.
pub enum Commands {
    /// Decodes the serialized bencoded value into a printable format.
    Decode { bencoded_value: String },
    /// Parses a torrent file, given by path, and extracts information from
    /// it.
    Info { torrent_file: String },
}

} // verus!
