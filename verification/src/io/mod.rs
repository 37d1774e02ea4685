pub mod text;
pub mod stp_reader;

pub use stp_reader::StpReader;

use vstd::prelude::*;

verus! {

/// Supported input file formats.
#[derive(Debug, Clone, Copy, PartialEq, Eq, Structural)]
pub enum FileFormat {
    /// SteinLib .stp format
    Stp,
}

} // verus!
