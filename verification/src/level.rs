//! The compression levels.
use vstd::prelude::*;

verus! {

/// How the data are compressed. Level 1 refers to earlier data by hash, level 3
/// by distance.
#[derive(PartialEq, Eq, Structural, Hash, Debug, Clone, Copy)]
pub enum CompressionLevel {
    Lvl1,
    Lvl3,
}

impl CompressionLevel {
    /// The number of the level in a header.
    pub open spec fn number(self) -> u8 {
        match self {
            CompressionLevel::Lvl1 => 1,
            CompressionLevel::Lvl3 => 3,
        }
    }

    /// The number of the level in a header.
    pub fn as_u8(&self) -> (n: u8)
        ensures
            n == self.number(),
    {
        match *self {
            CompressionLevel::Lvl1 => 1,
            CompressionLevel::Lvl3 => 3,
        }
    }
}

}
