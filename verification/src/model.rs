//! The records that sorting reads: games, their ROMs and the files that hold them.
use vstd::prelude::*;

verus! {

/// A game of a system, with the regions it was released in (such as `"USA, Europe"`).
#[derive(Clone, Debug, PartialEq, Eq)]
pub struct Game {
    pub id: i64,
    pub name: String,
    pub regions: String,
}

/// A ROM of a game, named as in the DAT file, with its CRC.
#[derive(Clone, Debug, PartialEq, Eq)]
pub struct Rom {
    pub id: i64,
    pub name: String,
    pub crc: String,
}

/// A file on disk that holds one or more ROMs.
#[derive(Clone, Debug, PartialEq, Eq)]
pub struct Romfile {
    pub id: i64,
    pub path: String,
}

} // verus!
