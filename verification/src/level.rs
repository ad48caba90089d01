//! What a caller asks for: the compression level and what is known of the input.

use vstd::prelude::*;

verus! {

/// Compression level. The named tiers stand for numbers on the ladder from 0
/// (raw blocks) to 22.
#[derive(Clone, Copy, PartialEq, Eq, Structural, Debug)]
pub enum Level {
    Uncompressed,
    Fastest,
    Fast,
    Balanced,
    Best,
    Opt,
    Ultra,
    /// Any other rung of the ladder.
    Numbered(i32),
}

impl Level {
    /// The level's number.
    pub open spec fn number(self) -> int {
        match self {
            Level::Uncompressed => 0,
            Level::Fastest => 1,
            Level::Fast => 3,
            Level::Balanced => 9,
            Level::Best => 13,
            Level::Opt => 17,
            Level::Ultra => 19,
            Level::Numbered(n) => n as int,
        }
    }

    /// The level's number.
    pub fn as_i32(self) -> (r: i32)
        ensures
            r == self.number(),
    {
        match self {
            Level::Uncompressed => 0,
            Level::Fastest => 1,
            Level::Fast => 3,
            Level::Balanced => 9,
            Level::Best => 13,
            Level::Opt => 17,
            Level::Ultra => 19,
            Level::Numbered(n) => n,
        }
    }

    /// The level of a number; tiers come back under their names.
    pub fn from_zstd(n: i32) -> (r: Self)
        ensures
            r.number() == n,
            r matches Level::Numbered(m) ==> m != 0 && m != 1 && m != 3 && m != 9 && m != 13 && m != 17 && m != 19,
    {
        if n == 0 {
            Level::Uncompressed
        } else if n == 1 {
            Level::Fastest
        } else if n == 3 {
            Level::Fast
        } else if n == 9 {
            Level::Balanced
        } else if n == 13 {
            Level::Best
        } else if n == 17 {
            Level::Opt
        } else if n == 19 {
            Level::Ultra
        } else {
            Level::Numbered(n)
        }
    }

    /// Row of the ladder that the level runs on.
    pub open spec fn rung(self) -> int {
        if self.number() < 0 {
            0
        } else if self.number() > 22 {
            22
        } else {
            self.number()
        }
    }
}

/// What a caller declares about the input before it is seen.
#[derive(Clone, Copy, Debug)]
pub struct InputShape {
    /// Length, if known.
    pub len: Option<u64>,
    /// Window log to force, if any.
    pub window_log: Option<u32>,
}

impl InputShape {
    /// Nothing is known.
    pub fn unknown() -> (r: Self)
        ensures
            r.len is None,
            r.window_log is None,
    {
        InputShape { len: None, window_log: None }
    }

    /// The shape with a known length.
    pub fn with_len(self, n: u64) -> (r: Self)
        ensures
            r.len == Some(n),
            r.window_log == self.window_log,
    {
        InputShape { len: Some(n), window_log: self.window_log }
    }

    /// The shape with a forced window log.
    pub fn with_window_log(self, log: u32) -> (r: Self)
        ensures
            r.len == self.len,
            r.window_log == Some(log),
    {
        InputShape { len: self.len, window_log: Some(log) }
    }
}

impl Default for InputShape {
    /// Nothing is known.
    fn default() -> (r: Self)
        ensures
            r.len is None,
            r.window_log is None,
    {
        InputShape::unknown()
    }
}

} // verus!
