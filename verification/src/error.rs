//! The failures that the mosaic engine reports instead of panicking.

use vstd::prelude::*;

verus! {

/// Why a request was rejected.
#[derive(Clone, Copy, Debug, PartialEq, Eq, Structural)]
pub enum MosaicError {
    /// A count or dimension is zero: no tiles, no cells, an empty image, or
    /// an aspect ratio with a zero side.
    DegenerateInput,
    /// No grid within the search bound holds the requested number of tiles.
    Ungridable,
    /// A size or an accumulated cost does not fit the integer type that
    /// carries it.
    TooLarge,
}

impl MosaicError {
    /// The description of each error.
    pub open spec fn description(&self) -> Seq<char> {
        match self {
            MosaicError::DegenerateInput => "degenerate input: zero tiles, zero cells, an empty image or a zero aspect ratio"@,
            MosaicError::Ungridable => "ungridable: no grid within the search bound holds that many tiles"@,
            MosaicError::TooLarge => "too large: a size or cost exceeds the supported range"@,
        }
    }

    /// A one-line description for the person running the tool.
    pub fn message(&self) -> (text: &'static str)
        ensures
            text@ == self.description(),
            text@.len() > 0,
    {
        match self {
            MosaicError::DegenerateInput => {
                proof {
                    reveal_strlit("degenerate input: zero tiles, zero cells, an empty image or a zero aspect ratio");
                }
                "degenerate input: zero tiles, zero cells, an empty image or a zero aspect ratio"
            },
            MosaicError::Ungridable => {
                proof {
                    reveal_strlit("ungridable: no grid within the search bound holds that many tiles");
                }
                "ungridable: no grid within the search bound holds that many tiles"
            },
            MosaicError::TooLarge => {
                proof {
                    reveal_strlit("too large: a size or cost exceeds the supported range");
                }
                "too large: a size or cost exceeds the supported range"
            },
        }
    }
}

} // verus!
