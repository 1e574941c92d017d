use vstd::prelude::*;

verus! {

/// Locates one serialized entry on disk: the segment file that holds it,
/// the character offset at which it starts, and its length in characters.
///
/// A position recorded by the store always satisfies
/// `start_position + length <= ` the segment's size.
#[derive(Clone, Copy, Debug, PartialEq, Eq)]
pub struct Position {
    /// The id of the segment file holding the entry.
    pub file_index: u64,
    /// The offset of the entry's first character within the segment.
    pub start_position: u64,
    /// How many characters the serialized entry occupies.
    pub length: u64,
}

impl From<(u64, u64, u64)> for Position {
    /// Builds a position from `(file index, start, end)` bounds; an end
    /// before the start yields an empty length.
    fn from(bounds: (u64, u64, u64)) -> (r: Position) {
        Position {
            file_index: bounds.0,
            start_position: bounds.1,
            length: if bounds.2 >= bounds.1 {
                bounds.2 - bounds.1
            } else {
                0
            },
        }
    }
}

impl vstd::std_specs::convert::FromSpecImpl<(u64, u64, u64)> for Position {
    open spec fn obeys_from_spec() -> bool {
        true
    }

    open spec fn from_spec(bounds: (u64, u64, u64)) -> Position {
        Position {
            file_index: bounds.0,
            start_position: bounds.1,
            length: if bounds.2 >= bounds.1 {
                (bounds.2 - bounds.1) as u64
            } else {
                0
            },
        }
    }
}

} // verus!
