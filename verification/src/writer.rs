use vstd::prelude::*;

use vstd::string::StrSliceExecFns;

use crate::codec::{encode, spec_encode};
use crate::entry::Entry;
use crate::position::Position;

verus! {

/// The append-only writer: it serializes entries and hands each one a fresh
/// segment, tracking the id the next append will use and the write offset
/// within the segment just written.
///
/// Writing each entry into a brand-new segment file is a deliberate design
/// choice: a segment that exists on disk holds exactly one complete entry at
/// offset zero, which keeps the durability argument and compaction's
/// liveness tracking trivial, at the price of more file-system objects.
#[derive(Debug)]
pub struct BufWriterWithPosition {
    next_index: u64,
    position: u64,
}

impl BufWriterWithPosition {
    /// The id of the segment the next append will create.
    pub closed spec fn spec_next_index(&self) -> u64 {
        self.next_index
    }

    /// The write offset within the segment written last.
    pub closed spec fn spec_position(&self) -> u64 {
        self.position
    }

    /// The id of the segment the next append will create.
    pub fn next_index(&self) -> (r: u64)
        ensures
            r == self.spec_next_index(),
    {
        self.next_index
    }

    /// A writer whose next append creates segment `next_index`.
    pub fn new(next_index: u64) -> (r: Self)
        ensures
            r.spec_next_index() == next_index,
            r.spec_position() == 0,
    {
        BufWriterWithPosition { next_index, position: 0 }
    }

    /// Serializes `entry` into a fresh segment: yields the position the
    /// entry occupies there and the segment's full text, and advances the
    /// writer to the next segment id.
    pub fn append_to_log(&mut self, entry: &Entry) -> (r: (Position, String))
        requires
            old(self).spec_next_index() < u64::MAX,
        ensures
            r.1@ == spec_encode(entry@),
            r.0.file_index == old(self).spec_next_index(),
            r.0.start_position == 0,
            r.0.length as nat == spec_encode(entry@).len(),
            final(self).spec_next_index() == old(self).spec_next_index() + 1,
            final(self).spec_position() == r.0.length,
    {
        let content = encode(entry);
        let length = content.as_str().unicode_len() as u64;
        let position = Position { file_index: self.next_index, start_position: 0, length };
        self.position = length;
        self.next_index = self.next_index + 1;
        (position, content)
    }
}

} // verus!
