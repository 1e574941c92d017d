use vstd::prelude::*;

use vstd::string::StrSliceExecFns;
use vstd::string::StringExecFns;

use crate::error::{ErrorKind, KvsError};

verus! {

/// A position-tracking reader over one segment's text. The store keeps one
/// per segment in its reader cache; its view is the segment's characters.
#[derive(Debug)]
pub struct BufReaderWithPosition {
    reader: String,
    position: u64,
}

impl View for BufReaderWithPosition {
    type V = Seq<char>;

    closed spec fn view(&self) -> Seq<char> {
        self.reader@
    }
}

impl BufReaderWithPosition {
    /// Where the next read starts.
    pub closed spec fn spec_position(&self) -> u64 {
        self.position
    }

    /// Wraps the given segment text in a reader positioned at its start.
    pub fn new(text: String) -> (r: Result<Self, KvsError>)
        ensures
            r matches Ok(b) && b@ == text@ && b.spec_position() == 0,
    {
        Ok(BufReaderWithPosition { reader: text, position: 0 })
    }

    /// The whole segment text.
    pub fn contents(&self) -> (r: &str)
        ensures
            r@ == self@,
    {
        self.reader.as_str()
    }

    /// Moves the read position to `position`, counted from the start of the
    /// segment. Seeking past the end of the text is an error and leaves the
    /// reader unchanged.
    pub fn seek(&mut self, position: u64) -> (r: Result<u64, KvsError>)
        ensures
            final(self)@ == old(self)@,
            position <= old(self)@.len() ==> (r matches Ok(p) && p == position && final(self).spec_position() == position),
            position > old(self)@.len() ==> (r matches Err(e) && e.kind == ErrorKind::Io && final(self).spec_position() == old(self).spec_position()),
    {
        let n = self.reader.as_str().unicode_len();
        if position > n as u64 {
            return Err(
                KvsError::new(ErrorKind::Io, "Seek past the end of the segment.".to_owned()),
            );
        }
        self.position = position;
        Ok(position)
    }

    /// Reads exactly `length` characters from the current position and
    /// advances past them. Reading past the end of the text is an error and
    /// leaves the reader unchanged.
    pub fn read(&mut self, length: u64) -> (r: Result<String, KvsError>)
        ensures
            final(self)@ == old(self)@,
            old(self).spec_position() + length <= old(self)@.len() ==> (r matches Ok(t) && t@
                == old(self)@.subrange(
                old(self).spec_position() as int,
                old(self).spec_position() + length,
            ) && final(self).spec_position() == old(self).spec_position() + length),
            old(self).spec_position() + length > old(self)@.len() ==> (r matches Err(e) && e.kind
                == ErrorKind::Io && final(self).spec_position() == old(self).spec_position()),
    {
        let n = self.reader.as_str().unicode_len();
        if self.position > n as u64 || length > n as u64 - self.position {
            return Err(
                KvsError::new(ErrorKind::Io, "Read past the end of the segment.".to_owned()),
            );
        }
        let start = self.position as usize;
        let end = start + length as usize;
        let text = self.reader.as_str().substring_char(start, end).to_owned();
        self.position = self.position + length;
        Ok(text)
    }
}

} // verus!
