use vstd::prelude::*;

use crate::error::Status;

verus! {

/// Where a seek counts from.
#[derive(Debug, Clone, Copy, PartialEq, Eq, Structural)]
pub enum SeekFrom {
    Start,
    Current,
    End,
}

/// The origin with number `val`: 1 is the current offset, 2 the end, and any other the
/// start.
pub open spec fn seek_from_number(val: usize) -> SeekFrom {
    if val == 1 {
        SeekFrom::Current
    } else if val == 2 {
        SeekFrom::End
    } else {
        SeekFrom::Start
    }
}

impl From<usize> for SeekFrom {
    fn from(val: usize) -> (r: Self) {
        match val {
            1 => SeekFrom::Current,
            2 => SeekFrom::End,
            _ => SeekFrom::Start,
        }
    }
}

impl vstd::std_specs::convert::FromSpecImpl<usize> for SeekFrom {
    open spec fn obeys_from_spec() -> bool {
        true
    }

    open spec fn from_spec(val: usize) -> Self {
        seek_from_number(val)
    }
}

/// Where the next read or write of an open file starts, and whether the file may be read
/// and written through it.
pub struct FileDescriptor {
    current_offset: usize,
    read: bool,
    write: bool,
}

impl FileDescriptor {
    pub closed spec fn spec_offset(&self) -> usize {
        self.current_offset
    }

    pub closed spec fn spec_read(&self) -> bool {
        self.read
    }

    pub closed spec fn spec_write(&self) -> bool {
        self.write
    }

    pub fn new(read: bool, write: bool, starting_offset: usize) -> (r: Self)
        ensures
            r.spec_offset() == starting_offset,
            r.spec_read() == read,
            r.spec_write() == write,
    {
        FileDescriptor { current_offset: starting_offset, read, write }
    }

    /// Where the next read or write starts.
    pub fn offset(&self) -> (r: usize)
        ensures
            r == self.spec_offset(),
    {
        self.current_offset
    }

    /// A descriptor opened without reading refuses a read.
    pub fn check_read(&self) -> (r: Result<(), Status>)
        ensures
            self.spec_read() ==> r is Ok,
            !self.spec_read() ==> r == Err::<(), Status>(Status::WriteOnly),
    {
        if !self.read {
            return Err(Status::WriteOnly);
        }
        Ok(())
    }

    /// A descriptor opened without writing refuses a write or a change of length.
    pub fn check_write(&self) -> (r: Result<(), Status>)
        ensures
            self.spec_write() ==> r is Ok,
            !self.spec_write() ==> r == Err::<(), Status>(Status::ReadOnly),
    {
        if !self.write {
            return Err(Status::ReadOnly);
        }
        Ok(())
    }

    /// After a read or a write that moved `moved` bytes (none when it is not positive),
    /// the next one starts past them.
    pub fn advance(&mut self, moved: isize)
        requires
            moved > 0 ==> old(self).spec_offset() + moved <= usize::MAX,
        ensures
            final(self).spec_read() == old(self).spec_read(),
            final(self).spec_write() == old(self).spec_write(),
            final(self).spec_offset() == if moved > 0 {
                old(self).spec_offset() + moved
            } else {
                old(self).spec_offset() as int
            },
    {
        if moved > 0 {
            self.current_offset = self.current_offset + moved as usize;
        }
    }

    /// Moves the offset to `offset` counted from the start, the current offset or the end
    /// of a file of `length` bytes, and gives the new offset.
    pub fn seek(&mut self, offset: usize, seek_from: SeekFrom, length: usize) -> (r: usize)
        requires
            seek_from is Current ==> old(self).spec_offset() + offset <= usize::MAX,
            seek_from is End ==> length + offset <= usize::MAX,
        ensures
            final(self).spec_read() == old(self).spec_read(),
            final(self).spec_write() == old(self).spec_write(),
            r == final(self).spec_offset(),
            r == match seek_from {
                SeekFrom::Start => offset as int,
                SeekFrom::Current => old(self).spec_offset() + offset,
                SeekFrom::End => length + offset,
            },
    {
        match seek_from {
            SeekFrom::Start => self.current_offset = offset,
            SeekFrom::Current => self.current_offset = self.current_offset + offset,
            SeekFrom::End => self.current_offset = length + offset,
        }
        self.current_offset
    }
}

} // verus!
