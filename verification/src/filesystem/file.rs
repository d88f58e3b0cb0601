use vstd::prelude::*;

verus! {

/// What a directory records of a file: its size.
#[derive(Debug, Clone, Copy, PartialEq, Eq, Structural)]
pub struct FileMetadata {
    size: usize,
}

impl FileMetadata {
    pub closed spec fn spec_size(&self) -> usize {
        self.size
    }

    pub fn new(size: usize) -> (r: Self)
        ensures
            r.spec_size() == size,
    {
        FileMetadata { size: size }
    }

    pub fn size(&self) -> (r: usize)
        ensures
            r == self.spec_size(),
    {
        self.size
    }

    pub fn set_size(&mut self, new_size: usize)
        ensures
            final(self).spec_size() == new_size,
    {
        self.size = new_size
    }
}

} // verus!
