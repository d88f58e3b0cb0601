use vstd::prelude::*;

use crate::error::Status;

verus! {

/// A byte pipe: the bytes written and not yet read, first written first, and how many
/// readers and writers hold it.
pub struct Pipe {
    buffer: std::collections::VecDeque<u8>,
    reader_count: usize,
    writer_count: usize,
}

/// The bytes a read of at most `n` bytes takes from a pipe holding `contents`.
pub open spec fn bytes_read(contents: Seq<u8>, n: int) -> Seq<u8> {
    if n < contents.len() {
        contents.take(n)
    } else {
        contents
    }
}

impl Pipe {
    /// The bytes written and not yet read, oldest first.
    pub closed spec fn contents(&self) -> Seq<u8> {
        self.buffer@
    }

    pub closed spec fn readers(&self) -> usize {
        self.reader_count
    }

    pub closed spec fn writers(&self) -> usize {
        self.writer_count
    }

    /// An empty pipe with one reader and one writer.
    pub fn new() -> (r: Pipe)
        ensures
            r.contents() == Seq::<u8>::empty(),
            r.readers() == 1,
            r.writers() == 1,
    {
        Pipe { buffer: std::collections::VecDeque::new(), reader_count: 1, writer_count: 1 }
    }

    /// Moves the oldest bytes of the pipe into `buffer`, as many as fit and as the pipe
    /// holds, and says how many. Fails when no writer is left.
    pub fn read(&mut self, buffer: &mut [u8]) -> (r: Result<usize, Status>)
        ensures
            old(self).writers() < 1 ==> r == Err::<usize, Status>(Status::NoWriters) && *final(self) == *old(self)
                && final(buffer)@ == old(buffer)@,
            old(self).writers() >= 1 ==> r is Ok,
            r matches Ok(n) ==> {
                let got = bytes_read(old(self).contents(), old(buffer)@.len() as int);
                &&& n == got.len()
                &&& final(buffer)@ == got + old(buffer)@.skip(n as int)
                &&& old(self).contents() == got + final(self).contents()
                &&& final(self).readers() == old(self).readers()
                &&& final(self).writers() == old(self).writers()
            },
    {
        if self.writer_count < 1 {
            return Err(Status::NoWriters);
        }
        let ghost contents = self.buffer@;
        let ghost original = buffer@;
        let mut i: usize = 0;
        while i < buffer.len()
            invariant
                i <= buffer@.len(),
                buffer@.len() == original.len(),
                i <= contents.len(),
                buffer@ == contents.take(i as int) + original.skip(i as int),
                self.buffer@ == contents.skip(i as int),
                self.reader_count == old(self).reader_count,
                self.writer_count == old(self).writer_count,
                self.writer_count >= 1,
                contents == old(self).buffer@,
                original == old(buffer)@,
            decreases buffer@.len() - i,
        {
            match self.buffer.pop_front() {
                Some(val) => {
                    proof {
                        assert(val == contents[i as int]);
                    }
                    buffer[i] = val;
                    proof {
                        assert(buffer@ =~= contents.take(i + 1) + original.skip(i + 1));
                        assert(self.buffer@ =~= contents.skip(i + 1));
                    }
                },
                None => {
                    proof {
                        assert(contents.take(i as int) =~= contents);
                        assert(contents =~= contents + self.buffer@);
                    }
                    return Ok(i);
                },
            }
            i = i + 1;
        }
        proof {
            assert(contents =~= contents.take(i as int) + contents.skip(i as int));
        }
        Ok(buffer.len())
    }

    /// Appends `buffer` to the pipe. Fails when no reader is left.
    pub fn write(&mut self, buffer: &[u8]) -> (r: Result<(), Status>)
        ensures
            old(self).readers() < 1 ==> r == Err::<(), Status>(Status::NoReaders) && *final(self) == *old(self),
            old(self).readers() >= 1 ==> r is Ok && final(self).contents() == old(self).contents() + buffer@
                && final(self).readers() == old(self).readers() && final(self).writers() == old(self).writers(),
    {
        if self.reader_count < 1 {
            return Err(Status::NoReaders);
        }
        let mut i: usize = 0;
        while i < buffer.len()
            invariant
                i <= buffer@.len(),
                self.buffer@ == old(self).buffer@ + buffer@.take(i as int),
                self.reader_count == old(self).reader_count,
                self.writer_count == old(self).writer_count,
            decreases buffer@.len() - i,
        {
            self.buffer.push_back(buffer[i]);
            proof {
                assert(buffer@.take(i + 1) =~= buffer@.take(i as int).push(buffer@[i as int]));
            }
            i = i + 1;
        }
        proof {
            assert(buffer@.take(i as int) =~= buffer@);
        }
        Ok(())
    }

    pub fn increment_write(&mut self)
        requires
            old(self).writers() < usize::MAX,
        ensures
            final(self).writers() == old(self).writers() + 1,
            final(self).readers() == old(self).readers(),
            final(self).contents() == old(self).contents(),
    {
        self.writer_count = self.writer_count + 1;
    }

    pub fn increment_read(&mut self)
        requires
            old(self).readers() < usize::MAX,
        ensures
            final(self).readers() == old(self).readers() + 1,
            final(self).writers() == old(self).writers(),
            final(self).contents() == old(self).contents(),
    {
        self.reader_count = self.reader_count + 1;
    }

    pub fn decrement_write(&mut self)
        requires
            old(self).writers() > 0,
        ensures
            final(self).writers() == old(self).writers() - 1,
            final(self).readers() == old(self).readers(),
            final(self).contents() == old(self).contents(),
    {
        self.writer_count = self.writer_count - 1;
    }

    pub fn decrement_read(&mut self)
        requires
            old(self).readers() > 0,
        ensures
            final(self).readers() == old(self).readers() - 1,
            final(self).writers() == old(self).writers(),
            final(self).contents() == old(self).contents(),
    {
        self.reader_count = self.reader_count - 1;
    }
}

/// A pipe hands bytes out in the order they were written: from a pipe that holds
/// `contents`, after `data` is written, a read of at most `n` bytes gets the first `n`
/// bytes of `contents` followed by `data`, and the pipe keeps the rest.
pub proof fn lemma_pipe_fifo(contents: Seq<u8>, data: Seq<u8>, n: nat)
    ensures
        bytes_read(contents + data, n as int) == (contents + data).take(
            if n < contents.len() + data.len() {
                n as int
            } else {
                (contents.len() + data.len()) as int
            },
        ),
        n >= contents.len() ==> bytes_read(contents + data, n as int).take(contents.len() as int) == contents,
        n >= contents.len() + data.len() ==> bytes_read(contents + data, n as int) == contents + data,
{
    let all = contents + data;
    assert(all.take(all.len() as int) =~= all);
    if n >= contents.len() {
        if n < all.len() {
            assert(all.take(n as int).take(contents.len() as int) =~= contents);
        } else {
            assert(all.take(contents.len() as int) =~= contents);
        }
    }
}

} // verus!
