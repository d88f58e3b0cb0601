use vstd::prelude::*;

use crate::error::Status;

verus! {

/// A device driver: a store of blocks, one at each address, that can be read and
/// written, and a channel for device-specific commands.
///
/// Drivers implement this trait. A driver promises that a read hands back the block
/// stored at its address when the buffer has that block's length, that reads leave the
/// blocks as they were, and that a write replaces the block at its address and leaves
/// every other address as it was; and that each control command is recorded, in order,
/// in the device's command history, which reads and writes leave as it was.
pub trait Device {
    /// The block stored at `address`.
    spec fn block(&self, address: int) -> Seq<u8>;

    /// The control commands the device has received, with their arguments, oldest first.
    spec fn commands(&self) -> Seq<(usize, usize)>;

    fn read(&mut self, address: u64, buffer: &mut Vec<u8>) -> (r: Result<(), Status>)
        ensures
            final(buffer)@.len() == old(buffer)@.len(),
            forall|a: int| #[trigger] final(self).block(a) == old(self).block(a),
            final(self).commands() == old(self).commands(),
            r is Ok && old(self).block(address as int).len() == old(buffer)@.len() ==> final(buffer)@
                == old(self).block(address as int),
    ;

    fn write(&mut self, address: u64, buffer: &Vec<u8>) -> (r: Result<(), Status>)
        ensures
            forall|a: int| a != address ==> #[trigger] final(self).block(a) == old(self).block(a),
            final(self).commands() == old(self).commands(),
            r is Ok ==> final(self).block(address as int) == buffer@,
    ;

    fn ioctrl(&mut self, command: usize, argument: usize) -> (r: Result<usize, Status>)
        ensures
            forall|a: int| #[trigger] final(self).block(a) == old(self).block(a),
            final(self).commands() == old(self).commands().push((command, argument)),
    ;
}

} // verus!

verus! {

/// A device kept in memory: a fixed number of blocks at addresses 0, 1, 2, ..., each
/// starting out as zeros, and the list of control commands received.
pub struct MemoryDevice {
    blocks: Vec<Vec<u8>>,
    block_size: usize,
    history: Vec<(usize, usize)>,
}

/// The control command that asks a drive for its size, in bytes.
pub const IOCTRL_DRIVE_SIZE: usize = 0;

impl MemoryDevice {
    /// The number of blocks.
    pub closed spec fn spec_block_count(&self) -> nat {
        self.blocks@.len()
    }

    /// The size of each block it was made with.
    pub closed spec fn spec_block_size(&self) -> usize {
        self.block_size
    }

    /// `block_count` blocks of `block_size` zero bytes, and no command received.
    pub fn new(block_count: usize, block_size: usize) -> (r: Self)
        ensures
            r.spec_block_count() == block_count,
            r.spec_block_size() == block_size,
            forall|a: int| 0 <= a < block_count ==> #[trigger] r.block(a) == Seq::new(block_size as nat, |i: int| 0u8),
            r.commands() == Seq::<(usize, usize)>::empty(),
    {
        let mut blocks: Vec<Vec<u8>> = Vec::new();
        let mut i: usize = 0;
        while i < block_count
            invariant
                i <= block_count,
                blocks@.len() == i,
                forall|a: int| 0 <= a < i ==> (#[trigger] blocks@[a])@ == Seq::new(block_size as nat, |j: int| 0u8),
            decreases block_count - i,
        {
            let mut block: Vec<u8> = Vec::new();
            let mut j: usize = 0;
            while j < block_size
                invariant
                    j <= block_size,
                    block@ == Seq::new(j as nat, |k: int| 0u8),
                decreases block_size - j,
            {
                block.push(0);
                j = j + 1;
                proof {
                    assert(block@ =~= Seq::new(j as nat, |k: int| 0u8));
                }
            }
            blocks.push(block);
            i = i + 1;
        }
        MemoryDevice { blocks, block_size, history: Vec::new() }
    }

    /// The number of blocks.
    pub fn block_count(&self) -> (r: usize)
        ensures
            r == self.spec_block_count(),
    {
        self.blocks.len()
    }

    /// The control commands received, oldest first.
    pub fn command_history(&self) -> (r: Vec<(usize, usize)>)
        ensures
            r@ == self.commands(),
    {
        let mut r: Vec<(usize, usize)> = Vec::new();
        let mut i: usize = 0;
        while i < self.history.len()
            invariant
                i <= self.history@.len(),
                r@ == self.history@.take(i as int),
            decreases self.history@.len() - i,
        {
            r.push(self.history[i]);
            i = i + 1;
            proof {
                assert(r@ =~= self.history@.take(i as int));
            }
        }
        proof {
            assert(self.history@.take(i as int) =~= self.history@);
        }
        r
    }
}

impl Device for MemoryDevice {
    /// The block at `address`; nothing outside the device.
    closed spec fn block(&self, address: int) -> Seq<u8> {
        if 0 <= address < self.blocks@.len() {
            self.blocks@[address]@
        } else {
            Seq::empty()
        }
    }

    closed spec fn commands(&self) -> Seq<(usize, usize)> {
        self.history@
    }

    /// Copies the block at `address` into `buffer`; fails with `OutOfRange` when there is no
    /// such block or the buffer has another length.
    fn read(&mut self, address: u64, buffer: &mut Vec<u8>) -> (r: Result<(), Status>)
        ensures
            r is Ok <==> address < old(self).spec_block_count() && old(self).block(address as int).len()
                == old(buffer)@.len(),
            r is Err ==> r == Err::<(), Status>(Status::OutOfRange) && final(buffer)@ == old(buffer)@,
            final(self).spec_block_count() == old(self).spec_block_count(),
            final(self).spec_block_size() == old(self).spec_block_size(),
    {
        if address >= self.blocks.len() as u64 {
            return Err(Status::OutOfRange);
        }
        let a = address as usize;
        if self.blocks[a].len() != buffer.len() {
            return Err(Status::OutOfRange);
        }
        let mut i: usize = 0;
        while i < buffer.len()
            invariant
                a < self.blocks@.len(),
                self.blocks@[a as int]@.len() == buffer@.len(),
                buffer@.len() == old(buffer)@.len(),
                i <= buffer@.len(),
                forall|k: int| 0 <= k < i ==> buffer@[k] == self.blocks@[a as int]@[k],
                self.blocks == old(self).blocks,
                self.history == old(self).history,
            decreases buffer@.len() - i,
        {
            buffer.set(i, self.blocks[a][i]);
            i = i + 1;
        }
        proof {
            assert(buffer@ =~= self.blocks@[a as int]@);
        }
        Ok(())
    }

    /// Replaces the block at `address` by `buffer`; fails with `OutOfRange` when there is no
    /// such block.
    fn write(&mut self, address: u64, buffer: &Vec<u8>) -> (r: Result<(), Status>)
        ensures
            r is Ok <==> address < old(self).spec_block_count(),
            r is Err ==> r == Err::<(), Status>(Status::OutOfRange),
            final(self).spec_block_count() == old(self).spec_block_count(),
            final(self).spec_block_size() == old(self).spec_block_size(),
    {
        if address >= self.blocks.len() as u64 {
            return Err(Status::OutOfRange);
        }
        let a = address as usize;
        let mut copy: Vec<u8> = Vec::new();
        let mut i: usize = 0;
        while i < buffer.len()
            invariant
                i <= buffer@.len(),
                copy@ == buffer@.take(i as int),
            decreases buffer@.len() - i,
        {
            copy.push(buffer[i]);
            i = i + 1;
            proof {
                assert(copy@ =~= buffer@.take(i as int));
            }
        }
        proof {
            assert(buffer@.take(i as int) =~= buffer@);
        }
        self.blocks.set(a, copy);
        Ok(())
    }

    /// Records the command; answers the size in bytes (at most `usize::MAX`) to
    /// `IOCTRL_DRIVE_SIZE`, and 0 to any other.
    fn ioctrl(&mut self, command: usize, argument: usize) -> (r: Result<usize, Status>)
        ensures
            command == IOCTRL_DRIVE_SIZE ==> r == Ok::<usize, Status>(
                if old(self).spec_block_count() * old(self).spec_block_size() <= usize::MAX {
                    (old(self).spec_block_count() * old(self).spec_block_size()) as usize
                } else {
                    usize::MAX
                },
            ),
            command != IOCTRL_DRIVE_SIZE ==> r == Ok::<usize, Status>(0),
            final(self).spec_block_count() == old(self).spec_block_count(),
            final(self).spec_block_size() == old(self).spec_block_size(),
    {
        self.history.push((command, argument));
        if command == IOCTRL_DRIVE_SIZE {
            match self.blocks.len().checked_mul(self.block_size) {
                Some(n) => Ok(n),
                None => Ok(usize::MAX),
            }
        } else {
            Ok(0)
        }
    }
}

} // verus!
