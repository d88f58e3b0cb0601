use vstd::prelude::*;

use crate::bytes::le64;

verus! {

/// The size of a kernel stack: 32 KiB.
pub const KERNEL_STACK_SIZE: usize = 32 * 1024;

/// A kernel stack: its memory, the address where that memory starts, the address just past
/// its end, and the stack pointer, which starts at the top and moves down.
pub struct Stack {
    memory: Vec<u8>,
    base: usize,
    top: usize,
    pointer: usize,
}

impl Stack {
    pub closed spec fn wf(&self) -> bool {
        &&& self.memory@.len() == KERNEL_STACK_SIZE
        &&& self.top == self.base + KERNEL_STACK_SIZE
        &&& self.base <= self.pointer <= self.top
    }

    /// The bytes of the stack, from its base up.
    pub closed spec fn contents(&self) -> Seq<u8> {
        self.memory@
    }

    pub closed spec fn spec_base(&self) -> usize {
        self.base
    }

    pub closed spec fn spec_top(&self) -> usize {
        self.top
    }

    pub closed spec fn spec_pointer(&self) -> usize {
        self.pointer
    }

    /// An empty stack over `memory`, which starts at address `base`.
    pub fn new(memory: Vec<u8>, base: usize) -> (r: Self)
        requires
            memory@.len() == KERNEL_STACK_SIZE,
            base + KERNEL_STACK_SIZE <= usize::MAX,
        ensures
            r.wf(),
            r.contents() == memory@,
            r.spec_base() == base,
            r.spec_top() == base + KERNEL_STACK_SIZE,
            r.spec_pointer() == r.spec_top(),
    {
        let top = base + KERNEL_STACK_SIZE;
        Stack { memory, base, top, pointer: top }
    }

    /// Pushes `value`: moves the pointer down one word and stores the value there, least
    /// significant byte first.
    pub fn push(&mut self, value: u64)
        requires
            old(self).wf(),
            old(self).spec_pointer() >= old(self).spec_base() + 8,
        ensures
            final(self).wf(),
            final(self).spec_base() == old(self).spec_base(),
            final(self).spec_top() == old(self).spec_top(),
            final(self).spec_pointer() == old(self).spec_pointer() - 8,
            le64(final(self).contents(), final(self).spec_pointer() - final(self).spec_base()) == value,
            forall|i: int|
                0 <= i < KERNEL_STACK_SIZE && !(final(self).spec_pointer() - final(self).spec_base() <= i
                    < final(self).spec_pointer() - final(self).spec_base() + 8) ==> #[trigger] final(self).contents()[i]
                    == old(self).contents()[i],
    {
        self.pointer = self.pointer - 8;
        let at = self.pointer - self.base;
        let b0 = (value & 0xFF) as u8;
        let b1 = ((value >> 8u64) & 0xFF) as u8;
        let b2 = ((value >> 16u64) & 0xFF) as u8;
        let b3 = ((value >> 24u64) & 0xFF) as u8;
        let b4 = ((value >> 32u64) & 0xFF) as u8;
        let b5 = ((value >> 40u64) & 0xFF) as u8;
        let b6 = ((value >> 48u64) & 0xFF) as u8;
        let b7 = ((value >> 56u64) & 0xFF) as u8;
        self.memory.set(at, b0);
        self.memory.set(at + 1, b1);
        self.memory.set(at + 2, b2);
        self.memory.set(at + 3, b3);
        self.memory.set(at + 4, b4);
        self.memory.set(at + 5, b5);
        self.memory.set(at + 6, b6);
        self.memory.set(at + 7, b7);
        proof {
            assert(value == b0 + 256 * b1 + 65536 * b2 + 16777216 * b3 + 4294967296 * (b4 + 256 * b5 + 65536 * b6
                + 16777216 * b7)) by (bit_vector)
                requires
                    b0 == (value & 0xFF) as u8,
                    b1 == ((value >> 8u64) & 0xFF) as u8,
                    b2 == ((value >> 16u64) & 0xFF) as u8,
                    b3 == ((value >> 24u64) & 0xFF) as u8,
                    b4 == ((value >> 32u64) & 0xFF) as u8,
                    b5 == ((value >> 40u64) & 0xFF) as u8,
                    b6 == ((value >> 48u64) & 0xFF) as u8,
                    b7 == ((value >> 56u64) & 0xFF) as u8,
            ;
            let m = self.memory@;
            assert(m[at as int] == b0 && m[at + 1] == b1 && m[at + 2] == b2 && m[at + 3] == b3);
            assert(m[at + 4] == b4 && m[at + 5] == b5 && m[at + 6] == b6 && m[at + 7] == b7);
        }
    }

    /// The address just past the stack's end.
    pub fn top(&self) -> (r: usize)
        ensures
            r == self.spec_top(),
    {
        self.top
    }

    /// The stack pointer.
    pub fn pointer(&self) -> (r: &usize)
        ensures
            *r == self.spec_pointer(),
    {
        &self.pointer
    }
}

} // verus!
