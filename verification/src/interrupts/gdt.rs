use vstd::prelude::*;

verus! {

/// A segment descriptor of the global descriptor table.
#[derive(Clone, Copy, PartialEq, Eq, Structural, Debug)]
pub struct Entry {
    pub limit_low: u16,
    pub base_low: u16,
    pub base_mid: u8,
    pub access: u8,
    pub flags_limit_high: u8,
    pub base_high: u8,
}

/// The seven descriptors of the kernel's global descriptor table: null, kernel code,
/// kernel data, user data, user code, and the two halves of the task state segment.
pub struct GlobalDescriptorTable(pub [Entry; 7]);

/// The task state segment: the stacks the processor switches to on an interrupt.
pub struct TSS {
    reserved0: u32,
    rsp0: usize,
    rsp1: usize,
    rsp2: usize,
    reserved1: usize,
    ist1: usize,
    ist2: usize,
    ist3: usize,
    ist4: usize,
    ist5: usize,
    ist6: usize,
    ist7: usize,
    reserved2: usize,
    reserved3: u32,
}

pub const GDT_ACCESS_ACCESSED: u8 = 1;

pub const GDT_ACCESS_READ_WRITE: u8 = 2;

pub const GDT_ACCESS_EXECUTABLE: u8 = 8;

pub const GDT_ACCESS_TYPE: u8 = 16;

pub const GDT_ACCESS_DPL_3: u8 = 96;

pub const GDT_ACCESS_PRESENT: u8 = 128;

pub const GDT_FLAGS_64_CODE: u8 = 32;

pub const GDT_FLAGS_SIZE: u8 = 64;

pub const GDT_FLAGS_GRANULARITY: u8 = 128;

/// The descriptor that `Entry::new` builds: a flat segment over the whole address space,
/// present and read/write, executable for code, at privilege 3 for user segments, with 4 KiB
/// granularity, and the size and long-mode flags as asked.
pub open spec fn flat_entry(executable: bool, user: bool, size: bool, l: bool) -> Entry {
    Entry {
        limit_low: 0xFFFF,
        base_low: 0,
        base_mid: 0,
        access: (2 + 16 + 128 + (if executable {
            8int
        } else {
            0
        }) + (if user {
            96int
        } else {
            0
        })) as u8,
        flags_limit_high: (128 + (if size {
            64int
        } else {
            0
        }) + (if l {
            32int
        } else {
            0
        }) + 0x0F) as u8,
        base_high: 0,
    }
}

/// The all-zero descriptor.
pub open spec fn null_entry() -> Entry {
    Entry { limit_low: 0, base_low: 0, base_mid: 0, access: 0, flags_limit_high: 0, base_high: 0 }
}

impl Entry {
    pub fn new(executable: bool, user: bool, size: bool, l: bool) -> (r: Self)
        ensures
            r == flat_entry(executable, user, size, l),
    {
        proof {
            assert(GDT_ACCESS_READ_WRITE | GDT_ACCESS_TYPE | GDT_ACCESS_PRESENT == 146u8 && 146u8 | 8u8 == 154u8 && 146u8
                | 96u8 == 242u8 && 154u8 | 96u8 == 250u8 && 128u8 | 64u8 == 192u8 && 128u8 | 32u8 == 160u8 && 192u8
                | 32u8 == 224u8 && 128u8 | 0x0Fu8 == 143u8 && 192u8 | 0x0Fu8 == 207u8 && 160u8 | 0x0Fu8 == 175u8
                && 224u8 | 0x0Fu8 == 239u8) by (bit_vector);
        }
        let mut access: u8 = GDT_ACCESS_READ_WRITE | GDT_ACCESS_TYPE | GDT_ACCESS_PRESENT;
        let mut flags: u8 = GDT_FLAGS_GRANULARITY;
        if executable {
            access = access | GDT_ACCESS_EXECUTABLE;
        }
        if user {
            access = access | GDT_ACCESS_DPL_3;
        }
        if size {
            flags = flags | GDT_FLAGS_SIZE;
        }
        if l {
            flags = flags | GDT_FLAGS_64_CODE;
        }
        Entry { limit_low: 0xFFFF, base_low: 0, base_mid: 0, access: access, flags_limit_high: flags | 0x0F, base_high: 0 }
    }

    pub fn null() -> (r: Self)
        ensures
            r == null_entry(),
    {
        Entry { limit_low: 0, base_low: 0, base_mid: 0, access: 0, flags_limit_high: 0, base_high: 0 }
    }
}

impl GlobalDescriptorTable {
    /// A table of null descriptors.
    pub fn null() -> (r: Self)
        ensures
            forall|i: int| 0 <= i < 7 ==> #[trigger] r.0@[i] == null_entry(),
    {
        GlobalDescriptorTable(
            [Entry::null(), Entry::null(), Entry::null(), Entry::null(), Entry::null(), Entry::null(), Entry::null()],
        )
    }
}

/// The two descriptors of a task state segment at address `tss`: a present, accessed,
/// executable privilege-3 system descriptor of limit 104 that holds bits 0 to 31 of the
/// address, and one that holds bits 32 to 63.
pub open spec fn tss_entries(tss: u64) -> (Entry, Entry) {
    (
        Entry {
            limit_low: 104,
            base_low: (tss % 0x10000) as u16,
            base_mid: ((tss / 0x10000) % 0x100) as u8,
            access: 233u8,
            flags_limit_high: 128,
            base_high: ((tss / 0x1000000) % 0x100) as u8,
        },
        Entry {
            limit_low: ((tss / 0x100000000) % 0x10000) as u16,
            base_low: (tss / 0x1000000000000) as u16,
            base_mid: 0,
            access: 0,
            flags_limit_high: 0,
            base_high: 0,
        },
    )
}

/// The two descriptors of the task state segment at address `tss_ptr`.
pub fn tss_descriptors(tss_ptr: u64) -> (r: (Entry, Entry))
    ensures
        r == tss_entries(tss_ptr),
{
    proof {
        assert((tss_ptr & 0xFFFF) == tss_ptr % 0x10000 && ((tss_ptr >> 16u64) & 0xFF) == (tss_ptr / 0x10000) % 0x100
            && ((tss_ptr >> 24u64) & 0xFF) == (tss_ptr / 0x1000000) % 0x100 && ((tss_ptr >> 32u64) & 0xFFFF) == (tss_ptr
            / 0x100000000) % 0x10000 && ((tss_ptr >> 48u64) & 0xFFFF) == tss_ptr / 0x1000000000000 && GDT_ACCESS_ACCESSED
            | GDT_ACCESS_EXECUTABLE | GDT_ACCESS_DPL_3 | GDT_ACCESS_PRESENT == 233u8) by (bit_vector);
    }
    (
        Entry {
            limit_low: 104,
            base_low: (tss_ptr & 0xFFFF) as u16,
            base_mid: ((tss_ptr >> 16u64) & 0xFF) as u8,
            access: GDT_ACCESS_ACCESSED | GDT_ACCESS_EXECUTABLE | GDT_ACCESS_DPL_3 | GDT_ACCESS_PRESENT,
            flags_limit_high: GDT_FLAGS_GRANULARITY,
            base_high: ((tss_ptr >> 24u64) & 0xFF) as u8,
        },
        Entry {
            limit_low: ((tss_ptr >> 32u64) & 0xFFFF) as u16,
            base_low: ((tss_ptr >> 48u64) & 0xFFFF) as u16,
            base_mid: 0,
            access: 0,
            flags_limit_high: 0,
            base_high: 0,
        },
    )
}

/// The kernel's descriptor table: `Entry::new` descriptors for kernel code and data and
/// user data and code, and the task state segment at `tss_ptr`.
pub fn kernel_table(tss_ptr: u64) -> (r: GlobalDescriptorTable)
    ensures
        r.0@[0] == null_entry(),
        r.0@[1] == flat_entry(true, false, false, true),
        r.0@[2] == flat_entry(false, false, true, false),
        r.0@[3] == flat_entry(false, true, true, false),
        r.0@[4] == flat_entry(true, true, false, true),
        (r.0@[5], r.0@[6]) == tss_entries(tss_ptr),
{
    let mut gdt = GlobalDescriptorTable::null();
    gdt.0[1] = Entry::new(true, false, false, true);
    gdt.0[2] = Entry::new(false, false, true, false);
    gdt.0[4] = Entry::new(true, true, false, true);
    gdt.0[3] = Entry::new(false, true, true, false);
    let (low, high) = tss_descriptors(tss_ptr);
    gdt.0[5] = low;
    gdt.0[6] = high;
    gdt
}

impl TSS {
    pub closed spec fn spec_stack(&self) -> usize {
        self.rsp0
    }

    /// A task state segment with every field zero.
    pub fn null() -> (r: Self)
        ensures
            r.spec_stack() == 0,
            r.all_zero(),
    {
        TSS {
            reserved0: 0,
            reserved1: 0,
            reserved2: 0,
            reserved3: 0,
            rsp0: 0,
            rsp1: 0,
            rsp2: 0,
            ist1: 0,
            ist2: 0,
            ist3: 0,
            ist4: 0,
            ist5: 0,
            ist6: 0,
            ist7: 0,
        }
    }

    /// Every field is zero.
    pub closed spec fn all_zero(&self) -> bool {
        &&& self.reserved0 == 0 && self.reserved1 == 0 && self.reserved2 == 0 && self.reserved3 == 0
        &&& self.rsp0 == 0 && self.rsp1 == 0 && self.rsp2 == 0
        &&& self.ist1 == 0 && self.ist2 == 0 && self.ist3 == 0 && self.ist4 == 0
        &&& self.ist5 == 0 && self.ist6 == 0 && self.ist7 == 0
    }

    /// Every field but the privilege-0 stack is as in `other`.
    pub closed spec fn same_but_stack(&self, other: Self) -> bool {
        &&& self.reserved0 == other.reserved0 && self.reserved1 == other.reserved1
        &&& self.reserved2 == other.reserved2 && self.reserved3 == other.reserved3
        &&& self.rsp1 == other.rsp1 && self.rsp2 == other.rsp2
        &&& self.ist1 == other.ist1 && self.ist2 == other.ist2 && self.ist3 == other.ist3
        &&& self.ist4 == other.ist4 && self.ist5 == other.ist5 && self.ist6 == other.ist6
        &&& self.ist7 == other.ist7
    }

    /// Sets the stack the processor switches to on an interrupt from userspace.
    pub fn set_stack(&mut self, stack: usize)
        ensures
            final(self).spec_stack() == stack,
            final(self).same_but_stack(*old(self)),
    {
        self.rsp0 = stack;
    }
}

} // verus!
