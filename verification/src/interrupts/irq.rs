use vstd::prelude::*;

use crate::bytes::{le32, le64, read32, read64};

verus! {

/// The offset of the first interrupt controller entry in the MADT: after the 36-byte
/// table header, the local APIC address and the flags.
pub const MADT_ENTRIES_START: usize = 44;

/// The entry type of an I/O APIC.
pub const MADT_IO_APIC: u8 = 0x01;

/// The entry type of a local APIC address override.
pub const MADT_LOCAL_APIC_ADDRESS_OVERRIDE: u8 = 0x05;

pub const IRQ_BASE: u8 = 32;

pub const SPURIOUS_INTERRUPT_VECTOR: u8 = 0xFF;

/// What interrupt setup reads from the MADT: whether 8259 PICs are installed, the local
/// APIC's physical address, and the I/O APICs' register addresses in table order.
pub struct MadtInfo {
    pub has_pics: bool,
    pub local_apic: u64,
    pub io_apics: Vec<u32>,
}

/// The entries from `p` up to `top` can be walked: each has a nonzero length, lies inside
/// the table, and holds the address its type calls for.
pub open spec fn walkable(t: Seq<u8>, p: int, top: int) -> bool
    decreases (if p < top {
        top - p
    } else {
        0
    }),
{
    if p >= top {
        true
    } else if 0 <= p && p + 2 <= t.len() && t[p + 1] > 0 && (t[p] == MADT_IO_APIC ==> p + 8 <= t.len()) && (t[p]
        == MADT_LOCAL_APIC_ADDRESS_OVERRIDE ==> p + 12 <= t.len()) {
        walkable(t, p + t[p + 1], top)
    } else {
        false
    }
}

/// The I/O APIC addresses of the entries from `p` up to `top`, in order.
pub open spec fn io_apics_from(t: Seq<u8>, p: int, top: int) -> Seq<u32>
    decreases (if p < top {
        top - p
    } else {
        0
    }),
{
    if p >= top || p < 0 || p + 2 > t.len() || t[p + 1] == 0 {
        Seq::empty()
    } else {
        let rest = io_apics_from(t, p + t[p + 1], top);
        if t[p] == MADT_IO_APIC {
            seq![le32(t, p + 4)] + rest
        } else {
            rest
        }
    }
}

/// The address of the last local APIC address override among the entries from `p` up to
/// `top`, if any.
pub open spec fn override_from(t: Seq<u8>, p: int, top: int) -> Option<u64>
    decreases (if p < top {
        top - p
    } else {
        0
    }),
{
    if p >= top || p < 0 || p + 2 > t.len() || t[p + 1] == 0 {
        None
    } else {
        let rest = override_from(t, p + t[p + 1], top);
        if rest is Some {
            rest
        } else if t[p] == MADT_LOCAL_APIC_ADDRESS_OVERRIDE {
            Some(le64(t, p + 4))
        } else {
            None
        }
    }
}

/// Reads the MADT stored in `table`, whose header gives its length.
pub fn scan_madt(table: &[u8]) -> (r: MadtInfo)
    requires
        table@.len() >= MADT_ENTRIES_START,
        le32(table@, 4) <= table@.len(),
        le32(table@, 4) + 256 <= usize::MAX,
        walkable(table@, MADT_ENTRIES_START as int, le32(table@, 4) as int),
    ensures
        r.has_pics == (le32(table@, 40) % 2 == 1),
        r.io_apics@ == io_apics_from(table@, MADT_ENTRIES_START as int, le32(table@, 4) as int),
        r.local_apic == match override_from(table@, MADT_ENTRIES_START as int, le32(table@, 4) as int) {
            Some(a) => a,
            None => le32(table@, 36) as u64,
        },
{
    let t = table;
    let flags = read32(t, 40);
    let top = read32(t, 4) as usize;
    let mut local_apic = read32(t, 36) as u64;
    let mut io_apics: Vec<u32> = Vec::new();
    let mut i: usize = MADT_ENTRIES_START;
    let ghost start = MADT_ENTRIES_START as int;
    let ghost mut seen_override: Option<u64> = None;
    while i < top
        invariant
            top == le32(t@, 4),
            top <= t@.len(),
            top + 256 <= usize::MAX,
            MADT_ENTRIES_START <= i,
            walkable(t@, i as int, top as int),
            io_apics@ + io_apics_from(t@, i as int, top as int) == io_apics_from(t@, start, top as int),
            start == MADT_ENTRIES_START,
            (match override_from(t@, i as int, top as int) {
                Some(a) => Some(a),
                None => seen_override,
            }) == override_from(t@, start, top as int),
            local_apic == match seen_override {
                Some(a) => a,
                None => le32(t@, 36) as u64,
            },
        decreases (if i < top {
            top - i
        } else {
            0
        }),
    {
        proof {
            assert(t@[i + 1] > 0);
        }
        let entry_type = t[i];
        let length = t[i + 1] as usize;
        let ghost before = io_apics@;
        if entry_type == MADT_IO_APIC {
            io_apics.push(read32(t, i + 4));
            proof {
                assert(io_apics@ + io_apics_from(t@, i + length, top as int) =~= before + (seq![le32(t@, i + 4)]
                    + io_apics_from(t@, i + length, top as int)));
            }
        } else if entry_type == MADT_LOCAL_APIC_ADDRESS_OVERRIDE {
            local_apic = read64(t, i + 4);
            proof {
                seen_override = Some(le64(t@, i + 4));
            }
        }
        i = i + length;
    }
    proof {
        assert((flags & 1 == 1) == (flags % 2 == 1)) by (bit_vector);
    }
    MadtInfo { has_pics: flags & 1 == 1, local_apic, io_apics }
}

} // verus!
