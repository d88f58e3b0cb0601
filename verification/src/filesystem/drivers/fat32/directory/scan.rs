use vstd::prelude::*;

use crate::bytes::{le16, le32, read16, read32};
use crate::filesystem::drivers::fat32::directory::entry::{
    lemma_disk_entry_round_trip, records_store, DirectoryEntry, DiskDirectoryEntry, LongDirectoryEntry, ATTRIBUTE_DIRECTORY, ATTRIBUTE_LONG_FILE_NAME, ATTRIBUTE_VOLUME_ID,
};
use crate::filesystem::drivers::fat32::directory::names::{ascii_lower, latin1, lower, trim, trimmed};
use crate::text::{char_from_u32, from_utf8_lossy, string_from, utf8_lossy};

verus! {

/// The size of a directory record.
pub const RECORD_SIZE: usize = 32;

/// How many UTF-16 units of a long name the scan keeps.
pub const LONG_NAME_UNITS: usize = 256;

/// What a scan keeps between records: the long name gathered so far, the checksum its
/// records carry, and the order number of the record expected next (0 for none).
pub struct LongNameState {
    pub long_filename: [u16; 256],
    pub long_checksum: u8,
    pub next_ord: u8,
}

/// The state as a value: the long name units, the checksum and the next order number.
pub type StateView = (Seq<u16>, u8, u8);

/// What one record tells the scan.
pub enum ScanStep {
    /// The directory ends here.
    End,
    /// No entry yet: a free, long name or volume label record.
    Skip,
    /// An entry.
    Entry(DirectoryEntry),
}

/// What one record tells the scan, as a value: the end, nothing yet, or an entry with its
/// name, whether it is a directory, its first cluster and its size.
pub enum StepView {
    End,
    Skip,
    Entry(Seq<char>, bool, u32, usize),
}

/// Unit `j` (0 to 12) of the name part that a long file name record stores.
pub open spec fn record_unit(rec: Seq<u8>, j: int) -> u16 {
    if j < 5 {
        le16(rec, 1 + 2 * j)
    } else if j < 11 {
        le16(rec, 14 + 2 * (j - 5))
    } else {
        le16(rec, 28 + 2 * (j - 11))
    }
}

/// The character a UTF-16 unit of a long name stands for: itself, or U+FFFD for a lone
/// surrogate.
pub open spec fn unit_char(u: u16) -> char {
    if 0xD800 <= u <= 0xDFFF {
        '\u{FFFD}'
    } else {
        (u as u32) as char
    }
}

/// The index of the first zero unit, or the length.
pub open spec fn first_zero(s: Seq<u16>) -> int
    decreases s.len(),
{
    if s.len() == 0 {
        0
    } else if s[0] == 0 {
        0
    } else {
        1 + first_zero(s.drop_first())
    }
}

/// The long name that the kept units spell: the units before the first zero.
pub open spec fn long_name(units: Seq<u16>) -> Seq<char> {
    units.take(first_zero(units)).map_values(|u: u16| unit_char(u))
}

/// The name of a file entry with 8.3 name `f`: the name part and, when the extension is
/// not blank, a dot and the extension, each byte as the character of that code point in
/// lower case, with surrounding white space trimmed; a first byte 0x05 stands for 0xE5.
pub open spec fn short_file_name(f: Seq<u8>) -> Seq<char> {
    let base = trimmed(
        Seq::new(8, |i: int| lower(if i == 0 && f[0] == 0x05 { latin1(0xE5) } else { latin1(f[i]) })),
    );
    if f[8] != 0x20 || f[9] != 0x20 || f[10] != 0x20 {
        trimmed(base + seq!['.'] + Seq::new(3, |i: int| lower(latin1(f[8 + i]))))
    } else {
        base
    }
}

/// The name of a directory entry with 8.3 name `f`: the eleven bytes decoded as UTF-8,
/// trimmed, in lower case.
pub open spec fn short_directory_name(f: Seq<u8>) -> Seq<char> {
    trimmed(utf8_lossy(f)).map_values(|c: char| lower(c))
}

/// `units` with `rec`'s thirteen name units stored from `offset` on.
pub open spec fn with_units(units: Seq<u16>, rec: Seq<u8>, offset: int) -> Seq<u16> {
    Seq::new(
        units.len(),
        |i: int|
            if offset <= i < offset + 13 {
                record_unit(rec, i - offset)
            } else {
                units[i]
            },
    )
}

/// One step of the scan of a directory's records: the state after record `rec` and what
/// the record tells.
pub open spec fn scan_step(state: StateView, rec: Seq<u8>) -> (StateView, StepView) {
    let (units, checksum, next_ord) = state;
    let cleared = units.update(0, 0u16);
    if rec[0] == 0 {
        (state, StepView::End)
    } else if rec[0] == 0xE5 {
        ((cleared, checksum, 0), StepView::Skip)
    } else if rec[11] & ATTRIBUTE_LONG_FILE_NAME == ATTRIBUTE_LONG_FILE_NAME {
        let starts = rec[0] & 0x40 != 0;
        let ord = if starts { rec[0] & !0x40u8 } else { next_ord };
        let cs = if starts { rec[13] } else { checksum };
        let u1 = if starts && ord * 13 < 256 { units.update(ord * 13, 0u16) } else { units };
        if ord == 0 {
            ((u1.update(0, 0u16), cs, 0), StepView::Skip)
        } else if rec[0] & !0x40u8 != ord || rec[13] != cs {
            ((u1.update(0, 0u16), cs, 0), StepView::Skip)
        } else {
            ((with_units(u1, rec, (ord - 1) * 13), cs, (ord - 1) as u8), StepView::Skip)
        }
    } else if rec[11] & ATTRIBUTE_VOLUME_ID != 0 {
        ((cleared, checksum, 0), StepView::Skip)
    } else {
        let directory = rec[11] & ATTRIBUTE_DIRECTORY != 0;
        let f = rec.take(11);
        let name = if units[0] == 0 {
            if directory {
                short_directory_name(f)
            } else {
                short_file_name(f)
            }
        } else {
            long_name(units)
        };
        (state, StepView::Entry(name, directory, (le16(rec, 26) + 65536 * le16(rec, 20)) as u32, le32(rec, 28) as usize))
    }
}

/// A record the scan can take: it is not the first record of a long name with an order
/// number above 19, whose units would not fit the kept name.
pub open spec fn record_ok(rec: Seq<u8>) -> bool {
    rec.len() >= RECORD_SIZE && !(rec[0] != 0 && rec[0] != 0xE5 && rec[11] & ATTRIBUTE_LONG_FILE_NAME
        == ATTRIBUTE_LONG_FILE_NAME && rec[0] & 0x40 != 0 && rec[0] & !0x40u8 > 19)
}

impl LongNameState {
    pub open spec fn view(&self) -> StateView {
        (self.long_filename@, self.long_checksum, self.next_ord)
    }

    pub open spec fn wf(&self) -> bool {
        self.next_ord <= 19
    }

    /// The state a scan starts from.
    pub fn new() -> (r: Self)
        ensures
            r.wf(),
            r@ == (Seq::new(256, |i: int| 0u16), 0u8, 0u8),
    {
        let r = LongNameState { long_filename: [0u16; 256], long_checksum: 0, next_ord: 0 };
        assert(r.long_filename@ =~= Seq::new(256, |i: int| 0u16));
        r
    }

    /// Takes one directory record.
    pub fn feed(&mut self, rec: &[u8]) -> (r: ScanStep)
        requires
            old(self).wf(),
            record_ok(rec@),
        ensures
            final(self).wf(),
            final(self)@ == scan_step(old(self)@, rec@).0,
            match (r, scan_step(old(self)@, rec@).1) {
                (ScanStep::End, StepView::End) => true,
                (ScanStep::Skip, StepView::Skip) => true,
                (ScanStep::Entry(e), StepView::Entry(name, dir, cluster, size)) => e.spec_name() == name
                    && e.spec_is_directory() == dir && e.spec_first_cluster() == cluster && e.spec_file_size()
                    == size,
                _ => false,
            },
    {
        let first = rec[0];
        let attributes = rec[11];
        if first == 0 {
            return ScanStep::End;
        }
        if first == 0xE5 {
            self.long_filename[0] = 0;
            self.next_ord = 0;
            return ScanStep::Skip;
        }
        if attributes & ATTRIBUTE_LONG_FILE_NAME == ATTRIBUTE_LONG_FILE_NAME {
            let order = first;
            let checksum = rec[13];
            if order & 0x40 != 0 {
                self.next_ord = order & !0x40u8;
                self.long_checksum = checksum;
                if (self.next_ord as usize) * 13 < 256 {
                    self.long_filename[(self.next_ord as usize) * 13] = 0;
                }
            }
            if self.next_ord == 0 {
                self.long_filename[0] = 0;
                return ScanStep::Skip;
            }
            if order & !0x40u8 != self.next_ord || checksum != self.long_checksum {
                self.long_filename[0] = 0;
                self.next_ord = 0;
                return ScanStep::Skip;
            }
            self.next_ord = self.next_ord - 1;
            let offset = (self.next_ord as usize) * 13;
            let ghost before = self.long_filename@;
            let ghost no = self.next_ord;
            let ghost cs = self.long_checksum;
            let mut j: usize = 0;
            while j < 13
                invariant
                    j <= 13,
                    self.next_ord == no,
                    self.long_checksum == cs,
                    offset + 13 <= 256,
                    rec@.len() >= RECORD_SIZE,
                    forall|i: int|
                        0 <= i < 256 ==> #[trigger] self.long_filename@[i] == if offset <= i < offset + j {
                            record_unit(rec@, i - offset)
                        } else {
                            before[i]
                        },
                decreases 13 - j,
            {
                let unit = if j < 5 {
                    read16(rec, 1 + 2 * j)
                } else if j < 11 {
                    read16(rec, 14 + 2 * (j - 5))
                } else {
                    read16(rec, 28 + 2 * (j - 11))
                };
                self.long_filename[offset + j] = unit;
                j = j + 1;
            }
            proof {
                assert(self.long_filename@ =~= with_units(before, rec@, offset as int));
            }
            return ScanStep::Skip;
        }
        if attributes & ATTRIBUTE_VOLUME_ID != 0 {
            self.long_filename[0] = 0;
            self.next_ord = 0;
            return ScanStep::Skip;
        }
        let directory = attributes & ATTRIBUTE_DIRECTORY != 0;
        let name = if self.long_filename[0] == 0 {
            if directory {
                directory_name_of(rec)
            } else {
                file_name_of(rec)
            }
        } else {
            long_name_of(&self.long_filename)
        };
        let low = read16(rec, 26) as u32;
        let high = read16(rec, 20) as u32;
        proof {
            assert(low | (high << 16u32) == low + 65536 * high) by (bit_vector)
                requires
                    low < 65536,
                    high < 65536,
            ;
        }
        let size = read32(rec, 28) as usize;
        ScanStep::Entry(DirectoryEntry::new(string_from(&name), directory, low | (high << 16u32), size))
    }
}

fn file_name_of(rec: &[u8]) -> (r: Vec<char>)
    requires
        rec@.len() >= RECORD_SIZE,
    ensures
        r@ == short_file_name(rec@.take(11)),
{
    let ghost f = rec@.take(11);
    let mut base: Vec<char> = Vec::new();
    let mut i: usize = 0;
    while i < 8
        invariant
            i <= 8,
            rec@.len() >= RECORD_SIZE,
            f == rec@.take(11),
            base@ == Seq::new(8, |k: int| lower(if k == 0 && f[0] == 0x05 { latin1(0xE5) } else { latin1(f[k]) })).take(
                i as int,
            ),
        decreases 8 - i,
    {
        let c = if i == 0 && rec[0] == 0x05 {
            0xE5u8 as char
        } else {
            rec[i] as char
        };
        base.push(ascii_lower(c));
        proof {
            let full = Seq::new(8, |k: int| lower(if k == 0 && f[0] == 0x05 { latin1(0xE5) } else { latin1(f[k]) }));
            assert(full.take(i + 1) =~= full.take(i as int).push(full[i as int]));
        }
        i = i + 1;
    }
    proof {
        let full = Seq::new(8, |k: int| lower(if k == 0 && f[0] == 0x05 { latin1(0xE5) } else { latin1(f[k]) }));
        assert(full.take(8) =~= full);
    }
    let mut name = trim(&base);
    if rec[8] != 0x20 || rec[9] != 0x20 || rec[10] != 0x20 {
        let ghost t1 = name@;
        name.push('.');
        let mut k: usize = 8;
        while k < 11
            invariant
                8 <= k <= 11,
                rec@.len() >= RECORD_SIZE,
                f == rec@.take(11),
                name@ == t1 + seq!['.'] + Seq::new(3, |m: int| lower(latin1(f[8 + m]))).take(k - 8),
            decreases 11 - k,
        {
            name.push(ascii_lower(rec[k] as char));
            proof {
                let ext = Seq::new(3, |m: int| lower(latin1(f[8 + m])));
                assert(ext.take(k - 8 + 1) =~= ext.take(k - 8).push(ext[k - 8]));
            }
            k = k + 1;
        }
        proof {
            let ext = Seq::new(3, |m: int| lower(latin1(f[8 + m])));
            assert(ext.take(3) =~= ext);
            assert(f[8] == rec@[8] && f[9] == rec@[9] && f[10] == rec@[10]);
        }
        return trim(&name);
    }
    proof {
        assert(f[8] == rec@[8] && f[9] == rec@[9] && f[10] == rec@[10]);
    }
    name
}

fn directory_name_of(rec: &[u8]) -> (r: Vec<char>)
    requires
        rec@.len() >= RECORD_SIZE,
    ensures
        r@ == short_directory_name(rec@.take(11)),
{
    let mut filename: Vec<u8> = Vec::new();
    let mut i: usize = 0;
    while i < 11
        invariant
            i <= 11,
            rec@.len() >= RECORD_SIZE,
            filename@ == rec@.take(i as int),
        decreases 11 - i,
    {
        filename.push(rec[i]);
        proof {
            assert(rec@.take(i + 1) =~= rec@.take(i as int).push(rec@[i as int]));
        }
        i = i + 1;
    }
    let decoded = from_utf8_lossy(filename.as_slice());
    let t = trim(&decoded);
    let mut r: Vec<char> = Vec::new();
    let mut k: usize = 0;
    while k < t.len()
        invariant
            k <= t@.len(),
            r@ == t@.take(k as int).map_values(|c: char| lower(c)),
        decreases t@.len() - k,
    {
        r.push(ascii_lower(t[k]));
        proof {
            assert(t@.take(k + 1).map_values(|c: char| lower(c)) =~= t@.take(k as int).map_values(|c: char| lower(c)).push(
                lower(t@[k as int]),
            ));
        }
        k = k + 1;
    }
    proof {
        assert(t@.take(k as int) =~= t@);
    }
    r
}

fn long_name_of(units: &[u16; 256]) -> (r: Vec<char>)
    ensures
        r@ == long_name(units@),
{
    let ghost u = units@;
    let mut r: Vec<char> = Vec::new();
    let mut k: usize = 0;
    while k < 256 && units[k] != 0
        invariant
            k <= 256,
            u == units@,
            forall|i: int| 0 <= i < k ==> #[trigger] u[i] != 0,
            r@ == u.take(k as int).map_values(|x: u16| unit_char(x)),
        decreases 256 - k,
    {
        let v = units[k] as u32;
        let c = match char_from_u32(v) {
            Some(c) => c,
            None => '\u{FFFD}',
        };
        r.push(c);
        proof {
            assert(u.take(k + 1).map_values(|x: u16| unit_char(x)) =~= u.take(k as int).map_values(
                |x: u16| unit_char(x),
            ).push(unit_char(u[k as int])));
        }
        k = k + 1;
    }
    proof {
        lemma_first_zero_is(u, k as int);
    }
    r
}

proof fn lemma_first_zero_is(s: Seq<u16>, k: int)
    requires
        0 <= k <= s.len(),
        forall|i: int| 0 <= i < k ==> #[trigger] s[i] != 0,
        k < s.len() ==> s[k] == 0,
    ensures
        first_zero(s) == k,
    decreases k,
{
    if k > 0 {
        assert forall|i: int| 0 <= i < k - 1 implies #[trigger] s.drop_first()[i] != 0 by {
            assert(s.drop_first()[i] == s[i + 1]);
        }
        lemma_first_zero_is(s.drop_first(), k - 1);
    }
}


/// The scan reads back the short record that an entry is stored as: from whatever state,
/// the record `d` written for an entry that is a directory or not, starts at `cluster` and
/// has `size` bytes yields an entry of that kind, starting at `cluster` (both halves of it,
/// so clusters past 65535 too), of `size` bytes modulo 2^32. (A record whose first byte is
/// 0 or 0xE5 marks the end or a free slot instead.)
pub proof fn lemma_scan_reads_stored_record(
    state: StateView,
    name: Seq<char>,
    directory: bool,
    cluster: u32,
    size: usize,
    d: DiskDirectoryEntry,
    longs: Seq<LongDirectoryEntry>,
)
    requires
        records_store(name, directory, cluster, size, d, longs),
        d.filename@[0] != 0,
        d.filename@[0] != 0xE5,
    ensures
        scan_step(state, d.bytes()).1 is Entry,
        scan_step(state, d.bytes()).1->1 == directory,
        scan_step(state, d.bytes()).1->2 == cluster,
        scan_step(state, d.bytes()).1->3 as int == size as int % 0x1_0000_0000,
        scan_step(state, d.bytes()).0 == state,
{
    lemma_disk_entry_round_trip(d);
    let rec = d.bytes();
    assert(rec[0] == d.filename@[0]) by {
        assert(rec.subrange(0, 11)[0] == rec[0]);
    }
    assert(rec[11] == d.attributes);
    assert(0x10u8 & 0x0Fu8 != 0x0Fu8 && 0x10u8 & 0x08u8 == 0 && 0x10u8 & 0x10u8 != 0) by (bit_vector);
    assert(0u8 & 0x0Fu8 != 0x0Fu8 && 0u8 & 0x08u8 == 0 && 0u8 & 0x10u8 == 0) by (bit_vector);
    assert(le16(rec, 20) == cluster / 65536 && le16(rec, 26) == cluster % 65536);
    assert(le32(rec, 28) == size as u32);
    assert(size as u32 == (size as u64) % 0x1_0000_0000u64) by (bit_vector);
}

} // verus!
