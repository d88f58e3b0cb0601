use vstd::prelude::*;

use crate::bytes::{le16, le32, read16, read32};
use crate::error::Status;
use crate::filesystem::drivers::fat32::fat::Cluster;

verus! {

/// A 32-byte directory record as FAT32 stores it on disk.
#[derive(Clone, Copy)]
pub struct DiskDirectoryEntry {
    pub filename: [u8; 11],
    pub attributes: u8,
    pub reserved: u8,
    pub creation_tenths: u8,
    pub creation_time: u16,
    pub creation_date: u16,
    pub last_accessed_date: u16,
    pub first_cluster_high: u16,
    pub last_modification_time: u16,
    pub last_modification_date: u16,
    pub first_cluster_low: u16,
    pub file_size: u32,
}

/// A 32-byte record that holds thirteen UTF-16 units of a long file name.
#[derive(Clone, Copy)]
pub struct LongDirectoryEntry {
    pub order: u8,
    pub name1: [u16; 5],
    pub attr: u8,
    pub class: u8,
    pub checksum: u8,
    pub name2: [u16; 6],
    pub first_cluster_low: u16,
    pub name3: [u16; 2],
}

pub const ATTRIBUTE_READ_ONLY: u8 = 0x01;

pub const ATTRIBUTE_HIDDEN: u8 = 0x02;

pub const ATTRIBUTE_SYSTEM: u8 = 0x04;

pub const ATTRIBUTE_VOLUME_ID: u8 = 0x08;

pub const ATTRIBUTE_DIRECTORY: u8 = 0x10;

pub const ATTRIBUTE_ARCHIVE: u8 = 0x20;

/// The attribute value that marks a long file name record.
pub const ATTRIBUTE_LONG_FILE_NAME: u8 = 0x0F;

/// The two bytes of `v`, least significant first.
pub open spec fn le16_bytes(v: u16) -> Seq<u8> {
    seq![(v % 256) as u8, (v / 256) as u8]
}

/// The four bytes of `v`, least significant first.
pub open spec fn le32_bytes(v: u32) -> Seq<u8> {
    seq![(v % 256) as u8, ((v / 256) % 256) as u8, ((v / 65536) % 256) as u8, (v / 16777216) as u8]
}

proof fn lemma_split16(v: u16)
    ensures
        (v & 0xFF) as u8 == v % 256,
        ((v >> 8u16) & 0xFF) as u8 == v / 256,
{
    assert((v & 0xFF) as u8 == v % 256 && ((v >> 8u16) & 0xFF) as u8 == v / 256) by (bit_vector);
}

proof fn lemma_split32(v: u32)
    ensures
        (v & 0xFF) as u8 == v % 256,
        ((v >> 8u32) & 0xFF) as u8 == (v / 256) % 256,
        ((v >> 16u32) & 0xFF) as u8 == (v / 65536) % 256,
        ((v >> 24u32) & 0xFF) as u8 == v / 16777216,
{
    assert((v & 0xFF) as u8 == v % 256 && ((v >> 8u32) & 0xFF) as u8 == (v / 256) % 256 && ((v >> 16u32) & 0xFF) as u8
        == (v / 65536) % 256 && ((v >> 24u32) & 0xFF) as u8 == v / 16777216) by (bit_vector);
}

impl DiskDirectoryEntry {
    /// The 32 bytes that store this record.
    pub open spec fn bytes(&self) -> Seq<u8> {
        self.filename@ + seq![self.attributes, self.reserved, self.creation_tenths] + le16_bytes(
            self.creation_time,
        ) + le16_bytes(self.creation_date) + le16_bytes(self.last_accessed_date) + le16_bytes(
            self.first_cluster_high,
        ) + le16_bytes(self.last_modification_time) + le16_bytes(self.last_modification_date)
            + le16_bytes(self.first_cluster_low) + le32_bytes(self.file_size)
    }

    /// The record stored in the first 32 bytes of `s`.
    pub open spec fn stored_in(&self, s: Seq<u8>) -> bool {
        &&& self.filename@ == s.subrange(0, 11)
        &&& self.attributes == s[11]
        &&& self.reserved == s[12]
        &&& self.creation_tenths == s[13]
        &&& self.creation_time == le16(s, 14)
        &&& self.creation_date == le16(s, 16)
        &&& self.last_accessed_date == le16(s, 18)
        &&& self.first_cluster_high == le16(s, 20)
        &&& self.last_modification_time == le16(s, 22)
        &&& self.last_modification_date == le16(s, 24)
        &&& self.first_cluster_low == le16(s, 26)
        &&& self.file_size == le32(s, 28)
    }

    /// Reads the record stored in the first 32 bytes of `slice`.
    pub fn from_slice(slice: &[u8]) -> (r: DiskDirectoryEntry)
        requires
            slice@.len() >= 32,
        ensures
            r.stored_in(slice@),
    {
        let r = DiskDirectoryEntry {
            filename: [
                slice[0],
                slice[1],
                slice[2],
                slice[3],
                slice[4],
                slice[5],
                slice[6],
                slice[7],
                slice[8],
                slice[9],
                slice[10],
            ],
            attributes: slice[11],
            reserved: slice[12],
            creation_tenths: slice[13],
            creation_time: read16(slice, 14),
            creation_date: read16(slice, 16),
            last_accessed_date: read16(slice, 18),
            first_cluster_high: read16(slice, 20),
            last_modification_time: read16(slice, 22),
            last_modification_date: read16(slice, 24),
            first_cluster_low: read16(slice, 26),
            file_size: read32(slice, 28),
        };
        assert(r.filename@ =~= slice@.subrange(0, 11));
        r
    }

    /// The 32 bytes that store this record.
    pub fn to_slice(self) -> (r: [u8; 32])
        ensures
            r@ == self.bytes(),
    {
        proof {
            lemma_split16(self.creation_time);
            lemma_split16(self.creation_date);
            lemma_split16(self.last_accessed_date);
            lemma_split16(self.first_cluster_high);
            lemma_split16(self.last_modification_time);
            lemma_split16(self.last_modification_date);
            lemma_split16(self.first_cluster_low);
            lemma_split32(self.file_size);
        }
        let r = [
            self.filename[0],
            self.filename[1],
            self.filename[2],
            self.filename[3],
            self.filename[4],
            self.filename[5],
            self.filename[6],
            self.filename[7],
            self.filename[8],
            self.filename[9],
            self.filename[10],
            self.attributes,
            self.reserved,
            self.creation_tenths,
            (self.creation_time & 0xFF) as u8,
            ((self.creation_time >> 8u16) & 0xFF) as u8,
            (self.creation_date & 0xFF) as u8,
            ((self.creation_date >> 8u16) & 0xFF) as u8,
            (self.last_accessed_date & 0xFF) as u8,
            ((self.last_accessed_date >> 8u16) & 0xFF) as u8,
            (self.first_cluster_high & 0xFF) as u8,
            ((self.first_cluster_high >> 8u16) & 0xFF) as u8,
            (self.last_modification_time & 0xFF) as u8,
            ((self.last_modification_time >> 8u16) & 0xFF) as u8,
            (self.last_modification_date & 0xFF) as u8,
            ((self.last_modification_date >> 8u16) & 0xFF) as u8,
            (self.first_cluster_low & 0xFF) as u8,
            ((self.first_cluster_low >> 8u16) & 0xFF) as u8,
            (self.file_size & 0xFF) as u8,
            ((self.file_size >> 8u32) & 0xFF) as u8,
            ((self.file_size >> 16u32) & 0xFF) as u8,
            ((self.file_size >> 24u32) & 0xFF) as u8,
        ];
        assert(r@ =~= self.bytes());
        r
    }
}

/// A record read back from the bytes that store it is the record itself.
pub proof fn lemma_disk_entry_round_trip(e: DiskDirectoryEntry)
    ensures
        e.bytes().len() == 32,
        e.stored_in(e.bytes()),
{
    let b = e.bytes();
    assert(b.subrange(0, 11) =~= e.filename@);
    assert(le16(b, 14) == e.creation_time);
    assert(le16(b, 16) == e.creation_date);
    assert(le16(b, 18) == e.last_accessed_date);
    assert(le16(b, 20) == e.first_cluster_high);
    assert(le16(b, 22) == e.last_modification_time);
    assert(le16(b, 24) == e.last_modification_date);
    assert(le16(b, 26) == e.first_cluster_low);
    assert(le32(b, 28) == e.file_size);
}

/// Reading a record from the start of some bytes and writing it out again gives back those
/// first 32 bytes: `from_slice(s).to_slice()` is `s[0..32]`.
pub proof fn lemma_disk_entry_slice_round_trip(e: DiskDirectoryEntry, s: Seq<u8>)
    requires
        s.len() >= 32,
        e.stored_in(s),
    ensures
        e.bytes() == s.subrange(0, 32),
{
    let t = s.subrange(0, 32);
    assert(t.subrange(0, 11) =~= s.subrange(0, 11));
    assert(le16(t, 14) == le16(s, 14));
    assert(le16(t, 16) == le16(s, 16));
    assert(le16(t, 18) == le16(s, 18));
    assert(le16(t, 20) == le16(s, 20));
    assert(le16(t, 22) == le16(s, 22));
    assert(le16(t, 24) == le16(s, 24));
    assert(le16(t, 26) == le16(s, 26));
    assert(le32(t, 28) == le32(s, 28));
    lemma_disk_entry_bytes_read_back(e, t);
}

/// The bytes of a record read from 32 bytes are those bytes.
pub proof fn lemma_disk_entry_bytes_read_back(e: DiskDirectoryEntry, s: Seq<u8>)
    requires
        s.len() == 32,
        e.stored_in(s),
    ensures
        e.bytes() == s,
{
    lemma_le16_bytes(s[14], s[15]);
    lemma_le16_bytes(s[16], s[17]);
    lemma_le16_bytes(s[18], s[19]);
    lemma_le16_bytes(s[20], s[21]);
    lemma_le16_bytes(s[22], s[23]);
    lemma_le16_bytes(s[24], s[25]);
    lemma_le16_bytes(s[26], s[27]);
    lemma_le32_bytes(s[28], s[29], s[30], s[31]);
    let b = e.bytes();
    assert forall|i: int| 0 <= i < 32 implies b[i] == s[i] by {
        if i < 11 {
            assert(b[i] == e.filename@[i]);
            assert(s.subrange(0, 11)[i] == s[i]);
        }
    }
    assert(b =~= s);
}

proof fn lemma_le16_bytes(a: u8, b: u8)
    ensures
        le16_bytes((a + 256 * b) as u16) == seq![a, b],
{
    let v = (a + 256 * b) as u16;
    assert(v == a + 256 * b);
    assert(v % 256 == a && v / 256 == b) by (nonlinear_arith)
        requires
            v == a + 256 * b,
            0 <= a < 256,
            0 <= b < 256,
    ;
    assert(le16_bytes(v) =~= seq![a, b]);
}

proof fn lemma_le32_bytes(a: u8, b: u8, c: u8, d: u8)
    ensures
        le32_bytes((a + 256 * b + 65536 * c + 16777216 * d) as u32) == seq![a, b, c, d],
{
    let v = (a + 256 * b + 65536 * c + 16777216 * d) as u32;
    assert(v == a + 256 * b + 65536 * c + 16777216 * d);
    assert(v % 256 == a && (v / 256) % 256 == b && (v / 65536) % 256 == c && v / 16777216 == d) by (nonlinear_arith)
        requires
            v == a + 256 * b + 65536 * c + 16777216 * d,
            0 <= a < 256,
            0 <= b < 256,
            0 <= c < 256,
            0 <= d < 256,
    ;
    assert(le32_bytes(v) =~= seq![a, b, c, d]);
}


/// The bytes of a sequence of 16-bit units, each least significant byte first.
pub open spec fn units_bytes(units: Seq<u16>) -> Seq<u8>
    decreases units.len(),
{
    if units.len() == 0 {
        Seq::empty()
    } else {
        units_bytes(units.drop_last()) + le16_bytes(units.last())
    }
}

proof fn lemma_le16_of_bytes(v: u16, s: Seq<u8>, i: int)
    requires
        0 <= i,
        i + 1 < s.len(),
        s[i] == (v % 256) as u8,
        s[i + 1] == (v / 256) as u8,
    ensures
        le16(s, i) == v,
{
}

fn unit_bytes(v: u16) -> (r: (u8, u8))
    ensures
        seq![r.0, r.1] == le16_bytes(v),
{
    proof {
        lemma_split16(v);
    }
    ((v & 0xFF) as u8, ((v >> 8u16) & 0xFF) as u8)
}

impl LongDirectoryEntry {
    /// The 32 bytes that store this record.
    pub open spec fn bytes(&self) -> Seq<u8> {
        seq![self.order] + units_bytes(self.name1@) + seq![self.attr, self.class, self.checksum] + units_bytes(
            self.name2@,
        ) + le16_bytes(self.first_cluster_low) + units_bytes(self.name3@)
    }

    /// The record stored in the first 32 bytes of `s`.
    pub open spec fn stored_in(&self, s: Seq<u8>) -> bool {
        &&& self.order == s[0]
        &&& forall|k: int| 0 <= k < 5 ==> #[trigger] self.name1@[k] == le16(s, 1 + 2 * k)
        &&& self.attr == s[11]
        &&& self.class == s[12]
        &&& self.checksum == s[13]
        &&& forall|k: int| 0 <= k < 6 ==> #[trigger] self.name2@[k] == le16(s, 14 + 2 * k)
        &&& self.first_cluster_low == le16(s, 26)
        &&& forall|k: int| 0 <= k < 2 ==> #[trigger] self.name3@[k] == le16(s, 28 + 2 * k)
    }

    /// The long file name record that the bytes of `entry` store.
    pub fn from_entry(entry: &DiskDirectoryEntry) -> (r: LongDirectoryEntry)
        ensures
            r.stored_in(entry.bytes()),
    {
        let f = &entry.filename;
        let b = entry.to_slice();
        let r = LongDirectoryEntry {
            order: f[0],
            name1: [read16(&b, 1), read16(&b, 3), read16(&b, 5), read16(&b, 7), read16(&b, 9)],
            attr: entry.attributes,
            class: entry.reserved,
            checksum: entry.creation_tenths,
            name2: [
                entry.creation_time,
                entry.creation_date,
                entry.last_accessed_date,
                entry.first_cluster_high,
                entry.last_modification_time,
                entry.last_modification_date,
            ],
            first_cluster_low: entry.first_cluster_low,
            name3: [read16(&b, 28), read16(&b, 30)],
        };
        proof {
            let s = entry.bytes();
            assert(s[0] == f@[0]);
            assert(s[11] == entry.attributes);
            lemma_le16_of_bytes(entry.creation_time, s, 14);
            lemma_le16_of_bytes(entry.creation_date, s, 16);
            lemma_le16_of_bytes(entry.last_accessed_date, s, 18);
            lemma_le16_of_bytes(entry.first_cluster_high, s, 20);
            lemma_le16_of_bytes(entry.last_modification_time, s, 22);
            lemma_le16_of_bytes(entry.last_modification_date, s, 24);
            lemma_le16_of_bytes(entry.first_cluster_low, s, 26);
            assert forall|k: int| 0 <= k < 6 implies #[trigger] r.name2@[k] == le16(s, 14 + 2 * k) by {
                if k == 0 {
                } else if k == 1 {
                } else if k == 2 {
                } else if k == 3 {
                } else if k == 4 {
                } else {
                }
            }
            assert forall|k: int| 0 <= k < 5 implies #[trigger] r.name1@[k] == le16(s, 1 + 2 * k) by {
                if k == 0 {
                } else if k == 1 {
                } else if k == 2 {
                } else if k == 3 {
                } else {
                }
            }
            assert forall|k: int| 0 <= k < 2 implies #[trigger] r.name3@[k] == le16(s, 28 + 2 * k) by {
                if k == 0 {
                } else {
                }
            }
        }
        r
    }

    /// The 32 bytes that store this record.
    pub fn to_slice(self) -> (r: [u8; 32])
        ensures
            r@ == self.bytes(),
    {
        let (a0, a1) = unit_bytes(self.name1[0]);
        let (a2, a3) = unit_bytes(self.name1[1]);
        let (a4, a5) = unit_bytes(self.name1[2]);
        let (a6, a7) = unit_bytes(self.name1[3]);
        let (a8, a9) = unit_bytes(self.name1[4]);
        let (b0, b1) = unit_bytes(self.name2[0]);
        let (b2, b3) = unit_bytes(self.name2[1]);
        let (b4, b5) = unit_bytes(self.name2[2]);
        let (b6, b7) = unit_bytes(self.name2[3]);
        let (b8, b9) = unit_bytes(self.name2[4]);
        let (b10, b11) = unit_bytes(self.name2[5]);
        let (c0, c1) = unit_bytes(self.first_cluster_low);
        let (d0, d1) = unit_bytes(self.name3[0]);
        let (d2, d3) = unit_bytes(self.name3[1]);
        let r = [
            self.order,
            a0,
            a1,
            a2,
            a3,
            a4,
            a5,
            a6,
            a7,
            a8,
            a9,
            self.attr,
            self.class,
            self.checksum,
            b0,
            b1,
            b2,
            b3,
            b4,
            b5,
            b6,
            b7,
            b8,
            b9,
            b10,
            b11,
            c0,
            c1,
            d0,
            d1,
            d2,
            d3,
        ];
        proof {
            reveal_with_fuel(units_bytes, 7);
            assert(units_bytes(self.name1@) =~= seq![a0, a1, a2, a3, a4, a5, a6, a7, a8, a9]) by {
                let u = self.name1@;
                assert(u.drop_last().drop_last().drop_last().drop_last().drop_last() =~= Seq::<u16>::empty());
            }
            assert(units_bytes(self.name2@) =~= seq![b0, b1, b2, b3, b4, b5, b6, b7, b8, b9, b10, b11]) by {
                let u = self.name2@;
                assert(u.drop_last().drop_last().drop_last().drop_last().drop_last().drop_last()
                    =~= Seq::<u16>::empty());
            }
            assert(units_bytes(self.name3@) =~= seq![d0, d1, d2, d3]) by {
                let u = self.name3@;
                assert(u.drop_last().drop_last() =~= Seq::<u16>::empty());
            }
            assert(r@ =~= self.bytes());
        }
        r
    }
}

/// A directory entry as the file system presents it: a name, whether it names a
/// directory, where its data starts and how long it is.
pub struct DirectoryEntry {
    name: String,
    directory: bool,
    first_cluster: Cluster,
    file_size: usize,
}

impl DirectoryEntry {
    pub closed spec fn spec_name(&self) -> Seq<char> {
        self.name@
    }

    pub closed spec fn spec_is_directory(&self) -> bool {
        self.directory
    }

    pub closed spec fn spec_first_cluster(&self) -> Cluster {
        self.first_cluster
    }

    pub closed spec fn spec_file_size(&self) -> usize {
        self.file_size
    }

    pub fn new(name: String, directory: bool, first_cluster: u32, file_size: usize) -> (r: Self)
        ensures
            r.spec_name() == name@,
            r.spec_is_directory() == directory,
            r.spec_first_cluster() == first_cluster,
            r.spec_file_size() == file_size,
    {
        DirectoryEntry { name, directory, first_cluster, file_size }
    }

    pub fn is_directory(&self) -> (r: bool)
        ensures
            r == self.spec_is_directory(),
    {
        self.directory
    }

    pub fn name(&self) -> (r: &str)
        ensures
            r@ == self.spec_name(),
    {
        self.name.as_str()
    }

    pub fn file_size(&self) -> (r: usize)
        ensures
            r == self.spec_file_size(),
    {
        self.file_size
    }

    pub fn set_file_size(&mut self, new_size: usize)
        ensures
            final(self).spec_file_size() == new_size,
            final(self).spec_name() == old(self).spec_name(),
            final(self).spec_is_directory() == old(self).spec_is_directory(),
            final(self).spec_first_cluster() == old(self).spec_first_cluster(),
    {
        self.file_size = new_size;
    }

    pub fn first_cluster(&self) -> (r: Cluster)
        ensures
            r == self.spec_first_cluster(),
    {
        self.first_cluster
    }
}

/// `c` with an ASCII lower-case letter made upper-case.
pub open spec fn upper(c: char) -> char {
    if 'a' <= c && c <= 'z' {
        ((c as u32) - 32) as char
    } else {
        c
    }
}

/// The low byte of the code point of `c`.
pub open spec fn low_byte(c: char) -> u8 {
    (c as u32) as u8
}

fn ascii_upper(c: char) -> (r: char)
    ensures
        r == upper(c),
{
    if 'a' <= c && c <= 'z' {
        let b: u8 = (c as u8) - 32;
        b as char
    } else {
        c
    }
}

/// The number of bytes of the UTF-8 encoding of `c`.
pub open spec fn utf8_width(c: char) -> nat {
    if (c as u32) < 0x80 {
        1
    } else if (c as u32) < 0x800 {
        2
    } else if (c as u32) < 0x10000 {
        3
    } else {
        4
    }
}

/// The number of bytes of the UTF-8 encoding of `s`.
pub open spec fn utf8_len(s: Seq<char>) -> nat
    decreases s.len(),
{
    if s.len() == 0 {
        0
    } else {
        utf8_len(s.drop_last()) + utf8_width(s.last())
    }
}

/// The index of the first `c` in `s`, or the length of `s` if there is none.
pub open spec fn first_index(s: Seq<char>, c: char) -> int
    decreases s.len(),
{
    if s.len() == 0 {
        0
    } else if s[0] == c {
        0
    } else {
        1 + first_index(s.drop_first(), c)
    }
}

proof fn lemma_first_index(s: Seq<char>, c: char)
    ensures
        0 <= first_index(s, c) <= s.len(),
        first_index(s, c) < s.len() ==> s[first_index(s, c)] == c,
        forall|i: int| 0 <= i < first_index(s, c) ==> s[i] != c,
    decreases s.len(),
{
    if s.len() > 0 && s[0] != c {
        lemma_first_index(s.drop_first(), c);
        assert forall|i: int| 0 <= i < first_index(s, c) implies s[i] != c by {
            if i > 0 {
                assert(s[i] == s.drop_first()[i - 1]);
            }
        }
    }
}

/// The index of the first `c` in `s` is `p` when `s[p]` is `c` and no earlier
/// character is, or when `p` is the length and no character is `c`.
proof fn lemma_first_index_is(s: Seq<char>, c: char, p: int)
    requires
        0 <= p <= s.len(),
        p < s.len() ==> s[p] == c,
        forall|i: int| 0 <= i < p ==> s[i] != c,
    ensures
        first_index(s, c) == p,
{
    lemma_first_index(s, c);
    let f = first_index(s, c);
    if f < p {
        assert(s[f] == c);
    } else if p < f {
        assert(s[p] != c);
    }
}

/// A file name needs long file name records when it holds a space or more than one dot,
/// or when its part before the dot is longer than 8 characters or its part after the dot
/// longer than 3.
pub open spec fn needs_long_name(s: Seq<char>) -> bool {
    let p = first_index(s, '.');
    ||| s.contains(' ')
    ||| (p < s.len() && s.subrange(p + 1, s.len() as int).contains('.'))
    ||| p > 8
    ||| (p < s.len() && s.len() - p - 1 > 3)
}

/// Whether a file name needs long file name records.
fn is_long_file_name(name: &String) -> (r: bool)
    requires
        name@.len() <= usize::MAX,
    ensures
        r == needs_long_name(name@),
{
    broadcast use vstd::string::group_string_axioms;

    let ghost s = name@;
    let mut filename_length: usize = 0;
    let mut extension_length: usize = 0;
    let mut extension = false;
    let ghost mut stopped = false;
    assert(s.take(s.len() as int) =~= s);
    for c in it: name.as_str().chars()
        invariant_except_break
            !stopped,
        invariant
            it.seq() == s,
            s == name@,
            s.take(s.len() as int) == s,
            s.len() <= usize::MAX,
            !stopped ==> {
                let pre = s.take(it.index() as int);
                let p = first_index(pre, '.');
                &&& !pre.contains(' ')
                &&& extension == (p < pre.len())
                &&& !(p < pre.len() && pre.subrange(p + 1, pre.len() as int).contains('.'))
                &&& filename_length == p
                &&& extension_length == if p < pre.len() {
                    pre.len() - p - 1
                } else {
                    0
                }
            },
            stopped ==> needs_long_name(s) && filename_length == 9,
        ensures
            stopped ==> needs_long_name(s) && filename_length == 9,
            !stopped ==> {
                let p = first_index(s, '.');
                &&& !s.contains(' ')
                &&& !(p < s.len() && s.subrange(p + 1, s.len() as int).contains('.'))
                &&& filename_length == p
                &&& extension_length == if p < s.len() {
                    s.len() - p - 1
                } else {
                    0
                }
            },
    {
        let ghost i = it.index() as int;
        let ghost pre = s.take(i);
        let ghost next = s.take(i + 1);
        proof {
            assert(next =~= pre.push(c));
            lemma_first_index(pre, '.');
            assert(s[i] == c);
        }
        if c == ' ' {
            proof {
                assert(s.contains(' ')) by {
                    assert(s[i] == ' ');
                }
                stopped = true;
            }
            filename_length = 9;
            break ;
        }
        if c == '.' {
            if extension {
                proof {
                    let p = first_index(pre, '.');
                    assert(pre[p] == '.');
                    assert forall|j: int| 0 <= j < p implies s[j] != '.' by {
                        assert(pre[j] == s[j]);
                    }
                    lemma_first_index_is(s, '.', p);
                    assert(s.subrange(p + 1, s.len() as int)[i - p - 1] == '.');
                    stopped = true;
                }
                filename_length = 9;
                break ;
            } else {
                extension = true;
            }
        } else {
            if extension {
                extension_length = extension_length + 1;
            } else {
                filename_length = filename_length + 1;
            }
        }
        proof {
            let p = first_index(pre, '.');
            lemma_first_index(pre, '.');
            if p < pre.len() {
                lemma_first_index_is(next, '.', p);
                assert(next.subrange(p + 1, next.len() as int) =~= pre.subrange(p + 1, pre.len() as int).push(c));
            } else if c == '.' {
                lemma_first_index_is(next, '.', pre.len() as int);
                assert(next.subrange(pre.len() as int + 1, next.len() as int) =~= Seq::<char>::empty());
            } else {
                lemma_first_index_is(next, '.', next.len() as int);
            }
            assert(!next.contains(' ')) by {
                if next.contains(' ') {
                    let j = choose|j: int| 0 <= j < next.len() && next[j] == ' ';
                    if j < i {
                        assert(pre[j] == ' ');
                    }
                }
            }
        }
    }
    proof {
        if !stopped {
            assert(s.take(s.len() as int) =~= s);
        }
    }
    filename_length > 8 || extension_length > 3
}

/// Whether the UTF-8 encoding of a name takes more than 11 bytes.
fn longer_than_11_bytes(name: &String) -> (r: bool)
    ensures
        r == (utf8_len(name@) > 11),
{
    broadcast use vstd::string::group_string_axioms;

    let ghost s = name@;
    let mut total: usize = 0;
    assert(s.take(s.len() as int) =~= s);
    for c in it: name.as_str().chars()
        invariant_except_break
            total == utf8_len(s.take(it.index() as int)),
            total <= 11,
        invariant
            it.seq() == s,
            s == name@,
            s.take(s.len() as int) == s,
        ensures
            total == utf8_len(s) || (total > 11 && utf8_len(s) > 11),
    {
        let ghost i = it.index() as int;
        proof {
            assert(s.take(i + 1).drop_last() =~= s.take(i));
            assert(s[i] == c);
        }
        let v = c as u32;
        let width: usize = if v < 0x80 {
            1
        } else if v < 0x800 {
            2
        } else if v < 0x10000 {
            3
        } else {
            4
        };
        total = total + width;
        if total > 11 {
            proof {
                lemma_utf8_len_prefix(s, i + 1);
            }
            break ;
        }
    }
    total > 11
}

/// A prefix takes no more bytes than the whole.
proof fn lemma_utf8_len_prefix(s: Seq<char>, n: int)
    requires
        0 <= n <= s.len(),
    ensures
        utf8_len(s.take(n)) <= utf8_len(s),
    decreases s.len(),
{
    if n < s.len() {
        assert(s.drop_last().take(n) =~= s.take(n));
        lemma_utf8_len_prefix(s.drop_last(), n);
    } else {
        assert(s.take(n) =~= s);
    }
}

/// A name takes at least one byte per character.
proof fn lemma_utf8_len_bound(s: Seq<char>)
    ensures
        utf8_len(s) >= s.len(),
    decreases s.len(),
{
    if s.len() > 0 {
        lemma_utf8_len_bound(s.drop_last());
    }
}

/// The 8.3 name of a name that needs no long file name records: its characters in upper
/// case, those of a file before the dot first and those after the dot from byte 8 on, and
/// spaces elsewhere.
pub open spec fn plain_short_name(s: Seq<char>, directory: bool) -> Seq<u8> {
    let p = first_index(s, '.');
    Seq::new(
        11,
        |k: int|
            if directory {
                if k < s.len() {
                    low_byte(upper(s[k]))
                } else {
                    32u8
                }
            } else if k < 8 {
                if k < p {
                    low_byte(upper(s[k]))
                } else {
                    32u8
                }
            } else {
                if p < s.len() && k - 8 < s.len() - p - 1 {
                    low_byte(upper(s[p + 1 + k - 8]))
                } else {
                    32u8
                }
            },
    )
}

/// The 8.3 name of a name that needs no long file name records.
fn plain_short_name_of(name: &String, directory: bool) -> (r: [u8; 11])
    requires
        directory ==> name@.len() <= 11,
        !directory ==> !needs_long_name(name@),
    ensures
        r@ == plain_short_name(name@, directory),
{
    broadcast use vstd::string::group_string_axioms;

    let ghost s = name@;
    let ghost p = first_index(s, '.');
    let ghost full = plain_short_name(s, directory);
    proof {
        lemma_first_index(s, '.');
        assert(s.take(s.len() as int) =~= s);
    }
    let mut short_name: [u8; 11] = [32u8; 11];
    let mut i: usize = 0;
    for c in it: name.as_str().chars()
        invariant
            it.seq() == s,
            s == name@,
            s.take(s.len() as int) == s,
            p == first_index(s, '.'),
            0 <= p <= s.len(),
            p < s.len() ==> s[p] == '.',
            forall|j: int| 0 <= j < p ==> s[j] != '.',
            directory ==> s.len() <= 11,
            !directory ==> !needs_long_name(s),
            full == plain_short_name(s, directory),
            directory ==> i == it.index(),
            !directory && it.index() <= p ==> i == it.index(),
            !directory && it.index() > p ==> i == 8 + it.index() - p - 1,
            forall|k: int|
                0 <= k < 11 ==> #[trigger] short_name@[k] == if (directory && k < it.index()) || (!directory && (
                k < it.index() && k < p || (p < it.index() && 8 <= k < 8 + it.index() - p - 1))) {
                    full[k]
                } else {
                    32u8
                },
    {
        let ghost idx = it.index() as int;
        proof {
            assert(s[idx] == c);
        }
        if c == '.' && !directory {
            proof {
                if idx != p {
                    assert(p < idx);
                    assert(s.subrange(p + 1, s.len() as int)[idx - p - 1] == '.');
                }
            }
            i = 8;
        } else {
            proof {
                if !directory {
                    if idx < p {
                        assert(i < 8);
                    } else {
                        assert(p < idx);
                        assert(s.subrange(p + 1, s.len() as int)[idx - p - 1] == s[idx]);
                        assert(s.len() - p - 1 <= 3);
                        assert(i < 11);
                    }
                }
            }
            let u = ascii_upper(c);
            let code = u as u32;
            let b: u8 = #[verifier::truncate] (code as u8);
            short_name[i] = b;
            i = i + 1;
        }
    }
    assert(short_name@ =~= full);
    short_name
}

/// The name in upper case, without its spaces and without the dots it starts with.
pub open spec fn basis_name(s: Seq<char>) -> Seq<char>
    decreases s.len(),
{
    if s.len() == 0 {
        Seq::empty()
    } else {
        let b = basis_name(s.drop_last());
        let c = upper(s.last());
        if c == ' ' || (c == '.' && b.len() == 0) {
            b
        } else {
            b.push(c)
        }
    }
}

fn basis_name_of(name: &String) -> (r: Vec<char>)
    ensures
        r@ == basis_name(name@),
{
    broadcast use vstd::string::group_string_axioms;

    let ghost s = name@;
    let mut basis: Vec<char> = Vec::new();
    assert(s.take(s.len() as int) =~= s);
    for c in it: name.as_str().chars()
        invariant
            it.seq() == s,
            s == name@,
            s.take(s.len() as int) == s,
            basis@ == basis_name(s.take(it.index() as int)),
    {
        let ghost idx = it.index() as int;
        proof {
            assert(s.take(idx + 1).drop_last() =~= s.take(idx));
            assert(s[idx] == c);
        }
        let u = ascii_upper(c);
        if !(u == ' ' || (u == '.' && basis.len() == 0)) {
            basis.push(u);
        }
    }
    basis
}

/// The 8.3 name made from the basis name of a long name: its characters before the first
/// dot, at most 8, then at most 3 of those after that dot, each as the low byte of its code
/// point, and spaces elsewhere.
pub open spec fn basis_short_name(b: Seq<char>) -> Seq<u8> {
    let q = first_index(b, '.');
    Seq::new(
        11,
        |k: int|
            if k < 8 {
                if k < q {
                    low_byte(b[k])
                } else {
                    32u8
                }
            } else {
                if q < b.len() && k - 8 < b.len() - q - 1 {
                    low_byte(b[q + 1 + k - 8])
                } else {
                    32u8
                }
            },
    )
}

fn basis_short_name_of(basis: &Vec<char>) -> (r: [u8; 11])
    ensures
        r@ == basis_short_name(basis@),
{
    let ghost b = basis@;
    let ghost q = first_index(b, '.');
    let ghost full = basis_short_name(b);
    proof {
        lemma_first_index(b, '.');
    }
    let mut short_name: [u8; 11] = [32u8; 11];
    let mut i: usize = 0;
    let mut j: usize = 0;
    let mut extension = false;
    while j < basis.len()
        invariant_except_break
            i == j,
            j <= q,
            j < 8,
            !extension,
            forall|k: int| 0 <= k < 11 ==> #[trigger] short_name@[k] == if k < j { full[k] } else { 32u8 },
        invariant
            b == basis@,
            q == first_index(b, '.'),
            0 <= q <= b.len(),
            q < b.len() ==> b[q] == '.',
            forall|m: int| 0 <= m < q ==> b[m] != '.',
            full == basis_short_name(b),
        ensures
            extension ==> j == q + 1 && q < 8 && q < b.len(),
            !extension ==> (j == 8 && j <= q) || (j == b.len() && j == q),
            forall|k: int| 0 <= k < 11 ==> #[trigger] short_name@[k] == if k < 8 && k < q { full[k] } else { 32u8 },
        decreases b.len() - j,
    {
        let c = basis[j];
        proof {
            if c != '.' {
                assert(j < q) by {
                    if j == q {
                        assert(b[q] == '.');
                    }
                }
                assert(full[j as int] == low_byte(b[j as int]));
            }
        }
        j = j + 1;
        if c == '.' {
            extension = true;
            break ;
        }
        let code = c as u32;
        let byte: u8 = #[verifier::truncate] (code as u8);
        proof {
            assert(byte == low_byte(c));
        }
        short_name[i] = byte;
        i = i + 1;
        if i >= 8 {
            break ;
        }
    }
    if !extension {
        while j < basis.len()
            invariant_except_break
                j <= q,
            invariant
                b == basis@,
                q == first_index(b, '.'),
                0 <= q <= b.len(),
                q < b.len() ==> b[q] == '.',
                forall|m: int| 0 <= m < q ==> b[m] != '.',
            ensures
                (j == q + 1 && q < b.len()) || (j == b.len() && q == b.len()),
            decreases b.len() - j,
        {
            let c = basis[j];
            j = j + 1;
            if c == '.' {
                break ;
            }
        }
    }
    let ghost start = j as int;
    proof {
        assert((start == q + 1 && q < b.len()) || (start == b.len() && q == b.len()));
    }
    i = 8;
    while j < basis.len()
        invariant_except_break
            i < 11,
        invariant
            b == basis@,
            q == first_index(b, '.'),
            full == basis_short_name(b),
            start == q + 1 || (start == b.len() && q == b.len()),
            start <= j <= b.len(),
            i == 8 + j - start,
            forall|k: int| 0 <= k < 11 ==> #[trigger] short_name@[k] == if (k < 8 && k < q) || (8 <= k < i) {
                full[k]
            } else {
                32u8
            },
        ensures
            forall|k: int| 0 <= k < 11 ==> #[trigger] short_name@[k] == if (k < 8 && k < q) || (8 <= k < 8 + j - start) {
                full[k]
            } else {
                32u8
            },
            j == b.len() || 8 + j - start == 11,
        decreases b.len() - j,
    {
        proof {
            assert(q < b.len());
            assert(full[i as int] == low_byte(b[j as int]));
        }
        let code = basis[j] as u32;
        let byte: u8 = #[verifier::truncate] (code as u8);
        proof {
            assert(byte == low_byte(b[j as int]));
        }
        short_name[i] = byte;
        j = j + 1;
        i = i + 1;
        if i >= 11 {
            break ;
        }
    }
    assert(short_name@ =~= full);
    short_name
}

/// The checksum of an 8.3 name that long file name records carry: for each byte, the
/// running sum rotated right by one bit, plus the byte, modulo 256.
pub open spec fn name_checksum(s: Seq<u8>) -> u8
    decreases s.len(),
{
    if s.len() == 0 {
        0
    } else {
        let p = name_checksum(s.drop_last());
        (((if p % 2 == 0 {
            0int
        } else {
            128int
        }) + p / 2 + s.last()) % 256) as u8
    }
}

/// The FAT checksum of an 8.3 name, as every FAT driver computes it to pair long file name
/// records with their short record: starting from 0, for each byte `b` the running sum `p`
/// becomes `((p & 1) << 7) + (p >> 1) + b` modulo 256, its right rotation by one bit plus
/// the byte.
pub proof fn lemma_name_checksum_step(s: Seq<u8>, b: u8)
    ensures
        name_checksum(Seq::<u8>::empty()) == 0,
        name_checksum(s.push(b)) as int == ((((name_checksum(s) & 1u8) << 7u8) as int) + ((name_checksum(s)
            >> 1u8) as int) + b as int) % 256,
{
    let p = name_checksum(s);
    assert(s.push(b).drop_last() =~= s);
    assert((((p & 1u8) << 7u8) as int) == (if p % 2 == 0 { 0int } else { 128int }) && ((p >> 1u8) as int) == p
        / 2) by (bit_vector);
}

fn checksum_of(short_name: &[u8; 11]) -> (r: u8)
    ensures
        r == name_checksum(short_name@),
{
    let mut sum: u8 = 0;
    let mut k: usize = 0;
    while k < 11
        invariant
            k <= 11,
            sum == name_checksum(short_name@.take(k as int)),
        decreases 11 - k,
    {
        let c = short_name[k];
        proof {
            assert(short_name@.take(k + 1).drop_last() =~= short_name@.take(k as int));
            assert((sum & 1 == 0 <==> sum % 2 == 0) && sum >> 1u8 == sum / 2) by (bit_vector);
        }
        let high: u8 = if sum & 1 == 0 {
            0u8
        } else {
            0x80u8
        };
        sum = high.wrapping_add(sum >> 1u8).wrapping_add(c);
        k = k + 1;
    }
    assert(short_name@.take(11) =~= short_name@);
    sum
}

/// The UTF-16 unit at `idx` of the long name `s` as its records store it: the low 16 bits
/// of the character's code point, a 0 just after the last character, and 0xFFFF after that.
pub open spec fn lfn_unit(s: Seq<char>, idx: int) -> u16 {
    if idx < s.len() {
        (s[idx] as u32) as u16
    } else if idx == s.len() {
        0
    } else {
        0xFFFF
    }
}

/// How many long file name records a name of `n` characters takes: 13 characters each.
pub open spec fn lfn_count(n: nat) -> nat {
    (n + 12) / 13
}

/// Record `j` of the long file name records of `s`, but for its order byte.
pub open spec fn lfn_body(e: LongDirectoryEntry, s: Seq<char>, j: int, checksum: u8) -> bool {
    &&& e.attr == ATTRIBUTE_LONG_FILE_NAME
    &&& e.class == 0
    &&& e.checksum == checksum
    &&& e.first_cluster_low == 0
    &&& forall|k: int| 0 <= k < 5 ==> #[trigger] e.name1@[k] == lfn_unit(s, 13 * j + k)
    &&& forall|k: int| 0 <= k < 6 ==> #[trigger] e.name2@[k] == lfn_unit(s, 13 * j + 5 + k)
    &&& forall|k: int| 0 <= k < 2 ==> #[trigger] e.name3@[k] == lfn_unit(s, 13 * j + 11 + k)
}

/// Record `j` of the `count` long file name records of `s`: its order is `j + 1`, with bit
/// 0x40 set on the last record.
pub open spec fn lfn_record(e: LongDirectoryEntry, s: Seq<char>, j: int, count: int, checksum: u8) -> bool {
    &&& lfn_body(e, s, j, checksum)
    &&& e.order == if j == count - 1 {
        ((j + 1) as u8) | 0x40u8
    } else {
        (j + 1) as u8
    }
}

fn long_entry_from(order: u8, current: &[u16; 13], checksum: u8) -> (e: LongDirectoryEntry)
    ensures
        e.order == order,
        e.attr == ATTRIBUTE_LONG_FILE_NAME,
        e.class == 0,
        e.checksum == checksum,
        e.first_cluster_low == 0,
        forall|k: int| 0 <= k < 5 ==> #[trigger] e.name1@[k] == current@[k],
        forall|k: int| 0 <= k < 6 ==> #[trigger] e.name2@[k] == current@[5 + k],
        forall|k: int| 0 <= k < 2 ==> #[trigger] e.name3@[k] == current@[11 + k],
{
    LongDirectoryEntry {
        order,
        name1: [current[0], current[1], current[2], current[3], current[4]],
        attr: ATTRIBUTE_LONG_FILE_NAME,
        class: 0,
        checksum,
        name2: [current[5], current[6], current[7], current[8], current[9], current[10]],
        first_cluster_low: 0,
        name3: [current[11], current[12]],
    }
}

/// The long file name records of a name, first record first.
fn long_entries_of(name: &String, checksum: u8) -> (r: Vec<LongDirectoryEntry>)
    requires
        0 < name@.len() < 3315,
    ensures
        r@.len() == lfn_count(name@.len()),
        forall|j: int|
            0 <= j < r@.len() ==> lfn_record(#[trigger] r@[j], name@, j, lfn_count(name@.len()) as int, checksum),
{
    broadcast use vstd::string::group_string_axioms;

    let ghost s = name@;
    let mut long_entries: Vec<LongDirectoryEntry> = Vec::new();
    let mut ord: u8 = 1;
    let mut offset: usize = 0;
    let mut current: [u16; 13] = [0xFFFFu16; 13];
    assert(s.take(s.len() as int) =~= s);
    for c in it: name.as_str().chars()
        invariant
            it.seq() == s,
            s == name@,
            0 < s.len() < 3315,
            offset == it.index() % 13,
            ord == it.index() / 13 + 1,
            long_entries@.len() == it.index() / 13,
            forall|j: int|
                0 <= j < long_entries@.len() ==> lfn_body(#[trigger] long_entries@[j], s, j, checksum)
                    && long_entries@[j].order == (j + 1) as u8,
            forall|k: int|
                0 <= k < 13 ==> #[trigger] current@[k] == if k < offset {
                    lfn_unit(s, it.index() - offset + k)
                } else {
                    0xFFFFu16
                },
    {
        let ghost idx = it.index() as int;
        proof {
            assert(s[idx] == c);
        }
        let code = c as u32;
        current[offset] = #[verifier::truncate] (code as u16);
        offset = offset + 1;
        if offset >= 13 {
            let e = long_entry_from(ord, &current, checksum);
            proof {
                let j = idx / 13;
                assert(idx - offset + 1 == 13 * j);
                assert forall|k: int| 0 <= k < 5 implies #[trigger] e.name1@[k] == lfn_unit(s, 13 * j + k) by {
                    assert(current@[k] == lfn_unit(s, 13 * j + k));
                }
                assert forall|k: int| 0 <= k < 6 implies #[trigger] e.name2@[k] == lfn_unit(s, 13 * j + 5 + k) by {
                    assert(current@[5 + k] == lfn_unit(s, 13 * j + 5 + k));
                }
                assert forall|k: int| 0 <= k < 2 implies #[trigger] e.name3@[k] == lfn_unit(s, 13 * j + 11 + k) by {
                    assert(current@[11 + k] == lfn_unit(s, 13 * j + 11 + k));
                }
            }
            long_entries.push(e);
            ord = ord + 1;
            offset = 0;
            current = [0xFFFFu16; 13];
        }
    }
    let ghost count = lfn_count(s.len()) as int;
    if offset == 0 {
        let last = long_entries.len() - 1;
        let mut e = long_entries[last];
        e.order = e.order | 0x40u8;
        long_entries.set(last, e);
    } else {
        current[offset] = 0;
        let e = long_entry_from(ord | 0x40u8, &current, checksum);
        proof {
            let j = s.len() / 13;
            assert(s.len() - offset == 13 * j);
            assert forall|k: int| 0 <= k < 5 implies #[trigger] e.name1@[k] == lfn_unit(s, 13 * j + k) by {
                assert(current@[k] == lfn_unit(s, 13 * j + k));
            }
            assert forall|k: int| 0 <= k < 6 implies #[trigger] e.name2@[k] == lfn_unit(s, 13 * j + 5 + k) by {
                assert(current@[5 + k] == lfn_unit(s, 13 * j + 5 + k));
            }
            assert forall|k: int| 0 <= k < 2 implies #[trigger] e.name3@[k] == lfn_unit(s, 13 * j + 11 + k) by {
                assert(current@[11 + k] == lfn_unit(s, 13 * j + 11 + k));
            }
        }
        long_entries.push(e);
    }
    proof {
        assert(long_entries@.len() == count);
        assert forall|j: int| 0 <= j < long_entries@.len() implies lfn_record(
            #[trigger] long_entries@[j],
            s,
            j,
            count,
            checksum,
        ) by {}
    }
    long_entries
}

/// Whether an entry named `name` needs long file name records: a file whose name does not
/// fit the 8.3 form.
pub open spec fn needs_long_records(name: Seq<char>, directory: bool) -> bool {
    !directory && needs_long_name(name)
}

/// The 8.3 name that the on-disk record of an entry named `name` carries.
pub open spec fn short_name_of(name: Seq<char>, directory: bool) -> Seq<u8> {
    if needs_long_records(name, directory) {
        basis_short_name(basis_name(name))
    } else {
        plain_short_name(name, directory)
    }
}

/// `d` and `longs` are the records that store an entry named `name`, a directory or not,
/// with first cluster `cluster` and size `size`: the 8.3 record, with the directory
/// attribute for a directory, the first cluster split in halves, the size taken modulo
/// 2^32 and every date, time and reserved field zero; and, for a long name, its long file
/// name records.
pub open spec fn records_store(
    name: Seq<char>,
    directory: bool,
    cluster: u32,
    size: usize,
    d: DiskDirectoryEntry,
    longs: Seq<LongDirectoryEntry>,
) -> bool {
    &&& d.filename@ == short_name_of(name, directory)
    &&& d.attributes == if directory {
        ATTRIBUTE_DIRECTORY
    } else {
        0
    }
    &&& d.reserved == 0
    &&& d.creation_tenths == 0
    &&& d.creation_time == 0
    &&& d.creation_date == 0
    &&& d.last_accessed_date == 0
    &&& d.last_modification_time == 0
    &&& d.last_modification_date == 0
    &&& d.first_cluster_high == cluster / 65536
    &&& d.first_cluster_low == cluster % 65536
    &&& d.file_size == size as u32
    &&& longs.len() == if needs_long_records(name, directory) {
        lfn_count(name.len())
    } else {
        0
    }
    &&& forall|j: int|
        0 <= j < longs.len() ==> lfn_record(#[trigger] longs[j], name, j, longs.len() as int, name_checksum(d.filename@))
}

/// Every long file name record written for an entry carries, at byte 13 of its bytes, the
/// FAT checksum of the entry's 8.3 name (see `lemma_name_checksum_step`), so that drivers
/// pair the records with the short record that follows them.
pub proof fn lemma_long_records_carry_checksum(
    name: Seq<char>,
    directory: bool,
    cluster: u32,
    size: usize,
    d: DiskDirectoryEntry,
    longs: Seq<LongDirectoryEntry>,
    j: int,
)
    requires
        records_store(name, directory, cluster, size, d, longs),
        0 <= j < longs.len(),
    ensures
        longs[j].checksum == name_checksum(d.filename@),
        longs[j].bytes()[13] == name_checksum(d.filename@),
        longs[j].bytes()[11] == ATTRIBUTE_LONG_FILE_NAME,
{
    assert(lfn_record(longs[j], name, j, longs.len() as int, name_checksum(d.filename@)));
    reveal_with_fuel(units_bytes, 6);
    let e = longs[j];
    assert(units_bytes(e.name1@).len() == 10);
    assert(e.bytes()[13] == e.checksum);
}

impl DirectoryEntry {
    /// Whether the entry needs long file name records: a file whose name does not fit the
    /// 8.3 form.
    pub open spec fn spec_needs_long_name(&self) -> bool {
        needs_long_records(self.spec_name(), self.spec_is_directory())
    }

    /// `d` and `longs` are the records that store this entry.
    pub open spec fn stored_as(&self, d: DiskDirectoryEntry, longs: Seq<LongDirectoryEntry>) -> bool {
        records_store(self.spec_name(), self.spec_is_directory(), self.spec_first_cluster(), self.spec_file_size(), d, longs)
    }

    /// The records that store this entry in a directory. A directory whose name takes more
    /// than 11 bytes is refused.
    pub fn to_disk_entries(self) -> (r: Result<(DiskDirectoryEntry, Vec<LongDirectoryEntry>), Status>)
        requires
            self.spec_is_directory() || self.spec_name().len() < 3315,
        ensures
            r is Err <==> self.spec_is_directory() && utf8_len(self.spec_name()) > 11,
            r is Err ==> r == Err::<(DiskDirectoryEntry, Vec<LongDirectoryEntry>), Status>(Status::InvalidArgument),
            r matches Ok((d, longs)) ==> self.stored_as(d, longs@),
    {
        let is_long_filename = if self.directory {
            if longer_than_11_bytes(&self.name) {
                return Err(Status::InvalidArgument);
            } else {
                false
            }
        } else {
            is_long_file_name(&self.name)
        };
        proof {
            lemma_utf8_len_bound(self.name@);
        }
        let short_name = if is_long_filename {
            let basis = basis_name_of(&self.name);
            basis_short_name_of(&basis)
        } else {
            plain_short_name_of(&self.name, self.directory)
        };
        proof {
            let fc = self.first_cluster;
            assert((fc >> 16u32) & 0xFFFF == fc / 65536 && fc & 0xFFFF == fc % 65536) by (bit_vector);
        }
        let disk_entry = DiskDirectoryEntry {
            filename: short_name,
            attributes: if self.directory {
                ATTRIBUTE_DIRECTORY
            } else {
                0
            },
            reserved: 0,
            creation_tenths: 0,
            creation_time: 0,
            creation_date: 0,
            last_accessed_date: 0,
            first_cluster_high: ((self.first_cluster >> 16u32) & 0xFFFF) as u16,
            last_modification_time: 0,
            last_modification_date: 0,
            first_cluster_low: (self.first_cluster & 0xFFFF) as u16,
            file_size: #[verifier::truncate] (self.file_size as u32),
        };
        let long_entries = if is_long_filename {
            let checksum = checksum_of(&short_name);
            long_entries_of(&self.name, checksum)
        } else {
            Vec::new()
        };
        Ok((disk_entry, long_entries))
    }
}
} // verus!
