use vstd::prelude::*;

use super::{PhysicalAddress, VirtualAddress, KERNEL_VMA, PAGE_SIZE};
use super::physical::{page_of, Bitmap, allocate_page_post};

verus! {

/// The entry's target is present.
pub const PAGE_FLAG_PRESENT: u64 = 1;

/// The entry's target may be written.
pub const PAGE_FLAG_WRITABLE: u64 = 2;

/// The entry's target may be reached from user mode.
pub const PAGE_FLAG_USER: u64 = 4;

/// The number of entries of a page table.
pub const TABLE_ENTRIES: usize = 512;

/// An address space, named by the physical address of its top-level table.
pub struct AddressSpace(pub PhysicalAddress);

/// One level of the four-level page tables: 512 entries.
#[derive(Clone, Copy)]
pub struct Table {
    entries: [u64; 512],
}

/// The table indices and page offset of a virtual address.
pub struct PageIndex {
    pub pml4_index: usize,
    pub pdpt_index: usize,
    pub page_directory_index: usize,
    pub page_table_index: usize,
    pub _offset: usize,
}

/// The entry that maps `address` with the given access.
pub open spec fn entry_for(address: u64, user: bool) -> u64 {
    let base = (address & !0xFFFu64) | PAGE_FLAG_PRESENT | PAGE_FLAG_WRITABLE;
    if user {
        base | PAGE_FLAG_USER
    } else {
        base
    }
}

/// The kernel virtual address through which the target of `entry` is reached, or 0 for
/// an empty entry.
pub open spec fn target_of(entry: u64) -> u64 {
    if entry == 0 {
        0
    } else {
        ((entry & !0xFFFu64) + KERNEL_VMA) as u64
    }
}

impl AddressSpace {
    /// The physical address of the top-level table.
    pub fn get(&self) -> (r: &PhysicalAddress)
        ensures
            *r == self.0,
    {
        &self.0
    }
}

impl Table {
    pub closed spec fn view(&self) -> Seq<u64> {
        self.entries@
    }

    /// A table whose entries are all empty.
    pub fn new() -> (r: Self)
        ensures
            r@.len() == TABLE_ENTRIES,
            forall|i: int| 0 <= i < TABLE_ENTRIES ==> r@[i] == 0,
    {
        Table { entries: [0u64; 512] }
    }

    /// The raw entry at `index`.
    pub fn entry(&self, index: usize) -> (r: u64)
        requires
            index < TABLE_ENTRIES,
        ensures
            r == self@[index as int],
    {
        self.entries[index]
    }

    /// Whether the entry at `index` points at something present.
    pub fn is_present(&self, index: usize) -> (r: bool)
        requires
            index < TABLE_ENTRIES,
        ensures
            r == (self@[index as int] & PAGE_FLAG_PRESENT != 0),
    {
        self.entries[index] & PAGE_FLAG_PRESENT != 0
    }

    /// The kernel virtual address of what the entry at `index` points at, or 0 when the
    /// entry is empty.
    pub fn get_entry(&self, index: usize) -> (r: VirtualAddress)
        requires
            index < TABLE_ENTRIES,
            self@[index as int] != 0 ==> (self@[index as int] & !0xFFFu64) + KERNEL_VMA <= u64::MAX,
        ensures
            r == target_of(self@[index as int]),
    {
        if self.entries[index] == 0 {
            0
        } else {
            (self.entries[index] & !(PAGE_SIZE as u64 - 1)) + KERNEL_VMA
        }
    }

    /// Points the entry at `index` at the page that holds `address`: present and writable,
    /// and reachable from user mode when `user` holds.
    pub fn set_entry(&mut self, index: usize, address: PhysicalAddress, user: bool)
        requires
            index < TABLE_ENTRIES,
            old(self)@.len() == TABLE_ENTRIES,
        ensures
            final(self)@ == old(self)@.update(index as int, entry_for(address, user)),
    {
        let mut entry = address & !(PAGE_SIZE as u64 - 1);
        entry = entry | PAGE_FLAG_PRESENT | PAGE_FLAG_WRITABLE;
        if user {
            entry = entry | PAGE_FLAG_USER;
        }
        self.entries[index] = entry;
    }

    /// Empties the entry at `index`.
    pub fn clear_entry(&mut self, index: usize)
        requires
            index < TABLE_ENTRIES,
            old(self)@.len() == TABLE_ENTRIES,
        ensures
            final(self)@ == old(self)@.update(index as int, 0),
    {
        self.entries[index] = 0;
    }
}

impl PageIndex {
    /// Splits `address` into its four table indices and its page offset.
    pub fn new(address: VirtualAddress) -> (r: Self)
        ensures
            r._offset == address & 0xFFF,
            r.page_table_index == (address >> 12u64) & 0x1FF,
            r.page_directory_index == (address >> 21u64) & 0x1FF,
            r.pdpt_index == (address >> 30u64) & 0x1FF,
            r.pml4_index == (address >> 39u64) & 0x1FF,
            r._offset < PAGE_SIZE,
            r.page_table_index < TABLE_ENTRIES,
            r.page_directory_index < TABLE_ENTRIES,
            r.pdpt_index < TABLE_ENTRIES,
            r.pml4_index < TABLE_ENTRIES,
    {
        let correct = address & 0x0000FFFFFFFFFFFFu64;
        proof {
            assert(correct & 0xFFF == address & 0xFFF) by (bit_vector)
                requires correct == address & 0x0000FFFFFFFFFFFFu64;
            assert((correct >> 12u64) & 0x1FF == (address >> 12u64) & 0x1FF) by (bit_vector)
                requires correct == address & 0x0000FFFFFFFFFFFFu64;
            assert((correct >> 21u64) & 0x1FF == (address >> 21u64) & 0x1FF) by (bit_vector)
                requires correct == address & 0x0000FFFFFFFFFFFFu64;
            assert((correct >> 30u64) & 0x1FF == (address >> 30u64) & 0x1FF) by (bit_vector)
                requires correct == address & 0x0000FFFFFFFFFFFFu64;
            assert((correct >> 39u64) & 0x1FF == (address >> 39u64) & 0x1FF) by (bit_vector)
                requires correct == address & 0x0000FFFFFFFFFFFFu64;
            assert(correct & 0xFFF < 4096) by (bit_vector);
            assert((correct >> 12u64) & 0x1FF < 512) by (bit_vector);
            assert((correct >> 21u64) & 0x1FF < 512) by (bit_vector);
            assert((correct >> 30u64) & 0x1FF < 512) by (bit_vector);
            assert((correct >> 39u64) & 0x1FF < 512) by (bit_vector);
        }
        PageIndex {
            _offset: (correct & 0xFFF) as usize,
            page_table_index: ((correct >> 12u64) & 0x1FF) as usize,
            page_directory_index: ((correct >> 21u64) & 0x1FF) as usize,
            pdpt_index: ((correct >> 30u64) & 0x1FF) as usize,
            pml4_index: ((correct >> 39u64) & 0x1FF) as usize,
        }
    }
}


/// A table entry reads back what was set in it: the entry that maps `address` leads to the
/// page that holds `address`, reached through the kernel's window; an emptied entry leads
/// nowhere (0).
pub proof fn lemma_entry_round_trip(address: u64, user: bool)
    requires
        (address & !0xFFFu64) + KERNEL_VMA <= u64::MAX,
    ensures
        target_of(entry_for(address, user)) == (address & !0xFFFu64) + KERNEL_VMA,
        entry_for(address, user) & PAGE_FLAG_PRESENT != 0,
        target_of(0u64) == 0,
{
    let base = (address & !0xFFFu64) | PAGE_FLAG_PRESENT | PAGE_FLAG_WRITABLE;
    assert(base & !0xFFFu64 == address & !0xFFFu64 && (base | PAGE_FLAG_USER) & !0xFFFu64 == address & !0xFFFu64
        && base != 0 && (base | PAGE_FLAG_USER) != 0 && base & PAGE_FLAG_PRESENT != 0 && (base | PAGE_FLAG_USER)
        & PAGE_FLAG_PRESENT != 0) by (bit_vector)
        requires
            base == (address & !0xFFFu64) | PAGE_FLAG_PRESENT | PAGE_FLAG_WRITABLE,
    ;
}

/// The four table indices and the page offset of an address put back together give the
/// address without its sign-extension bits.
pub proof fn lemma_page_index_reassembles(address: u64)
    ensures
        ((address >> 39u64) & 0x1FF) << 39u64 | ((address >> 30u64) & 0x1FF) << 30u64 | ((address >> 21u64) & 0x1FF)
            << 21u64 | ((address >> 12u64) & 0x1FF) << 12u64 | (address & 0xFFF) == address & 0x0000FFFFFFFFFFFFu64,
{
    assert(((address >> 39u64) & 0x1FF) << 39u64 | ((address >> 30u64) & 0x1FF) << 30u64 | ((address >> 21u64)
        & 0x1FF) << 21u64 | ((address >> 12u64) & 0x1FF) << 12u64 | (address & 0xFFF) == address
        & 0x0000FFFFFFFFFFFFu64) by (bit_vector);
}

} // verus!

verus! {

/// Every page that holds a table is in use.
pub open spec fn tables_in_use(pt: Map<u64, Seq<u64>>, bitmap: Bitmap) -> bool {
    forall|a: u64| #[trigger] pt.contains_key(a) ==> !bitmap.free_set().contains(page_of(a as int))
}

/// The page that the bitmap hands out next is free, and starts on a page boundary.
pub open spec fn ready(bitmap: Bitmap) -> bool {
    &&& bitmap.free_set().contains(page_of(bitmap.spec_next_free_page() as int))
    &&& bitmap.spec_next_free_page() % (PAGE_SIZE as u64) == 0
}

/// The table of 512 empty entries.
pub open spec fn empty_table() -> Seq<u64> {
    Seq::new(TABLE_ENTRIES as nat, |i: int| 0u64)
}

/// The page tables in physical memory, by the address of the page that holds each.
pub struct PageTables {
    tables: std::collections::HashMap<u64, Table>,
}

impl PageTables {
    /// The entries of each table, by the address of its page.
    pub closed spec fn view(&self) -> Map<u64, Seq<u64>> {
        self.tables@.map_values(|t: Table| t@)
    }

    /// Each table has 512 entries and starts on a page boundary.
    pub closed spec fn wf(&self) -> bool {
        forall|a: u64| #[trigger] self.tables@.contains_key(a) ==> self.tables@[a]@.len() == TABLE_ENTRIES && a
            % (PAGE_SIZE as u64) == 0
    }

    /// No table yet.
    pub fn new() -> (r: Self)
        ensures
            r.wf(),
            r@ == Map::<u64, Seq<u64>>::empty(),
    {
        broadcast use vstd::std_specs::hash::group_hash_axioms;

        let r = PageTables { tables: std::collections::HashMap::new() };
        assert(r@ =~= Map::<u64, Seq<u64>>::empty());
        r
    }

    /// Entry `index` of the table at `table`.
    pub fn entry(&self, table: PhysicalAddress, index: usize) -> (r: u64)
        requires
            self.wf(),
            self@.contains_key(table),
            index < TABLE_ENTRIES,
        ensures
            r == self@[table][index as int],
    {
        broadcast use vstd::std_specs::hash::group_hash_axioms;

        let t = self.tables.get(&table).unwrap();
        t.entry(index)
    }

    /// Points entry `index` of the table at `table` at the page that holds `address`.
    fn set_entry(&mut self, table: PhysicalAddress, index: usize, address: PhysicalAddress, user: bool)
        requires
            old(self).wf(),
            old(self)@.contains_key(table),
            index < TABLE_ENTRIES,
        ensures
            final(self).wf(),
            final(self)@ == old(self)@.insert(table, old(self)@[table].update(index as int, entry_for(address, user))),
    {
        broadcast use vstd::std_specs::hash::group_hash_axioms;

        let mut t = *self.tables.get(&table).unwrap();
        t.set_entry(index, address, user);
        self.tables.insert(table, t);
        assert(self@ =~= old(self)@.insert(table, old(self)@[table].update(index as int, entry_for(address, user))));
    }

    /// Takes the next free page from `bitmap` and puts a table of empty entries on it.
    pub fn new_table(&mut self, bitmap: &mut Bitmap) -> (r: PhysicalAddress)
        requires
            old(self).wf(),
            old(bitmap).wf(),
            ready(*old(bitmap)),
            tables_in_use(old(self)@, *old(bitmap)),
        ensures
            r == old(bitmap).spec_next_free_page(),
            !old(self)@.contains_key(r),
            final(self)@ == old(self)@.insert(r, empty_table()),
            final(self).wf(),
            final(bitmap).wf(),
            allocate_page_post(*old(bitmap), *final(bitmap), r as int),
            final(bitmap).free_set() == old(bitmap).free_set().remove(page_of(r as int)),
            tables_in_use(final(self)@, *final(bitmap)),
            final(bitmap).free_set().len() > 0 ==> ready(*final(bitmap)),
    {
        broadcast use vstd::std_specs::hash::group_hash_axioms;

        let ghost b0 = *bitmap;
        let phys = bitmap.allocate();
        proof {
            Bitmap::lemma_next_free_after_allocate(b0, *bitmap);
        }
        let t = Table::new();
        self.tables.insert(phys, t);
        proof {
            assert(t@ =~= empty_table());
            assert(self@ =~= old(self)@.insert(phys, empty_table()));
        }
        phys
    }
}

} // verus!

verus! {

/// Addresses below the kernel's half are reached from user mode.
pub open spec fn user_address(address: u64) -> bool {
    address < KERNEL_VMA
}

/// The index that `address` takes in the table of level `level`: 0 for the top-level table,
/// then 1, 2 and 3 for the page table.
pub open spec fn table_index(address: u64, level: int) -> int {
    if level == 0 {
        ((address >> 39u64) & 0x1FF) as int
    } else if level == 1 {
        ((address >> 30u64) & 0x1FF) as int
    } else if level == 2 {
        ((address >> 21u64) & 0x1FF) as int
    } else {
        ((address >> 12u64) & 0x1FF) as int
    }
}

/// What entry `i` of the table at `table` points at, when the table is known and the entry
/// present: the address of the page its bits name.
pub open spec fn next_level(pt: Map<u64, Seq<u64>>, table: u64, i: int) -> Option<u64> {
    if pt.contains_key(table) && pt[table][i] & PAGE_FLAG_PRESENT != 0 {
        Some(pt[table][i] & !0xFFFu64)
    } else {
        None
    }
}

/// The page that `address` is mapped to under the top-level table at `root`, if any.
pub open spec fn translate(pt: Map<u64, Seq<u64>>, root: u64, address: u64) -> Option<u64> {
    match next_level(pt, root, table_index(address, 0)) {
        None => None,
        Some(t1) => match next_level(pt, t1, table_index(address, 1)) {
            None => None,
            Some(t2) => match next_level(pt, t2, table_index(address, 2)) {
                None => None,
                Some(t3) => next_level(pt, t3, table_index(address, 3)),
            },
        },
    }
}

/// The tables that a walk to `address` from `root` passes through are known and distinct:
/// the top-level table, and each further table that a present entry points at.
pub open spec fn path_ok(pt: Map<u64, Seq<u64>>, root: u64, address: u64) -> bool {
    &&& pt.contains_key(root)
    &&& next_level(pt, root, table_index(address, 0)) matches Some(t1) ==> {
        &&& pt.contains_key(t1) && t1 != root
        &&& next_level(pt, t1, table_index(address, 1)) matches Some(t2) ==> {
            &&& pt.contains_key(t2) && t2 != root && t2 != t1
            &&& next_level(pt, t2, table_index(address, 2)) matches Some(t3) ==> pt.contains_key(t3) && t3 != root
                && t3 != t1 && t3 != t2
        }
    }
}

/// How many tables a walk to `address` from `root` lacks.
pub open spec fn tables_needed(pt: Map<u64, Seq<u64>>, root: u64, address: u64) -> int {
    match next_level(pt, root, table_index(address, 0)) {
        None => 3,
        Some(t1) => match next_level(pt, t1, table_index(address, 1)) {
            None => 2,
            Some(t2) => match next_level(pt, t2, table_index(address, 2)) {
                None => 1,
                Some(_) => 0,
            },
        },
    }
}

/// Entry `i` of the table at `table` lies on the walk to `address` from `root`.
pub open spec fn on_path(pt: Map<u64, Seq<u64>>, root: u64, address: u64, table: u64, i: int) -> bool {
    ||| table == root && i == table_index(address, 0)
    ||| next_level(pt, root, table_index(address, 0)) == Some(table) && i == table_index(address, 1)
    ||| (next_level(pt, root, table_index(address, 0)) matches Some(t1) && next_level(pt, t1, table_index(address, 1))
        == Some(table) && i == table_index(address, 2))
    ||| (next_level(pt, root, table_index(address, 0)) matches Some(t1) && next_level(pt, t1, table_index(address, 1))
        matches Some(t2) && next_level(pt, t2, table_index(address, 2)) == Some(table) && i == table_index(address, 3))
}

/// The entry that maps an address has the present bit, and names the page of the address.
pub proof fn lemma_entry_for(x: u64, user: bool)
    ensures
        entry_for(x, user) & PAGE_FLAG_PRESENT != 0,
        entry_for(x, user) & !0xFFFu64 == x & !0xFFFu64,
        x % 4096 == 0 ==> x & !0xFFFu64 == x,
        0u64 & PAGE_FLAG_PRESENT == 0,
{
    let base = (x & !0xFFFu64) | PAGE_FLAG_PRESENT | PAGE_FLAG_WRITABLE;
    assert(base & 1u64 != 0 && (base | 4u64) & 1u64 != 0 && base & !0xFFFu64 == x & !0xFFFu64 && (base | 4u64)
        & !0xFFFu64 == x & !0xFFFu64 && (x % 4096 == 0 ==> x & !0xFFFu64 == x) && 0u64 & 1u64 == 0) by (bit_vector)
        requires
            base == (x & !0xFFFu64) | 1u64 | 2u64,
    ;
}

} // verus!

verus! {

impl PageTables {
    /// The table that entry `index` of the table at `table` points at; when the entry is not
    /// present, a table of empty entries is first made on the next free page of `bitmap` and
    /// the entry pointed at it.
    fn descend(&mut self, bitmap: &mut Bitmap, table: PhysicalAddress, index: usize, user: bool) -> (r:
        PhysicalAddress)
        requires
            old(self).wf(),
            old(bitmap).wf(),
            old(self)@.contains_key(table),
            index < TABLE_ENTRIES,
            tables_in_use(old(self)@, *old(bitmap)),
            next_level(old(self)@, table, index as int) is None ==> ready(*old(bitmap)),
        ensures
            final(self).wf(),
            final(bitmap).wf(),
            tables_in_use(final(self)@, *final(bitmap)),
            next_level(final(self)@, table, index as int) == Some(r),
            next_level(old(self)@, table, index as int) matches Some(t) ==> r == t && final(self)@ == old(self)@
                && *final(bitmap) == *old(bitmap),
            next_level(old(self)@, table, index as int) is None ==> {
                &&& r == old(bitmap).spec_next_free_page()
                &&& !old(self)@.contains_key(r)
                &&& old(bitmap).free_set().contains(page_of(r as int))
                &&& final(self)@ == old(self)@.insert(r, empty_table()).insert(
                    table,
                    old(self)@[table].update(index as int, entry_for(r, user)),
                )
                &&& final(bitmap).free_set() == old(bitmap).free_set().remove(page_of(r as int))
                &&& final(bitmap).free_set().len() > 0 ==> ready(*final(bitmap))
            },
    {
        let e = self.entry(table, index);
        if e & PAGE_FLAG_PRESENT == 0 {
            let fresh = self.new_table(bitmap);
            self.set_entry(table, index, fresh, user);
            proof {
                lemma_entry_for(fresh, user);
            }
        }
        let e2 = self.entry(table, index);
        e2 & !0xFFFu64
    }
}

impl PageTables {
    /// Copies entries `from` to 511 of the table at `source` into the table at `target`.
    fn copy_entries(&mut self, target: PhysicalAddress, source: PhysicalAddress, from: usize)
        requires
            old(self).wf(),
            old(self)@.contains_key(target),
            old(self)@.contains_key(source),
            from <= TABLE_ENTRIES,
        ensures
            final(self).wf(),
            final(self)@ == old(self)@.insert(
                target,
                Seq::new(
                    TABLE_ENTRIES as nat,
                    |i: int|
                        if i < from {
                            old(self)@[target][i]
                        } else {
                            old(self)@[source][i]
                        },
                ),
            ),
    {
        broadcast use vstd::std_specs::hash::group_hash_axioms;

        let mut t = *self.tables.get(&target).unwrap();
        let s = *self.tables.get(&source).unwrap();
        let mut i = from;
        while i < TABLE_ENTRIES
            invariant
                from <= i <= TABLE_ENTRIES,
                t@.len() == TABLE_ENTRIES,
                s@ == old(self)@[source],
                forall|k: int| 0 <= k < TABLE_ENTRIES ==> #[trigger] t@[k] == if k < from || k >= i {
                    old(self)@[target][k]
                } else {
                    s@[k]
                },
            decreases TABLE_ENTRIES - i,
        {
            t.entries[i] = s.entries[i];
            i = i + 1;
        }
        self.tables.insert(target, t);
        proof {
            let want = Seq::new(
                TABLE_ENTRIES as nat,
                |i: int|
                    if i < from {
                        old(self)@[target][i]
                    } else {
                        old(self)@[source][i]
                    },
            );
            assert(t@ =~= want);
            assert(self@ =~= old(self)@.insert(target, want));
        }
    }
}

impl AddressSpace {
    /// A new address space: a top-level table on the next free page of `bitmap`, empty in the
    /// user half and sharing the kernel half (entries 256 to 511) with `kernel`.
    pub fn new(tables: &mut PageTables, bitmap: &mut Bitmap, kernel: &AddressSpace) -> (r: AddressSpace)
        requires
            old(tables).wf(),
            old(bitmap).wf(),
            ready(*old(bitmap)),
            tables_in_use(old(tables)@, *old(bitmap)),
            old(tables)@.contains_key(kernel.0),
        ensures
            final(tables).wf(),
            final(bitmap).wf(),
            tables_in_use(final(tables)@, *final(bitmap)),
            r.0 == old(bitmap).spec_next_free_page(),
            !old(tables)@.contains_key(r.0),
            final(tables)@ == old(tables)@.insert(
                r.0,
                Seq::new(TABLE_ENTRIES as nat, |i: int| if i < 256 { 0u64 } else { old(tables)@[kernel.0][i] }),
            ),
            final(bitmap).free_set() == old(bitmap).free_set().remove(page_of(r.0 as int)),
            final(bitmap).free_set().len() > 0 ==> ready(*final(bitmap)),
    {
        let phys = tables.new_table(bitmap);
        let ghost mid = tables@;
        tables.copy_entries(phys, kernel.0, 256);
        proof {
            assert(mid[kernel.0] == old(tables)@[kernel.0]);
            assert(Seq::new(TABLE_ENTRIES as nat, |i: int| if i < 256 { mid[phys][i] } else { mid[kernel.0][i] })
                =~= Seq::new(TABLE_ENTRIES as nat, |i: int| if i < 256 { 0u64 } else { old(tables)@[kernel.0][i] }));
            assert(tables@ =~= old(tables)@.insert(
                phys,
                Seq::new(TABLE_ENTRIES as nat, |i: int| if i < 256 { 0u64 } else { old(tables)@[kernel.0][i] }),
            ));
        }
        AddressSpace(phys)
    }

    /// Maps the page of `virtual_address` to the page of `physical_address` in this address
    /// space. The tables the walk lacks are made on pages taken from `bitmap`, and a page
    /// already mapped stays as it was. Entries set for an address below the kernel's half
    /// can be reached from user mode.
    pub fn allocate(
        &self,
        tables: &mut PageTables,
        bitmap: &mut Bitmap,
        virtual_address: VirtualAddress,
        physical_address: PhysicalAddress,
    )
        requires
            self.0 < KERNEL_VMA,
            old(tables).wf(),
            old(bitmap).wf(),
            tables_in_use(old(tables)@, *old(bitmap)),
            path_ok(old(tables)@, self.0, virtual_address),
            tables_needed(old(tables)@, self.0, virtual_address) <= old(bitmap).free_set().len(),
            tables_needed(old(tables)@, self.0, virtual_address) > 0 ==> ready(*old(bitmap)),
        ensures
            final(tables).wf(),
            final(bitmap).wf(),
            tables_in_use(final(tables)@, *final(bitmap)),
            translate(final(tables)@, self.0, virtual_address) == match translate(
                old(tables)@,
                self.0,
                virtual_address,
            ) {
                Some(page) => Some(page),
                None => Some(physical_address & !0xFFFu64),
            },
            forall|a: u64| #[trigger] old(tables)@.contains_key(a) ==> final(tables)@.contains_key(a),
            forall|a: u64, i: int|
                old(tables)@.contains_key(a) && 0 <= i < TABLE_ENTRIES && #[trigger] final(tables)@[a][i]
                    != old(tables)@[a][i] ==> {
                    &&& old(tables)@[a][i] & PAGE_FLAG_PRESENT == 0
                    &&& on_path(final(tables)@, self.0, virtual_address, a, i)
                    &&& exists|x: u64| final(tables)@[a][i] == #[trigger] entry_for(x, user_address(virtual_address))
                },
            forall|a: u64|
                #[trigger] final(tables)@.contains_key(a) && !old(tables)@.contains_key(a) ==> {
                    &&& old(bitmap).free_set().contains(page_of(a as int))
                    &&& forall|i: int|
                        0 <= i < TABLE_ENTRIES && !on_path(final(tables)@, self.0, virtual_address, a, i)
                            ==> #[trigger] final(tables)@[a][i] == 0
                },
            translate(old(tables)@, self.0, virtual_address) is Some ==> final(tables)@ == old(tables)@
                && *final(bitmap) == *old(bitmap),
            final(bitmap).free_set().subset_of(old(bitmap).free_set()),
            final(bitmap).free_set().len() == old(bitmap).free_set().len() - tables_needed(
                old(tables)@,
                self.0,
                virtual_address,
            ),
    {
        let index = PageIndex::new(virtual_address);
        let user = virtual_address < KERNEL_VMA;
        let root = self.0;
        let ghost v = virtual_address;
        let ghost i0 = table_index(v, 0);
        let ghost i1 = table_index(v, 1);
        let ghost i2 = table_index(v, 2);
        let ghost i3 = table_index(v, 3);
        assert(index.pml4_index == i0 && index.pdpt_index == i1 && index.page_directory_index == i2
            && index.page_table_index == i3);
        let ghost pt0 = tables@;
        let ghost b0 = *bitmap;
        let ghost need = tables_needed(pt0, root, v);
        proof {
            b0.lemma_free_finite();
            lemma_entry_for(0, user);
        }
        let t1 = tables.descend(bitmap, root, index.pml4_index, user);
        let ghost pt1 = tables@;
        let ghost b1 = *bitmap;
        proof {
            b1.lemma_free_finite();
            if next_level(pt0, root, i0) is None {
                assert(need == 3);
                assert(b1.free_set().len() == b0.free_set().len() - 1);
                assert(pt1[t1] == empty_table());
                assert(next_level(pt1, t1, i1) is None);
            } else {
                assert(pt1.contains_key(t1));
            }
        }
        let t2 = tables.descend(bitmap, t1, index.pdpt_index, user);
        let ghost pt2 = tables@;
        let ghost b2 = *bitmap;
        proof {
            b2.lemma_free_finite();
            if next_level(pt1, t1, i1) is None {
                assert(b2.free_set().len() == b1.free_set().len() - 1);
                assert(pt2[t2] == empty_table());
                assert(next_level(pt2, t2, i2) is None);
            } else {
                assert(pt1 == pt0 && next_level(pt0, root, i0) == Some(t1));
                assert(pt2.contains_key(t2));
            }
        }
        let t3 = tables.descend(bitmap, t2, index.page_directory_index, user);
        let ghost pt3 = tables@;
        let ghost b3 = *bitmap;
        proof {
            b3.lemma_free_finite();
        }
        if tables.entry(t3, index.page_table_index) & PAGE_FLAG_PRESENT == 0 {
            tables.set_entry(t3, index.page_table_index, physical_address, user);
            proof {
                lemma_entry_for(physical_address, user);
            }
        }
        proof {
            let pt4 = tables@;
            assert(user == user_address(v));
            assert(next_level(pt4, root, i0) == Some(t1));
            assert(next_level(pt4, t1, i1) == Some(t2));
            assert(next_level(pt4, t2, i2) == Some(t3));
            assert forall|a: u64, i: int|
                pt0.contains_key(a) && 0 <= i < TABLE_ENTRIES && #[trigger] pt4[a][i] != pt0[a][i] implies {
                &&& pt0[a][i] & PAGE_FLAG_PRESENT == 0
                &&& on_path(pt4, root, v, a, i)
                &&& exists|x: u64| pt4[a][i] == #[trigger] entry_for(x, user_address(v))
            } by {
                if a == root && i == i0 {
                    assert(pt4[a][i] == entry_for(t1, user));
                } else if a == t1 && i == i1 {
                    assert(pt4[a][i] == entry_for(t2, user));
                } else if a == t2 && i == i2 {
                    assert(pt4[a][i] == entry_for(t3, user));
                } else if a == t3 && i == i3 {
                    assert(pt4[a][i] == entry_for(physical_address, user));
                } else {
                    assert(pt4[a][i] == pt0[a][i]);
                }
            }
        }
    }
}

} // verus!
