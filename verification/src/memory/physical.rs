use vstd::prelude::*;
use vstd::set_lib::*;

use super::{PhysicalAddress, PAGE_SIZE};

verus! {

/// The most physical memory that the bitmap covers: 128 GiB.
pub const MAXIMUM_MEMORY: u64 = 137438953472;

/// The number of 64-page words in the bitmap.
pub const BITMAP_SIZE: usize = 524288;

/// A page allocator: one bit per physical page, set while the page is in use.
pub struct Bitmap {
    map: Vec<u64>,
    size: usize,
    free_pages: usize,
    total_pages: usize,
    next_free_page: PhysicalAddress,
    free: Ghost<Set<int>>,
}

/// Whether bit `b` of `w` is set.
pub open spec fn bit_set(w: u64, b: u32) -> bool {
    (w >> b) & 1u64 == 1u64
}

/// The word of the bitmap that holds page `page`.
pub open spec fn word_of(page: int) -> int {
    page / 64
}

/// The bit of its word that stands for page `page`: the first page of a word is its
/// highest bit.
pub open spec fn bit_of(page: int) -> u32 {
    (63 - page % 64) as u32
}

/// The page that holds `address`.
pub open spec fn page_of(address: int) -> int {
    address / (PAGE_SIZE as int)
}

proof fn lemma_bit_after_set(w: u64, b: u32, c: u32)
    requires
        b < 64,
        c < 64,
    ensures
        bit_set(w | (1u64 << b), c) == (c == b || bit_set(w, c)),
{
    assert(((w | (1u64 << b)) >> c) & 1u64 == 1u64 <==> (c == b || (w >> c) & 1u64 == 1u64))
        by (bit_vector)
        requires
            b < 64,
            c < 64,
    ;
}

proof fn lemma_bit_after_clear(w: u64, b: u32, c: u32)
    requires
        b < 64,
        c < 64,
    ensures
        bit_set(w & !(1u64 << b), c) == (c != b && bit_set(w, c)),
{
    assert(((w & !(1u64 << b)) >> c) & 1u64 == 1u64 <==> (c != b && (w >> c) & 1u64 == 1u64))
        by (bit_vector)
        requires
            b < 64,
            c < 64,
    ;
}

proof fn lemma_all_ones(c: u32)
    requires
        c < 64,
    ensures
        bit_set(0xFFFF_FFFF_FFFF_FFFFu64, c),
{
    assert((0xFFFF_FFFF_FFFF_FFFFu64 >> c) & 1u64 == 1u64) by (bit_vector)
        requires
            c < 64,
    ;
}

/// Whether page `page` is free in the words `map`, of which the first `size` are in use.
pub open spec fn page_free_in(map: Seq<u64>, size: usize, page: int) -> bool {
    &&& 0 <= page
    &&& word_of(page) < size
    &&& !bit_set(map[word_of(page)], bit_of(page))
}

/// The first address from `start` on, in steps of a page, whose page is free.
pub open spec fn scan_in(map: Seq<u64>, size: usize, start: int) -> Option<int>
    decreases (if start < size * 64 * PAGE_SIZE { size * 64 * PAGE_SIZE - start } else { 0 }),
{
    if start >= size * 64 * PAGE_SIZE {
        None
    } else if page_free_in(map, size, page_of(start)) {
        Some(start)
    } else {
        scan_in(map, size, start + PAGE_SIZE)
    }
}

proof fn lemma_bit_test(w: u64, b: u32)
    requires
        b < 64,
    ensures
        ((w >> b) & 1u64 > 0) == bit_set(w, b),
        ((w >> b) & 1u64 == 0) == !bit_set(w, b),
{
    assert(((w >> b) & 1u64 > 0) == ((w >> b) & 1u64 == 1u64)) by (bit_vector);
    assert(((w >> b) & 1u64 == 0) == !((w >> b) & 1u64 == 1u64)) by (bit_vector);
}

proof fn lemma_page_step(start: int)
    requires
        0 <= start,
    ensures
        page_of(start + PAGE_SIZE) == page_of(start) + 1,
{
    vstd::arithmetic::div_mod::lemma_hoist_over_denominator(start, 1, 4096);
}

proof fn lemma_address_word(address: u64)
    ensures
        (address / 262144u64) as int == word_of(page_of(address as int)),
        (63 - ((address / 4096u64) % 64)) as u32 == bit_of(page_of(address as int)),
{
    vstd::arithmetic::div_mod::lemma_div_denominator(address as int, 4096, 64);
}

proof fn lemma_bit_of_distinct(p: int, q: int)
    requires
        0 <= p,
        0 <= q,
        word_of(p) == word_of(q),
        p != q,
    ensures
        bit_of(p) != bit_of(q),
        bit_of(p) < 64,
{
}

impl Bitmap {
    /// Whether page `page` is free.
    pub closed spec fn is_free(&self, page: int) -> bool {
        page_free_in(self.map@, self.size, page)
    }

    /// The number of words in use: pages of later words are never free.
    pub closed spec fn spec_size(&self) -> usize {
        self.size
    }

    pub closed spec fn spec_free_pages(&self) -> usize {
        self.free_pages
    }

    pub closed spec fn spec_total_pages(&self) -> usize {
        self.total_pages
    }

    /// The address that the next `allocate` hands out.
    pub closed spec fn spec_next_free_page(&self) -> PhysicalAddress {
        self.next_free_page
    }

    /// The free pages.
    pub closed spec fn free_set(&self) -> Set<int> {
        self.free@
    }

    pub closed spec fn wf(&self) -> bool {
        &&& self.map@.len() == BITMAP_SIZE
        &&& self.size <= BITMAP_SIZE
        &&& forall|i: int| self.size <= i < BITMAP_SIZE ==> #[trigger] self.map@[i] == 0xFFFF_FFFF_FFFF_FFFFu64
        &&& self.free@.finite()
        &&& forall|p: int| #[trigger] self.free@.contains(p) <==> self.is_free(p)
        &&& self.free_pages == self.free@.len()
        &&& forall|p: int| #[trigger] self.is_free(p) ==> p >= page_of(self.next_free_page as int)
    }

    /// The bitmap before any memory is known: every page in use.
    pub fn new() -> (r: Self)
        ensures
            r.wf(),
            r.free_set() == Set::<int>::empty(),
            r.spec_size() == 0,
            r.spec_free_pages() == 0,
            r.spec_total_pages() == 0,
            r.spec_next_free_page() == u64::MAX,
    {
        let mut map: Vec<u64> = Vec::new();
        let mut i: usize = 0;
        while i < BITMAP_SIZE
            invariant
                i <= BITMAP_SIZE,
                map@.len() == i,
                forall|j: int| 0 <= j < i ==> map@[j] == 0xFFFF_FFFF_FFFF_FFFFu64,
            decreases BITMAP_SIZE - i,
        {
            map.push(0xFFFF_FFFF_FFFF_FFFFu64);
            i = i + 1;
        }
        let r = Bitmap {
            map,
            size: 0,
            free_pages: 0,
            total_pages: 0,
            next_free_page: 0xFFFF_FFFF_FFFF_FFFFu64,
            free: Ghost(Set::empty()),
        };
        r
    }

    /// The words and the size are in range.
    pub closed spec fn words_ok(&self) -> bool {
        &&& self.map@.len() == BITMAP_SIZE
        &&& self.size <= BITMAP_SIZE
    }

    /// The end of the addresses that a scan for a free page covers.
    pub closed spec fn scan_limit(&self) -> int {
        self.size * 64 * PAGE_SIZE
    }

    /// The first address from `start` on, in steps of a page, whose page is free.
    pub closed spec fn scan(&self, start: int) -> Option<int> {
        scan_in(self.map@, self.size, start)
    }

    /// The free pages are those that `is_page_free` reports free; the free page count is
    /// their number, and none lies before the next free page.
    pub proof fn lemma_free_set(&self)
        requires
            self.wf(),
        ensures
            forall|p: int| #[trigger] self.free_set().contains(p) == self.is_free(p),
            self.spec_free_pages() == self.free_set().len(),
            forall|p: int| #[trigger] self.is_free(p) ==> p >= page_of(self.spec_next_free_page() as int),
            forall|p: int| #[trigger] self.is_free(p) ==> 0 <= p && word_of(p) < self.spec_size(),
            self.words_ok(),
    {
    }

    /// The free pages are finitely many.
    pub proof fn lemma_free_finite(&self)
        requires
            self.wf(),
        ensures
            self.free_set().finite(),
    {
    }

    /// Once the next free page has been handed out, the page handed out next is free again,
    /// and starts on a page boundary, as long as any page is free.
    pub proof fn lemma_next_free_after_allocate(b0: Bitmap, b1: Bitmap)
        requires
            b0.wf(),
            b1.wf(),
            b0.free_set().contains(page_of(b0.spec_next_free_page() as int)),
            b0.spec_next_free_page() % (PAGE_SIZE as u64) == 0,
            allocate_page_post(b0, b1, b0.spec_next_free_page() as int),
        ensures
            b1.free_set() == b0.free_set().remove(page_of(b0.spec_next_free_page() as int)),
            b1.spec_next_free_page() % (PAGE_SIZE as u64) == 0,
            b1.free_set().len() > 0 ==> b1.free_set().contains(page_of(b1.spec_next_free_page() as int)),
    {
        let a0 = b0.spec_next_free_page() as int;
        assert(b0.is_free(page_of(a0)));
        b1.lemma_scan(a0);
        match b1.scan(a0) {
            Some(a) => {
                assert(b1.is_free(page_of(a)));
            },
            None => {
                assert forall|q: int| !#[trigger] b1.free_set().contains(q) by {
                    if b1.free_set().contains(q) {
                        assert(b1.is_free(q));
                    }
                }
                assert(b1.free_set() =~= Set::<int>::empty());
            },
        }
    }

    /// A scan from `start` finds the lowest free page at or after the page of `start`: the
    /// address it gives lies a whole number of pages after `start`, below the scan limit,
    /// its page is free and no page between is; when it finds none, no page from there on
    /// is free.
    pub proof fn lemma_scan(&self, start: int)
        requires
            0 <= start,
            self.words_ok(),
        ensures
            self.scan(start) matches Some(a) ==> {
                &&& start <= a < self.scan_limit()
                &&& (a - start) % (PAGE_SIZE as int) == 0
                &&& self.is_free(page_of(a))
                &&& forall|q: int| page_of(start) <= q < page_of(a) ==> !#[trigger] self.is_free(q)
            },
            self.scan(start) is None ==> forall|q: int| page_of(start) <= q ==> !#[trigger] self.is_free(q),
        decreases (if start < self.scan_limit() { self.scan_limit() - start } else { 0 }),
    {
        if start >= self.scan_limit() {
            assert forall|q: int| page_of(start) <= q implies !#[trigger] self.is_free(q) by {
                assert(word_of(q) >= self.size) by (nonlinear_arith)
                    requires
                        page_of(start) <= q,
                        start >= self.size * 64 * 4096,
                        page_of(start) == start / 4096,
                        word_of(q) == q / 64,
                ;
            }
        } else if !self.is_free(page_of(start)) {
            self.lemma_scan(start + PAGE_SIZE);
            lemma_page_step(start);
        }
    }

    /// Whether the page that holds `address` is free.
    pub fn is_page_free(&self, address: PhysicalAddress) -> (r: bool)
        requires
            self.words_ok(),
        ensures
            r == self.is_free(page_of(address as int)),
    {
        let i = address / (PAGE_SIZE as u64 * 64);
        let b = 63 - ((address / PAGE_SIZE as u64) % 64) as u32;
        proof {
            lemma_address_word(address);
        }
        if i >= self.size as u64 {
            false
        } else {
            proof {
                lemma_bit_test(self.map@[i as int], b);
            }
            (self.map[i as usize] >> b) & 1 == 0
        }
    }

    /// Well-formedness does not depend on the count of total pages.
    proof fn lemma_wf_without_total(&self, other: Bitmap)
        requires
            self.wf(),
            other.map == self.map,
            other.size == self.size,
            other.free == self.free,
            other.free_pages == self.free_pages,
            other.next_free_page == self.next_free_page,
        ensures
            other.wf(),
    {
        assert forall|q: int| #[trigger] other.is_free(q) == self.is_free(q) by {}
    }

    /// Moving the next free page keeps a bitmap well formed while no free page lies below
    /// it.
    proof fn lemma_wf_with_next(&self, other: Bitmap)
        requires
            self.wf(),
            other.map == self.map,
            other.size == self.size,
            other.free == self.free,
            other.free_pages == self.free_pages,
            forall|q: int| #[trigger] self.is_free(q) ==> q >= page_of(other.next_free_page as int),
        ensures
            other.wf(),
    {
        assert forall|q: int| #[trigger] other.is_free(q) == self.is_free(q) by {}
    }

    /// The number of free pages that the bitmap counts.
    proof fn lemma_free_bound(&self)
        requires
            self.wf(),
        ensures
            self.free@.len() <= self.size * 64,
    {
        assert(self.free@.subset_of(set_int_range(0, self.size * 64))) by {
            assert forall|p: int| #[trigger] self.free@.contains(p) implies set_int_range(0, self.size * 64).contains(p) by {
                assert(p < self.size * 64) by (nonlinear_arith)
                    requires
                        0 <= p,
                        p / 64 < self.size,
                ;
            }
        }
        lemma_int_range(0, self.size * 64);
        lemma_len_subset(self.free@, set_int_range(0, self.size * 64));
    }

    /// Marks the page that holds `address` as in use, if it is free. When `address` is the
    /// next free page, the next free page moves to the first free page after it.
    pub fn allocate_page(&mut self, address: PhysicalAddress)
        requires
            old(self).wf(),
        ensures
            final(self).wf(),
            allocate_page_post(*old(self), *final(self), address as int),
    {
        let wi = address / (PAGE_SIZE as u64 * 64);
        let b = 63 - ((address / PAGE_SIZE as u64) % 64) as u32;
        let ghost p = page_of(address as int);
        proof {
            lemma_address_word(address);
        }
        if wi >= self.size as u64 {
            return;
        }
        let i = wi as usize;
        proof {
            lemma_bit_test(self.map@[i as int], b);
        }
        if (self.map[i] >> b) & 1 > 0 {
            proof {
                assert(!self.is_free(p));
            }
            return;
        }
        let ghost old_self = *self;
        proof {
            assert(self.free@.contains(p));
        }
        self.free_pages = self.free_pages - 1;
        let word = self.map[i] | (1u64 << b);
        self.map.set(i, word);
        proof {
            self.free@ = self.free@.remove(p);
        }
        if address == self.next_free_page {
            let mut j = self.next_free_page;
            let limit = self.size as u64 * 64 * PAGE_SIZE as u64;
            let mut found = false;
            proof {
                assert(limit == self.scan_limit());
            }
            while !found && j < limit
                invariant
                    self.words_ok(),
                    self.map@ == old_self.map@.update(i as int, word),
                    self.size == old_self.size,
                    self.free@ == old_self.free@.remove(p),
                    limit == self.scan_limit(),
                    self.next_free_page == address,
                    j >= address,
                    (j - address) % (PAGE_SIZE as int) == 0,
                    !found ==> self.scan(address as int) == self.scan(j as int),
                    found ==> self.scan(address as int) == Some(j as int),
                decreases (if j < limit { limit - j } else { 0 }) + (if found { 0int } else { 1int }),
            {
                if self.is_page_free(j) {
                    found = true;
                } else {
                    j = j + PAGE_SIZE as u64;
                }
            }
            if found {
                self.next_free_page = j;
            }
        }
        proof {
            assert(self.map@ == old_self.map@.update(i as int, word));
            assert forall|q: int| #[trigger] self.is_free(q) == (old_self.is_free(q) && q != p) by {
                if 0 <= q && word_of(q) < self.size {
                    if word_of(q) == word_of(p) {
                        if q != p {
                            lemma_bit_of_distinct(p, q);
                        }
                        lemma_bit_after_set(old_self.map@[word_of(p)], b, bit_of(q));
                    }
                }
            }
            assert(self.free@.len() == old_self.free@.len() - 1);
            assert forall|q: int| #[trigger] self.free@.contains(q) <==> self.is_free(q) by {}
            if address == old_self.next_free_page {
                self.lemma_scan(address as int);
                assert forall|q: int| #[trigger] self.is_free(q) implies q >= page_of(self.next_free_page as int) by {
                    assert(old_self.is_free(q));
                    assert(q >= p);
                }
            } else {
                assert forall|q: int| #[trigger] self.is_free(q) implies q >= page_of(self.next_free_page as int) by {
                    assert(old_self.is_free(q));
                }
            }
        }
    }
}

impl Bitmap {
    /// Hands out the next free page's address and marks it in use.
    pub fn allocate(&mut self) -> (r: PhysicalAddress)
        requires
            old(self).wf(),
        ensures
            final(self).wf(),
            r == old(self).spec_next_free_page(),
            allocate_page_post(*old(self), *final(self), r as int),
    {
        let ret = self.next_free_page;
        self.allocate_page(ret);
        ret
    }

    /// Marks the page that holds `address` as free, if it is in use and covered. The next
    /// free page moves down to `address` when `address` lies below it.
    pub fn free(&mut self, address: PhysicalAddress)
        requires
            old(self).wf(),
        ensures
            final(self).wf(),
            free_post(*old(self), *final(self), address as int),
    {
        let wi = address / (PAGE_SIZE as u64 * 64);
        let b = 63 - ((address / PAGE_SIZE as u64) % 64) as u32;
        let ghost p = page_of(address as int);
        proof {
            lemma_address_word(address);
        }
        if wi >= self.size as u64 {
            return;
        }
        let i = wi as usize;
        proof {
            lemma_bit_test(self.map@[i as int], b);
        }
        if (self.map[i] >> b) & 1 == 0 {
            return;
        }
        let ghost old_self = *self;
        if address < self.next_free_page {
            self.next_free_page = address;
        }
        proof {
            assert(!self.free@.contains(p));
            old_self.lemma_free_bound();
            assert(self.free@.insert(p).subset_of(set_int_range(0, self.size * 64))) by {
                assert forall|q: int| #[trigger] self.free@.insert(q).contains(q) implies true by {}
                assert forall|q: int| self.free@.insert(p).contains(q) implies #[trigger] set_int_range(0, self.size * 64).contains(q) by {
                    assert(q < self.size * 64) by (nonlinear_arith)
                        requires
                            0 <= q,
                            q / 64 < self.size,
                    ;
                }
            }
            lemma_int_range(0, self.size * 64);
            lemma_len_subset(self.free@.insert(p), set_int_range(0, self.size * 64));
            assert(self.size * 64 <= BITMAP_SIZE * 64);
        }
        self.free_pages = self.free_pages + 1;
        let word = self.map[i] & !(1u64 << b);
        self.map.set(i, word);
        proof {
            self.free@ = self.free@.insert(p);
            assert forall|q: int| #[trigger] self.is_free(q) == (old_self.is_free(q) || q == p) by {
                if 0 <= q && word_of(q) < self.size {
                    if word_of(q) == word_of(p) {
                        if q != p {
                            lemma_bit_of_distinct(p, q);
                        }
                        lemma_bit_after_clear(old_self.map@[word_of(p)], b, bit_of(q));
                    }
                }
            }
            assert forall|q: int| #[trigger] self.free@.contains(q) <==> self.is_free(q) by {}
            assert forall|q: int| #[trigger] self.is_free(q) implies q >= page_of(self.next_free_page as int) by {
                if q != p {
                    assert(old_self.is_free(q));
                }
                if address < old_self.next_free_page {
                    vstd::arithmetic::div_mod::lemma_div_is_ordered(
                        address as int,
                        old_self.next_free_page as int,
                        4096,
                    );
                } else {
                    vstd::arithmetic::div_mod::lemma_div_is_ordered(
                        old_self.next_free_page as int,
                        address as int,
                        4096,
                    );
                }
            }
        }
    }
}

/// What `free(address)` does to a bitmap.
pub open spec fn free_post(old_map: Bitmap, new_map: Bitmap, address: int) -> bool {
    let p = page_of(address);
    if old_map.is_free(p) || word_of(p) >= old_map.spec_size() {
        new_map == old_map
    } else {
        &&& new_map.free_set() == old_map.free_set().insert(p)
        &&& new_map.spec_free_pages() == old_map.spec_free_pages() + 1
        &&& new_map.spec_size() == old_map.spec_size()
        &&& new_map.spec_total_pages() == old_map.spec_total_pages()
        &&& new_map.spec_next_free_page() == if address < old_map.spec_next_free_page() {
            address
        } else {
            old_map.spec_next_free_page() as int
        }
    }
}

/// The kinds of memory that the firmware's memory map reports.
#[derive(Clone, Copy, PartialEq, Eq, Structural)]
pub enum MemoryClass {
    Reserved,
    LoaderCode,
    LoaderData,
    BootServicesCode,
    BootServicesData,
    RuntimeServicesCode,
    RuntimeServicesData,
    Conventional,
    Unusable,
    AcpiReclaim,
    AcpiNvs,
    MemoryMappedIo,
    MemoryMappedIoPortSpace,
    PalCode,
    Persistent,
}

/// One region of the firmware's memory map.
#[derive(Clone, Copy)]
pub struct MemoryDescriptor {
    pub class: MemoryClass,
    pub physical_address: PhysicalAddress,
    pub num_pages: usize,
}

/// Whether the kernel may hand out memory of this kind once it has booted.
pub open spec fn usable_class(class: MemoryClass) -> bool {
    match class {
        MemoryClass::LoaderCode | MemoryClass::LoaderData | MemoryClass::BootServicesCode
        | MemoryClass::BootServicesData | MemoryClass::Conventional | MemoryClass::Persistent => true,
        _ => false,
    }
}

fn is_usable(class: MemoryClass) -> (r: bool)
    ensures
        r == usable_class(class),
{
    match class {
        MemoryClass::LoaderCode | MemoryClass::LoaderData | MemoryClass::BootServicesCode
        | MemoryClass::BootServicesData | MemoryClass::Conventional | MemoryClass::Persistent => true,
        _ => false,
    }
}

/// The word count that a usable region asks for.
pub open spec fn region_words(d: MemoryDescriptor) -> int {
    (page_of(d.physical_address as int) + d.num_pages) / 64
}

/// The size of the bitmap after the first `k` regions.
pub open spec fn size_after(ds: Seq<MemoryDescriptor>, k: int) -> int
    decreases k,
{
    if k <= 0 {
        0
    } else {
        let before = size_after(ds, k - 1);
        let d = ds[k - 1];
        if usable_class(d.class) && region_words(d) >= before {
            region_words(d)
        } else {
            before
        }
    }
}

/// The pages counted by the first `k` regions.
pub open spec fn total_after(ds: Seq<MemoryDescriptor>, k: int) -> int
    decreases k,
{
    if k <= 0 {
        0
    } else {
        total_after(ds, k - 1) + ds[k - 1].num_pages
    }
}

/// The pages of region `d` that lie in the first `size` words.
pub open spec fn region_pages(d: MemoryDescriptor, size: int) -> Set<int> {
    Set::new(|p: int| page_of(d.physical_address as int) <= p < page_of(d.physical_address as int)
        + d.num_pages && word_of(p) < size)
}

/// The pages that are free after the first `k` regions.
pub open spec fn free_after(ds: Seq<MemoryDescriptor>, k: int) -> Set<int>
    decreases k,
{
    if k <= 0 {
        Set::empty()
    } else {
        let d = ds[k - 1];
        if usable_class(d.class) {
            free_after(ds, k - 1).union(region_pages(d, size_after(ds, k)))
        } else {
            free_after(ds, k - 1)
        }
    }
}

/// The pages that the kernel image occupies.
pub open spec fn kernel_pages(kernel_lma: u64, kernel_size: u64) -> Set<int> {
    Set::new(|p: int| page_of(kernel_lma as int) <= p < page_of(kernel_lma as int) + (kernel_size + 4095) / 4096)
}

/// The memory map can be taken in: usable regions lie below `MAXIMUM_MEMORY` and fit
/// the bitmap, and the counts fit their types.
pub open spec fn memory_map_fits(ds: Seq<MemoryDescriptor>, kernel_lma: u64, kernel_size: u64) -> bool {
    &&& forall|k: int| 0 <= k < ds.len() && usable_class(#[trigger] ds[k].class) ==> {
        &&& ds[k].physical_address < MAXIMUM_MEMORY
        &&& region_words(ds[k]) <= BITMAP_SIZE
    }
    &&& total_after(ds, ds.len() as int) <= usize::MAX
    &&& kernel_lma + kernel_size + PAGE_SIZE <= u64::MAX
}

proof fn lemma_size_after_bound(ds: Seq<MemoryDescriptor>, k: int)
    requires
        0 <= k <= ds.len(),
        forall|i: int| 0 <= i < ds.len() && usable_class(#[trigger] ds[i].class) ==> region_words(ds[i]) <= BITMAP_SIZE,
    ensures
        0 <= size_after(ds, k) <= BITMAP_SIZE,
    decreases k,
{
    if k > 0 {
        lemma_size_after_bound(ds, k - 1);
    }
}

proof fn lemma_total_after_mono(ds: Seq<MemoryDescriptor>, k: int, n: int)
    requires
        0 <= k <= n <= ds.len(),
    ensures
        0 <= total_after(ds, k) <= total_after(ds, n),
    decreases n,
{
    if k < n {
        lemma_total_after_mono(ds, k, n - 1);
    } else if k > 0 {
        lemma_total_after_mono(ds, k - 1, k - 1);
    }
}

/// Whether page `p` lies in region `d` of the memory map.
pub open spec fn in_region(d: MemoryDescriptor, p: int) -> bool {
    page_of(d.physical_address as int) <= p < page_of(d.physical_address as int) + d.num_pages
}

/// A page free after the first `k` regions lies in one of them that the firmware hands
/// over to the kernel.
proof fn lemma_free_after_from_usable(ds: Seq<MemoryDescriptor>, k: int, p: int)
    requires
        0 <= k <= ds.len(),
        free_after(ds, k).contains(p),
    ensures
        exists|i: int|
            0 <= i < k && in_region(#[trigger] ds[i], p) && match ds[i].class {
                MemoryClass::LoaderCode | MemoryClass::LoaderData | MemoryClass::BootServicesCode
                | MemoryClass::BootServicesData | MemoryClass::Conventional | MemoryClass::Persistent => true,
                _ => false,
            },
    decreases k,
{
    if k > 0 {
        let d = ds[k - 1];
        if usable_class(d.class) && region_pages(d, size_after(ds, k)).contains(p) {
            assert(in_region(ds[k - 1], p));
        } else {
            lemma_free_after_from_usable(ds, k - 1, p);
            let i = choose|i: int|
                0 <= i < k - 1 && in_region(#[trigger] ds[i], p) && match ds[i].class {
                    MemoryClass::LoaderCode | MemoryClass::LoaderData | MemoryClass::BootServicesCode
                    | MemoryClass::BootServicesData | MemoryClass::Conventional | MemoryClass::Persistent => true,
                    _ => false,
                };
            assert(in_region(ds[i], p));
        }
    }
}

/// Only memory that the firmware hands over is ever free after the memory map is taken
/// in: every free page of the bitmap that `initialize` leaves lies outside the kernel image
/// and inside a region of class LoaderCode, LoaderData, BootServicesCode, BootServicesData,
/// Conventional or Persistent. A page that lies only in regions of other classes (runtime
/// services code or data, ACPI, memory-mapped I/O, reserved, unusable, PAL code) is never
/// free.
pub proof fn lemma_initialized_free_pages_are_usable(
    bitmap: Bitmap,
    ds: Seq<MemoryDescriptor>,
    kernel_lma: u64,
    kernel_size: u64,
    p: int,
)
    requires
        bitmap.wf(),
        bitmap.free_set() == free_after(ds, ds.len() as int).difference(kernel_pages(kernel_lma, kernel_size)),
        bitmap.is_free(p),
    ensures
        !kernel_pages(kernel_lma, kernel_size).contains(p),
        exists|i: int|
            0 <= i < ds.len() && in_region(#[trigger] ds[i], p) && match ds[i].class {
                MemoryClass::LoaderCode | MemoryClass::LoaderData | MemoryClass::BootServicesCode
                | MemoryClass::BootServicesData | MemoryClass::Conventional | MemoryClass::Persistent => true,
                _ => false,
            },
        (forall|i: int|
            0 <= i < ds.len() && in_region(#[trigger] ds[i], p) ==> (ds[i].class == MemoryClass::RuntimeServicesCode
                || ds[i].class == MemoryClass::RuntimeServicesData || ds[i].class == MemoryClass::Reserved
                || ds[i].class == MemoryClass::Unusable || ds[i].class == MemoryClass::AcpiReclaim || ds[i].class
                == MemoryClass::AcpiNvs || ds[i].class == MemoryClass::MemoryMappedIo || ds[i].class
                == MemoryClass::MemoryMappedIoPortSpace || ds[i].class == MemoryClass::PalCode)) ==> false,
{
    bitmap.lemma_free_set();
    assert(bitmap.free_set().contains(p));
    assert(free_after(ds, ds.len() as int).contains(p));
    lemma_free_after_from_usable(ds, ds.len() as int, p);
}

/// Takes in the firmware's memory map: frees the pages of the usable regions, marks the
/// kernel image in use, and points the next free page at the lowest free page.
pub fn initialize(bitmap: &mut Bitmap, descriptors: &Vec<MemoryDescriptor>, kernel_lma: u64, kernel_size: u64)
    requires
        old(bitmap).wf(),
        old(bitmap).free_set() == Set::<int>::empty(),
        old(bitmap).spec_size() == 0,
        old(bitmap).spec_total_pages() == 0,
        memory_map_fits(descriptors@, kernel_lma, kernel_size),
    ensures
        final(bitmap).wf(),
        final(bitmap).spec_size() == size_after(descriptors@, descriptors@.len() as int),
        final(bitmap).spec_total_pages() == total_after(descriptors@, descriptors@.len() as int),
        final(bitmap).free_set() == free_after(descriptors@, descriptors@.len() as int).difference(
            kernel_pages(kernel_lma, kernel_size),
        ),
        final(bitmap).scan(0) matches Some(a) ==> final(bitmap).spec_next_free_page() == a,
{
    let ghost ds = descriptors@;
    let mut k: usize = 0;
    while k < descriptors.len()
        invariant
            bitmap.wf(),
            ds == descriptors@,
            memory_map_fits(ds, kernel_lma, kernel_size),
            0 <= k <= ds.len(),
            bitmap.spec_size() == size_after(ds, k as int),
            bitmap.spec_total_pages() == total_after(ds, k as int),
            bitmap.free_set() == free_after(ds, k as int),
        decreases ds.len() - k,
    {
        let desc = descriptors[k];
        let num_pages = desc.num_pages;
        let mut physical_address = desc.physical_address;
        proof {
            lemma_total_after_mono(ds, k + 1, ds.len() as int);
            lemma_size_after_bound(ds, k + 1);
        }
        let ghost prior = *bitmap;
        bitmap.total_pages = bitmap.total_pages + num_pages;
        proof {
            prior.lemma_wf_without_total(*bitmap);
        }
        if is_usable(desc.class) {
            let words = ((physical_address / PAGE_SIZE as u64) + num_pages as u64) / 64;
            if words >= bitmap.size as u64 {
                let ghost before = *bitmap;
                bitmap.size = words as usize;
                proof {
                    assert forall|q: int| #[trigger] bitmap.is_free(q) == before.is_free(q) by {
                        if 0 <= q && before.size <= word_of(q) < bitmap.size {
                            lemma_all_ones(bit_of(q));
                        }
                    }
                    assert forall|q: int| #[trigger] bitmap.free@.contains(q) <==> bitmap.is_free(q) by {}
                    assert forall|q: int| #[trigger] bitmap.is_free(q) implies q >= page_of(bitmap.next_free_page as int) by {
                        assert(before.is_free(q));
                        assert(before.wf());
                    }
                }
            }
            let ghost size_now = bitmap.size as int;
            let ghost base = bitmap.free_set();
            proof {
                assert(size_now == size_after(ds, k + 1));
            }
            let mut i: usize = 0;
            while i < num_pages
                invariant
                    bitmap.wf(),
                    bitmap.spec_size() == size_now,
                    bitmap.spec_total_pages() == total_after(ds, k + 1),
                    i <= num_pages,
                    physical_address == desc.physical_address + i * 4096,
                    desc.physical_address < MAXIMUM_MEMORY,
                    region_words(desc) <= BITMAP_SIZE,
                    desc.num_pages == num_pages,
                    bitmap.free_set() == base.union(Set::new(|p: int| page_of(desc.physical_address as int) <= p
                        < page_of(desc.physical_address as int) + i && word_of(p) < size_now)),
                decreases num_pages - i,
            {
                bitmap.free(physical_address);
                proof {
                    assert(page_of(physical_address as int) == page_of(desc.physical_address as int) + i) by {
                        vstd::arithmetic::div_mod::lemma_hoist_over_denominator(desc.physical_address as int, i as int, 4096);
                    }
                    assert(bitmap.free_set() =~= base.union(Set::new(|p: int| page_of(desc.physical_address as int) <= p
                        < page_of(desc.physical_address as int) + i + 1 && word_of(p) < size_now)));
                }
                proof {
                    assert(desc.physical_address + (i + 1) * 4096 < 0x10_0000_0000_0000) by (nonlinear_arith)
                        requires
                            desc.physical_address < MAXIMUM_MEMORY,
                            (desc.physical_address / 4096 + num_pages) / 64 <= BITMAP_SIZE,
                            i < num_pages,
                    ;
                }
                i = i + 1;
                physical_address = physical_address + PAGE_SIZE as u64;
            }
            proof {
                assert(bitmap.free_set() =~= free_after(ds, k + 1));
            }
        }
        k = k + 1;
    }
    let ghost freed = bitmap.free_set();
    let ghost first = page_of(kernel_lma as int);
    let mut addr = kernel_lma;
    let ghost mut n: int = 0;
    while addr < kernel_lma + kernel_size
        invariant
            bitmap.wf(),
            addr == kernel_lma + n * 4096,
            0 <= n,
            (n - 1) * 4096 < kernel_size,
            kernel_lma + kernel_size + PAGE_SIZE <= u64::MAX,
            first == page_of(kernel_lma as int),
            bitmap.spec_size() == size_after(ds, ds.len() as int),
            bitmap.spec_total_pages() == total_after(ds, ds.len() as int),
            bitmap.free_set() == freed.difference(Set::new(|p: int| first <= p < first + n)),
        decreases (if addr < kernel_lma + kernel_size { kernel_lma + kernel_size - addr } else { 0 }),
    {
        bitmap.allocate_page(addr);
        proof {
            assert(page_of(addr as int) == first + n) by {
                vstd::arithmetic::div_mod::lemma_hoist_over_denominator(kernel_lma as int, n, 4096);
            }
            assert(bitmap.free_set() =~= freed.difference(Set::new(|p: int| first <= p < first + n + 1)));
            n = n + 1;
        }
        addr = addr + PAGE_SIZE as u64;
    }
    proof {
        assert(n == (kernel_size + 4095) / 4096) by (nonlinear_arith)
            requires
                0 <= n,
                (n - 1) * 4096 < kernel_size,
                kernel_lma + n * 4096 >= kernel_lma + kernel_size,
        ;
        assert(bitmap.free_set() =~= freed.difference(kernel_pages(kernel_lma, kernel_size)));
    }
    let mut i: u64 = 0;
    let limit = bitmap.size as u64 * 64 * PAGE_SIZE as u64;
    let mut found = false;
    while !found && i < limit
        invariant
            bitmap.wf(),
            limit == bitmap.scan_limit(),
            i % 4096 == 0,
            !found ==> bitmap.scan(0) == bitmap.scan(i as int),
            found ==> bitmap.scan(0) == Some(i as int),
        decreases (if i < limit { limit - i } else { 0 }) + (if found { 0int } else { 1int }),
    {
        if bitmap.is_page_free(i) {
            found = true;
        } else {
            i = i + PAGE_SIZE as u64;
        }
    }
    if found {
        proof {
            bitmap.lemma_scan(0);
            bitmap.lemma_scan(i as int);
            assert forall|q: int| #[trigger] bitmap.is_free(q) implies q >= page_of(i as int) by {
                assert(page_of(0) == 0);
            }
        }
        let ghost before = *bitmap;
        bitmap.next_free_page = i;
        proof {
            before.lemma_wf_with_next(*bitmap);
        }
    }
}

/// What `allocate_page(address)` does to a bitmap.
pub open spec fn allocate_page_post(old_map: Bitmap, new_map: Bitmap, address: int) -> bool {
    let p = page_of(address);
    if !old_map.is_free(p) {
        new_map == old_map
    } else {
        &&& new_map.free_set() == old_map.free_set().remove(p)
        &&& new_map.spec_free_pages() == old_map.spec_free_pages() - 1
        &&& new_map.spec_size() == old_map.spec_size()
        &&& new_map.spec_total_pages() == old_map.spec_total_pages()
        &&& new_map.spec_next_free_page() == if address == old_map.spec_next_free_page() {
            match new_map.scan(address) {
                Some(a) => a,
                None => address,
            }
        } else {
            old_map.spec_next_free_page() as int
        }
    }
}


/// Freeing a page that was just allocated gives back the free pages as they were, and,
/// where the address was not below the next free page, the next free page too.
pub proof fn lemma_free_undoes_allocate(b0: Bitmap, b1: Bitmap, b2: Bitmap, address: int)
    requires
        0 <= address,
        b0.wf(),
        b0.is_free(page_of(address)),
        allocate_page_post(b0, b1, address),
        b1.wf(),
        free_post(b1, b2, address),
        b2.wf(),
    ensures
        b2.free_set() == b0.free_set(),
        forall|p: int| #[trigger] b2.is_free(p) == b0.is_free(p),
        b2.spec_size() == b0.spec_size(),
        b2.spec_free_pages() == b0.spec_free_pages(),
        b2.spec_total_pages() == b0.spec_total_pages(),
        address >= b0.spec_next_free_page() ==> b2.spec_next_free_page() == b0.spec_next_free_page(),
{
    let p = page_of(address);
    if address == b0.spec_next_free_page() {
        b1.lemma_scan(address);
        if let Some(a) = b1.scan(address) {
            assert(a != address);
        }
    }
    assert(b0.free_set().contains(p));
    assert(!b1.free_set().contains(p));
    assert(!b1.is_free(p));
    assert(word_of(p) < b1.spec_size());
    assert(b0.free_set().remove(p).insert(p) =~= b0.free_set());
    b0.lemma_free_set();
    b2.lemma_free_set();
    assert forall|q: int| #[trigger] b2.is_free(q) == b0.is_free(q) by {
        assert(b2.free_set().contains(q) == b0.free_set().contains(q));
    }
}

} // verus!
