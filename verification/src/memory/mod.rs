pub mod physical;
pub mod virtual_mem;

use vstd::prelude::*;

verus! {

/// A physical memory address.
pub type PhysicalAddress = u64;

/// A virtual memory address.
pub type VirtualAddress = u64;

/// The size of a page, in bytes.
pub const PAGE_SIZE: usize = 4096;

/// Where the kernel's half of every address space begins.
pub const KERNEL_VMA: u64 = 0xFFFF800000000000;

/// How the kernel's memory is used.
#[derive(Clone, Copy)]
pub struct MemoryUsage {
    page_size: usize,
    available_pages: usize,
    free_pages: usize,
    kernel_heap_pages: usize,
    userspace_pages: usize,
    kernel_stack_usage: usize,
}

impl MemoryUsage {
    /// The usage record at boot: pages of `PAGE_SIZE` bytes, nothing counted yet.
    pub fn new() -> (r: Self)
        ensures
            r.spec_page_size() == PAGE_SIZE,
            r.spec_available_pages() == 0,
            r.spec_free_pages() == 0,
            r.spec_kernel_stack_usage() == 0,
    {
        MemoryUsage {
            page_size: PAGE_SIZE,
            available_pages: 0,
            free_pages: 0,
            kernel_heap_pages: 0,
            userspace_pages: 0,
            kernel_stack_usage: 0,
        }
    }

    /// This record with the kernel stack usage replaced by `v`.
    pub closed spec fn with_stack_usage(self, v: usize) -> Self {
        MemoryUsage { kernel_stack_usage: v, ..self }
    }

    pub closed spec fn spec_page_size(&self) -> usize {
        self.page_size
    }

    pub closed spec fn spec_available_pages(&self) -> usize {
        self.available_pages
    }

    pub closed spec fn spec_free_pages(&self) -> usize {
        self.free_pages
    }

    /// The bytes of kernel stacks in use.
    pub closed spec fn spec_kernel_stack_usage(&self) -> usize {
        self.kernel_stack_usage
    }

    /// The free memory, in bytes.
    pub fn free_memory(&self) -> (r: usize)
        requires
            self.spec_page_size() * self.spec_free_pages() <= usize::MAX,
        ensures
            r == self.spec_page_size() * self.spec_free_pages(),
    {
        self.page_size * self.free_pages
    }

    /// The memory available to the kernel, in bytes.
    pub fn available_memory(&self) -> (r: usize)
        requires
            self.spec_page_size() * self.spec_available_pages() <= usize::MAX,
        ensures
            r == self.spec_page_size() * self.spec_available_pages(),
    {
        self.page_size * self.available_pages
    }

    /// The bytes of kernel stacks in use.
    pub fn kernel_stack_usage(&self) -> (r: usize)
        ensures
            r == self.spec_kernel_stack_usage(),
    {
        self.kernel_stack_usage
    }
}

/// A copy of the usage record.
pub fn get_memory_usage(usage: &MemoryUsage) -> (r: MemoryUsage)
    ensures
        r == *usage,
{
    *usage
}

/// Counts `size` more bytes of kernel stack in use.
pub fn allocate_kernel_stack(usage: &mut MemoryUsage, size: usize)
    requires
        old(usage).spec_kernel_stack_usage() + size <= usize::MAX,
    ensures
        *final(usage) == old(usage).with_stack_usage((old(usage).spec_kernel_stack_usage() + size) as usize),
        final(usage).spec_kernel_stack_usage() == old(usage).spec_kernel_stack_usage() + size,
        final(usage).spec_page_size() == old(usage).spec_page_size(),
        final(usage).spec_available_pages() == old(usage).spec_available_pages(),
        final(usage).spec_free_pages() == old(usage).spec_free_pages(),
{
    usage.kernel_stack_usage = usage.kernel_stack_usage + size;
}

/// Counts `size` fewer bytes of kernel stack in use.
pub fn free_kernel_stack(usage: &mut MemoryUsage, size: usize)
    requires
        old(usage).spec_kernel_stack_usage() >= size,
    ensures
        *final(usage) == old(usage).with_stack_usage((old(usage).spec_kernel_stack_usage() - size) as usize),
        final(usage).spec_kernel_stack_usage() == old(usage).spec_kernel_stack_usage() - size,
        final(usage).spec_page_size() == old(usage).spec_page_size(),
        final(usage).spec_available_pages() == old(usage).spec_available_pages(),
        final(usage).spec_free_pages() == old(usage).spec_free_pages(),
{
    usage.kernel_stack_usage = usage.kernel_stack_usage - size;
}


/// Replacing the kernel stack usage changes that count alone: the record then reports `v`
/// and every other count as before.
pub proof fn lemma_with_stack_usage(u: MemoryUsage, v: usize)
    ensures
        u.with_stack_usage(v).spec_kernel_stack_usage() == v,
        u.with_stack_usage(v).spec_page_size() == u.spec_page_size(),
        u.with_stack_usage(v).spec_available_pages() == u.spec_available_pages(),
        u.with_stack_usage(v).spec_free_pages() == u.spec_free_pages(),
        u.with_stack_usage(u.spec_kernel_stack_usage()) == u,
{
}

/// Counting `size` bytes of kernel stack in use with `allocate_kernel_stack`, and then freed
/// with `free_kernel_stack`, gives back the usage record as it was.
pub proof fn lemma_allocate_then_free_stack(before: MemoryUsage, middle: MemoryUsage, after: MemoryUsage, size: usize)
    requires
        before.spec_kernel_stack_usage() + size <= usize::MAX,
        middle == before.with_stack_usage((before.spec_kernel_stack_usage() + size) as usize),
        after == middle.with_stack_usage((middle.spec_kernel_stack_usage() - size) as usize),
    ensures
        after == before,
{
}

} // verus!

verus! {

/// Maps the page of `virtual_address` to the page of `physical_address` in the address space
/// `space`, as `AddressSpace::allocate` does.
pub fn map_virtual_memory(
    space: &virtual_mem::AddressSpace,
    tables: &mut virtual_mem::PageTables,
    bitmap: &mut physical::Bitmap,
    virtual_address: VirtualAddress,
    physical_address: PhysicalAddress,
)
    requires
        space.0 < KERNEL_VMA,
        old(tables).wf(),
        old(bitmap).wf(),
        virtual_mem::tables_in_use(old(tables)@, *old(bitmap)),
        virtual_mem::path_ok(old(tables)@, space.0, virtual_address),
        virtual_mem::tables_needed(old(tables)@, space.0, virtual_address) <= old(bitmap).free_set().len(),
        virtual_mem::tables_needed(old(tables)@, space.0, virtual_address) > 0 ==> virtual_mem::ready(*old(bitmap)),
    ensures
        final(tables).wf(),
        final(bitmap).wf(),
        virtual_mem::tables_in_use(final(tables)@, *final(bitmap)),
        virtual_mem::translate(final(tables)@, space.0, virtual_address) == match virtual_mem::translate(
            old(tables)@,
            space.0,
            virtual_address,
        ) {
            Some(page) => Some(page),
            None => Some(physical_address & !0xFFFu64),
        },
        virtual_mem::translate(old(tables)@, space.0, virtual_address) is Some ==> final(tables)@ == old(tables)@
            && *final(bitmap) == *old(bitmap),
        final(bitmap).free_set().len() == old(bitmap).free_set().len() - virtual_mem::tables_needed(
            old(tables)@,
            space.0,
            virtual_address,
        ),
{
    space.allocate(tables, bitmap, virtual_address, physical_address);
}

} // verus!
