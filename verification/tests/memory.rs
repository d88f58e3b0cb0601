use lib::memory::physical::{initialize, Bitmap, MemoryClass, MemoryDescriptor};
use lib::memory::virtual_mem::{AddressSpace, PageIndex, PageTables, Table, PAGE_FLAG_PRESENT, PAGE_FLAG_USER, PAGE_FLAG_WRITABLE};
use lib::memory::map_virtual_memory;
use lib::memory::{allocate_kernel_stack, free_kernel_stack, get_memory_usage, MemoryUsage, KERNEL_VMA, PAGE_SIZE};

fn booted_bitmap() -> Bitmap {
    let mut bitmap = Bitmap::new();
    let descriptors = vec![
        MemoryDescriptor { class: MemoryClass::Reserved, physical_address: 0, num_pages: 256 },
        MemoryDescriptor { class: MemoryClass::Conventional, physical_address: 0x100000, num_pages: 64 },
    ];
    // The kernel image takes the first two pages of the usable region.
    initialize(&mut bitmap, &descriptors, 0x100000, 2 * PAGE_SIZE as u64);
    bitmap
}

#[test]
fn fresh_bitmap_has_no_free_page() {
    let bitmap = Bitmap::new();
    assert!(!bitmap.is_page_free(0));
    assert!(!bitmap.is_page_free(0x100000));
}

#[test]
fn initialize_frees_usable_pages_but_not_the_kernel() {
    let bitmap = booted_bitmap();
    assert!(!bitmap.is_page_free(0x0));
    assert!(!bitmap.is_page_free(0x100000));
    assert!(!bitmap.is_page_free(0x101000));
    assert!(bitmap.is_page_free(0x102000));
    assert!(bitmap.is_page_free(0x13F000));
    assert!(!bitmap.is_page_free(0x140000));
}

#[test]
fn allocate_hands_out_lowest_free_pages() {
    let mut bitmap = booted_bitmap();
    assert_eq!(bitmap.allocate(), 0x102000);
    assert!(!bitmap.is_page_free(0x102000));
    assert_eq!(bitmap.allocate(), 0x103000);
}

#[test]
fn free_undoes_allocate() {
    let mut bitmap = booted_bitmap();
    let page = bitmap.allocate();
    bitmap.free(page);
    assert!(bitmap.is_page_free(page));
    assert_eq!(bitmap.allocate(), page);
}

#[test]
fn allocate_page_marks_a_given_page() {
    let mut bitmap = booted_bitmap();
    bitmap.allocate_page(0x110000);
    assert!(!bitmap.is_page_free(0x110000));
    assert!(bitmap.is_page_free(0x111000));
    // The next free page did not move.
    assert_eq!(bitmap.allocate(), 0x102000);
}

#[test]
fn memory_usage_counts_kernel_stacks() {
    let mut usage = MemoryUsage::new();
    assert_eq!(usage.kernel_stack_usage(), 0);
    assert_eq!(usage.free_memory(), 0);
    assert_eq!(usage.available_memory(), 0);
    allocate_kernel_stack(&mut usage, 0x4000);
    allocate_kernel_stack(&mut usage, 0x2000);
    assert_eq!(get_memory_usage(&usage).kernel_stack_usage(), 0x6000);
    free_kernel_stack(&mut usage, 0x4000);
    assert_eq!(usage.kernel_stack_usage(), 0x2000);
}

#[test]
fn table_entries_set_and_clear() {
    let mut table = Table::new();
    assert!(!table.is_present(5));
    assert_eq!(table.get_entry(5), 0);
    table.set_entry(5, 0x1234_5678, true);
    assert_eq!(table.entry(5), 0x1234_5000 | PAGE_FLAG_PRESENT | PAGE_FLAG_WRITABLE | PAGE_FLAG_USER);
    assert!(table.is_present(5));
    assert_eq!(table.get_entry(5), 0x1234_5000 + KERNEL_VMA);
    table.set_entry(6, 0x2000, false);
    assert_eq!(table.entry(6), 0x2000 | PAGE_FLAG_PRESENT | PAGE_FLAG_WRITABLE);
    table.clear_entry(5);
    assert_eq!(table.entry(5), 0);
    assert!(!table.is_present(5));
}

#[test]
fn page_index_splits_an_address() {
    let address: u64 = (3 << 39) | (5 << 30) | (7 << 21) | (9 << 12) | 0x123;
    let index = PageIndex::new(address);
    assert_eq!(index.pml4_index, 3);
    assert_eq!(index.pdpt_index, 5);
    assert_eq!(index.page_directory_index, 7);
    assert_eq!(index.page_table_index, 9);
    assert_eq!(index._offset, 0x123);
    let kernel = PageIndex::new(KERNEL_VMA);
    assert_eq!(kernel.pml4_index, 256);
    assert_eq!(kernel.pdpt_index, 0);
}

/// The page `address` is mapped to, walking the tables from `root`.
fn translate(tables: &PageTables, root: u64, address: u64) -> Option<u64> {
    let index = PageIndex::new(address);
    let mut table = root;
    for i in [index.pml4_index, index.pdpt_index, index.page_directory_index, index.page_table_index] {
        let entry = tables.entry(table, i);
        if entry & PAGE_FLAG_PRESENT == 0 {
            return None;
        }
        table = entry & !0xFFF;
    }
    Some(table)
}

#[test]
fn mapping_a_page_reads_back() {
    let mut bitmap = booted_bitmap();
    let mut tables = PageTables::new();
    let root = tables.new_table(&mut bitmap);
    assert_eq!(root, 0x102000);
    let space = AddressSpace(root);
    assert_eq!(translate(&tables, root, 0x400000), None);
    space.allocate(&mut tables, &mut bitmap, 0x400123, 0x7654_3210);
    assert_eq!(translate(&tables, root, 0x400000), Some(0x7654_3000));
    // Three tables were made below the top-level one, on the next free pages.
    assert_eq!(tables.entry(root, 0), 0x103000 | PAGE_FLAG_PRESENT | PAGE_FLAG_WRITABLE | PAGE_FLAG_USER);
    assert_eq!(bitmap.allocate(), 0x106000);
}

#[test]
fn mapping_is_kept_once_made() {
    let mut bitmap = booted_bitmap();
    let mut tables = PageTables::new();
    let root = tables.new_table(&mut bitmap);
    let space = AddressSpace(root);
    map_virtual_memory(&space, &mut tables, &mut bitmap, 0x400000, 0x5000);
    map_virtual_memory(&space, &mut tables, &mut bitmap, 0x400000, 0x9000);
    assert_eq!(translate(&tables, root, 0x400000), Some(0x5000));
    // A neighbouring page shares the tables.
    map_virtual_memory(&space, &mut tables, &mut bitmap, 0x401000, 0x9000);
    assert_eq!(translate(&tables, root, 0x401000), Some(0x9000));
    assert_eq!(bitmap.allocate(), 0x106000);
}

#[test]
fn kernel_half_is_shared_by_new_address_spaces() {
    let mut bitmap = booted_bitmap();
    let mut tables = PageTables::new();
    let kernel = AddressSpace(tables.new_table(&mut bitmap));
    let kernel_address: u64 = 0xFFFF_8000_0010_0000;
    kernel.allocate(&mut tables, &mut bitmap, kernel_address, 0x100000);
    // Kernel mappings are not reachable from user mode.
    assert_eq!(tables.entry(*kernel.get(), 256) & PAGE_FLAG_USER, 0);
    let user = AddressSpace::new(&mut tables, &mut bitmap, &kernel);
    assert_eq!(translate(&tables, *user.get(), kernel_address), Some(0x100000));
    assert_eq!(tables.entry(*user.get(), 0), 0);
}

#[test]
fn allocating_the_next_free_page_moves_to_the_next_free_one() {
    let mut bitmap = booted_bitmap();
    bitmap.allocate_page(0x103000);
    bitmap.allocate_page(0x102000);
    assert!(!bitmap.is_page_free(0x102000));
    // The next free page skips the page taken before.
    assert_eq!(bitmap.allocate(), 0x104000);
}

#[test]
fn allocate_then_free_gives_back_the_next_free_page() {
    let mut bitmap = booted_bitmap();
    bitmap.allocate_page(0x102000);
    bitmap.free(0x102000);
    assert!(bitmap.is_page_free(0x102000));
    assert_eq!(bitmap.allocate(), 0x102000);
}

#[test]
fn allocate_page_outside_the_map_changes_nothing() {
    let mut bitmap = booted_bitmap();
    bitmap.allocate_page(0xFFFF_0000_0000);
    assert_eq!(bitmap.allocate(), 0x102000);
}

#[test]
fn free_kernel_stack_lowers_the_usage() {
    let mut usage = MemoryUsage::new();
    allocate_kernel_stack(&mut usage, 0x3000);
    free_kernel_stack(&mut usage, 0x1000);
    assert_eq!(usage.kernel_stack_usage(), 0x2000);
    assert_eq!(usage.free_memory(), 0);
    allocate_kernel_stack(&mut usage, 0x1000);
    free_kernel_stack(&mut usage, 0x1000);
    assert_eq!(get_memory_usage(&usage).kernel_stack_usage(), 0x2000);
}
