use lib::device::{Device, MemoryDevice};
use lib::error::Status;
use lib::filesystem::drivers::fat32::{detect_fat32_filesystem, mount_fat32};
use lib::filesystem::{register_drive, register_sized_drive};
use lib::filesystem::drivers::fat32::directory::entry::{DirectoryEntry, DiskDirectoryEntry, LongDirectoryEntry};
use lib::filesystem::drivers::fat32::directory::scan::{LongNameState, ScanStep};
use lib::filesystem::drivers::fat32::directory::Directory;
use lib::filesystem::drivers::fat32::fat::FAT;
use lib::filesystem::file::FileMetadata;
use lib::filesystem::owner::{ChildRecord, DirectoryOwner, MemoryDirectory};

/// Enough 512-byte blocks for the volumes below.
fn new_drive() -> MemoryDevice {
    MemoryDevice::new(1200, 512)
}

fn put(drive: &mut MemoryDevice, address: u64, block: Vec<u8>) {
    drive.write(address, &block).unwrap();
}

fn block(drive: &mut MemoryDevice, address: u64) -> Vec<u8> {
    let mut b = vec![0u8; 512];
    drive.read(address, &mut b).unwrap();
    b
}

const BYTES_PER_SECTOR: u16 = 512;
const RESERVED: u16 = 32;
const NUM_FATS: u8 = 2;
const FAT_SIZE: u32 = 8;
const ROOT: u32 = 2;

/// A blank volume: clusters 0 and 1 reserved, the root directory in cluster 2, every other
/// cluster free, one sector per cluster.
fn blank_volume() -> FAT<MemoryDevice> {
    let mut drive = new_drive();
    for f in 0..NUM_FATS as u64 {
        for s in 0..FAT_SIZE as u64 {
            let mut sector = vec![0u8; BYTES_PER_SECTOR as usize];
            if s == 0 {
                sector[0..4].copy_from_slice(&0x0FFFFFF8u32.to_le_bytes());
                sector[4..8].copy_from_slice(&0x0FFFFFFFu32.to_le_bytes());
                sector[8..12].copy_from_slice(&0x0FFFFFFFu32.to_le_bytes());
            }
            put(&mut drive, RESERVED as u64 + f * FAT_SIZE as u64 + s, sector);
        }
    }
    FAT::new(drive, 1, RESERVED, NUM_FATS, FAT_SIZE, BYTES_PER_SECTOR)
}

fn names_of(files: &[(String, FileMetadata)]) -> Vec<(String, usize)> {
    files.iter().map(|(n, m)| (n.clone(), m.size())).collect()
}

#[test]
fn empty_root_lists_nothing() {
    let mut fat = blank_volume();
    let root = Directory::new(ROOT);
    assert!(root.get_sub_files(&mut fat).unwrap().is_empty());
    assert!(root.get_sub_directories(&mut fat).unwrap().is_empty());
    assert_eq!(root.open_file(&mut fat, "missing.txt").err(), Some(Status::NoEntry));
}

#[test]
fn make_file_then_list_and_open() {
    let mut fat = blank_volume();
    let root = Directory::new(ROOT);
    root.make_file(&mut fat, "hello.txt").unwrap();
    let files = root.get_sub_files(&mut fat).unwrap();
    assert_eq!(names_of(&files), vec![("hello.txt".to_string(), 0)]);
    let file = root.open_file(&mut fat, "hello.txt").unwrap();
    assert_eq!(file.get_length(), 0);
    // The first free cluster after the root directory is cluster 3.
    let mut data = vec![0u8; 512];
    fat.read_cluster(3, &mut data).unwrap();
    assert!(data.iter().all(|b| *b == 0));
}

#[test]
fn short_name_record_on_disk() {
    let mut fat = blank_volume();
    let root = Directory::new(ROOT);
    root.make_file(&mut fat, "hello.txt").unwrap();
    let mut data = vec![0u8; 512];
    fat.read_cluster(ROOT, &mut data).unwrap();
    // The entry goes to record 1: the scan starts after record 0.
    assert_eq!(&data[32..43], b"HELLO   TXT");
    assert_eq!(data[32 + 11], 0);
    assert_eq!(u16::from_le_bytes([data[32 + 26], data[32 + 27]]), 3);
    assert_eq!(u32::from_le_bytes([data[60], data[61], data[62], data[63]]), 0);
}

#[test]
fn long_file_name_round_trip() {
    let mut fat = blank_volume();
    let root = Directory::new(ROOT);
    root.make_file(&mut fat, "a rather long file name.text").unwrap();
    let files = root.get_sub_files(&mut fat).unwrap();
    assert_eq!(names_of(&files), vec![("a rather long file name.text".to_string(), 0)]);
    assert!(root.open_file(&mut fat, "a rather long file name.text").is_ok());
}

#[test]
fn make_directory_and_descend() {
    let mut fat = blank_volume();
    let root = Directory::new(ROOT);
    root.make_directory(&mut fat, "docs").unwrap();
    assert_eq!(root.get_sub_directories(&mut fat).unwrap(), vec!["docs".to_string()]);
    assert!(root.get_sub_files(&mut fat).unwrap().is_empty());
    let docs = root.open_directory(&mut fat, "docs").unwrap();
    assert!(docs.get_sub_directories(&mut fat).unwrap().is_empty());
    docs.make_file(&mut fat, "inner.txt").unwrap();
    assert_eq!(names_of(&docs.get_sub_files(&mut fat).unwrap()), vec![("inner.txt".to_string(), 0)]);
    assert!(root.get_sub_files(&mut fat).unwrap().is_empty());
}

#[test]
fn empty_directory_cluster_holds_dot_entries() {
    let mut fat = blank_volume();
    let root = Directory::new(ROOT);
    root.make_directory(&mut fat, "docs").unwrap();
    let mut data = vec![0u8; 512];
    fat.read_cluster(3, &mut data).unwrap();
    assert_eq!(&data[0..11], b".          ");
    assert_eq!(data[11], 0x10);
    assert_eq!(u16::from_le_bytes([data[26], data[27]]), 3);
    assert_eq!(&data[32..43], b"..         ");
    assert_eq!(u16::from_le_bytes([data[58], data[59]]), ROOT as u16);
    assert!(data[64..].iter().all(|b| *b == 0));
}

#[test]
fn directory_name_too_long_is_refused() {
    let mut fat = blank_volume();
    let root = Directory::new(ROOT);
    assert_eq!(root.make_directory(&mut fat, "averyverylongname").err(), Some(Status::InvalidArgument));
}

#[test]
fn open_wrong_kind_is_refused() {
    let mut fat = blank_volume();
    let root = Directory::new(ROOT);
    root.make_file(&mut fat, "a.txt").unwrap();
    root.make_directory(&mut fat, "d").unwrap();
    assert_eq!(root.open_file(&mut fat, "d").err(), Some(Status::IsDirectory));
    assert_eq!(root.open_directory(&mut fat, "a.txt").err(), Some(Status::IsFile));
    assert_eq!(root.remove_directory(&mut fat, "a.txt").err(), Some(Status::IsFile));
    assert_eq!(root.remove_file(&mut fat, "d").err(), Some(Status::IsDirectory));
    assert_eq!(root.update_file_metadata(&mut fat, "d", FileMetadata::new(5)).err(), Some(Status::IsDirectory));
}

#[test]
fn update_metadata_changes_listed_size() {
    let mut fat = blank_volume();
    let root = Directory::new(ROOT);
    root.make_file(&mut fat, "a.txt").unwrap();
    root.update_file_metadata(&mut fat, "a.txt", FileMetadata::new(1234)).unwrap();
    assert_eq!(names_of(&root.get_sub_files(&mut fat).unwrap()), vec![("a.txt".to_string(), 1234)]);
    assert_eq!(root.update_file_metadata(&mut fat, "b.txt", FileMetadata::new(1)).err(), Some(Status::NoEntry));
}

#[test]
fn remove_file_forgets_it_and_frees_its_cluster() {
    let mut fat = blank_volume();
    let root = Directory::new(ROOT);
    root.make_file(&mut fat, "a.txt").unwrap();
    root.make_file(&mut fat, "b.txt").unwrap();
    root.remove_file(&mut fat, "a.txt").unwrap();
    assert_eq!(names_of(&root.get_sub_files(&mut fat).unwrap()), vec![("b.txt".to_string(), 0)]);
    assert_eq!(root.remove_file(&mut fat, "a.txt").err(), Some(Status::NoEntry));
    // The removed record is free again, and so is the freed cluster 3.
    root.make_file(&mut fat, "c.txt").unwrap();
    assert_eq!(
        names_of(&root.get_sub_files(&mut fat).unwrap()),
        vec![("c.txt".to_string(), 0), ("b.txt".to_string(), 0)]
    );
    let mut data = vec![0u8; 512];
    fat.read_cluster(ROOT, &mut data).unwrap();
    assert_eq!(u16::from_le_bytes([data[32 + 26], data[32 + 27]]), 3);
}

#[test]
fn remove_long_named_file() {
    let mut fat = blank_volume();
    let root = Directory::new(ROOT);
    root.make_file(&mut fat, "first long file name.txt").unwrap();
    root.make_file(&mut fat, "x.txt").unwrap();
    root.remove_file(&mut fat, "first long file name.txt").unwrap();
    assert_eq!(names_of(&root.get_sub_files(&mut fat).unwrap()), vec![("x.txt".to_string(), 0)]);
}

#[test]
fn file_write_then_read_back() {
    let mut fat = blank_volume();
    let root = Directory::new(ROOT);
    root.make_file(&mut fat, "data.bin").unwrap();
    let mut file = root.open_file(&mut fat, "data.bin").unwrap();
    file.set_length(&mut fat, 700).unwrap();
    assert_eq!(file.get_length(), 700);
    let payload: Vec<u8> = (0..700u32).map(|i| (i % 251) as u8).collect();
    assert_eq!(file.write(&mut fat, 0, &payload).unwrap(), 700);
    let mut back = vec![0u8; 700];
    assert_eq!(file.read(&mut fat, 0, &mut back).unwrap(), 700);
    assert_eq!(back, payload);
    let mut tail = vec![0xAAu8; 10];
    assert_eq!(file.read(&mut fat, 695, &mut tail).unwrap(), 5);
    assert_eq!(&tail[0..5], &payload[695..700]);
    assert!(tail[5..].iter().all(|b| *b == 0));
    assert_eq!(file.read(&mut fat, 700, &mut tail).unwrap(), -1);
}

#[test]
fn shrinking_a_file_keeps_its_prefix() {
    let mut fat = blank_volume();
    let root = Directory::new(ROOT);
    root.make_file(&mut fat, "d").unwrap();
    let mut file = root.open_file(&mut fat, "d").unwrap();
    file.set_length(&mut fat, 1500).unwrap();
    let payload = vec![7u8; 1500];
    file.write(&mut fat, 0, &payload).unwrap();
    file.set_length(&mut fat, 100).unwrap();
    assert_eq!(file.get_length(), 100);
    let mut back = vec![0u8; 100];
    assert_eq!(file.read(&mut fat, 0, &mut back).unwrap(), 100);
    assert!(back.iter().all(|b| *b == 7));
}

#[test]
fn many_files_grow_the_directory() {
    let mut fat = blank_volume();
    let root = Directory::new(ROOT);
    // A 512-byte cluster holds 16 records; 20 short names need a second cluster.
    for i in 0..20 {
        root.make_file(&mut fat, &format!("f{}.txt", i)).unwrap();
    }
    let files = root.get_sub_files(&mut fat).unwrap();
    assert_eq!(files.len(), 20);
    for (i, (name, _)) in files.iter().enumerate() {
        assert_eq!(name, &format!("f{}.txt", i));
    }
    assert_eq!(fat.get_cluster_chain(ROOT).unwrap().len(), 2);
}

#[test]
fn cluster_chain_grow_shrink_free() {
    let mut fat = blank_volume();
    fat.grow_cluster_chain(ROOT, 3).unwrap();
    assert_eq!(fat.get_cluster_chain(ROOT).unwrap(), vec![2, 3, 4]);
    fat.shrink_cluster_chain(ROOT, 1).unwrap();
    assert_eq!(fat.get_cluster_chain(ROOT).unwrap(), vec![2, 3]);
    fat.grow_cluster_chain(ROOT, 4).unwrap();
    assert_eq!(fat.get_cluster_chain(ROOT).unwrap().len(), 4);
}

fn boot_sector() -> Vec<u8> {
    let mut b = vec![0u8; 512];
    b[0x0B..0x0D].copy_from_slice(&512u16.to_le_bytes());
    b[0x0D] = 1;
    b[0x0E..0x10].copy_from_slice(&RESERVED.to_le_bytes());
    b[0x10] = NUM_FATS;
    b[0x24..0x28].copy_from_slice(&FAT_SIZE.to_le_bytes());
    b[0x2C..0x30].copy_from_slice(&ROOT.to_le_bytes());
    b[0x30..0x32].copy_from_slice(&1u16.to_le_bytes());
    b[0x42] = 0x29;
    b[0x47..0x52].copy_from_slice(b"MY VOLUME  ");
    b[0x52..0x5A].copy_from_slice(b"FAT32   ");
    b[0x1FE] = 0x55;
    b[0x1FF] = 0xAA;
    b
}

fn fs_info() -> Vec<u8> {
    let mut f = vec![0u8; 512];
    f[0..4].copy_from_slice(&[0x52, 0x52, 0x61, 0x41]);
    f[0x1E4..0x1E8].copy_from_slice(&[0x72, 0x72, 0x41, 0x61]);
    f[0x1FE] = 0x55;
    f[0x1FF] = 0xAA;
    f
}

#[test]
fn detect_reads_the_parameters() {
    let mut drive = new_drive();
    put(&mut drive, 0, boot_sector());
    put(&mut drive, 1, fs_info());
    let params = detect_fat32_filesystem(&mut drive, 0).unwrap().unwrap();
    assert_eq!(params.sectors_per_cluster, 1);
    assert_eq!(params.reserved_sector_count, RESERVED);
    assert_eq!(params.num_fats, NUM_FATS);
    assert_eq!(params.fat_size, FAT_SIZE);
    assert_eq!(params.bytes_per_sector, 512);
    assert_eq!(params.volume_name, b"MY VOLUME  ".to_vec());
    assert_eq!(params.root_directory_cluster, ROOT);
    // Detection marks the boot sector.
    assert_eq!(&block(&mut drive, 0)[0..2], &[0xFF, 0xAB]);
}

#[test]
fn detect_rejects_other_volumes() {
    let mut drive = new_drive();
    let mut b = boot_sector();
    b[0x52..0x5A].copy_from_slice(b"FAT16   ");
    put(&mut drive, 0, b);
    put(&mut drive, 1, fs_info());
    assert!(detect_fat32_filesystem(&mut drive, 0).unwrap().is_none());
    let mut drive = new_drive();
    put(&mut drive, 0, boot_sector());
    let mut f = fs_info();
    f[0] = 0;
    put(&mut drive, 1, f);
    assert!(detect_fat32_filesystem(&mut drive, 0).unwrap().is_none());
}

#[test]
fn directory_entry_getters() {
    let mut e = DirectoryEntry::new("x.txt".to_string(), false, 9, 10);
    assert_eq!(e.name(), "x.txt");
    assert!(!e.is_directory());
    assert_eq!(e.first_cluster(), 9);
    assert_eq!(e.file_size(), 10);
    e.set_file_size(11);
    assert_eq!(e.file_size(), 11);
}

#[test]
fn rename_is_not_implemented() {
    let root = Directory::new(ROOT);
    assert_eq!(root.rename_file("a", "b"), Err(Status::NotImplemented));
    assert_eq!(root.rename_directory("a", "b"), Err(Status::NotImplemented));
}

#[test]
fn short_name_records() {
    let (d, longs) = DirectoryEntry::new("hello.txt".to_string(), false, 0x0001_0002, 77).to_disk_entries().unwrap();
    assert_eq!(&d.filename, b"HELLO   TXT");
    assert_eq!(d.attributes, 0);
    assert_eq!(d.first_cluster_high, 1);
    assert_eq!(d.first_cluster_low, 2);
    assert_eq!(d.file_size, 77);
    assert!(longs.is_empty());
    let (d, longs) = DirectoryEntry::new("docs".to_string(), true, 5, 0).to_disk_entries().unwrap();
    assert_eq!(&d.filename, b"DOCS       ");
    assert_eq!(d.attributes, 0x10);
    assert!(longs.is_empty());
    assert_eq!(
        DirectoryEntry::new("twelve_bytes".to_string(), true, 5, 0).to_disk_entries().err(),
        Some(Status::InvalidArgument)
    );
}

#[test]
fn long_name_records() {
    let (d, longs) = DirectoryEntry::new("a rather long name.text".to_string(), false, 3, 0).to_disk_entries().unwrap();
    // 23 characters take two long name records, first part first; the last one carries 0x40.
    assert_eq!(longs.len(), 2);
    assert_eq!(longs[0].order, 0x01);
    assert_eq!(longs[1].order, 0x42);
    assert_eq!(longs[0].attr, 0x0F);
    assert_eq!(longs[0].checksum, longs[1].checksum);
    assert_eq!(longs[0].name1[0], 'a' as u16);
    assert_eq!(d.attributes, 0);
    // The basis name: upper case, spaces dropped, no numeric tail.
    assert_eq!(&d.filename, b"ARATHERLTEX");
}

#[test]
fn disk_records_round_trip_through_bytes() {
    let (d, longs) = DirectoryEntry::new("a rather long name.text".to_string(), false, 0x0003_0004, 99).to_disk_entries().unwrap();
    let bytes = d.to_slice();
    let back = DiskDirectoryEntry::from_slice(&bytes);
    assert_eq!(back.to_slice(), bytes);
    assert_eq!(back.first_cluster_high, 3);
    assert_eq!(back.first_cluster_low, 4);
    assert_eq!(back.file_size, 99);
    let long_bytes = longs[0].to_slice();
    let read = LongDirectoryEntry::from_entry(&DiskDirectoryEntry::from_slice(&long_bytes));
    assert_eq!(read.to_slice(), long_bytes);
}

#[test]
fn scan_joins_long_name_records() {
    let entry = DirectoryEntry::new("a rather long name.text".to_string(), false, 9, 12);
    let (d, longs) = entry.to_disk_entries().unwrap();
    let mut state = LongNameState::new();
    // On disk the long name records come last part first, before the short record.
    for l in longs.iter().rev() {
        assert!(matches!(state.feed(&l.to_slice()), ScanStep::Skip));
    }
    match state.feed(&d.to_slice()) {
        ScanStep::Entry(e) => {
            assert_eq!(e.name(), "a rather long name.text");
            assert!(!e.is_directory());
            assert_eq!(e.first_cluster(), 9);
            assert_eq!(e.file_size(), 12);
        },
        _ => panic!("the short record should give an entry"),
    }
    assert!(matches!(state.feed(&[0u8; 32]), ScanStep::End));
    let mut free = [0u8; 32];
    free[0] = 0xE5;
    assert!(matches!(state.feed(&free), ScanStep::Skip));
}

#[test]
fn scan_reads_short_names_in_lower_case() {
    let (d, _) = DirectoryEntry::new("hello.txt".to_string(), false, 9, 12).to_disk_entries().unwrap();
    let mut state = LongNameState::new();
    match state.feed(&d.to_slice()) {
        ScanStep::Entry(e) => assert_eq!(e.name(), "hello.txt"),
        _ => panic!("the short record should give an entry"),
    }
}

/// A drive holding a blank volume with its boot sector and FSInfo sector.
fn formatted_drive() -> MemoryDevice {
    let mut drive = blank_volume().into_drive();
    put(&mut drive, 0, boot_sector());
    put(&mut drive, 1, fs_info());
    drive
}

#[test]
fn mount_finds_the_volume() {
    let fs = mount_fat32(formatted_drive(), 0).unwrap().unwrap();
    assert_eq!(fs.volume_name, "MY VOLUME");
    assert_eq!(fs.fat.bytes_per_cluster(), 512);
    let mut fat = fs.fat;
    fs.root_directory.make_file(&mut fat, "a.txt").unwrap();
    assert_eq!(names_of(&fs.root_directory.get_sub_files(&mut fat).unwrap()), vec![("a.txt".to_string(), 0)]);
}

#[test]
fn register_drive_mounts_or_ignores() {
    let fs = register_drive(formatted_drive()).unwrap().unwrap();
    assert_eq!(fs.volume_name, "MY VOLUME");
    // A drive of no bytes is ignored.
    assert!(register_drive(MemoryDevice::new(0, 512)).unwrap().is_none());
    // A drive without a FAT32 volume gives nothing.
    assert!(register_drive(MemoryDevice::new(4, 512)).unwrap().is_none());
}

#[test]
fn flushed_table_survives_remount() {
    let mut fs = mount_fat32(formatted_drive(), 0).unwrap().unwrap();
    fs.root_directory.make_directory(&mut fs.fat, "keep").unwrap();
    fs.fat.flush().unwrap();
    let mut drive = fs.fat.into_drive();
    // Detection marked the boot sector; put the signature back before mounting again.
    put(&mut drive, 0, boot_sector());
    let mut again = mount_fat32(drive, 0).unwrap().unwrap();
    assert_eq!(again.root_directory.get_sub_directories(&mut again.fat).unwrap(), vec!["keep".to_string()]);
}

#[test]
fn flush_without_changes_succeeds() {
    let mut fat = blank_volume();
    assert_eq!(fat.flush(), Ok(()));
    fat.grow_cluster_chain(ROOT, 2).unwrap();
    assert_eq!(fat.flush(), Ok(()));
    assert_eq!(fat.get_cluster_chain(ROOT).unwrap(), vec![2, 3]);
}

/// A blank volume whose table also holds `entries` and whose root directory cluster holds
/// `root`.
fn volume_with(entries: &[(u32, u32)], root: Vec<u8>) -> FAT<MemoryDevice> {
    let mut drive = blank_volume().into_drive();
    for f in 0..NUM_FATS as u64 {
        let address = RESERVED as u64 + f * FAT_SIZE as u64;
        let mut sector = block(&mut drive, address);
        for (c, v) in entries {
            let o = *c as usize * 4;
            sector[o..o + 4].copy_from_slice(&v.to_le_bytes());
        }
        put(&mut drive, address, sector);
    }
    let first_data = RESERVED as u64 + NUM_FATS as u64 * FAT_SIZE as u64;
    put(&mut drive, first_data, root);
    FAT::new(drive, 1, RESERVED, NUM_FATS, FAT_SIZE, BYTES_PER_SECTOR)
}

#[test]
fn register_sized_drive_ignores_an_empty_drive() {
    assert!(register_sized_drive(formatted_drive(), 0).unwrap().is_none());
    let fs = register_sized_drive(formatted_drive(), 1200 * 512).unwrap().unwrap();
    assert_eq!(fs.volume_name, "MY VOLUME");
    assert!(register_sized_drive(MemoryDevice::new(4, 512), 2048).unwrap().is_none());
}

#[test]
fn register_drive_asks_the_size_once() {
    let fs = register_drive(formatted_drive()).unwrap().unwrap();
    let drive = fs.fat.into_drive();
    assert_eq!(drive.command_history(), vec![(0usize, 0usize)]);
}

#[test]
fn listing_a_full_directory_grows_it() {
    // Records 1 to 15 of the root's only cluster hold files; no record ends the directory.
    let mut root_data = vec![0u8; 512];
    for r in 1..16usize {
        let name = format!("F{:<7}TXT", r);
        root_data[r * 32..r * 32 + 11].copy_from_slice(name.as_bytes());
    }
    let mut fat = volume_with(&[], root_data);
    let root = Directory::new(ROOT);
    let files = root.get_sub_files(&mut fat).unwrap();
    assert_eq!(files.len(), 15);
    assert_eq!(files[0].0, "f1.txt");
    // The scan ran past the last cluster and took cluster 3 into the chain.
    assert_eq!(fat.get_cluster_chain(ROOT).unwrap(), vec![2, 3]);
}

#[test]
fn shrinking_past_the_end_is_refused() {
    let mut fat = volume_with(&[(2, 3), (3, 0x0FFF_FFFF)], vec![0u8; 512]);
    assert_eq!(fat.shrink_cluster_chain(ROOT, 2), Err(Status::InvalidArgument));
    assert_eq!(fat.shrink_cluster_chain(ROOT, 7), Err(Status::InvalidArgument));
    assert_eq!(fat.get_cluster_chain(ROOT).unwrap(), vec![2, 3]);
}

#[test]
fn freeing_a_chain_that_runs_into_a_free_entry_is_corrupt() {
    let mut fat = volume_with(&[(2, 3), (3, 0)], vec![0u8; 512]);
    assert_eq!(fat.free_cluster_chain(ROOT), Err(Status::CorruptFilesystem));
    fat.flush().unwrap();
    let mut drive = fat.into_drive();
    let sector = block(&mut drive, RESERVED as u64);
    // Both clusters walked were marked free.
    assert_eq!(&sector[8..16], &[0u8; 8]);
}

fn child(name: &str, is_directory: bool, open: bool) -> ChildRecord {
    ChildRecord { name: name.to_string(), is_directory, size: 0, open }
}

/// An owner over a directory in memory that holds the files and sub-directories named in
/// `children` (each sub-directory with the number of children given in `counts`, else
/// none), and whose changes fail with `failure` when it is set.
fn owner_with(children: Vec<ChildRecord>, counts: Vec<(String, usize)>, failure: Option<Status>) -> DirectoryOwner<MemoryDirectory> {
    let entries = children
        .iter()
        .map(|c| {
            let n = counts.iter().find(|(name, _)| *name == c.name).map(|(_, n)| *n).unwrap_or(0);
            (c.name.clone(), c.is_directory, n)
        })
        .collect();
    DirectoryOwner::new(MemoryDirectory::new(entries, failure), children)
}

fn child_names(owner: &DirectoryOwner<MemoryDirectory>) -> Vec<String> {
    (0..owner.child_count()).map(|i| owner.get_child(i).unwrap().name.clone()).collect()
}

fn requests(owner: &DirectoryOwner<MemoryDirectory>) -> Vec<(u8, String, bool)> {
    owner.directory().request_log().clone()
}

#[test]
fn check_readable_needs_an_end_within_the_chain() {
    let mut fat = blank_volume();
    let root = Directory::new(ROOT);
    assert_eq!(root.check_readable(&mut fat), Ok(true));
    let mut full = vec![0u8; 512];
    for r in 1..16usize {
        let name = format!("F{:<7}TXT", r);
        full[r * 32..r * 32 + 11].copy_from_slice(name.as_bytes());
    }
    let mut fat = volume_with(&[], full);
    assert_eq!(root.check_readable(&mut fat), Ok(false));
    // The check does not grow the chain.
    assert_eq!(fat.get_cluster_chain(ROOT).unwrap(), vec![2]);
    // A long name record with order number 20 cannot be taken.
    let mut bad = vec![0u8; 512];
    bad[32] = 0x40 | 20;
    bad[32 + 11] = 0x0F;
    let mut fat = volume_with(&[], bad);
    assert_eq!(root.check_readable(&mut fat), Ok(false));
}

fn req(kind: u8, name: &str, directory: bool) -> (u8, String, bool) {
    (kind, name.to_string(), directory)
}

#[test]
fn owner_remove_takes_a_closed_file_away() {
    let mut owner = owner_with(vec![child("a.txt", false, false), child("b.txt", false, false)], vec![], None);
    assert_eq!(owner.remove("a.txt"), Ok(()));
    assert_eq!(child_names(&owner), vec!["b.txt".to_string()]);
    assert_eq!(requests(&owner), vec![req(1, "a.txt", false)]);
    assert_eq!(owner.directory().entry_count(), 1);
}

#[test]
fn owner_remove_refuses_what_is_missing_or_open() {
    let mut owner = owner_with(vec![child("a.txt", false, true), child("d", true, false)], vec![], None);
    assert_eq!(owner.remove("zzz"), Err(Status::NoEntry));
    assert_eq!(owner.remove("a.txt"), Err(Status::InUse));
    assert_eq!(child_names(&owner), vec!["a.txt".to_string(), "d".to_string()]);
    assert!(requests(&owner).is_empty());
}

#[test]
fn owner_remove_needs_an_empty_directory() {
    let counts = vec![("full".to_string(), 2)];
    let mut owner = owner_with(vec![child("full", true, false), child("empty", true, false)], counts, None);
    assert_eq!(owner.remove("full"), Err(Status::NotEmpty));
    assert_eq!(owner.remove("empty"), Ok(()));
    assert_eq!(child_names(&owner), vec!["full".to_string()]);
    assert_eq!(requests(&owner), vec![req(0, "full", true), req(0, "empty", true), req(1, "empty", false)]);
    // A sub-directory the driver cannot count stays, with the driver's error.
    let mut lost = DirectoryOwner::new(MemoryDirectory::new(vec![], None), vec![child("gone", true, false)]);
    assert_eq!(lost.remove("gone"), Err(Status::NoEntry));
    assert_eq!(lost.child_count(), 1);
    assert_eq!(requests(&lost), vec![req(0, "gone", true)]);
}

#[test]
fn owner_remove_forgets_the_child_when_the_volume_fails() {
    let mut owner = owner_with(vec![child("a.txt", false, false)], vec![], Some(Status::CorruptFilesystem));
    assert_eq!(owner.remove("a.txt"), Err(Status::CorruptFilesystem));
    assert_eq!(owner.child_count(), 0);
    assert_eq!(requests(&owner), vec![req(1, "a.txt", false)]);
}

#[test]
fn owner_creates_children_once() {
    let mut owner = owner_with(vec![child("a.txt", false, false)], vec![], None);
    assert_eq!(owner.create_file("a.txt"), Err(Status::Exists));
    assert!(requests(&owner).is_empty());
    assert_eq!(owner.create_directory("sub"), Ok(()));
    assert_eq!(owner.create_file("b.txt"), Ok(()));
    assert_eq!(child_names(&owner), vec!["a.txt".to_string(), "sub".to_string(), "b.txt".to_string()]);
    assert_eq!(requests(&owner), vec![req(2, "sub", true), req(2, "b.txt", false)]);
    assert_eq!(owner.get_metadata("sub"), Ok((0, true)));
    assert_eq!(owner.get_metadata("a.txt"), Ok((0, false)));
    assert_eq!(owner.get_metadata("none"), Err(Status::NoEntry));
    let mut failing = owner_with(vec![], vec![], Some(Status::OutOfResource));
    assert_eq!(failing.create_file("x"), Err(Status::OutOfResource));
    assert_eq!(failing.child_count(), 0);
    assert_eq!(requests(&failing), vec![req(2, "x", false)]);
}

#[test]
fn owner_opens_and_closes_children() {
    let mut owner = owner_with(vec![child("a.txt", false, false), child("d", true, false)], vec![], None);
    assert_eq!(owner.open_child("zzz", false), Err(Status::NoEntry));
    assert_eq!(owner.open_child("a.txt", true), Err(Status::NotDirectory));
    assert_eq!(owner.open_child("d", false), Err(Status::IsDirectory));
    assert!(requests(&owner).is_empty());
    assert_eq!(owner.open_child("a.txt", false), Ok(true));
    assert_eq!(owner.open_child("a.txt", false), Ok(false));
    assert_eq!(requests(&owner), vec![req(3, "a.txt", false)]);
    assert!(owner.get_child(0).unwrap().open);
    // An open child cannot be removed.
    assert_eq!(owner.remove("a.txt"), Err(Status::InUse));
    assert_eq!(owner.open_child("d", true), Ok(true));
    assert!(!owner.close_child("a.txt", false));
    assert!(!owner.get_child(0).unwrap().open);
    // Closing the last handle tells the caller to close the directory in its parent.
    assert!(owner.close_child("d", true));
    assert!(!owner.close_child("d", true));
    owner.open();
    assert!(owner.close());
}
