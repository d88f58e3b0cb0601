use vstd::prelude::*;

use crate::bytes::{le16, le32, read16, read32};
use crate::device::Device;
use crate::error::Status;
use crate::filesystem::drivers::fat32::directory::names::{trim, trimmed};
use crate::filesystem::drivers::fat32::directory::Directory;
use crate::filesystem::drivers::fat32::fat::FAT;
use crate::text::{from_utf8_lossy, string_from, utf8_lossy};

pub mod directory;
pub mod fat;
pub mod file;

verus! {

/// The size of a sector, in bytes.
pub const SECTOR_SIZE: usize = 512;

/// What a FAT32 volume's boot sector says of it.
pub struct Fat32Params {
    pub sectors_per_cluster: u8,
    pub reserved_sector_count: u16,
    pub num_fats: u8,
    pub fat_size: u32,
    pub bytes_per_sector: u16,
    /// The eleven bytes of the volume label, as stored.
    pub volume_name: Vec<u8>,
    pub root_directory_cluster: u32,
}

/// A boot sector of a FAT32 volume: the extended boot signature 0x28 or 0x29, the file
/// system type "FAT32   " and the boot signature 0x55 0xAA.
pub open spec fn boot_sector_ok(b: Seq<u8>) -> bool {
    &&& (b[0x42] == 0x28 || b[0x42] == 0x29)
    &&& b.subrange(0x52, 0x5A) == seq![0x46u8, 0x41, 0x54, 0x33, 0x32, 0x20, 0x20, 0x20]
    &&& b[0x1FE] == 0x55 && b[0x1FF] == 0xAA
}

/// An FSInfo sector: its lead, structure and trail signatures.
pub open spec fn fs_info_ok(f: Seq<u8>) -> bool {
    &&& f[0] == 0x52 && f[1] == 0x52 && f[2] == 0x61 && f[3] == 0x41
    &&& f[0x1E4] == 0x72 && f[0x1E5] == 0x72 && f[0x1E6] == 0x41 && f[0x1E7] == 0x61
    &&& f[0x1FC] == 0x00 && f[0x1FD] == 0x00 && f[0x1FE] == 0x55 && f[0x1FF] == 0xAA
}

/// The boot sector as detection leaves it: its first two bytes overwritten with 0xFF 0xAB.
pub open spec fn marked(b: Seq<u8>) -> Seq<u8> {
    b.update(0, 0xFFu8).update(1, 0xABu8)
}

/// The sector that the boot sector names for the FSInfo structure.
pub open spec fn fs_info_sector(b: Seq<u8>) -> int {
    le16(b, 0x30) as int
}

impl Fat32Params {
    /// The parameters that the boot sector `b` gives.
    pub open spec fn read_from(&self, b: Seq<u8>) -> bool {
        &&& self.sectors_per_cluster == b[0x0D]
        &&& self.reserved_sector_count == le16(b, 0x0E)
        &&& self.num_fats == b[0x10]
        &&& self.fat_size == le32(b, 0x24)
        &&& self.bytes_per_sector == le16(b, 0x0B)
        &&& self.volume_name@ == b.subrange(0x47, 0x52)
        &&& self.root_directory_cluster == le32(b, 0x2C)
    }
}

fn boot_sector_check(b: &Vec<u8>) -> (r: bool)
    requires
        b@.len() == SECTOR_SIZE,
    ensures
        r == boot_sector_ok(b@),
{
    let sig = b[0x42];
    if sig != 0x28 && sig != 0x29 {
        return false;
    }
    let ok = b[0x52] == 0x46 && b[0x53] == 0x41 && b[0x54] == 0x54 && b[0x55] == 0x33 && b[0x56] == 0x32 && b[0x57]
        == 0x20 && b[0x58] == 0x20 && b[0x59] == 0x20;
    proof {
        let want = seq![0x46u8, 0x41, 0x54, 0x33, 0x32, 0x20, 0x20, 0x20];
        if ok {
            assert(b@.subrange(0x52, 0x5A) =~= want);
        } else {
            if b@.subrange(0x52, 0x5A) == want {
                assert(b@.subrange(0x52, 0x5A)[0] == b@[0x52]);
                assert(b@.subrange(0x52, 0x5A)[1] == b@[0x53]);
                assert(b@.subrange(0x52, 0x5A)[2] == b@[0x54]);
                assert(b@.subrange(0x52, 0x5A)[3] == b@[0x55]);
                assert(b@.subrange(0x52, 0x5A)[4] == b@[0x56]);
                assert(b@.subrange(0x52, 0x5A)[5] == b@[0x57]);
                assert(b@.subrange(0x52, 0x5A)[6] == b@[0x58]);
                assert(b@.subrange(0x52, 0x5A)[7] == b@[0x59]);
            }
        }
    }
    if !ok {
        return false;
    }
    b[0x1FE] == 0x55 && b[0x1FF] == 0xAA
}

fn fs_info_check(f: &Vec<u8>) -> (r: bool)
    requires
        f@.len() == SECTOR_SIZE,
    ensures
        r == fs_info_ok(f@),
{
    if f[0] != 0x52 || f[1] != 0x52 || f[2] != 0x61 || f[3] != 0x41 {
        return false;
    }
    if f[0x1E4] != 0x72 || f[0x1E5] != 0x72 || f[0x1E6] != 0x41 || f[0x1E7] != 0x61 {
        return false;
    }
    if f[0x1FC] != 0x00 || f[0x1FD] != 0x00 || f[0x1FE] != 0x55 || f[0x1FF] != 0xAA {
        return false;
    }
    true
}

/// Looks for a FAT32 volume whose boot sector is at address `start * SECTOR_SIZE` of
/// `drive`. The boot sector is read, its first two bytes overwritten with 0xFF 0xAB and
/// written back, and then checked; the FSInfo sector it names is read from the drive
/// address equal to its sector number, and checked. A volume passing both checks gives
/// its parameters.
///
/// Note that the write leaves the boot sector on the drive with its jump instruction
/// replaced by 0xFF 0xAB, and that the FSInfo sector is looked up at its sector number
/// taken as a byte address rather than at that sector of the volume.
pub fn detect_fat32_filesystem<D: Device>(drive: &mut D, start: usize) -> (r: Result<Option<Fat32Params>, Status>)
    requires
        start * SECTOR_SIZE <= usize::MAX,
    ensures
        final(drive).commands() == old(drive).commands(),
        ({
            let address = start * SECTOR_SIZE;
            let b = marked(old(drive).block(address));
            &&& r is Ok && old(drive).block(address).len() == SECTOR_SIZE ==> final(drive).block(address) == b
            &&& r is Ok ==> forall|a: int| a != address ==> #[trigger] final(drive).block(a) == old(drive).block(a)
            &&& old(drive).block(address).len() == SECTOR_SIZE && r is Ok ==> ({
                let f = final(drive).block(fs_info_sector(b));
                &&& !boot_sector_ok(b) ==> r == Ok::<Option<Fat32Params>, Status>(None)
                &&& boot_sector_ok(b) && f.len() == SECTOR_SIZE && !fs_info_ok(f) ==> r is Ok && r->Ok_0 is None
                &&& r matches Ok(Some(p)) ==> boot_sector_ok(b) && p.read_from(b) && (f.len() == SECTOR_SIZE
                    ==> fs_info_ok(f))
            })
            &&& boot_sector_ok(b) && old(drive).block(address).len() == SECTOR_SIZE && r is Ok && final(drive).block(
                fs_info_sector(b),
            ).len() == SECTOR_SIZE && fs_info_ok(final(drive).block(fs_info_sector(b))) ==> r->Ok_0 is Some
        }),
{
    let address = start * SECTOR_SIZE;
    let ghost original = drive.block(address as int);
    let mut bpb: Vec<u8> = Vec::new();
    bpb.resize(SECTOR_SIZE, 0u8);
    match drive.read(address as u64, &mut bpb) {
        Ok(()) => {},
        Err(e) => {
            return Err(e);
        },
    }
    bpb.set(0, 0xFF);
    bpb.set(1, 0xAB);
    let ghost before_write = *drive;
    match drive.write(address as u64, &bpb) {
        Ok(()) => {},
        Err(e) => {
            return Err(e);
        },
    }
    proof {
        if original.len() == SECTOR_SIZE {
            assert(bpb@ =~= marked(original));
        }
    }
    if !boot_sector_check(&bpb) {
        return Ok(None);
    }
    let fs_info_at = read16(bpb.as_slice(), 0x30) as usize;
    let mut fs_info: Vec<u8> = Vec::new();
    fs_info.resize(SECTOR_SIZE, 0u8);
    match drive.read(fs_info_at as u64, &mut fs_info) {
        Ok(()) => {},
        Err(e) => {
            return Err(e);
        },
    }
    if !fs_info_check(&fs_info) {
        return Ok(None);
    }
    let b = bpb.as_slice();
    let mut volume_name: Vec<u8> = Vec::new();
    let mut k: usize = 0x47;
    while k < 0x52
        invariant
            0x47 <= k <= 0x52,
            b@.len() == SECTOR_SIZE,
            volume_name@ == b@.subrange(0x47, k as int),
        decreases 0x52 - k,
    {
        volume_name.push(b[k]);
        proof {
            assert(b@.subrange(0x47, k + 1) =~= b@.subrange(0x47, k as int).push(b@[k as int]));
        }
        k = k + 1;
    }
    let params = Fat32Params {
        sectors_per_cluster: b[0x0D],
        reserved_sector_count: read16(b, 0x0E),
        num_fats: b[0x10],
        fat_size: read32(b, 0x24),
        bytes_per_sector: read16(b, 0x0B),
        volume_name,
        root_directory_cluster: read32(b, 0x2C),
    };
    Ok(Some(params))
}

} // verus!

verus! {

/// What a FAT32 volume found on a drive hands the filesystem: its table over the drive, its
/// root directory and its label.
pub struct FilesystemStarter<D: Device> {
    pub fat: FAT<D>,
    pub root_directory: Directory,
    pub volume_name: String,
}

/// The label of the volume whose boot sector is `b`: its eleven label bytes decoded as UTF-8,
/// each invalid sequence replaced, without the white space they start and end with.
pub open spec fn volume_label(b: Seq<u8>) -> Seq<char> {
    trimmed(utf8_lossy(b.subrange(0x47, 0x52)))
}

/// The boot sector `b` gives a first data sector that fits 32 bits.
pub open spec fn layout_fits(b: Seq<u8>) -> bool {
    le16(b, 0x0E) + b[0x10] * le32(b, 0x24) <= u32::MAX
}

/// What mounting the volume whose boot sector is at `start * SECTOR_SIZE` of `drive` may
/// give: nothing for a boot sector or an FSInfo sector that fails its checks, and for a
/// volume found, its table over the drive with the boot sector marked, no command sent to
/// the drive, its geometry, root directory and label as the boot sector gives them.
pub open spec fn mount_outcome<D: Device>(drive: D, start: usize, r: Result<Option<FilesystemStarter<D>>, Status>) -> bool {
    &&& (r matches Ok(Some(fs)) ==> fs.fat.spec_drive().commands() == drive.commands())
    &&& drive.block(start * SECTOR_SIZE).len() == SECTOR_SIZE ==> ({
        let b = marked(drive.block(start * SECTOR_SIZE));
        let f = if fs_info_sector(b) == start * SECTOR_SIZE {
            b
        } else {
            drive.block(fs_info_sector(b))
        };
        &&& r is Ok && !boot_sector_ok(b) ==> r == Ok::<Option<FilesystemStarter<D>>, Status>(None)
        &&& r is Ok && boot_sector_ok(b) && f.len() == SECTOR_SIZE && !fs_info_ok(f) ==> r
            == Ok::<Option<FilesystemStarter<D>>, Status>(None)
        &&& r is Ok && boot_sector_ok(b) && f.len() == SECTOR_SIZE && fs_info_ok(f) ==> r->Ok_0 is Some
        &&& r matches Ok(Some(fs)) ==> {
            &&& boot_sector_ok(b)
            &&& f.len() == SECTOR_SIZE ==> fs_info_ok(f)
            &&& fs.root_directory.spec_first_cluster() == le32(b, 0x2C)
            &&& fs.volume_name@ == volume_label(b)
            &&& fs.fat.spec_bytes_per_cluster() == b[0x0D] * le16(b, 0x0B)
            &&& fs.fat.spec_bytes_per_sector() == le16(b, 0x0B)
            &&& fs.fat.spec_fat_size() == le32(b, 0x24)
            &&& fs.fat.spec_first_fat_sector() == le16(b, 0x0E)
            &&& fs.fat.spec_first_data_sector() == le16(b, 0x0E) + b[0x10] * le32(b, 0x24)
            &&& fs.fat.spec_sectors_per_cluster() == b[0x0D]
            &&& fs.fat.spec_drive().block(start * SECTOR_SIZE) == b
            &&& forall|a: int| a != start * SECTOR_SIZE ==> #[trigger] fs.fat.spec_drive().block(a) == drive.block(a)
        }
    })
}

/// Looks for a FAT32 volume as `detect_fat32_filesystem` does, and when one is found sets
/// up its table over the drive, its root directory and its label. When the drive's block at
/// the boot sector is not a sector long, what a read of it gives is not known; a volume read
/// that way whose first data sector does not fit 32 bits is refused as corrupt.
pub fn mount_fat32<D: Device>(drive: D, start: usize) -> (r: Result<Option<FilesystemStarter<D>>, Status>)
    requires
        start * SECTOR_SIZE <= usize::MAX,
        drive.block(start * SECTOR_SIZE).len() == SECTOR_SIZE && boot_sector_ok(
            marked(drive.block(start * SECTOR_SIZE)),
        ) ==> layout_fits(drive.block(start * SECTOR_SIZE)),
    ensures
        mount_outcome(drive, start, r),
{
    let mut drive = drive;
    let params = match detect_fat32_filesystem(&mut drive, start) {
        Ok(Some(p)) => p,
        Ok(None) => {
            return Ok(None);
        },
        Err(e) => {
            return Err(e);
        },
    };
    let fats = params.num_fats as u64;
    let size = params.fat_size as u64;
    assert(fats * size <= 0xFF * 0xFFFF_FFFFu64) by (nonlinear_arith)
        requires
            fats <= 0xFF,
            size <= 0xFFFF_FFFF,
    ;
    if params.reserved_sector_count as u64 + fats * size > 0xFFFF_FFFFu64 {
        return Err(Status::CorruptFilesystem);
    }
    let fat = FAT::new(
        drive,
        params.sectors_per_cluster,
        params.reserved_sector_count,
        params.num_fats,
        params.fat_size,
        params.bytes_per_sector,
    );
    let label = trim(&from_utf8_lossy(params.volume_name.as_slice()));
    let volume_name = string_from(&label);
    Ok(Some(FilesystemStarter { fat, root_directory: Directory::new(params.root_directory_cluster), volume_name }))
}

} // verus!
