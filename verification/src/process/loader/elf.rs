use vstd::prelude::*;

use crate::bytes::{le16, le32, le64, read16, read32, read64};
use crate::error::Status;

verus! {

#[allow(non_camel_case_types)]
pub type Elf64_Addr = u64;

#[allow(non_camel_case_types)]
pub type Elf64_Half = u16;

#[allow(non_camel_case_types)]
pub type Elf64_Off = u64;

#[allow(non_camel_case_types)]
pub type Elf64_Sword = i32;

#[allow(non_camel_case_types)]
pub type Elf64_Word = u32;

#[allow(non_camel_case_types)]
pub type Elf64_Xword = u64;

#[allow(non_camel_case_types)]
pub type Elf64_Sxword = i64;

pub const EI_MAG0: usize = 0;

pub const EI_MAG1: usize = 1;

pub const EI_MAG2: usize = 2;

pub const EI_MAG3: usize = 3;

pub const EI_CLASS: usize = 4;

pub const EI_DATA: usize = 5;

pub const EI_VERSION: usize = 6;

pub const EI_OSABI: usize = 7;

pub const EI_ABIVERSION: usize = 8;

pub const EI_NIDENT: usize = 16;

pub const ELFMAG0: u8 = 0x7F;

pub const ELFMAG1: u8 = 0x45;

pub const ELFMAG2: u8 = 0x4C;

pub const ELFMAG3: u8 = 0x46;

pub const ELFCLASS64: u8 = 2;

pub const ELFDATA2LSB: u8 = 1;

pub const ET_EXEC: Elf64_Half = 2;

pub const EM_AMD64: Elf64_Half = 62;

pub const EV_CURRENT: Elf64_Word = 1;

pub const PT_LOAD: Elf64_Word = 1;

pub const PT_TLS: Elf64_Word = 7;

/// The size in bytes of an ELF64 file header.
pub const EHDR_SIZE: usize = 64;

/// The size in bytes of an ELF64 program header.
pub const PHDR_SIZE: usize = 56;

/// The header of an ELF64 file.
#[allow(non_camel_case_types)]
pub struct Elf64_Ehdr {
    e_ident: [u8; 16],
    e_type: Elf64_Half,
    e_macine: Elf64_Half,
    e_version: Elf64_Word,
    e_entry: Elf64_Addr,
    e_phoff: Elf64_Off,
    e_shoff: Elf64_Off,
    e_flags: Elf64_Word,
    e_ehsize: Elf64_Half,
    e_phentsize: Elf64_Half,
    e_phnum: Elf64_Half,
    e_shentsize: Elf64_Half,
    e_shnum: Elf64_Half,
    e_shstrndx: Elf64_Half,
}

/// A program header of an ELF64 file.
#[allow(non_camel_case_types)]
pub struct Elf64_Phdr {
    p_type: Elf64_Word,
    p_flags: Elf64_Word,
    p_offset: Elf64_Off,
    p_vaddr: Elf64_Addr,
    p_paddr: Elf64_Addr,
    p_filesz: Elf64_Xword,
    p_memsz: Elf64_Xword,
    p_align: Elf64_Xword,
}

/// Why a file header is refused, if it is: `InvalidArgument` for a wrong magic number, an
/// old version or a type other than executable; `NotSupported` for a class other than
/// 64-bit, a byte order other than little-endian, or a machine other than AMD64. The
/// checks are made in that order.
pub open spec fn header_error(h: Seq<u8>) -> Option<Status> {
    if h[0] != ELFMAG0 || h[1] != ELFMAG1 || h[2] != ELFMAG2 || h[3] != ELFMAG3 {
        Some(Status::InvalidArgument)
    } else if h[EI_CLASS as int] != ELFCLASS64 {
        Some(Status::NotSupported)
    } else if h[EI_DATA as int] != ELFDATA2LSB {
        Some(Status::NotSupported)
    } else if h[EI_VERSION as int] < EV_CURRENT || le32(h, 20) < EV_CURRENT {
        Some(Status::InvalidArgument)
    } else if le16(h, 16) != ET_EXEC {
        Some(Status::InvalidArgument)
    } else if le16(h, 18) != EM_AMD64 {
        Some(Status::NotSupported)
    } else {
        None
    }
}

impl Elf64_Ehdr {
    /// The header stored in the first 64 bytes of `s`.
    pub closed spec fn stored_in(&self, s: Seq<u8>) -> bool {
        &&& self.e_ident@ == s.take(16)
        &&& self.e_type == le16(s, 16)
        &&& self.e_macine == le16(s, 18)
        &&& self.e_version == le32(s, 20)
        &&& self.e_entry == le64(s, 24)
        &&& self.e_phoff == le64(s, 32)
        &&& self.e_shoff == le64(s, 40)
        &&& self.e_flags == le32(s, 48)
        &&& self.e_ehsize == le16(s, 52)
        &&& self.e_phentsize == le16(s, 54)
        &&& self.e_phnum == le16(s, 56)
        &&& self.e_shentsize == le16(s, 58)
        &&& self.e_shnum == le16(s, 60)
        &&& self.e_shstrndx == le16(s, 62)
    }

    /// Reads the header stored at the start of `slice`.
    pub fn from_slice(slice: &[u8]) -> (r: Self)
        requires
            slice@.len() >= EHDR_SIZE,
        ensures
            r.stored_in(slice@),
            r.spec_e_phoff() == le64(slice@, 32),
            r.spec_e_phentsize() == le16(slice@, 54),
            r.spec_e_phnum() == le16(slice@, 56),
    {
        let r = Elf64_Ehdr {
            e_ident: [
                slice[0],
                slice[1],
                slice[2],
                slice[3],
                slice[4],
                slice[5],
                slice[6],
                slice[7],
                slice[8],
                slice[9],
                slice[10],
                slice[11],
                slice[12],
                slice[13],
                slice[14],
                slice[15],
            ],
            e_type: read16(slice, 16),
            e_macine: read16(slice, 18),
            e_version: read32(slice, 20),
            e_entry: read64(slice, 24),
            e_phoff: read64(slice, 32),
            e_shoff: read64(slice, 40),
            e_flags: read32(slice, 48),
            e_ehsize: read16(slice, 52),
            e_phentsize: read16(slice, 54),
            e_phnum: read16(slice, 56),
            e_shentsize: read16(slice, 58),
            e_shnum: read16(slice, 60),
            e_shstrndx: read16(slice, 62),
        };
        assert(r.e_ident@ =~= slice@.take(16));
        r
    }

    /// Why `verify` refuses the header, if it does.
    pub closed spec fn spec_error(&self) -> Option<Status> {
        let h = self.e_ident@;
        if h[0] != ELFMAG0 || h[1] != ELFMAG1 || h[2] != ELFMAG2 || h[3] != ELFMAG3 {
            Some(Status::InvalidArgument)
        } else if h[EI_CLASS as int] != ELFCLASS64 {
            Some(Status::NotSupported)
        } else if h[EI_DATA as int] != ELFDATA2LSB {
            Some(Status::NotSupported)
        } else if h[EI_VERSION as int] < EV_CURRENT || self.e_version < EV_CURRENT {
            Some(Status::InvalidArgument)
        } else if self.e_type != ET_EXEC {
            Some(Status::InvalidArgument)
        } else if self.e_macine != EM_AMD64 {
            Some(Status::NotSupported)
        } else {
            None
        }
    }

    /// The entry point that the header names.
    pub closed spec fn spec_entry(&self) -> u64 {
        self.e_entry
    }

    /// What `verify` finds of a header read from bytes is what those bytes say.
    pub proof fn lemma_stored_error(&self, s: Seq<u8>)
        requires
            self.stored_in(s),
            s.len() >= EHDR_SIZE,
        ensures
            self.spec_error() == header_error(s),
            self.spec_entry() == le64(s, 24),
    {
        assert(self.e_ident@[0] == s[0]);
        assert(self.e_ident@[1] == s[1]);
        assert(self.e_ident@[2] == s[2]);
        assert(self.e_ident@[3] == s[3]);
        assert(self.e_ident@[4] == s[4]);
        assert(self.e_ident@[5] == s[5]);
        assert(self.e_ident@[6] == s[6]);
    }

    /// Checks that the header is that of an executable for this machine, and gives its
    /// entry point.
    pub fn verify(&self) -> (r: Result<usize, Status>)
        ensures
            match self.spec_error() {
                Some(e) => r == Err::<usize, Status>(e),
                None => r == Ok::<usize, Status>(self.spec_entry() as usize),
            },
    {
        if self.e_ident[EI_MAG0] != ELFMAG0 || self.e_ident[EI_MAG1] != ELFMAG1 || self.e_ident[EI_MAG2]
            != ELFMAG2 || self.e_ident[EI_MAG3] != ELFMAG3 {
            return Err(Status::InvalidArgument);
        }
        if self.e_ident[EI_CLASS] != ELFCLASS64 {
            return Err(Status::NotSupported);
        }
        if self.e_ident[EI_DATA] != ELFDATA2LSB {
            return Err(Status::NotSupported);
        }
        if self.e_ident[EI_VERSION] < EV_CURRENT as u8 || self.e_version < EV_CURRENT {
            return Err(Status::InvalidArgument);
        }
        if self.e_type != ET_EXEC {
            return Err(Status::InvalidArgument);
        }
        if self.e_macine != EM_AMD64 {
            return Err(Status::NotSupported);
        }
        Ok(#[verifier::truncate] (self.e_entry as usize))
    }

    pub closed spec fn spec_e_phoff(&self) -> u64 {
        self.e_phoff
    }

    pub closed spec fn spec_e_phentsize(&self) -> u16 {
        self.e_phentsize
    }

    pub closed spec fn spec_e_phnum(&self) -> u16 {
        self.e_phnum
    }

    /// Where the program headers start in the file.
    pub fn e_phoff(&self) -> (r: usize)
        ensures
            r == self.spec_e_phoff() as usize,
    {
        #[verifier::truncate] (self.e_phoff as usize)
    }

    /// The size of one program header.
    pub fn e_phentsize(&self) -> (r: usize)
        ensures
            r == self.spec_e_phentsize(),
    {
        self.e_phentsize as usize
    }

    /// The number of program headers.
    pub fn e_phnum(&self) -> (r: usize)
        ensures
            r == self.spec_e_phnum(),
    {
        self.e_phnum as usize
    }
}

impl Elf64_Phdr {
    /// The program header stored at offset `at` of `s`.
    pub open spec fn stored_at(&self, s: Seq<u8>, at: int) -> bool {
        &&& self.spec_p_type() == le32(s, at)
        &&& self.spec_p_offset() == le64(s, at + 8)
        &&& self.spec_p_vaddr() == le64(s, at + 16)
        &&& self.spec_p_filesz() == le64(s, at + 32)
        &&& self.spec_p_memsz() == le64(s, at + 40)
        &&& self.spec_p_align() == le64(s, at + 48)
    }

    pub closed spec fn spec_p_type(&self) -> u32 {
        self.p_type
    }

    pub closed spec fn spec_p_offset(&self) -> u64 {
        self.p_offset
    }

    pub closed spec fn spec_p_vaddr(&self) -> u64 {
        self.p_vaddr
    }

    pub closed spec fn spec_p_filesz(&self) -> u64 {
        self.p_filesz
    }

    pub closed spec fn spec_p_memsz(&self) -> u64 {
        self.p_memsz
    }

    pub closed spec fn spec_p_align(&self) -> u64 {
        self.p_align
    }

    /// Reads the program header stored at offset `at` of `slice`.
    pub fn from_slice(slice: &[u8], at: usize) -> (r: Self)
        requires
            at + PHDR_SIZE <= slice@.len(),
        ensures
            r.stored_at(slice@, at as int),
    {
        let n = slice.len();
        let r = Elf64_Phdr {
            p_type: read32(slice, at),
            p_flags: read32(slice, at + 4),
            p_offset: read64(slice, at + 8),
            p_vaddr: read64(slice, at + 16),
            p_paddr: read64(slice, at + 24),
            p_filesz: read64(slice, at + 32),
            p_memsz: read64(slice, at + 40),
            p_align: read64(slice, at + 48),
        };
        r
    }

    pub fn p_type(&self) -> (r: Elf64_Word)
        ensures
            r == self.spec_p_type(),
    {
        self.p_type
    }

    pub fn p_offset(&self) -> (r: usize)
        ensures
            r == self.spec_p_offset() as usize,
    {
        #[verifier::truncate] (self.p_offset as usize)
    }

    pub fn p_vaddr(&self) -> (r: usize)
        ensures
            r == self.spec_p_vaddr() as usize,
    {
        #[verifier::truncate] (self.p_vaddr as usize)
    }

    pub fn p_filesz(&self) -> (r: usize)
        ensures
            r == self.spec_p_filesz() as usize,
    {
        #[verifier::truncate] (self.p_filesz as usize)
    }

    pub fn p_memsz(&self) -> (r: usize)
        ensures
            r == self.spec_p_memsz() as usize,
    {
        #[verifier::truncate] (self.p_memsz as usize)
    }

    pub fn p_align(&self) -> (r: usize)
        ensures
            r == self.spec_p_align() as usize,
    {
        #[verifier::truncate] (self.p_align as usize)
    }
}

} // verus!
