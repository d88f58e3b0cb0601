use vstd::prelude::*;

use crate::bytes::{le32, le64};
use crate::error::Status;

pub mod elf;

use elf::{Elf64_Ehdr, Elf64_Phdr, header_error, EHDR_SIZE, PHDR_SIZE, PT_LOAD, PT_TLS};

verus! {

/// Checks the header at the start of `buffer`, and gives the executable's entry point.
pub fn verify_executable(buffer: &[u8]) -> (r: Result<usize, Status>)
    requires
        buffer@.len() >= EHDR_SIZE,
    ensures
        match header_error(buffer@) {
            Some(e) => r == Err::<usize, Status>(e),
            None => r == Ok::<usize, Status>(le64(buffer@, 24) as usize),
        },
{
    let header = Elf64_Ehdr::from_slice(buffer);
    proof {
        header.lemma_stored_error(buffer@);
    }
    header.verify()
}

/// A copy that loading an executable makes: `filesz` bytes from `offset` in the file to
/// `vaddr` (a loadable segment) or to the thread-local storage template (a TLS segment),
/// then zeros up to `memsz` bytes.
#[derive(Clone, Copy, PartialEq, Eq, Structural, Debug)]
pub enum LoadAction {
    Segment { offset: usize, vaddr: usize, filesz: usize, memsz: usize },
    ThreadLocal { offset: usize, filesz: usize, memsz: usize },
}

/// The copies that loading an executable makes, in order, and how loading ends: the size
/// and alignment of the thread-local storage, or an error.
pub struct LoadPlan {
    pub actions: Vec<LoadAction>,
    pub result: Result<(usize, usize), Status>,
}

/// Where program header `k` starts.
pub open spec fn ph_pos(phoff: usize, phentsize: usize, k: int) -> int {
    phoff + k * phentsize
}

/// The copy that the program header at `pos` of `b` calls for, if any.
pub open spec fn action_at(b: Seq<u8>, pos: int) -> Option<LoadAction> {
    let t = le32(b, pos);
    if t == PT_LOAD {
        Some(
            LoadAction::Segment {
                offset: le64(b, pos + 8) as usize,
                vaddr: le64(b, pos + 16) as usize,
                filesz: le64(b, pos + 32) as usize,
                memsz: le64(b, pos + 40) as usize,
            },
        )
    } else if t == PT_TLS {
        Some(
            LoadAction::ThreadLocal {
                offset: le64(b, pos + 8) as usize,
                filesz: le64(b, pos + 32) as usize,
                memsz: le64(b, pos + 40) as usize,
            },
        )
    } else {
        None
    }
}

/// The copies that the first `k` program headers call for, and the size and alignment of
/// the last thread-local storage header among them (0 and 0 if none).
pub open spec fn plan_upto(b: Seq<u8>, phoff: usize, phentsize: usize, k: int) -> (Seq<LoadAction>, usize, usize)
    decreases k,
{
    if k <= 0 {
        (Seq::empty(), 0, 0)
    } else {
        let prev = plan_upto(b, phoff, phentsize, k - 1);
        let pos = ph_pos(phoff, phentsize, k - 1);
        match action_at(b, pos) {
            Some(a) => {
                if le32(b, pos) == PT_TLS {
                    (prev.0.push(a), le64(b, pos + 40) as usize, le64(b, pos + 48) as usize)
                } else {
                    (prev.0.push(a), prev.1, prev.2)
                }
            },
            None => prev,
        }
    }
}

/// Loading stops at program header `k` when it is a thread-local storage header and one
/// of nonzero size came before it.
pub open spec fn refused_at(b: Seq<u8>, phoff: usize, phentsize: usize, k: int) -> bool {
    le32(b, ph_pos(phoff, phentsize, k)) == PT_TLS && plan_upto(b, phoff, phentsize, k).1 > 0
}

/// The first of the first `n` program headers at which loading stops, or `n`.
pub open spec fn first_refused(b: Seq<u8>, phoff: usize, phentsize: usize, n: int, from: int) -> int
    decreases n - from,
{
    if from >= n {
        n
    } else if refused_at(b, phoff, phentsize, from) {
        from
    } else {
        first_refused(b, phoff, phentsize, n, from + 1)
    }
}

proof fn lemma_first_refused(b: Seq<u8>, phoff: usize, phentsize: usize, n: int, from: int)
    requires
        0 <= from <= n,
    ensures
        from <= first_refused(b, phoff, phentsize, n, from) <= n,
        first_refused(b, phoff, phentsize, n, from) < n ==> refused_at(
            b,
            phoff,
            phentsize,
            first_refused(b, phoff, phentsize, n, from),
        ),
        forall|k: int|
            from <= k < first_refused(b, phoff, phentsize, n, from) ==> !#[trigger] refused_at(b, phoff, phentsize, k),
    decreases n - from,
{
    if from < n && !refused_at(b, phoff, phentsize, from) {
        lemma_first_refused(b, phoff, phentsize, n, from + 1);
    }
}

/// The program headers of the executable in `buffer` lie inside it.
pub open spec fn headers_in_buffer(buffer: Seq<u8>, phoff: usize, phentsize: usize, phnum: usize) -> bool {
    &&& forall|k: int| 0 <= k < phnum ==> #[trigger] ph_pos(phoff, phentsize, k) + PHDR_SIZE <= buffer.len()
    &&& phoff + phnum * phentsize <= usize::MAX
}

/// What loading the executable in `buffer` does: for its program headers in order, a copy
/// for each loadable or thread-local storage segment, until a thread-local storage header
/// comes after one of nonzero size, which is refused as an invalid executable format.
/// Otherwise loading gives the size and alignment of the last thread-local storage segment.
pub fn plan_load(buffer: &[u8]) -> (r: LoadPlan)
    requires
        buffer@.len() >= EHDR_SIZE,
        headers_in_buffer(
            buffer@,
            le64(buffer@, 32) as usize,
            crate::bytes::le16(buffer@, 54) as usize,
            crate::bytes::le16(buffer@, 56) as usize,
        ),
    ensures
        ({
            let b = buffer@;
            let phoff = le64(b, 32) as usize;
            let phentsize = crate::bytes::le16(b, 54) as usize;
            let n = crate::bytes::le16(b, 56) as int;
            let stop = first_refused(b, phoff, phentsize, n, 0);
            &&& r.actions@ == plan_upto(b, phoff, phentsize, stop).0
            &&& stop < n ==> r.result == Err::<(usize, usize), Status>(Status::InvalidExecutableFormat)
            &&& stop == n ==> r.result == Ok::<(usize, usize), Status>(
                (plan_upto(b, phoff, phentsize, n).1, plan_upto(b, phoff, phentsize, n).2),
            )
        }),
{
    let header = Elf64_Ehdr::from_slice(buffer);
    let ghost b = buffer@;
    let ghost phoff = le64(b, 32) as usize;
    let ghost phentsize = crate::bytes::le16(b, 54) as usize;
    let ghost n = crate::bytes::le16(b, 56) as int;
    let mut tls_size: usize = 0;
    let mut tls_align: usize = 0;
    let mut actions: Vec<LoadAction> = Vec::new();
    let mut idx = header.e_phoff();
    let count = header.e_phnum();
    let step = header.e_phentsize();
    let mut k: usize = 0;
    while k < count
        invariant
            b == buffer@,
            phoff == le64(b, 32) as usize,
            phentsize == crate::bytes::le16(b, 54) as usize,
            n == crate::bytes::le16(b, 56) as int,
            count == n,
            step == phentsize,
            0 <= k <= n,
            headers_in_buffer(b, phoff, phentsize, n as usize),
            idx == ph_pos(phoff, phentsize, k as int),
            forall|j: int| 0 <= j < k ==> !#[trigger] refused_at(b, phoff, phentsize, j),
            actions@ == plan_upto(b, phoff, phentsize, k as int).0,
            tls_size == plan_upto(b, phoff, phentsize, k as int).1,
            tls_align == plan_upto(b, phoff, phentsize, k as int).2,
        decreases n - k,
    {
        proof {
            assert(ph_pos(phoff, phentsize, k as int) + PHDR_SIZE <= b.len());
        }
        let phdr = Elf64_Phdr::from_slice(buffer, idx);
        let t = phdr.p_type();
        if t == PT_LOAD {
            actions.push(
                LoadAction::Segment {
                    offset: phdr.p_offset(),
                    vaddr: phdr.p_vaddr(),
                    filesz: phdr.p_filesz(),
                    memsz: phdr.p_memsz(),
                },
            );
        } else if t == PT_TLS {
            if tls_size > 0 {
                proof {
                    assert(refused_at(b, phoff, phentsize, k as int));
                    lemma_first_refused_is(b, phoff, phentsize, n, k as int);
                }
                return LoadPlan { actions, result: Err(Status::InvalidExecutableFormat) };
            }
            actions.push(LoadAction::ThreadLocal { offset: phdr.p_offset(), filesz: phdr.p_filesz(), memsz: phdr.p_memsz() });
            tls_size = phdr.p_memsz();
            tls_align = phdr.p_align();
        }
        proof {
            assert(!refused_at(b, phoff, phentsize, k as int));
            assert(ph_pos(phoff, phentsize, k + 1) <= phoff + n * phentsize) by (nonlinear_arith)
                requires
                    k + 1 <= n,
                    phentsize >= 0,
            ;
            assert(ph_pos(phoff, phentsize, k + 1) == ph_pos(phoff, phentsize, k as int) + phentsize) by (nonlinear_arith);
        }
        idx = idx + step;
        k = k + 1;
    }
    proof {
        lemma_first_refused_is(b, phoff, phentsize, n, n);
    }
    LoadPlan { actions, result: Ok((tls_size, tls_align)) }
}

proof fn lemma_first_refused_is(b: Seq<u8>, phoff: usize, phentsize: usize, n: int, k: int)
    requires
        0 <= k <= n,
        k < n ==> refused_at(b, phoff, phentsize, k),
        forall|j: int| 0 <= j < k ==> !#[trigger] refused_at(b, phoff, phentsize, j),
    ensures
        first_refused(b, phoff, phentsize, n, 0) == k,
{
    lemma_first_refused(b, phoff, phentsize, n, 0);
    let stop = first_refused(b, phoff, phentsize, n, 0);
    if stop < k {
        assert(refused_at(b, phoff, phentsize, stop));
    } else if k < stop {
        assert(!refused_at(b, phoff, phentsize, k));
    }
}

} // verus!
