use vstd::prelude::*;
use vstd::string::StrSliceExecFns;

use crate::error::Status;
use crate::text::push_char;
use crate::memory::KERNEL_VMA;
use crate::ipc::signals::{initial_signal, Signals};
use crate::bytes::le64;
use crate::process::loader::verify_executable;
use crate::process::loader::elf::{header_error, EHDR_SIZE};

verus! {

/// Where a new process's thread-local storage template goes; the userspace context sits
/// just below it.
pub const TLS_LOCATION: u64 = 0x700000000000;

/// The size of the userspace context: argument count, argument list, environment list,
/// standard streams, and thread-local storage size and alignment, 8 bytes each.
pub const USERSPACE_CONTEXT_SIZE: u64 = 48;

/// The size of the standard streams record that userspace reads.
pub const C_STANDARD_IO_SIZE: u64 = 48;

/// Where the userspace context of a new process is written.
pub const USERSPACE_CONTEXT_LOCATION: u64 = 0x700000000000 - 48;

/// Where a new process goes: into a session, or among the daemons.
#[derive(Clone, Copy, PartialEq, Eq, Structural, Debug)]
pub enum ProcessHome {
    Session(isize),
    Daemon,
}

/// Where an executed program's process goes: into the session asked for, which must
/// exist (else `InvalidSession`), or among the daemons when none is asked for.
pub fn process_home(session_id: Option<isize>, session_exists: bool) -> (r: Result<ProcessHome, Status>)
    ensures
        session_id is None ==> r == Ok::<ProcessHome, Status>(ProcessHome::Daemon),
        session_id matches Some(id) ==> r == if session_exists {
            Ok::<ProcessHome, Status>(ProcessHome::Session(id))
        } else {
            Err::<ProcessHome, Status>(Status::InvalidSession)
        },
{
    match session_id {
        Some(id) => {
            if session_exists {
                Ok(ProcessHome::Session(id))
            } else {
                Err(Status::InvalidSession)
            }
        },
        None => Ok(ProcessHome::Daemon),
    }
}

/// The signal states an executed program starts with: a copy of the caller's when it
/// inherits them, the initial ones otherwise.
pub fn starting_signals(inherit: bool, current: &Signals) -> (r: Signals)
    ensures
        inherit ==> r == *current,
        !inherit ==> (forall|i: int| 0 <= i < 256 ==> #[trigger] r.signal(i) == initial_signal(i))
            && r.spec_userspace_handler() == 0,
{
    if inherit {
        *current
    } else {
        Signals::new()
    }
}

/// What executing a program settles before any process exists: its entry point, its name,
/// where its process goes, and the signal states it starts with.
pub struct ExecutePlan {
    pub entry: usize,
    pub name: String,
    pub home: ProcessHome,
    pub signals: Signals,
}

/// Settles an execution of the program read from `filepath` into `buffer`, in the order
/// its checks are made: the executable's header (its error, if any), then an entry point in
/// the kernel half (`ArgumentSecurity`), then the session asked for (`InvalidSession` when
/// it does not exist). A process is created only from a plan, so none is created when a
/// check fails.
pub fn plan_execute(
    buffer: &[u8],
    filepath: &str,
    session_id: Option<isize>,
    session_exists: bool,
    inherit_signals: bool,
    current: &Signals,
) -> (r: Result<ExecutePlan, Status>)
    requires
        buffer@.len() >= EHDR_SIZE,
    ensures
        header_error(buffer@) matches Some(e) ==> r == Err::<ExecutePlan, Status>(e),
        header_error(buffer@) is None && le64(buffer@, 24) as usize >= KERNEL_VMA ==> r == Err::<ExecutePlan, Status>(
            Status::ArgumentSecurity,
        ),
        header_error(buffer@) is None && (le64(buffer@, 24) as usize) < KERNEL_VMA && session_id is Some
            && !session_exists ==> r == Err::<ExecutePlan, Status>(Status::InvalidSession),
        header_error(buffer@) is None && (le64(buffer@, 24) as usize) < KERNEL_VMA && (session_id is None
            || session_exists) ==> r is Ok,
        r matches Ok(p) ==> {
            &&& p.entry == le64(buffer@, 24) as usize
            &&& p.name@ == file_name(filepath@)
            &&& p.home == match session_id {
                Some(id) => ProcessHome::Session(id),
                None => ProcessHome::Daemon,
            }
            &&& inherit_signals ==> p.signals == *current
            &&& !inherit_signals ==> (forall|i: int| 0 <= i < 256 ==> #[trigger] p.signals.signal(i) == initial_signal(i))
                && p.signals.spec_userspace_handler() == 0
        },
{
    let entry = match verify_executable(buffer) {
        Ok(e) => e,
        Err(e) => {
            return Err(e);
        },
    };
    let entry = match check_entry(entry) {
        Ok(e) => e,
        Err(e) => {
            return Err(e);
        },
    };
    let home = match process_home(session_id, session_exists) {
        Ok(h) => h,
        Err(e) => {
            return Err(e);
        },
    };
    let name = executable_name(filepath).to_owned();
    let signals = starting_signals(inherit_signals, current);
    Ok(ExecutePlan { entry, name, home, signals })
}

/// A path separator.
pub open spec fn is_separator(c: char) -> bool {
    c == '/' || c == '\\'
}

/// The index of the last separator of `s` before `n`, or -1.
pub open spec fn last_separator(s: Seq<char>, n: int) -> int
    decreases n,
{
    if n <= 0 {
        -1
    } else if is_separator(s[n - 1]) {
        n - 1
    } else {
        last_separator(s, n - 1)
    }
}

proof fn lemma_last_separator(s: Seq<char>, n: int)
    requires
        0 <= n <= s.len(),
    ensures
        -1 <= last_separator(s, n) < n,
        last_separator(s, n) >= 0 ==> is_separator(s[last_separator(s, n)]),
        forall|i: int| last_separator(s, n) < i < n ==> !is_separator(#[trigger] s[i]),
    decreases n,
{
    if n > 0 && !is_separator(s[n - 1]) {
        lemma_last_separator(s, n - 1);
    }
}

/// The last component of a path.
pub open spec fn file_name(s: Seq<char>) -> Seq<char> {
    s.subrange(last_separator(s, s.len() as int) + 1, s.len() as int)
}

/// The directory part of a path: the components before the last, joined by '/'.
pub open spec fn parent_of(s: Seq<char>) -> Seq<char> {
    let k = last_separator(s, s.len() as int);
    if k < 0 {
        Seq::empty()
    } else {
        s.take(k).map_values(|c: char| if c == '\\' { '/' } else { c })
    }
}

fn last_separator_of(path: &str) -> (r: Option<usize>)
    ensures
        match r {
            Some(k) => k == last_separator(path@, path@.len() as int),
            None => last_separator(path@, path@.len() as int) == -1,
        },
{
    broadcast use vstd::string::group_string_axioms;

    let ghost s = path@;
    let n = path.unicode_len();
    let mut last: Option<usize> = None;
    let mut idx: usize = 0;
    proof {
        lemma_last_separator(s, 0);
    }
    for c in it: path.chars()
        invariant
            it.seq() == s,
            s == path@,
            n == s.len(),
            idx == it.index(),
            it.index() <= s.len(),
            match last {
                Some(k) => k == last_separator(s, it.index() as int),
                None => last_separator(s, it.index() as int) == -1,
            },
    {
        let ghost i = it.index() as int;
        proof {
            assert(s[i] == c);
        }
        if c == '/' || c == '\\' {
            last = Some(idx);
        }
        idx = idx + 1;
    }
    last
}

/// The name of the executable at a path: its last component.
pub fn executable_name(filepath: &str) -> (r: &str)
    ensures
        r@ == file_name(filepath@),
{
    proof {
        lemma_last_separator(filepath@, filepath@.len() as int);
    }
    let len = filepath.unicode_len();
    let start = match last_separator_of(filepath) {
        Some(k) => k + 1,
        None => 0,
    };
    filepath.substring_char(start, len)
}

/// The directory of the executable at a path, for a process started without a working
/// directory.
pub fn parent_path(filepath: &str) -> (r: String)
    ensures
        r@ == parent_of(filepath@),
{
    broadcast use vstd::string::group_string_axioms;

    let ghost s = filepath@;
    proof {
        lemma_last_separator(s, s.len() as int);
    }
    let mut path = String::new();
    let end = match last_separator_of(filepath) {
        Some(k) => k,
        None => {
            return path;
        },
    };
    let ghost k = end as int;
    let ghost mapped = s.take(k).map_values(|c: char| if c == '\\' { '/' } else { c });
    let n = filepath.unicode_len();
    let mut idx: usize = 0;
    for c in it: filepath.chars()
        invariant
            it.seq() == s,
            s == filepath@,
            n == s.len(),
            idx == it.index(),
            0 <= k < s.len(),
            end == k,
            mapped == s.take(k).map_values(|c: char| if c == '\\' { '/' } else { c }),
            path@ == mapped.take(if it.index() < k { it.index() as int } else { k }),
    {
        let ghost i = it.index() as int;
        proof {
            assert(s[i] == c);
        }
        if idx < end {
            let d = if c == '\\' {
                '/'
            } else {
                c
            };
            push_char(&mut path, d);
            proof {
                assert(mapped.take(i + 1) =~= mapped.take(i).push(d));
            }
        }
        idx = idx + 1;
    }
    proof {
        assert(mapped.take(k) =~= mapped);
    }
    path
}

/// Refuses an entry point in the kernel's half of the address space.
pub fn check_entry(entry: usize) -> (r: Result<usize, Status>)
    ensures
        entry >= KERNEL_VMA ==> r == Err::<usize, Status>(Status::ArgumentSecurity),
        entry < KERNEL_VMA ==> r == Ok::<usize, Status>(entry),
{
    if entry as u64 >= KERNEL_VMA {
        Err(Status::ArgumentSecurity)
    } else {
        Ok(entry)
    }
}

/// The strings `ss`, each followed by a zero byte, one after the other.
pub open spec fn string_area(ss: Seq<Seq<u8>>) -> Seq<u8>
    decreases ss.len(),
{
    if ss.len() == 0 {
        Seq::empty()
    } else {
        string_area(ss.drop_last()) + ss.last() + seq![0u8]
    }
}

/// The UTF-8 bytes of each string.
pub open spec fn utf8_strings(v: Seq<String>) -> Seq<Seq<u8>> {
    v.map_values(|s: String| vstd::utf8::encode_utf8(s@))
}

/// What `do_execute` writes below the thread-local storage of a new process: the userspace
/// context, the standard streams record after it, the argument and environment pointer
/// lists after that, each ended by a null pointer, and then the argument and environment
/// strings, each ended by a zero byte.
pub struct UserspaceImage {
    pub context_location: u64,
    pub stdio_location: u64,
    pub arg_list: u64,
    pub env_list: u64,
    pub strings_start: u64,
    /// Where each argument string starts.
    pub arg_pointers: Vec<u64>,
    /// Where each environment string starts.
    pub env_pointers: Vec<u64>,
    /// The argument strings and then the environment strings, each with its zero byte.
    pub strings: Vec<u8>,
}

fn append_string(area: &mut Vec<u8>, s: &String)
    requires
        old(area)@.len() + vstd::utf8::encode_utf8(s@).len() + 1 <= usize::MAX,
    ensures
        final(area)@ == old(area)@ + vstd::utf8::encode_utf8(s@) + seq![0u8],
{
    let bytes = s.as_str().as_bytes();
    let mut k: usize = 0;
    while k < bytes.len()
        invariant
            k <= bytes@.len(),
            bytes@ == vstd::utf8::encode_utf8(s@),
            area@ == old(area)@ + bytes@.take(k as int),
        decreases bytes@.len() - k,
    {
        area.push(bytes[k]);
        proof {
            assert(bytes@.take(k + 1) =~= bytes@.take(k as int).push(bytes@[k as int]));
        }
        k = k + 1;
    }
    area.push(0);
    proof {
        assert(bytes@.take(k as int) =~= bytes@);
    }
}

/// The layout of the arguments `args` and environment `env` of a new process.
pub fn userspace_image(args: &Vec<String>, env: &Vec<String>) -> (r: UserspaceImage)
    requires
        args@.len() < 0x1_0000_0000,
        env@.len() < 0x1_0000_0000,
        string_area(utf8_strings(args@) + utf8_strings(env@)).len() < 0x1_0000_0000,
    ensures
        r.context_location == USERSPACE_CONTEXT_LOCATION,
        r.stdio_location == USERSPACE_CONTEXT_LOCATION + USERSPACE_CONTEXT_SIZE,
        r.arg_list == r.stdio_location + C_STANDARD_IO_SIZE,
        r.env_list == r.arg_list + 8 * (args@.len() + 1),
        r.strings_start == r.env_list + 8 * (env@.len() + 1),
        r.strings@ == string_area(utf8_strings(args@) + utf8_strings(env@)),
        r.arg_pointers@.len() == args@.len(),
        r.env_pointers@.len() == env@.len(),
        forall|k: int|
            0 <= k < args@.len() ==> #[trigger] r.arg_pointers@[k] == r.strings_start + string_area(
                utf8_strings(args@).take(k),
            ).len(),
        forall|k: int|
            0 <= k < env@.len() ==> #[trigger] r.env_pointers@[k] == r.strings_start + string_area(
                utf8_strings(args@) + utf8_strings(env@).take(k),
            ).len(),
{
    let context_location = USERSPACE_CONTEXT_LOCATION;
    let stdio_location = context_location + USERSPACE_CONTEXT_SIZE;
    let arg_list = stdio_location + C_STANDARD_IO_SIZE;
    let env_list = arg_list + 8 * (args.len() as u64 + 1);
    let strings_start = env_list + 8 * (env.len() as u64 + 1);
    let ghost all = utf8_strings(args@) + utf8_strings(env@);
    let ghost na = args@.len() as int;
    let mut strings: Vec<u8> = Vec::new();
    let mut arg_pointers: Vec<u64> = Vec::new();
    let mut env_pointers: Vec<u64> = Vec::new();
    let mut k: usize = 0;
    while k < args.len()
        invariant
            k <= args@.len(),
            na == args@.len(),
            all == utf8_strings(args@) + utf8_strings(env@),
            string_area(all).len() < 0x1_0000_0000,
            strings@ == string_area(all.take(k as int)),
            strings_start < 0x7FFF_FFFF_FFFF,
            arg_pointers@.len() == k,
            forall|j: int|
                0 <= j < k ==> #[trigger] arg_pointers@[j] == strings_start + string_area(
                    utf8_strings(args@).take(j),
                ).len(),
        decreases args@.len() - k,
    {
        proof {
            lemma_string_area_prefix(all, k + 1, all.len() as int);
            assert(all.take(k + 1).drop_last() =~= all.take(k as int));
            assert(utf8_strings(args@).take(k as int) =~= all.take(k as int));
            assert(all[k as int] == vstd::utf8::encode_utf8(args@[k as int]@));
            assert(all.take(k + 1).last() == all[k as int]);
            assert(all.take(all.len() as int) =~= all);
        }
        arg_pointers.push(strings_start + strings.len() as u64);
        append_string(&mut strings, &args[k]);
        k = k + 1;
    }
    let mut e: usize = 0;
    while e < env.len()
        invariant
            e <= env@.len(),
            k == args@.len(),
            na == args@.len(),
            all == utf8_strings(args@) + utf8_strings(env@),
            string_area(all).len() < 0x1_0000_0000,
            strings@ == string_area(all.take(na + e)),
            strings_start < 0x7FFF_FFFF_FFFF,
            env_pointers@.len() == e,
            forall|j: int|
                0 <= j < e ==> #[trigger] env_pointers@[j] == strings_start + string_area(
                    utf8_strings(args@) + utf8_strings(env@).take(j),
                ).len(),
        decreases env@.len() - e,
    {
        proof {
            lemma_string_area_prefix(all, na + e + 1, all.len() as int);
            assert(all.take(na + e + 1).drop_last() =~= all.take(na + e));
            assert(utf8_strings(args@) + utf8_strings(env@).take(e as int) =~= all.take(na + e));
            assert(all[na + e] == vstd::utf8::encode_utf8(env@[e as int]@));
            assert(all.take(na + e + 1).last() == all[na + e]);
            assert(all.take(all.len() as int) =~= all);
        }
        env_pointers.push(strings_start + strings.len() as u64);
        append_string(&mut strings, &env[e]);
        e = e + 1;
    }
    proof {
        assert(all.take(na + e) =~= all);
    }
    UserspaceImage {
        context_location,
        stdio_location,
        arg_list,
        env_list,
        strings_start,
        arg_pointers,
        env_pointers,
        strings,
    }
}

/// The strings of a prefix take no more room than those of the whole.
proof fn lemma_string_area_prefix(ss: Seq<Seq<u8>>, n: int, m: int)
    requires
        0 <= n <= m <= ss.len(),
    ensures
        string_area(ss.take(n)).len() <= string_area(ss.take(m)).len(),
    decreases m - n,
{
    if n < m {
        lemma_string_area_prefix(ss, n, m - 1);
        assert(ss.take(m).drop_last() =~= ss.take(m - 1));
    }
}

} // verus!
