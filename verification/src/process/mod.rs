use vstd::prelude::*;

use crate::error::Status;

pub mod execute;
pub mod loader;
pub mod process;
pub mod thread;

verus! {

/// The standard streams of a process as userspace reads them: for each of stdout, stderr
/// and stdin, a type (0 none, 1 console, 2 file) and a descriptor.
#[derive(Debug, Clone, Copy, PartialEq, Eq, Structural)]
pub struct CStandardIO {
    pub stdout_type: usize,
    pub stdout_desc: isize,
    pub stderr_type: usize,
    pub stderr_desc: isize,
    pub stdin_type: usize,
    pub stdin_desc: isize,
}

/// The standard streams of a process.
#[derive(Debug, Clone, Copy, PartialEq, Eq, Structural)]
pub struct StandardIO {
    pub stdout: StandardIOType,
    pub stderr: StandardIOType,
    pub stdin: StandardIOType,
}

/// Where a standard stream goes.
#[derive(Debug, Clone, Copy, PartialEq, Eq, Structural)]
pub enum StandardIOType {
    Detached,
    Console,
    File(isize),
}

pub const STDIO_TYPE_NONE: usize = 0;

pub const STDIO_TYPE_CONSOLE: usize = 1;

pub const STDIO_TYPE_FILE: usize = 2;

/// The userspace form of a stream: its type number and its descriptor, 0 but for a file.
pub open spec fn c_stdio_of(t: StandardIOType) -> (usize, isize) {
    match t {
        StandardIOType::Detached => (STDIO_TYPE_NONE, 0),
        StandardIOType::Console => (STDIO_TYPE_CONSOLE, 0),
        StandardIOType::File(fd) => (STDIO_TYPE_FILE, fd),
    }
}

/// The stream that a userspace type number and descriptor stand for, if the number is
/// known.
pub open spec fn stdio_of(class: usize, desc: isize) -> Option<StandardIOType> {
    if class == STDIO_TYPE_NONE {
        Some(StandardIOType::Detached)
    } else if class == STDIO_TYPE_CONSOLE {
        Some(StandardIOType::Console)
    } else if class == STDIO_TYPE_FILE {
        Some(StandardIOType::File(desc))
    } else {
        None
    }
}

impl StandardIO {
    pub fn new(stdout: StandardIOType, stderr: StandardIOType, stdin: StandardIOType) -> (r: Self)
        ensures
            r == (StandardIO { stdout, stderr, stdin }),
    {
        StandardIO { stdout, stderr, stdin }
    }

    /// The userspace form of the three streams.
    pub fn to_c_stdio(self) -> (r: CStandardIO)
        ensures
            (r.stdout_type, r.stdout_desc) == c_stdio_of(self.stdout),
            (r.stderr_type, r.stderr_desc) == c_stdio_of(self.stderr),
            (r.stdin_type, r.stdin_desc) == c_stdio_of(self.stdin),
    {
        let (stdout_type, stdout_desc) = self.stdout.to_c_stdio();
        let (stderr_type, stderr_desc) = self.stderr.to_c_stdio();
        let (stdin_type, stdin_desc) = self.stdin.to_c_stdio();
        CStandardIO { stdout_type, stdout_desc, stderr_type, stderr_desc, stdin_type, stdin_desc }
    }
}

impl StandardIOType {
    pub fn to_c_stdio(self) -> (r: (usize, isize))
        ensures
            r == c_stdio_of(self),
    {
        match self {
            StandardIOType::Detached => (STDIO_TYPE_NONE, 0),
            StandardIOType::Console => (STDIO_TYPE_CONSOLE, 0),
            StandardIOType::File(fd) => (STDIO_TYPE_FILE, fd),
        }
    }
}

impl CStandardIO {
    /// The streams that the userspace form stands for; an unknown type number is out of
    /// range.
    pub fn to_stdio(&self) -> (r: Result<StandardIO, Status>)
        ensures
            match (
                stdio_of(self.stdout_type, self.stdout_desc),
                stdio_of(self.stderr_type, self.stderr_desc),
                stdio_of(self.stdin_type, self.stdin_desc),
            ) {
                (Some(o), Some(e), Some(i)) => r == Ok::<StandardIO, Status>(
                    StandardIO { stdout: o, stderr: e, stdin: i },
                ),
                _ => r == Err::<StandardIO, Status>(Status::OutOfRange),
            },
    {
        let stdout = match CStandardIO::parse(self.stdout_type, self.stdout_desc) {
            Ok(t) => t,
            Err(e) => {
                return Err(e);
            },
        };
        let stderr = match CStandardIO::parse(self.stderr_type, self.stderr_desc) {
            Ok(t) => t,
            Err(e) => {
                return Err(e);
            },
        };
        let stdin = match CStandardIO::parse(self.stdin_type, self.stdin_desc) {
            Ok(t) => t,
            Err(e) => {
                return Err(e);
            },
        };
        Ok(StandardIO::new(stdout, stderr, stdin))
    }

    fn parse(class: usize, desc: isize) -> (r: Result<StandardIOType, Status>)
        ensures
            match stdio_of(class, desc) {
                Some(t) => r == Ok::<StandardIOType, Status>(t),
                None => r == Err::<StandardIOType, Status>(Status::OutOfRange),
            },
    {
        match class {
            STDIO_TYPE_NONE => Ok(StandardIOType::Detached),
            STDIO_TYPE_CONSOLE => Ok(StandardIOType::Console),
            STDIO_TYPE_FILE => Ok(StandardIOType::File(desc)),
            _ => Err(Status::OutOfRange),
        }
    }
}

/// Handing the standard streams to userspace and reading them back gives the same
/// streams.
pub proof fn lemma_stdio_round_trip(t: StandardIOType)
    ensures
        stdio_of(c_stdio_of(t).0, c_stdio_of(t).1) == Some(t),
{
}

} // verus!
