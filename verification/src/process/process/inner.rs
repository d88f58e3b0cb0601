use vstd::prelude::*;

verus! {

/// What userspace is told of a process.
pub struct ProcessInfo {
    pub num_threads: usize,
    pub time: usize,
    pub num_files: usize,
    pub num_directories: usize,
    pub working_directory: String,
    pub name: String,
}

} // verus!
