pub mod bytes;
pub mod text;
pub mod error;
pub mod map;
pub mod queue;
pub mod memory;
pub mod device;
pub mod filesystem;
pub mod ipc;
pub mod process;
pub mod interrupts;
pub mod session;
