pub mod pipe;
pub mod signals;
