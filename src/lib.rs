use vstd::prelude::*;

pub mod bytes;
pub mod codec;
pub mod config;
pub mod emulator;
pub mod entry;
pub mod ktid;
pub mod merger;
pub mod patch;
pub mod paths;
pub mod rdb;

verus! {

} // verus!
