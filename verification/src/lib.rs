use vstd::prelude::*;

pub mod frame_buffer;
pub mod render;
pub mod elf_loader;
pub mod memory_map;

verus! {

} // verus!
