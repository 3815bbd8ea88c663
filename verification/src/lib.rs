//! A small x86_64 hobby kernel's logic: argument parsing for user programs,
//! an in-memory file system, the file-descriptor table, system-call decoding,
//! the ATA driver's register arithmetic, the disk adapter used by the FAT
//! volume, the ELF loader's planning, the keyboard's scancode queue and line
//! editor, the shell, and the user programs' logic.
use vstd::prelude::*;

pub mod interrupts;
pub mod text;
pub mod args;
pub mod drivers;
pub mod filesystem;
pub mod syscall;
pub mod dirent;
pub mod programs;
pub mod loader;
pub mod heap;
pub mod keyboard;
pub mod shell;

verus! {
} // verus!
