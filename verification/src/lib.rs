//! Verified core of a ptrace-based syscall interception engine for x86_64
//! Linux: the remote bump allocator, C-string and flat-buffer marshalling,
//! the syscall-number table, hook descriptors, and the tracer's decisions at
//! syscall-entry and syscall-exit stops.
use vstd::prelude::*;

pub mod engine;
pub mod ptr;
pub mod remote_mem;
pub mod syscall;
pub mod table;
pub mod trace;

verus! {

/// Size in bytes of the memory block reserved inside the tracee for
/// enlarged string arguments.
pub const MEM_BLOCK_SIZE: u64 = 8192;

} // verus!
