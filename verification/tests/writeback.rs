use interceptor::ptr::MayBePtr;
use interceptor::remote_mem::RemoteMem;
use interceptor::trace::{
    read_bytes_with_nul, read_c_str, read_c_str_array, write_c_str, write_c_str_array,
    CStrUpdate, TraceError,
};
use interceptor::MEM_BLOCK_SIZE;
use pete::{Pid, Signal, Stop, Tracee};

fn v(bytes: &[u8]) -> Vec<u8> {
    let mut r = Vec::new();
    for b in bytes {
        r.push(*b);
    }
    r
}

/// A tracee handle for a process that does not exist: every memory access
/// through it fails, which exercises the error and truncation paths.
fn gone_tracee() -> Tracee {
    Tracee::new(Pid::from_raw(-1), None::<Signal>, Stop::SyscallEnter)
}

#[test]
fn no_update_writes_nothing() {
    let mut t = gone_tracee();
    let mut mem = RemoteMem::new(0x5000);
    let mbp = MayBePtr { inner: v(b"1.c\0"), origin: 0x700 };
    assert!(matches!(write_c_str(&mut t, &mut mem, &mbp, None), Ok(None)));
    // the allocator was not consulted
    assert_eq!(mem.allocate(1), Some(0x5000));
}

#[test]
fn oversized_replacement_is_fatal() {
    let mut t = gone_tracee();
    let mut mem = RemoteMem::new(0x5000);
    let mbp = MayBePtr { inner: v(b"1.c\0"), origin: 0x700 };
    let huge = vec![b'a'; (MEM_BLOCK_SIZE + 1) as usize];
    let r = write_c_str(&mut t, &mut mem, &mbp, Some(CStrUpdate::Replaced(huge)));
    assert_eq!(r, Err(TraceError::AllocTooLarge));
}

#[test]
fn failed_memory_write_is_reported() {
    let mut t = gone_tracee();
    let mut mem = RemoteMem::new(0x5000);
    let mbp = MayBePtr { inner: v(b"1.c\0"), origin: 0x700 };
    let r = write_c_str(&mut t, &mut mem, &mbp, Some(CStrUpdate::InPlace(v(b"2.c\0"))));
    assert_eq!(r, Err(TraceError::MemoryWrite));
}

#[test]
fn relocating_a_pointer_array_is_fatal() {
    let mut t = gone_tracee();
    let mbp = MayBePtr { inner: v(b"sh\0\0"), origin: 0x800 };
    let r = write_c_str_array(&mut t, &mbp, Some(CStrUpdate::Replaced(v(b"zsh\0\0"))));
    assert_eq!(r.0, Err(TraceError::PointerRelocation));
}

#[test]
fn pointer_array_with_no_update_writes_nothing() {
    let mut t = gone_tracee();
    let mbp = MayBePtr { inner: v(b"sh\0\0"), origin: 0x800 };
    assert!(matches!(write_c_str_array(&mut t, &mbp, None).0, Ok(None)));
}

#[test]
fn unreadable_string_truncates_to_nothing() {
    // a failed read is silently truncated; address 0 reads nothing at all
    let t = gone_tracee();
    assert_eq!(read_bytes_with_nul(&t, 0).0, v(b""));
    assert_eq!(read_bytes_with_nul(&t, 0x1234).0, v(b""));
    let m = read_c_str(&t, 0x1234).0;
    assert_eq!(m.origin, 0x1234);
    assert_eq!(m.inner, v(b""));
}

#[test]
fn unreadable_pointer_array_flattens_to_the_terminator() {
    let t = gone_tracee();
    let m = read_c_str_array(&t, 0x9000).0;
    assert_eq!(m.origin, 0x9000);
    // the flat buffer always carries its terminating NUL
    assert_eq!(m.inner, v(b"\0"));
}
