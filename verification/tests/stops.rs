use interceptor::engine::{
    apply_packed_args, find_syscall, handle_enter_blocked, handle_exit_blocked, BlockCalls,
    Registers, BLOCKED_SYSNO_BASE, BLOCKED_SYSNO_SPAN,
};

fn regs() -> Registers {
    Registers {
        rdi: 11,
        rsi: 22,
        rdx: 33,
        r10: 44,
        r8: 55,
        r9: 66,
        orig_rax: 257,
        rax: 0,
        rip: 0x401000,
    }
}

fn v(bytes: &[u8]) -> Vec<u8> {
    let mut r = Vec::new();
    for b in bytes {
        r.push(*b);
    }
    r
}

#[test]
fn all_none_slots_leave_registers_untouched() {
    // a pre-hook that modifies nothing leaves the register file bitwise-identical
    let mut r = regs();
    apply_packed_args(&mut r, None, None, None, None, None, None);
    assert_eq!(r, regs());
}

#[test]
fn only_the_third_slot_changes_rdx() {
    // third slot Some(newfd): only rdx changes
    let mut r = regs();
    apply_packed_args(&mut r, None, None, Some(99), None, None, None);
    assert_eq!(r.rdx, 99);
    assert_eq!(r.rdi, 11);
    assert_eq!(r.rsi, 22);
    assert_eq!(r.r10, 44);
    assert_eq!(r.r8, 55);
    assert_eq!(r.r9, 66);
    assert_eq!(r.orig_rax, 257);
    assert_eq!(r.rax, 0);
}

#[test]
fn slots_land_in_abi_order() {
    let mut r = regs();
    apply_packed_args(&mut r, Some(1), Some(2), Some(3), Some(4), Some(5), Some(6));
    assert_eq!((r.rdi, r.rsi, r.rdx, r.r10, r.r8, r.r9), (1, 2, 3, 4, 5, 6));
}

#[test]
fn blocked_call_one_shot_cycle() {
    // getpid hooked without a real call: pre returns Normal(42); the tracee
    // observes 42 at exit, and the entry lives exactly one cycle
    let mut calls = BlockCalls::new();
    assert!(calls.is_empty());
    let mut r = regs();
    handle_enter_blocked(&mut calls, &mut r, 42, 12345);
    let fabricated = r.orig_rax;
    assert!(fabricated >= BLOCKED_SYSNO_BASE);
    assert!(fabricated < BLOCKED_SYSNO_BASE + BLOCKED_SYSNO_SPAN);
    // rax and the argument registers are untouched at entry
    assert_eq!(r.rax, 0);
    assert_eq!(r.rdi, 11);
    assert!(!calls.is_empty());

    // matching exit stop: the remembered value lands in rax, the entry is gone
    let mut r_exit = regs();
    r_exit.orig_rax = fabricated;
    r_exit.rax = 0xffff_ffff_ffff_ffda; // what the kernel said for the bad number
    let blocked = handle_exit_blocked(&mut calls, &mut r_exit);
    assert!(blocked);
    assert_eq!(r_exit.rax, 42);
    assert!(calls.is_empty());

    // a second exit with the same number no longer matches
    let mut r_again = regs();
    r_again.orig_rax = fabricated;
    assert!(!handle_exit_blocked(&mut calls, &mut r_again));
}

#[test]
fn exit_of_unblocked_call_changes_nothing() {
    let mut calls = BlockCalls::new();
    let mut r = regs();
    r.rax = 77;
    assert!(!handle_exit_blocked(&mut calls, &mut r));
    assert_eq!(r.rax, 77);
}

#[test]
fn fabricated_numbers_do_not_collide() {
    // numbers chosen while others are outstanding never collide
    let mut calls = BlockCalls::new();
    let seed = 7;
    let first = calls.fresh_sysno(seed);
    calls.insert(first, 1);
    // the same seed must now probe past the taken number
    let second = calls.fresh_sysno(seed);
    assert_ne!(first, second);
    calls.insert(second, 2);
    let third = calls.fresh_sysno(seed);
    assert_ne!(third, first);
    assert_ne!(third, second);
}

#[test]
fn blocked_map_remove_returns_remembered_value() {
    let mut calls = BlockCalls::new();
    calls.insert(600, 10);
    calls.insert(601, 20);
    assert_eq!(calls.len(), 2);
    assert!(calls.contains(600));
    assert_eq!(calls.remove(601), Some(20));
    assert_eq!(calls.remove(601), None);
    assert_eq!(calls.remove(600), Some(10));
    assert!(calls.is_empty());
}

#[test]
fn first_matching_descriptor_wins() {
    let names = vec![v(b"openat"), v(b"read"), v(b"read")];
    assert_eq!(find_syscall(&names, &v(b"read")), Some(1));
    assert_eq!(find_syscall(&names, &v(b"openat")), Some(0));
    assert_eq!(find_syscall(&names, &v(b"write")), None);
}
