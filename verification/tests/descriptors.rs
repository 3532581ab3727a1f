use interceptor::syscall::{BlockVariant, PassthroughVariant, ReturnVariant, SysCall, Variant};

type Pass6 = fn(u64, u64, u64, u64, u64, u64) -> (u64, u64, u64, u64, u64, u64);
type Block6 = fn(u64, u64, u64, u64, u64, u64) -> u64;
type Post1 = fn(u64) -> u64;

type PassOpen = fn(i32, Vec<u8>, i32, i32, u64, u64) -> (i32, Vec<u8>, i32, i32, u64, u64);
type BlockOpen = fn(i32, Vec<u8>, i32, i32, u64, u64) -> i32;
type PostOpen = fn(i32) -> i32;

fn v(bytes: &[u8]) -> Vec<u8> {
    let mut r = Vec::new();
    for b in bytes {
        r.push(*b);
    }
    r
}

fn block_getpid(_: u64, _: u64, _: u64, _: u64, _: u64, _: u64) -> u64 {
    42
}

fn post_identity(r: u64) -> u64 {
    r
}

fn post_minus_one(_: u64) -> u64 {
    -1i64 as u64
}

fn pass_bump_first(
    a1: u64,
    a2: u64,
    a3: u64,
    a4: u64,
    a5: u64,
    a6: u64,
) -> (u64, u64, u64, u64, u64, u64) {
    (a1 + 1, a2, a3, a4, a5, a6)
}

fn pre_openat(
    dfd: i32,
    mut filename: Vec<u8>,
    flags: i32,
    mode: i32,
    a5: u64,
    a6: u64,
) -> (i32, Vec<u8>, i32, i32, u64, u64) {
    // rewrite "1.c" to "2.c" in place
    if !filename.is_empty() && filename[0] == b'1' {
        filename[0] = b'2';
    }
    (dfd, filename, flags, mode, a5, a6)
}

fn post_openat(r: i32) -> i32 {
    r
}

#[test]
fn blocked_descriptor_returns_normal() {
    // a hook without a real call suppresses the kernel call and the tracer
    // injects its value: the tracee observes 42
    let sc: SysCall<Pass6, Block6, Post1> = SysCall {
        name: v(b"getpid"),
        pre: Variant::Block(BlockVariant::Func0(block_getpid)),
        post: post_identity,
    };
    match sc.call_pre(0u64, 0, 0, 0, 0, 0) {
        ReturnVariant::Normal(r) => assert_eq!(r, 42u64),
        ReturnVariant::PackedArgs(_) => panic!("blocked descriptor must not pack args"),
    }
}

#[test]
fn passthrough_descriptor_pads_by_arity() {
    // arity 1: only the first slot is written back
    let sc: SysCall<Pass6, Block6, Post1> = SysCall {
        name: v(b"close"),
        pre: Variant::Passthrough(PassthroughVariant::Func1(pass_bump_first)),
        post: post_identity,
    };
    match sc.call_pre::<u64, _, _, _, _, _, _>(9u64, 2, 3, 4, 5, 6) {
        ReturnVariant::PackedArgs((s1, s2, s3, s4, s5, s6)) => {
            assert_eq!(s1, Some(10u64));
            assert_eq!(s2, None);
            assert_eq!(s3, None);
            assert_eq!(s4, None);
            assert_eq!(s5, None);
            assert_eq!(s6, None);
        },
        ReturnVariant::Normal(_) => panic!("pass-through descriptor must pack args"),
    }
}

#[test]
fn arity_zero_passthrough_packs_nothing() {
    let sc: SysCall<Pass6, Block6, Post1> = SysCall {
        name: v(b"sync"),
        pre: Variant::Passthrough(PassthroughVariant::Func0(pass_bump_first)),
        post: post_identity,
    };
    match sc.call_pre::<u64, _, _, _, _, _, _>(1u64, 2, 3, 4, 5, 6) {
        ReturnVariant::PackedArgs(slots) => {
            assert_eq!(slots, (None, None, None, None, None, None));
        },
        ReturnVariant::Normal(_) => panic!("pass-through descriptor must pack args"),
    }
}

#[test]
fn openat_hook_rewrites_filename_in_place() {
    // openat(AT_FDCWD, "1.c", O_RDONLY, 0): the hook rewrites the name to
    // "2.c"; all four declared slots come back
    let sc: SysCall<PassOpen, BlockOpen, PostOpen> = SysCall {
        name: v(b"openat"),
        pre: Variant::Passthrough(PassthroughVariant::Func4(pre_openat)),
        post: post_openat,
    };
    match sc.call_pre::<i32, _, _, _, _, _, _>(-100i32, v(b"1.c\0"), 0, 0, 0u64, 0u64) {
        ReturnVariant::PackedArgs((s1, s2, s3, s4, s5, s6)) => {
            assert_eq!(s1, Some(-100));
            assert_eq!(s2, Some(v(b"2.c\0")));
            assert_eq!(s3, Some(0));
            assert_eq!(s4, Some(0));
            assert_eq!(s5, None);
            assert_eq!(s6, None);
        },
        ReturnVariant::Normal(_) => panic!("pass-through descriptor must pack args"),
    }
}

#[test]
fn post_hook_rewrites_the_return_value() {
    // a post-hook for read that returns -1 regardless of the kernel result
    let sc: SysCall<Pass6, Block6, Post1> = SysCall {
        name: v(b"read"),
        pre: Variant::Passthrough(PassthroughVariant::Func3(pass_bump_first)),
        post: post_minus_one,
    };
    // even a successful kernel return of 4096 bytes becomes -1
    assert_eq!(sc.call_post(4096u64), -1i64 as u64);
    assert_eq!(sc.call_post(0u64), -1i64 as u64);
}

#[test]
fn identity_post_hook_keeps_the_kernel_return() {
    let sc: SysCall<Pass6, Block6, Post1> = SysCall {
        name: v(b"write"),
        pre: Variant::Passthrough(PassthroughVariant::Func3(pass_bump_first)),
        post: post_identity,
    };
    assert_eq!(sc.call_post(123u64), 123);
}
