//! Typed syscall descriptors.
//!
//! A descriptor pairs a kernel syscall name with a pre-hook and a post-hook.
//! A pre-hook either passes the call through — it receives the marshalled
//! arguments and returns the (possibly modified) tuple, of which the slots up
//! to its declared arity are written back — or blocks it, returning the value
//! the tracee will observe instead of running the kernel call. Hooks are
//! carried as callable values; every contract here speaks of the hook's own
//! contract through `call_requires` and `call_ensures`.
use vstd::prelude::*;

verus! {

/// Pre-hook of a pass-through descriptor. `Func{k}` records the declared
/// arity `k`: the hook sees all six marshalled arguments, and the first `k`
/// slots of its returned tuple are written back, the rest left alone.
pub enum PassthroughVariant<FP> {
    Func0(FP),
    Func1(FP),
    Func2(FP),
    Func3(FP),
    Func4(FP),
    Func5(FP),
    Func6(FP),
}

/// Pre-hook of a blocking descriptor: the kernel call is suppressed and the
/// hook's result becomes the syscall's return value. `Func{k}` records the
/// declared arity.
pub enum BlockVariant<FB> {
    Func0(FB),
    Func1(FB),
    Func2(FB),
    Func3(FB),
    Func4(FB),
    Func5(FB),
    Func6(FB),
}

/// A descriptor's pre-hook: pass the syscall through to the kernel, or block
/// it. The choice is fixed when the descriptor is built (from whether the
/// user's hook hands control to the real call).
pub enum Variant<FP, FB> {
    Passthrough(PassthroughVariant<FP>),
    Block(BlockVariant<FB>),
}

/// What a pre-hook invocation produced: per-slot replacement argument values
/// for a pass-through call, or the substitute return value of a blocked one.
pub enum ReturnVariant<R, A1, A2, A3, A4, A5, A6> {
    PackedArgs(
        (Option<A1>, Option<A2>, Option<A3>, Option<A4>, Option<A5>, Option<A6>),
    ),
    Normal(R),
}

/// The hook carried by a pass-through pre-hook variant.
pub open spec fn passthrough_hook<FP>(pv: PassthroughVariant<FP>) -> FP {
    match pv {
        PassthroughVariant::Func0(f) => f,
        PassthroughVariant::Func1(f) => f,
        PassthroughVariant::Func2(f) => f,
        PassthroughVariant::Func3(f) => f,
        PassthroughVariant::Func4(f) => f,
        PassthroughVariant::Func5(f) => f,
        PassthroughVariant::Func6(f) => f,
    }
}

/// The declared arity of a pass-through pre-hook.
pub open spec fn passthrough_arity<FP>(pv: PassthroughVariant<FP>) -> int {
    match pv {
        PassthroughVariant::Func0(_) => 0,
        PassthroughVariant::Func1(_) => 1,
        PassthroughVariant::Func2(_) => 2,
        PassthroughVariant::Func3(_) => 3,
        PassthroughVariant::Func4(_) => 4,
        PassthroughVariant::Func5(_) => 5,
        PassthroughVariant::Func6(_) => 6,
    }
}

/// The hook carried by a blocking pre-hook variant.
pub open spec fn block_hook<FB>(bv: BlockVariant<FB>) -> FB {
    match bv {
        BlockVariant::Func0(f) => f,
        BlockVariant::Func1(f) => f,
        BlockVariant::Func2(f) => f,
        BlockVariant::Func3(f) => f,
        BlockVariant::Func4(f) => f,
        BlockVariant::Func5(f) => f,
        BlockVariant::Func6(f) => f,
    }
}

/// Pad a returned argument tuple to the six slots the tracer works with: the
/// first `arity` slots carry the hook's values, the rest say "leave the
/// register alone".
pub open spec fn packed_slots<A1, A2, A3, A4, A5, A6>(
    t: (A1, A2, A3, A4, A5, A6),
    arity: int,
) -> (Option<A1>, Option<A2>, Option<A3>, Option<A4>, Option<A5>, Option<A6>) {
    (
        if arity >= 1 {
            Some(t.0)
        } else {
            None
        },
        if arity >= 2 {
            Some(t.1)
        } else {
            None
        },
        if arity >= 3 {
            Some(t.2)
        } else {
            None
        },
        if arity >= 4 {
            Some(t.3)
        } else {
            None
        },
        if arity >= 5 {
            Some(t.4)
        } else {
            None
        },
        if arity >= 6 {
            Some(t.5)
        } else {
            None
        },
    )
}

/// What invoking the pre-hook demands of the marshalled arguments: exactly
/// the hook's own precondition.
pub open spec fn pre_hook_requires<R, A1, A2, A3, A4, A5, A6, FP, FB>(
    pre: Variant<FP, FB>,
    args: (A1, A2, A3, A4, A5, A6),
) -> bool where
    FP: Fn(A1, A2, A3, A4, A5, A6) -> (A1, A2, A3, A4, A5, A6),
    FB: Fn(A1, A2, A3, A4, A5, A6) -> R,
 {
    match pre {
        Variant::Passthrough(pv) => call_requires(passthrough_hook(pv), args),
        Variant::Block(bv) => call_requires(block_hook(bv), args),
    }
}

/// What invoking the pre-hook yields: a pass-through descriptor yields
/// `PackedArgs` — some tuple the hook could return, padded by the declared
/// arity — and a blocking descriptor yields `Normal` with a value the hook
/// could return. The kernel call proceeds exactly in the first case.
pub open spec fn pre_hook_ensures<R, A1, A2, A3, A4, A5, A6, FP, FB>(
    pre: Variant<FP, FB>,
    args: (A1, A2, A3, A4, A5, A6),
    r: ReturnVariant<R, A1, A2, A3, A4, A5, A6>,
) -> bool where
    FP: Fn(A1, A2, A3, A4, A5, A6) -> (A1, A2, A3, A4, A5, A6),
    FB: Fn(A1, A2, A3, A4, A5, A6) -> R,
 {
    match pre {
        Variant::Passthrough(pv) => match r {
            ReturnVariant::PackedArgs(slots) => exists|t: (A1, A2, A3, A4, A5, A6)|
                #[trigger] call_ensures(passthrough_hook(pv), args, t) && slots == packed_slots(
                    t,
                    passthrough_arity(pv),
                ),
            ReturnVariant::Normal(_) => false,
        },
        Variant::Block(bv) => match r {
            ReturnVariant::PackedArgs(_) => false,
            ReturnVariant::Normal(v) => call_ensures(block_hook(bv), args, v),
        },
    }
}

/// One registered syscall: its kernel name, its pre-hook with the
/// pass-through/block choice baked in, and its post-hook over the return
/// value.
pub struct SysCall<FP, FB, FQ> {
    pub name: Vec<u8>,
    pub pre: Variant<FP, FB>,
    pub post: FQ,
}

impl<FP: Copy, FB: Copy, FQ: Copy> SysCall<FP, FB, FQ> {
    /// Run the pre-hook on the six marshalled arguments. A pass-through
    /// descriptor returns the hook's tuple padded to six optional slots by
    /// its declared arity; a blocking descriptor returns the substitute
    /// return value.
    pub fn call_pre<R, A1, A2, A3, A4, A5, A6>(
        &self,
        a1: A1,
        a2: A2,
        a3: A3,
        a4: A4,
        a5: A5,
        a6: A6,
    ) -> (r: ReturnVariant<R, A1, A2, A3, A4, A5, A6>) where
        FP: Fn(A1, A2, A3, A4, A5, A6) -> (A1, A2, A3, A4, A5, A6),
        FB: Fn(A1, A2, A3, A4, A5, A6) -> R,

        requires
            pre_hook_requires::<R, A1, A2, A3, A4, A5, A6, FP, FB>(self.pre, (a1, a2, a3, a4, a5, a6)),
        ensures
            pre_hook_ensures::<R, A1, A2, A3, A4, A5, A6, FP, FB>(self.pre, (a1, a2, a3, a4, a5, a6), r),
    {
        let ghost args = (a1, a2, a3, a4, a5, a6);
        match &self.pre {
            Variant::Passthrough(pv) => {
                let arity: usize;
                let f: FP;
                match pv {
                    PassthroughVariant::Func0(g) => {
                        arity = 0;
                        f = *g;
                    },
                    PassthroughVariant::Func1(g) => {
                        arity = 1;
                        f = *g;
                    },
                    PassthroughVariant::Func2(g) => {
                        arity = 2;
                        f = *g;
                    },
                    PassthroughVariant::Func3(g) => {
                        arity = 3;
                        f = *g;
                    },
                    PassthroughVariant::Func4(g) => {
                        arity = 4;
                        f = *g;
                    },
                    PassthroughVariant::Func5(g) => {
                        arity = 5;
                        f = *g;
                    },
                    PassthroughVariant::Func6(g) => {
                        arity = 6;
                        f = *g;
                    },
                }
                proof {
                    assert(f == passthrough_hook(self.pre->Passthrough_0));
                    assert(arity == passthrough_arity(self.pre->Passthrough_0));
                }
                let t = f(a1, a2, a3, a4, a5, a6);
                let ghost tg = t;
                let (t1, t2, t3, t4, t5, t6) = t;
                let s1 = if arity >= 1 {
                    Some(t1)
                } else {
                    None
                };
                let s2 = if arity >= 2 {
                    Some(t2)
                } else {
                    None
                };
                let s3 = if arity >= 3 {
                    Some(t3)
                } else {
                    None
                };
                let s4 = if arity >= 4 {
                    Some(t4)
                } else {
                    None
                };
                let s5 = if arity >= 5 {
                    Some(t5)
                } else {
                    None
                };
                let s6 = if arity >= 6 {
                    Some(t6)
                } else {
                    None
                };
                proof {
                    assert(call_ensures(f, args, tg));
                    assert((s1, s2, s3, s4, s5, s6) == packed_slots(
                        tg,
                        passthrough_arity(self.pre->Passthrough_0),
                    ));
                }
                ReturnVariant::PackedArgs((s1, s2, s3, s4, s5, s6))
            },
            Variant::Block(bv) => {
                let f: FB;
                match bv {
                    BlockVariant::Func0(g) => {
                        f = *g;
                    },
                    BlockVariant::Func1(g) => {
                        f = *g;
                    },
                    BlockVariant::Func2(g) => {
                        f = *g;
                    },
                    BlockVariant::Func3(g) => {
                        f = *g;
                    },
                    BlockVariant::Func4(g) => {
                        f = *g;
                    },
                    BlockVariant::Func5(g) => {
                        f = *g;
                    },
                    BlockVariant::Func6(g) => {
                        f = *g;
                    },
                }
                proof {
                    assert(f == block_hook(self.pre->Block_0));
                }
                let v = f(a1, a2, a3, a4, a5, a6);
                ReturnVariant::Normal(v)
            },
        }
    }

    /// Run the post-hook on the syscall's return value; what comes back is
    /// what the tracee will observe in its result register.
    pub fn call_post<R>(&self, r: R) -> (out: R) where FQ: Fn(R) -> R,
        requires
            call_requires(self.post, (r,)),
        ensures
            call_ensures(self.post, (r,), out),
    {
        let f = self.post;
        f(r)
    }
}

} // verus!
