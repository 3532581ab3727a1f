//! The tracer's decisions at syscall stops.
//!
//! At a syscall-entry stop a matching pre-hook either modifies argument
//! registers (pass-through) or blocks the call: the syscall number register is
//! rewritten to a fabricated number the kernel will reject, and the intended
//! return value is remembered. At the matching exit stop the remembered value
//! is substituted into the result register. This module holds the register
//! file model, the blocked-call map with its freshness guarantee, and the
//! pure entry/exit decision steps; the surrounding process control is plain
//! I/O and stays outside.
use vstd::prelude::*;

verus! {

use vstd::seq_lib::*;

/// Lowest fabricated syscall number: no legitimate x86_64 syscall number
/// reaches this value.
pub const BLOCKED_SYSNO_BASE: u64 = 512;

/// Number of distinct fabricated syscall numbers.
pub const BLOCKED_SYSNO_SPAN: u64 = 65536;

/// The registers of a stopped tracee that the interceptor reads or writes:
/// the six syscall argument registers (in the syscall ABI's order), the
/// syscall number register, the result register, and the instruction
/// pointer.
#[derive(Clone, Copy, PartialEq, Eq, Structural, Debug)]
pub struct Registers {
    pub rdi: u64,
    pub rsi: u64,
    pub rdx: u64,
    pub r10: u64,
    pub r8: u64,
    pub r9: u64,
    pub orig_rax: u64,
    pub rax: u64,
    pub rip: u64,
}

/// The register file after the slots a pre-hook returned are applied: a
/// `Some` slot overwrites its argument register, a `None` slot leaves it
/// alone; no other register is touched.
pub open spec fn packed_regs(
    regs: Registers,
    r1: Option<u64>,
    r2: Option<u64>,
    r3: Option<u64>,
    r4: Option<u64>,
    r5: Option<u64>,
    r6: Option<u64>,
) -> Registers {
    Registers {
        rdi: match r1 { Some(v) => v, None => regs.rdi },
        rsi: match r2 { Some(v) => v, None => regs.rsi },
        rdx: match r3 { Some(v) => v, None => regs.rdx },
        r10: match r4 { Some(v) => v, None => regs.r10 },
        r8: match r5 { Some(v) => v, None => regs.r8 },
        r9: match r6 { Some(v) => v, None => regs.r9 },
        ..regs
    }
}

/// Overwrite the argument registers for which the pre-hook returned a new
/// value, in the syscall ABI's order, and no others.
pub fn apply_packed_args(
    regs: &mut Registers,
    r1: Option<u64>,
    r2: Option<u64>,
    r3: Option<u64>,
    r4: Option<u64>,
    r5: Option<u64>,
    r6: Option<u64>,
)
    ensures
        *final(regs) == packed_regs(*old(regs), r1, r2, r3, r4, r5, r6),
{
    if let Some(v) = r1 {
        regs.rdi = v;
    }
    if let Some(v) = r2 {
        regs.rsi = v;
    }
    if let Some(v) = r3 {
        regs.rdx = v;
    }
    if let Some(v) = r4 {
        regs.r10 = v;
    }
    if let Some(v) = r5 {
        regs.r8 = v;
    }
    if let Some(v) = r6 {
        regs.r9 = v;
    }
}

/// Register fidelity on pass-through: a pre-hook that modifies no slot
/// leaves the whole register file exactly as the kernel would have seen it
/// without the tracer.
pub proof fn lemma_passthrough_fidelity(regs: Registers)
    ensures
        packed_regs(regs, None, None, None, None, None, None) == regs,
{
}

/// The map held by a sequence of key/value entries, later entries winning.
pub open spec fn map_of(s: Seq<(u64, u64)>) -> Map<u64, u64>
    decreases s.len(),
{
    if s.len() == 0 {
        Map::empty()
    } else {
        map_of(s.drop_last()).insert(s.last().0, s.last().1)
    }
}

/// No two entries share a key.
pub open spec fn distinct_keys(s: Seq<(u64, u64)>) -> bool {
    forall|i: int, j: int| 0 <= i < j < s.len() ==> (#[trigger] s[i]).0 != (#[trigger] s[j]).0
}

pub proof fn lemma_map_of_contains(s: Seq<(u64, u64)>, k: u64)
    ensures
        map_of(s).contains_key(k) <==> exists|i: int| 0 <= i < s.len() && (#[trigger] s[i]).0 == k,
    decreases s.len(),
{
    if s.len() > 0 {
        lemma_map_of_contains(s.drop_last(), k);
        if map_of(s).contains_key(k) {
            if k == s.last().0 {
                assert((s[s.len() - 1]).0 == k);
            } else {
                let i = choose|i: int|
                    0 <= i < s.drop_last().len() && (#[trigger] s.drop_last()[i]).0 == k;
                assert((s[i]).0 == k);
            }
        }
        if exists|i: int| 0 <= i < s.len() && (#[trigger] s[i]).0 == k {
            let i = choose|i: int| 0 <= i < s.len() && (#[trigger] s[i]).0 == k;
            if i < s.len() - 1 {
                assert((s.drop_last()[i]).0 == k);
            }
        }
    }
}

pub proof fn lemma_map_of_get(s: Seq<(u64, u64)>, i: int)
    requires
        distinct_keys(s),
        0 <= i < s.len(),
    ensures
        map_of(s).contains_key(s[i].0),
        map_of(s)[s[i].0] == s[i].1,
    decreases s.len(),
{
    if i < s.len() - 1 {
        assert(s[i].0 != s.last().0);
        assert(s.drop_last()[i] == s[i]);
        lemma_map_of_get(s.drop_last(), i);
    }
}

/// With distinct keys, the map holds exactly one entry per sequence element.
pub proof fn lemma_map_of_len(s: Seq<(u64, u64)>)
    requires
        distinct_keys(s),
    ensures
        map_of(s).dom().finite(),
        map_of(s).len() == s.len(),
    decreases s.len(),
{
    if s.len() > 0 {
        lemma_map_of_len(s.drop_last());
        lemma_map_of_contains(s.drop_last(), s.last().0);
        assert(forall|i: int| 0 <= i < s.drop_last().len() ==> s.drop_last()[i] == s[i]);
        assert(!map_of(s.drop_last()).contains_key(s.last().0));
    }
}

/// Removing one entry removes exactly its key from the map.
pub proof fn lemma_map_of_remove(s: Seq<(u64, u64)>, i: int)
    requires
        distinct_keys(s),
        0 <= i < s.len(),
    ensures
        map_of(s.remove(i)) == map_of(s).remove(s[i].0),
    decreases s.len(),
{
    s.remove_ensures(i);
    if i == s.len() - 1 {
        assert(s.remove(i) =~= s.drop_last());
        lemma_map_of_contains(s.drop_last(), s[i].0);
        assert(forall|j: int| 0 <= j < s.drop_last().len() ==> s.drop_last()[j] == s[j]);
        assert(!map_of(s.drop_last()).contains_key(s[i].0));
        assert(map_of(s).remove(s[i].0) =~= map_of(s.drop_last()));
    } else {
        assert(forall|j: int| 0 <= j < s.drop_last().len() ==> s.drop_last()[j] == s[j]);
        assert(distinct_keys(s.drop_last()));
        lemma_map_of_remove(s.drop_last(), i);
        assert(s.remove(i).drop_last() =~= s.drop_last().remove(i));
        assert(s.remove(i).last() == s.last());
        assert(s[i].0 != s.last().0);
        assert(map_of(s.remove(i)) == map_of(s.drop_last().remove(i)).insert(
            s.last().0,
            s.last().1,
        ));
        assert(map_of(s.drop_last()).remove(s[i].0).insert(s.last().0, s.last().1) =~= map_of(
            s.drop_last(),
        ).insert(s.last().0, s.last().1).remove(s[i].0));
    }
}

/// Fabricated numbers left behind by blocked syscalls that have not reached
/// their exit stop yet: each maps to the return value the tracer will
/// substitute there.
pub struct BlockCalls {
    entries: Vec<(u64, u64)>,
}

impl View for BlockCalls {
    type V = Map<u64, u64>;

    closed spec fn view(&self) -> Map<u64, u64> {
        map_of(self.entries@)
    }
}

/// The fabricated number `j` probes from a random starting point: the probe
/// walks all fabricated numbers once, wrapping around.
pub open spec fn probe_candidate(seed: u16, j: int) -> u64 {
    if seed + j < BLOCKED_SYSNO_SPAN {
        (BLOCKED_SYSNO_BASE + seed + j) as u64
    } else {
        (BLOCKED_SYSNO_BASE + seed + j - BLOCKED_SYSNO_SPAN) as u64
    }
}

/// Some entry of `s` carries the key `x`.
pub open spec fn covers_key(s: Seq<(u64, u64)>, x: u64) -> bool {
    exists|i: int| 0 <= i < s.len() && (#[trigger] s[i]).0 == x
}

/// Pigeonhole: a sequence of entries with distinct keys that covers every
/// key of an `n`-value range has at least `n` entries.
proof fn lemma_covering_entries_count(s: Seq<(u64, u64)>, n: int)
    requires
        distinct_keys(s),
        0 <= n <= BLOCKED_SYSNO_SPAN,
        forall|x: u64|
            BLOCKED_SYSNO_BASE <= x < BLOCKED_SYSNO_BASE + n ==> #[trigger] covers_key(s, x),
    ensures
        s.len() >= n,
    decreases n,
{
    if n > 0 {
        let x = (BLOCKED_SYSNO_BASE + n - 1) as u64;
        assert(covers_key(s, x));
        let i = choose|i: int| 0 <= i < s.len() && (#[trigger] s[i]).0 == x;
        let s2 = s.remove(i);
        s.remove_ensures(i);
        assert forall|p: int, q: int| 0 <= p < q < s2.len() implies (#[trigger] s2[p]).0 != (
        #[trigger] s2[q]).0 by {
            let p0: int = if p < i {
                p
            } else {
                p + 1
            };
            let q0: int = if q < i {
                q
            } else {
                q + 1
            };
            assert(s2[p] == s[p0] && s2[q] == s[q0]);
        }
        assert forall|x2: u64| BLOCKED_SYSNO_BASE <= x2 < BLOCKED_SYSNO_BASE + (n
            - 1) implies #[trigger] covers_key(s2, x2) by {
            assert(covers_key(s, x2));
            let j = choose|j: int| 0 <= j < s.len() && (#[trigger] s[j]).0 == x2;
            assert(s[j].0 == x2 && x2 != x);
            if j < i {
                assert(s2[j].0 == x2);
            } else {
                assert(s2[j - 1].0 == x2);
            }
        }
        lemma_covering_entries_count(s2, n - 1);
    }
}

impl BlockCalls {
    /// Keys are distinct (each outstanding fabricated number is tracked
    /// once) and every key is a fabricated number.
    pub closed spec fn wf(&self) -> bool {
        distinct_keys(self.entries@) && forall|i: int|
            0 <= i < self.entries@.len() ==> BLOCKED_SYSNO_BASE <= (
            #[trigger] self.entries@[i]).0 < BLOCKED_SYSNO_BASE + BLOCKED_SYSNO_SPAN
    }

    pub closed spec fn spec_len(&self) -> nat {
        self.entries@.len()
    }

    /// No blocked syscall is outstanding.
    pub fn new() -> (r: Self)
        ensures
            r.wf(),
            r@ == Map::<u64, u64>::empty(),
            r.spec_len() == 0,
    {
        BlockCalls { entries: Vec::new() }
    }

    pub fn len(&self) -> (r: usize)
        ensures
            r == self.spec_len(),
    {
        self.entries.len()
    }

    /// The map is empty exactly when no entry is outstanding.
    pub fn is_empty(&self) -> (r: bool)
        requires
            self.wf(),
        ensures
            r <==> self@ == Map::<u64, u64>::empty(),
            r <==> self.spec_len() == 0,
    {
        proof {
            lemma_map_of_len(self.entries@);
            if self.entries@.len() == 0 {
                assert(self@ =~= Map::<u64, u64>::empty());
            } else {
                assert(self@.len() != 0);
            }
        }
        self.entries.len() == 0
    }

    /// Whether `no` is an outstanding fabricated number.
    pub fn contains(&self, no: u64) -> (r: bool)
        ensures
            r == self@.contains_key(no),
    {
        let mut i: usize = 0;
        while i < self.entries.len()
            invariant
                i <= self.entries@.len(),
                forall|j: int| 0 <= j < i ==> (#[trigger] self.entries@[j]).0 != no,
            decreases self.entries@.len() - i,
        {
            if self.entries[i].0 == no {
                proof {
                    lemma_map_of_contains(self.entries@, no);
                }
                return true;
            }
            i = i + 1;
        }
        proof {
            lemma_map_of_contains(self.entries@, no);
        }
        false
    }

    /// Remember the return value to substitute when the fabricated number
    /// `no` reaches its exit stop.
    pub fn insert(&mut self, no: u64, ret: u64)
        requires
            old(self).wf(),
            !old(self)@.contains_key(no),
            BLOCKED_SYSNO_BASE <= no < BLOCKED_SYSNO_BASE + BLOCKED_SYSNO_SPAN,
        ensures
            final(self).wf(),
            final(self)@ == old(self)@.insert(no, ret),
            final(self).spec_len() == old(self).spec_len() + 1,
    {
        proof {
            lemma_map_of_contains(self.entries@, no);
        }
        let ghost s0 = self.entries@;
        self.entries.push((no, ret));
        proof {
            assert(self.entries@.drop_last() =~= s0);
            assert(self.entries@.last() == (no, ret));
        }
    }

    /// Take the return value remembered for `no` out of the map, if `no` is
    /// outstanding; the entry lives for exactly one entry-to-exit cycle.
    pub fn remove(&mut self, no: u64) -> (r: Option<u64>)
        requires
            old(self).wf(),
        ensures
            final(self).wf(),
            match r {
                Some(v) => old(self)@.contains_key(no) && v == old(self)@[no] && final(self)@
                    == old(self)@.remove(no) && final(self).spec_len() + 1 == old(
                    self,
                ).spec_len(),
                None => !old(self)@.contains_key(no) && final(self)@ == old(self)@
                    && final(self).spec_len() == old(self).spec_len(),
            },
    {
        let mut i: usize = 0;
        while i < self.entries.len()
            invariant
                i <= self.entries@.len(),
                self == old(self),
                old(self).wf(),
                forall|j: int| 0 <= j < i ==> (#[trigger] self.entries@[j]).0 != no,
            decreases self.entries@.len() - i,
        {
            if self.entries[i].0 == no {
                proof {
                    lemma_map_of_get(self.entries@, i as int);
                    lemma_map_of_remove(self.entries@, i as int);
                    self.entries@.remove_ensures(i as int);
                }
                let ghost s0 = self.entries@;
                let v = self.entries.remove(i).1;
                proof {
                    assert forall|p: int, q: int| 0 <= p < q < self.entries@.len() implies (
                    #[trigger] self.entries@[p]).0 != (#[trigger] self.entries@[q]).0 by {
                        let p0: int = if p < i {
                            p
                        } else {
                            p + 1
                        };
                        let q0: int = if q < i {
                            q
                        } else {
                            q + 1
                        };
                        assert(self.entries@[p] == s0[p0] && self.entries@[q] == s0[q0]);
                    }
                    assert forall|p: int|
                        0 <= p < self.entries@.len() implies BLOCKED_SYSNO_BASE <= (
                    #[trigger] self.entries@[p]).0 < BLOCKED_SYSNO_BASE + BLOCKED_SYSNO_SPAN by {
                        let p0: int = if p < i {
                            p
                        } else {
                            p + 1
                        };
                        assert(self.entries@[p] == s0[p0]);
                    }
                }
                return Some(v);
            }
            i = i + 1;
        }
        proof {
            lemma_map_of_contains(self.entries@, no);
        }
        None
    }

    /// A fabricated syscall number that collides with no outstanding one:
    /// probing starts at a random point so fabricated numbers are spread over
    /// the whole span, and walks on until a free number is found. Fewer
    /// outstanding entries than the span guarantees one exists.
    pub fn fresh_sysno(&self, seed: u16) -> (r: u64)
        requires
            self.wf(),
            self.spec_len() < BLOCKED_SYSNO_SPAN,
        ensures
            BLOCKED_SYSNO_BASE <= r < BLOCKED_SYSNO_BASE + BLOCKED_SYSNO_SPAN,
            !self@.contains_key(r),
    {
        let mut j: u64 = 0;
        while j < BLOCKED_SYSNO_SPAN
            invariant
                self.wf(),
                self.spec_len() < BLOCKED_SYSNO_SPAN,
                j <= BLOCKED_SYSNO_SPAN,
                forall|jj: int| 0 <= jj < j ==> self@.contains_key(#[trigger] probe_candidate(seed, jj)),
            decreases BLOCKED_SYSNO_SPAN - j,
        {
            let s = seed as u64;
            let c: u64 = if s + j < BLOCKED_SYSNO_SPAN {
                BLOCKED_SYSNO_BASE + s + j
            } else {
                BLOCKED_SYSNO_BASE + s + j - BLOCKED_SYSNO_SPAN
            };
            assert(c == probe_candidate(seed, j as int));
            if !self.contains(c) {
                return c;
            }
            j = j + 1;
        }
        proof {
            assert forall|x: u64|
                BLOCKED_SYSNO_BASE <= x < BLOCKED_SYSNO_BASE + BLOCKED_SYSNO_SPAN implies #[trigger] covers_key(
                self.entries@,
                x,
            ) by {
                let d = x - BLOCKED_SYSNO_BASE;
                let jj: int = if d >= seed {
                    d - seed
                } else {
                    d + BLOCKED_SYSNO_SPAN - seed
                };
                assert(0 <= jj < BLOCKED_SYSNO_SPAN);
                assert(probe_candidate(seed, jj) == x);
                assert(self@.contains_key(x));
                lemma_map_of_contains(self.entries@, x);
            }
            lemma_covering_entries_count(self.entries@, BLOCKED_SYSNO_SPAN as int);
            lemma_map_of_len(self.entries@);
            assert(false);
        }
        BLOCKED_SYSNO_BASE
    }
}

/// One-shot blocked entries: inserting a fresh fabricated number and
/// consuming it at the matching exit stop yields exactly the remembered
/// return value and puts the map back to what it was; the entry lives for
/// one entry-to-exit cycle and no longer.
pub proof fn lemma_blocked_one_shot(m: Map<u64, u64>, no: u64, ret: u64)
    requires
        !m.contains_key(no),
    ensures
        m.insert(no, ret).contains_key(no),
        m.insert(no, ret)[no] == ret,
        m.insert(no, ret).remove(no) == m,
{
    assert(m.insert(no, ret).remove(no) =~= m);
}

/// The blocked-call map after a sequence of blocked entry/exit cycles, each
/// inserting its fabricated number at entry and consuming it at exit.
pub open spec fn map_after_blocked_cycles(m: Map<u64, u64>, cycles: Seq<(u64, u64)>) -> Map<
    u64,
    u64,
>
    decreases cycles.len(),
{
    if cycles.len() == 0 {
        m
    } else {
        map_after_blocked_cycles(
            m.insert(cycles.first().0, cycles.first().1).remove(cycles.first().0),
            cycles.drop_first(),
        )
    }
}

/// Over a complete trace the blocked-call map begins and ends empty: any
/// sequence of completed blocked entry/exit cycles leaves an empty map
/// empty.
pub proof fn lemma_trace_map_empty(cycles: Seq<(u64, u64)>)
    ensures
        map_after_blocked_cycles(Map::<u64, u64>::empty(), cycles) == Map::<u64, u64>::empty(),
    decreases cycles.len(),
{
    if cycles.len() > 0 {
        let m2 = Map::<u64, u64>::empty().insert(cycles.first().0, cycles.first().1).remove(
            cycles.first().0,
        );
        assert(m2 =~= Map::<u64, u64>::empty());
        lemma_trace_map_empty(cycles.drop_first());
    }
}

/// Handle a syscall-entry stop whose pre-hook blocked the call: rewrite the
/// syscall number register to a fresh fabricated number — one that collides
/// with no outstanding blocked call — and remember the return value to
/// substitute at the matching exit stop. The result register and all
/// argument registers stay untouched; the kernel's error result will be
/// overwritten at exit.
pub fn handle_enter_blocked(
    calls: &mut BlockCalls,
    regs: &mut Registers,
    ret: u64,
    seed: u16,
)
    requires
        old(calls).wf(),
        old(calls).spec_len() < BLOCKED_SYSNO_SPAN,
    ensures
        final(calls).wf(),
        BLOCKED_SYSNO_BASE <= final(regs).orig_rax < BLOCKED_SYSNO_BASE + BLOCKED_SYSNO_SPAN,
        !old(calls)@.contains_key(final(regs).orig_rax),
        final(calls)@ == old(calls)@.insert(final(regs).orig_rax, ret),
        *final(regs) == (Registers { orig_rax: final(regs).orig_rax, ..*old(regs) }),
{
    let no = calls.fresh_sysno(seed);
    calls.insert(no, ret);
    regs.orig_rax = no;
}

/// Handle a syscall-exit stop: if the syscall number register holds an
/// outstanding fabricated number, substitute the remembered return value
/// into the result register and drop the entry; otherwise change nothing.
/// Returns whether the stop belonged to a blocked call.
pub fn handle_exit_blocked(calls: &mut BlockCalls, regs: &mut Registers) -> (blocked: bool)
    requires
        old(calls).wf(),
    ensures
        final(calls).wf(),
        blocked == old(calls)@.contains_key(old(regs).orig_rax),
        blocked ==> final(calls)@ == old(calls)@.remove(old(regs).orig_rax) && *final(regs)
            == (Registers { rax: old(calls)@[old(regs).orig_rax], ..*old(regs) }),
        !blocked ==> final(calls)@ == old(calls)@ && *final(regs) == *old(regs),
{
    match calls.remove(regs.orig_rax) {
        Some(ret) => {
            regs.rax = ret;
            true
        },
        None => false,
    }
}

} // verus!

verus! {

/// The registration table is scanned in order and the first descriptor whose
/// name matches the stopped syscall's name wins; none may match.
pub fn find_syscall(names: &Vec<Vec<u8>>, name: &Vec<u8>) -> (r: Option<usize>)
    ensures
        match r {
            Some(i) => i < names@.len() && names@[i as int]@ == name@ && forall|j: int|
                0 <= j < i ==> names@[j]@ != name@,
            None => forall|j: int| 0 <= j < names@.len() ==> names@[j]@ != name@,
        },
{
    let mut i: usize = 0;
    while i < names.len()
        invariant
            0 <= i <= names@.len(),
            forall|j: int| 0 <= j < i ==> names@[j]@ != name@,
        decreases names@.len() - i,
    {
        if crate::ptr::bytes_eq(&names[i], name) {
            return Some(i);
        }
        i = i + 1;
    }
    None
}

} // verus!
