//! Reading and writing the tracee's memory, and the writeback of mutated
//! string arguments.
//!
//! The only trusted pieces are the two thin wrappers over the trace facility;
//! everything that decides what to read, what a read outcome contributes to a
//! mirror, what to write and where is verified against their contracts. What
//! a read returns depends on the tracee, so each reading function also
//! returns the outcomes of its trusted reads as a ghost sequence and proves
//! its mirror equal to what those outcomes determine.
use vstd::prelude::*;

verus! {

use crate::ptr::{MayBePtr, concat_of, first_nul_at, lemma_concat_take_step, lemma_first_nul_at};
use crate::remote_mem::{RemoteMem, landing_offset, next_offset};

/// Errors the tracer treats as fatal: the kernel interaction failed or a
/// hook broke the marshalling contract.
#[derive(Clone, Copy, Debug, PartialEq, Eq, Structural)]
pub enum TraceError {
    /// A write into the tracee's memory failed or stored fewer bytes than it
    /// was given.
    MemoryWrite,
    /// A hook replaced the outer pointer of a pointer-array argument, which
    /// the flat-buffer form cannot express.
    PointerRelocation,
    /// A replacement string does not fit the remote memory block.
    AllocTooLarge,
}

#[verifier::external_type_specification]
#[verifier::external_body]
pub struct ExTracee(pete::Tracee);

/// Relies on pete::Tracee::read_memory_mut: it fills a prefix of the buffer
/// with bytes of the tracee's memory at `addr` and returns how many bytes it
/// read, never more than the buffer holds. A failed read is treated as
/// reading nothing.
#[verifier::external_body]
fn read_mem_chunk(tracee: &pete::Tracee, addr: u64, buf: &mut Vec<u8>) -> (n: usize)
    ensures
        n <= final(buf)@.len(),
        final(buf)@.len() == old(buf)@.len(),
{
    tracee.read_memory_mut(addr, buf.as_mut_slice()).unwrap_or(0)
}

/// Relies on pete::Tracee::write_memory: it stores the given bytes into the
/// tracee's memory at `addr` and returns how many it wrote, never more than
/// were given; a failure comes back as an error.
#[verifier::external_body]
fn write_mem(tracee: &mut pete::Tracee, addr: u64, data: &Vec<u8>) -> (r: Result<
    usize,
    TraceError,
>)
    ensures
        r matches Ok(n) ==> n <= data@.len(),
{
    match tracee.write_memory(addr, data.as_slice()) {
        Ok(n) => Ok(n),
        Err(_) => Err(TraceError::MemoryWrite),
    }
}

/// Store `data` whole in the tracee at `addr`. These writes must succeed for
/// the interception to be sound, so a short write — fewer bytes stored than
/// given — is a failure like any other.
fn write_all(tracee: &mut pete::Tracee, addr: u64, data: &Vec<u8>) -> (r: Result<(), TraceError>)
    ensures
        r == Ok::<(), TraceError>(()) || r == Err::<(), TraceError>(TraceError::MemoryWrite),
{
    match write_mem(tracee, addr, data) {
        Ok(n) => {
            if n == data.len() {
                Ok(())
            } else {
                Err(TraceError::MemoryWrite)
            }
        },
        Err(_) => Err(TraceError::MemoryWrite),
    }
}

/// The value eight little-endian bytes denote.
pub open spec fn le_bytes_to_u64(s: Seq<u8>) -> int
    recommends
        s.len() == 8,
{
    s[0] + s[1] * 0x100 + s[2] * 0x1_0000 + s[3] * 0x100_0000 + s[4] * 0x1_0000_0000 + s[5]
        * 0x100_0000_0000 + s[6] * 0x1_0000_0000_0000 + s[7] * 0x100_0000_0000_0000
}

/// Read a machine word from eight little-endian bytes, as the discovery file
/// and the tracee's pointer arrays store addresses.
pub fn u64_from_le8(b: &Vec<u8>) -> (r: u64)
    requires
        b@.len() == 8,
    ensures
        r == le_bytes_to_u64(b@),
{
    (b[0] as u64) + (b[1] as u64) * 0x100 + (b[2] as u64) * 0x1_0000 + (b[3] as u64) * 0x100_0000
        + (b[4] as u64) * 0x1_0000_0000 + (b[5] as u64) * 0x100_0000_0000 + (b[6] as u64)
        * 0x1_0000_0000_0000 + (b[7] as u64) * 0x100_0000_0000_0000
}

/// An eight-byte scratch buffer for word-sized reads of tracee memory.
fn word_buf() -> (r: Vec<u8>)
    ensures
        r@.len() == 8,
{
    let mut b: Vec<u8> = Vec::new();
    b.push(0);
    b.push(0);
    b.push(0);
    b.push(0);
    b.push(0);
    b.push(0);
    b.push(0);
    b.push(0);
    b
}

/// Append all bytes of `src` to `dst`.
fn append_bytes(dst: &mut Vec<u8>, src: &Vec<u8>)
    ensures
        final(dst)@ == old(dst)@ + src@,
{
    let mut i: usize = 0;
    while i < src.len()
        invariant
            0 <= i <= src@.len(),
            dst@ == old(dst)@ + src@.take(i as int),
        decreases src@.len() - i,
    {
        let c = src[i];
        dst.push(c);
        proof {
            assert(dst@ =~= old(dst)@ + src@.take(i + 1));
        }
        i = i + 1;
    }
    proof {
        assert(src@.take(src@.len() as int) =~= src@);
        assert(final(dst)@ =~= old(dst)@ + src@);
    }
}

/// The string mirror a sequence of chunk-read outcomes determines: a chunk
/// without a NUL is taken whole and the walk goes on; the first chunk holding
/// a NUL contributes its prefix through that NUL and ends the string; an
/// empty outcome — a failed read — ends it with nothing more (the silent
/// truncation).
pub open spec fn mirror_of_chunks(chunks: Seq<Seq<u8>>) -> Seq<u8>
    decreases chunks.len(),
{
    if chunks.len() == 0 {
        Seq::empty()
    } else {
        let c = chunks.first();
        let m = first_nul_at(c, 0);
        if c.len() == 0 {
            Seq::empty()
        } else if 0 <= m < c.len() {
            c.take(m + 1)
        } else {
            c + mirror_of_chunks(chunks.drop_first())
        }
    }
}

/// NUL-free outcomes only accumulate: the mirror of the whole outcome
/// sequence is their concatenation followed by whatever the remaining
/// outcomes determine.
pub proof fn lemma_mirror_prefix(chunks: Seq<Seq<u8>>, k: int)
    requires
        0 <= k <= chunks.len(),
        forall|i: int|
            0 <= i < k ==> (#[trigger] chunks[i]).len() > 0 && first_nul_at(chunks[i], 0)
                == chunks[i].len(),
    ensures
        mirror_of_chunks(chunks) == concat_of(chunks.take(k)) + mirror_of_chunks(chunks.skip(k)),
    decreases k,
{
    if k == 0 {
        assert(chunks.take(0) =~= Seq::<Seq<u8>>::empty());
        assert(chunks.skip(0) =~= chunks);
        assert(concat_of(Seq::<Seq<u8>>::empty()) + mirror_of_chunks(chunks) =~= mirror_of_chunks(
            chunks,
        ));
    } else {
        let c = chunks.first();
        assert(forall|i: int|
            0 <= i < chunks.drop_first().len() ==> chunks.drop_first()[i] == chunks[i + 1]);
        lemma_mirror_prefix(chunks.drop_first(), k - 1);
        assert(chunks.take(k).first() == c);
        assert(chunks.take(k).drop_first() =~= chunks.drop_first().take(k - 1));
        assert(chunks.skip(k) =~= chunks.drop_first().skip(k - 1));
        assert(concat_of(chunks.take(k)) == c + concat_of(chunks.drop_first().take(k - 1)));
        assert(mirror_of_chunks(chunks) == c + mirror_of_chunks(chunks.drop_first()));
        assert(mirror_of_chunks(chunks) =~= concat_of(chunks.take(k)) + mirror_of_chunks(
            chunks.skip(k),
        ));
    }
}

/// One word-sized step of a NUL-terminated string read: of the `n` bytes the
/// chunk read produced, append exactly those up to and including the first
/// NUL; finding one ends the walk.
pub fn scan_chunk(data: &mut Vec<u8>, buf: &Vec<u8>, n: usize) -> (done: bool)
    requires
        n <= buf@.len(),
    ensures
        ({
            let c = buf@.take(n as int);
            let m = first_nul_at(c, 0);
            if 0 <= m < c.len() {
                done && final(data)@ == old(data)@ + c.take(m + 1)
            } else {
                !done && final(data)@ == old(data)@ + c
            }
        }),
{
    let ghost c = buf@.take(n as int);
    proof {
        lemma_first_nul_at(c, 0);
    }
    let mut k: usize = 0;
    while k < n && buf[k] != 0
        invariant
            0 <= k <= n <= buf@.len(),
            c == buf@.take(n as int),
            first_nul_at(c, 0) == first_nul_at(c, k as int),
            forall|j: int| 0 <= j < k ==> buf@[j] != 0,
        decreases n - k,
    {
        proof {
            assert(c[k as int] == buf@[k as int]);
        }
        k = k + 1;
    }
    let found = k < n;
    proof {
        if found {
            assert(c[k as int] == buf@[k as int] && c[k as int] == 0);
            assert(first_nul_at(c, 0) == k);
        } else {
            assert(first_nul_at(c, 0) == c.len());
        }
    }
    let limit = if found {
        k + 1
    } else {
        k
    };
    let mut p: usize = 0;
    while p < limit
        invariant
            0 <= p <= limit <= n <= buf@.len(),
            c == buf@.take(n as int),
            data@ == old(data)@ + c.take(p as int),
        decreases limit - p,
    {
        let b = buf[p];
        data.push(b);
        proof {
            assert(c[p as int] == buf@[p as int]);
            assert(data@ =~= old(data)@ + c.take(p + 1));
        }
        p = p + 1;
    }
    found
}

/// Read the NUL-terminated string at tracee address `addr`, word-sized chunk
/// by chunk, NUL included. Address 0 reads nothing; a read that fails partway
/// truncates silently, so the mirror may lack its NUL. The mirror equals what
/// the returned chunk outcomes determine: every outcome but the last was a
/// nonempty NUL-free chunk taken whole, and the last one ended the walk.
pub fn read_bytes_with_nul(tracee: &pete::Tracee, addr: u64) -> (r: (Vec<u8>, Ghost<
    Seq<Seq<u8>>,
>))
    ensures
        addr == 0 ==> r.0@.len() == 0,
        r.0@ == mirror_of_chunks(r.1@),
        forall|i: int| 0 <= i < r.1@.len() ==> (#[trigger] r.1@[i]).len() <= 8,
        forall|i: int|
            0 <= i < r.1@.len() - 1 ==> (#[trigger] r.1@[i]).len() > 0 && first_nul_at(
                r.1@[i],
                0,
            ) == r.1@[i].len(),
        forall|i: int| 0 <= i < r.0@.len() - 1 ==> r.0@[i] != 0,
{
    let mut data: Vec<u8> = Vec::new();
    let ghost mut chunks: Seq<Seq<u8>> = Seq::empty();
    if addr == 0 {
        return (data, Ghost(chunks));
    }
    let mut offset: u64 = 0;
    loop
        invariant_except_break
            data@ == concat_of(chunks),
            forall|i: int|
                0 <= i < chunks.len() ==> 0 < (#[trigger] chunks[i]).len() <= 8 && first_nul_at(
                    chunks[i],
                    0,
                ) == chunks[i].len(),
            forall|i: int| 0 <= i < data@.len() ==> data@[i] != 0,
        ensures
            data@ == mirror_of_chunks(chunks),
            forall|i: int| 0 <= i < chunks.len() ==> (#[trigger] chunks[i]).len() <= 8,
            forall|i: int|
                0 <= i < chunks.len() - 1 ==> (#[trigger] chunks[i]).len() > 0 && first_nul_at(
                    chunks[i],
                    0,
                ) == chunks[i].len(),
            forall|i: int| 0 <= i < data@.len() - 1 ==> data@[i] != 0,
        decreases u64::MAX - offset,
    {
        if offset > u64::MAX - 8 || addr > u64::MAX - offset {
            proof {
                lemma_mirror_prefix(chunks, chunks.len() as int);
                assert(chunks.take(chunks.len() as int) =~= chunks);
                assert(chunks.skip(chunks.len() as int) =~= Seq::<Seq<u8>>::empty());
                assert(data@ =~= mirror_of_chunks(chunks));
            }
            break;
        }
        let mut buf = word_buf();
        let n = read_mem_chunk(tracee, addr + offset, &mut buf);
        let ghost c = buf@.take(n as int);
        if n == 0 {
            proof {
                let before = chunks;
                chunks = chunks.push(c);
                assert(c =~= Seq::<u8>::empty());
                lemma_mirror_prefix(chunks, chunks.len() - 1);
                assert(chunks.take(chunks.len() - 1) =~= before);
                assert(chunks.skip(chunks.len() - 1) =~= seq![c]);
                assert(mirror_of_chunks(seq![c]) =~= Seq::<u8>::empty());
                assert(data@ =~= mirror_of_chunks(chunks));
            }
            break;
        }
        let ghost data_before = data@;
        let done = scan_chunk(&mut data, &buf, n);
        proof {
            let before = chunks;
            chunks = chunks.push(c);
            assert(chunks.take(chunks.len() - 1) =~= before);
            assert(chunks.skip(chunks.len() - 1) =~= seq![c]);
        }
        if done {
            proof {
                lemma_mirror_prefix(chunks, chunks.len() - 1);
                let m = first_nul_at(c, 0);
                lemma_first_nul_at(c, 0);
                assert(mirror_of_chunks(seq![c]) == c.take(m + 1));
                assert(data@ =~= mirror_of_chunks(chunks));
            }
            break;
        }
        proof {
            lemma_concat_take_step(chunks, chunks.len() - 1);
            assert(chunks.take(chunks.len() as int) =~= chunks);
            assert(chunks[chunks.len() - 1] =~= c);
            assert(data@ =~= concat_of(chunks));
            lemma_first_nul_at(c, 0);
        }
        offset = offset + 8;
    }
    (data, Ghost(chunks))
}

/// The flat buffer a sequence of per-element string reads determines: each
/// nonempty string joins the buffer as read, NUL and all; the first empty
/// outcome — the array's NULL element, an unreadable element, or the walk's
/// end — closes the buffer with the single terminating NUL.
pub open spec fn flat_of_strings(strs: Seq<Seq<u8>>) -> Seq<u8>
    decreases strs.len(),
{
    if strs.len() == 0 || strs.first().len() == 0 {
        seq![0u8]
    } else {
        strs.first() + flat_of_strings(strs.drop_first())
    }
}

/// Nonempty strings only accumulate: the flat buffer of the whole outcome
/// sequence is their concatenation followed by whatever the remaining
/// outcomes determine.
pub proof fn lemma_flat_prefix(strs: Seq<Seq<u8>>, k: int)
    requires
        0 <= k <= strs.len(),
        forall|i: int| 0 <= i < k ==> (#[trigger] strs[i]).len() > 0,
    ensures
        flat_of_strings(strs) == concat_of(strs.take(k)) + flat_of_strings(strs.skip(k)),
    decreases k,
{
    if k == 0 {
        assert(strs.take(0) =~= Seq::<Seq<u8>>::empty());
        assert(strs.skip(0) =~= strs);
        assert(concat_of(Seq::<Seq<u8>>::empty()) + flat_of_strings(strs) =~= flat_of_strings(
            strs,
        ));
    } else {
        let c = strs.first();
        assert(forall|i: int|
            0 <= i < strs.drop_first().len() ==> strs.drop_first()[i] == strs[i + 1]);
        lemma_flat_prefix(strs.drop_first(), k - 1);
        assert(strs.take(k).first() == c);
        assert(strs.take(k).drop_first() =~= strs.drop_first().take(k - 1));
        assert(strs.skip(k) =~= strs.drop_first().skip(k - 1));
        assert(concat_of(strs.take(k)) == c + concat_of(strs.drop_first().take(k - 1)));
        assert(flat_of_strings(strs) == c + flat_of_strings(strs.drop_first()));
        assert(flat_of_strings(strs) =~= concat_of(strs.take(k)) + flat_of_strings(strs.skip(k)));
    }
}

/// Whatever the outcomes, the flat buffer is nonempty and NUL-terminated.
pub proof fn lemma_flat_shape(strs: Seq<Seq<u8>>)
    ensures
        flat_of_strings(strs).len() > 0,
        flat_of_strings(strs).last() == 0,
    decreases strs.len(),
{
    if strs.len() > 0 && strs.first().len() > 0 {
        lemma_flat_shape(strs.drop_first());
    }
}

/// One element step of the argv flattening: a nonempty string joins the flat
/// buffer and the walk goes on; an empty outcome closes the buffer with the
/// terminating NUL.
pub fn append_string_mirror(inner: &mut Vec<u8>, pdata: &Vec<u8>) -> (done: bool)
    ensures
        pdata@.len() == 0 ==> done && final(inner)@ == old(inner)@.push(0),
        pdata@.len() > 0 ==> !done && final(inner)@ == old(inner)@ + pdata@,
{
    if pdata.len() == 0 {
        inner.push(0);
        true
    } else {
        append_bytes(inner, pdata);
        false
    }
}

/// Materialise a `char *const []` argument: walk the NULL-terminated array
/// of remote string pointers at `addr` and flatten the strings it points to,
/// each with its NUL, into one local buffer ending with one extra NUL. The
/// buffer equals what the returned per-element string outcomes determine;
/// every outcome but the last is nonempty.
pub fn read_c_str_array(tracee: &pete::Tracee, addr: u64) -> (r: (MayBePtr<Vec<u8>>, Ghost<
    Seq<Seq<u8>>,
>))
    ensures
        r.0.origin == addr,
        r.0.inner@ == flat_of_strings(r.1@),
        forall|i: int| 0 <= i < r.1@.len() - 1 ==> (#[trigger] r.1@[i]).len() > 0,
        r.0.inner@.len() > 0,
        r.0.inner@.last() == 0,
{
    let mut inner: Vec<u8> = Vec::new();
    let ghost mut strs: Seq<Seq<u8>> = Seq::empty();
    let mut offset: u64 = 0;
    loop
        invariant_except_break
            inner@ == concat_of(strs),
            forall|i: int| 0 <= i < strs.len() ==> (#[trigger] strs[i]).len() > 0,
        ensures
            inner@ == flat_of_strings(strs),
            forall|i: int| 0 <= i < strs.len() - 1 ==> (#[trigger] strs[i]).len() > 0,
        decreases u64::MAX - offset,
    {
        if offset > u64::MAX - 8 || addr > u64::MAX - offset {
            inner.push(0);
            proof {
                let before = strs;
                strs = strs.push(Seq::<u8>::empty());
                lemma_flat_prefix(strs, strs.len() - 1);
                assert(strs.take(strs.len() - 1) =~= before);
                assert(strs.skip(strs.len() - 1) =~= seq![Seq::<u8>::empty()]);
                assert(flat_of_strings(seq![Seq::<u8>::empty()]) =~= seq![0u8]);
                assert(inner@ =~= flat_of_strings(strs));
            }
            break;
        }
        let mut buf = word_buf();
        let n = read_mem_chunk(tracee, addr + offset, &mut buf);
        offset = offset + 8;
        let elem = if n == 8 {
            u64_from_le8(&buf)
        } else {
            0
        };
        let pdata = read_bytes_with_nul(tracee, elem).0;
        let ghost inner_before = inner@;
        let done = append_string_mirror(&mut inner, &pdata);
        proof {
            let before = strs;
            strs = strs.push(pdata@);
            assert(strs.take(strs.len() - 1) =~= before);
            assert(strs.skip(strs.len() - 1) =~= seq![pdata@]);
        }
        if done {
            proof {
                lemma_flat_prefix(strs, strs.len() - 1);
                assert(flat_of_strings(seq![pdata@]) =~= seq![0u8]);
                assert(inner@ =~= flat_of_strings(strs));
            }
            break;
        }
        proof {
            lemma_concat_take_step(strs, strs.len() - 1);
            assert(strs.take(strs.len() as int) =~= strs);
            assert(inner@ =~= concat_of(strs));
        }
    }
    proof {
        lemma_flat_shape(strs);
    }
    (MayBePtr { inner, origin: addr }, Ghost(strs))
}

/// How a hook handed a string argument back: the very buffer it received
/// (whose content it may have changed in place), or a fresh allocation.
pub enum CStrUpdate {
    InPlace(Vec<u8>),
    Replaced(Vec<u8>),
}

/// The bytes an in-place writeback stores at the original address: the
/// returned buffer, truncated to the original mirror's length when it grew —
/// growing without replacing the pointer is documented to truncate.
pub open spec fn in_place_bytes(orig: Seq<u8>, v: Seq<u8>) -> Seq<u8> {
    if v.len() <= orig.len() {
        v
    } else {
        v.take(orig.len() as int)
    }
}

/// Idempotence of in-place writeback: a pre-hook that hands back the very
/// bytes it received writes the mirror back unchanged, byte for byte, at the
/// original address.
pub proof fn lemma_in_place_identity(orig: Seq<u8>)
    ensures
        in_place_bytes(orig, orig) == orig,
{
}

/// The bytes an in-place writeback will store for the returned buffer `v`,
/// given the original mirror.
pub fn in_place_write_bytes(orig: &Vec<u8>, v: &Vec<u8>) -> (r: Vec<u8>)
    ensures
        r@ == in_place_bytes(orig@, v@),
{
    let mut r: Vec<u8> = Vec::new();
    let limit = if v.len() <= orig.len() {
        v.len()
    } else {
        orig.len()
    };
    let mut i: usize = 0;
    while i < limit
        invariant
            0 <= i <= limit <= v@.len(),
            r@ == v@.take(i as int),
        decreases limit - i,
    {
        let c = v[i];
        r.push(c);
        proof {
            assert(r@ =~= v@.take(i + 1));
        }
        i = i + 1;
    }
    proof {
        assert(r@ =~= in_place_bytes(orig@, v@));
    }
    r
}

/// Write back a C-string argument after the pre-hook ran.
///
/// No returned value leaves the register alone. A buffer handed back in
/// place is written to the original tracee address, truncated to the
/// mirror's length if it grew, and the register keeps the original address.
/// A replacement string goes through the remote allocator: it is copied to
/// freshly allocated tracee memory, whole inside the remote block, and the
/// register takes that address; one larger than the whole block is fatal.
pub fn write_c_str(
    tracee: &mut pete::Tracee,
    mem: &mut RemoteMem,
    mbp: &MayBePtr<Vec<u8>>,
    v: Option<CStrUpdate>,
) -> (r: Result<Option<u64>, TraceError>)
    requires
        old(mem).wf(),
    ensures
        final(mem).wf(),
        final(mem).spec_base() == old(mem).spec_base(),
        final(mem).spec_max() == old(mem).spec_max(),
        (v is None) ==> (r == Ok::<Option<u64>, TraceError>(None)
            && final(mem).spec_offset() == old(mem).spec_offset()),
        (v matches Some(CStrUpdate::InPlace(_))) ==> (final(mem).spec_offset()
            == old(mem).spec_offset()
            && (r == Ok::<Option<u64>, TraceError>(Some(mbp.origin))
            || r == Err::<Option<u64>, TraceError>(TraceError::MemoryWrite))),
        v matches Some(CStrUpdate::Replaced(w)) ==> ((w@.len() > old(mem).spec_max() ==> r
            == Err::<Option<u64>, TraceError>(TraceError::AllocTooLarge)
            && final(mem).spec_offset() == old(mem).spec_offset()) && (w@.len() <= old(
            mem,
        ).spec_max() ==> final(mem).spec_offset() == next_offset(
            old(mem).spec_offset(),
            w@.len() as u64,
            old(mem).spec_max(),
        ) && (r == Ok::<Option<u64>, TraceError>(
            Some(
                (old(mem).spec_base() + landing_offset(
                    old(mem).spec_offset(),
                    w@.len() as u64,
                    old(mem).spec_max(),
                )) as u64,
            ),
        ) || r == Err::<Option<u64>, TraceError>(TraceError::MemoryWrite)))),
{
    match v {
        None => Ok(None),
        Some(CStrUpdate::InPlace(w)) => {
            let bytes = in_place_write_bytes(&mbp.inner, &w);
            match write_all(tracee, mbp.origin, &bytes) {
                Ok(_) => Ok(Some(mbp.origin)),
                Err(_) => Err(TraceError::MemoryWrite),
            }
        },
        Some(CStrUpdate::Replaced(w)) => {
            let size = w.len() as u64;
            match mem.allocate(size) {
                None => Err(TraceError::AllocTooLarge),
                Some(remote_addr) => {
                    match write_all(tracee, remote_addr, &w) {
                        Ok(_) => Ok(Some(remote_addr)),
                        Err(_) => Err(TraceError::MemoryWrite),
                    }
                },
            }
        },
    }
}

/// The offset chain a run of flat-buffer chunk writes follows: pair `k`
/// holds the nonzero array-element address it wrote to and the offset its
/// chunk begins at — 0 for the first, one past the previous chunk's NUL for
/// each later one. The bytes written for pair `k` are the slice of `w` from
/// that offset through its first NUL.
pub open spec fn chunk_writes_chained(ws: Seq<(u64, int)>, w: Seq<u8>) -> bool {
    forall|k: int|
        0 <= k < ws.len() ==> (#[trigger] ws[k]).0 != 0 && 0 <= ws[k].1 <= w.len()
            && first_nul_at(w, ws[k].1) < w.len() && ws[k].1 == (if k == 0 {
            0int
        } else {
            first_nul_at(w, ws[k - 1].1) + 1
        })
}

/// Walk the NULL-terminated pointer array at `origin` and store the next
/// NUL-terminated slice of the flat buffer over each remote string an array
/// element points to, in order, until the array or the buffer runs out. The
/// returned pairs say which element received which chunk: the k-th nonzero
/// element got the k-th chunk of the flat buffer.
fn write_flat_chunks(tracee: &mut pete::Tracee, origin: u64, w: Vec<u8>) -> (r: (Result<
    (),
    TraceError,
>, Ghost<Seq<(u64, int)>>))
    ensures
        r.0 == Ok::<(), TraceError>(()) || r.0 == Err::<(), TraceError>(TraceError::MemoryWrite),
        chunk_writes_chained(r.1@, w@),
{
    let flat = MayBePtr { inner: w, origin };
    let mut it = flat.iter();
    let ghost mut ws: Seq<(u64, int)> = Seq::empty();
    let mut offset: u64 = 0;
    loop
        invariant
            flat.inner@ == w@,
            it.offset <= flat.inner@.len(),
            chunk_writes_chained(ws, flat.inner@),
            it.offset as int == (if ws.len() == 0 {
                0int
            } else {
                first_nul_at(flat.inner@, ws.last().1) + 1
            }),
        decreases u64::MAX - offset,
    {
        if offset > u64::MAX - 8 || origin > u64::MAX - offset {
            break;
        }
        let mut buf = word_buf();
        let n = read_mem_chunk(tracee, origin + offset, &mut buf);
        offset = offset + 8;
        let elem = if n == 8 {
            u64_from_le8(&buf)
        } else {
            0
        };
        if elem == 0 {
            break;
        }
        let ghost start = it.offset as int;
        match it.next(&flat) {
            None => {
                break;
            },
            Some(chunk) => {
                proof {
                    let before = ws;
                    ws = ws.push((elem, start));
                    assert(forall|k: int| 0 <= k < before.len() ==> ws[k] == before[k]);
                    assert(ws.last() == (elem, start));
                    assert forall|k: int| 0 <= k < ws.len() implies ((#[trigger] ws[k]).0 != 0
                        && 0 <= ws[k].1 <= flat.inner@.len() && first_nul_at(
                        flat.inner@,
                        ws[k].1,
                    ) < flat.inner@.len() && ws[k].1 == (if k == 0 {
                        0int
                    } else {
                        first_nul_at(flat.inner@, ws[k - 1].1) + 1
                    })) by {
                        if k < ws.len() - 1 {
                            assert(chunk_writes_chained(before, flat.inner@));
                            assert(ws[k] == before[k]);
                            if k > 0 {
                                assert(ws[k - 1] == before[k - 1]);
                            }
                        } else {
                            if k > 0 {
                                assert(ws[k - 1] == before[k - 1]);
                                assert(before[k - 1] == before.last());
                            }
                        }
                    }
                    assert(chunk_writes_chained(ws, flat.inner@));
                }
                match write_all(tracee, elem, &chunk) {
                    Ok(_) => {
                    },
                    Err(_) => {
                        return (Err(TraceError::MemoryWrite), Ghost(ws));
                    },
                }
            },
        }
    }
    (Ok(()), Ghost(ws))
}

/// Write back a `char *const []` argument after the pre-hook ran.
///
/// The outer pointer cannot move: a hook that replaced it breaks the flat
/// form and that is fatal. A buffer handed back in place is split at its
/// NULs and each string is written over the remote string its original array
/// element points to, in order — the k-th nonzero element receives the k-th
/// chunk, as the returned chain records — stopping at the array's NULL
/// terminator or when the flat buffer runs out; the register keeps the
/// original address.
pub fn write_c_str_array(
    tracee: &mut pete::Tracee,
    mbp: &MayBePtr<Vec<u8>>,
    v: Option<CStrUpdate>,
) -> (r: (Result<Option<u64>, TraceError>, Ghost<Seq<(u64, int)>>))
    ensures
        v is None ==> r.0 == Ok::<Option<u64>, TraceError>(None),
        (v matches Some(CStrUpdate::Replaced(_))) ==> r.0 == Err::<Option<u64>, TraceError>(
            TraceError::PointerRelocation,
        ),
        v matches Some(CStrUpdate::InPlace(w)) ==> ((r.0 == Ok::<Option<u64>, TraceError>(
            Some(mbp.origin),
        ) || r.0 == Err::<Option<u64>, TraceError>(TraceError::MemoryWrite))
            && chunk_writes_chained(r.1@, w@)),
{
    match v {
        None => (Ok(None), Ghost(Seq::empty())),
        Some(CStrUpdate::Replaced(_)) => (Err(TraceError::PointerRelocation), Ghost(Seq::empty())),
        Some(CStrUpdate::InPlace(w)) => {
            let (res, ws) = write_flat_chunks(tracee, mbp.origin, w);
            match res {
                Ok(_) => (Ok(Some(mbp.origin)), ws),
                Err(e) => (Err(e), ws),
            }
        },
    }
}

/// Materialise a plain integer argument from its register value.
pub fn read_int(u: u64) -> (r: MayBePtr<u64>)
    ensures
        r.inner == u,
        r.origin == u,
{
    MayBePtr { inner: u, origin: u }
}

/// Write back a plain integer argument: the hook's value, if any, becomes
/// the new register value; integers live in their register, so nothing is
/// written to memory.
pub fn write_int(v: Option<u64>) -> (r: Option<u64>)
    ensures
        r == v,
{
    v
}

/// Materialise a `char *` or `const char *` argument: mirror the
/// NUL-terminated string at the address the register carries. The mirror
/// equals what the returned chunk outcomes determine.
pub fn read_c_str(tracee: &pete::Tracee, addr: u64) -> (r: (MayBePtr<Vec<u8>>, Ghost<
    Seq<Seq<u8>>,
>))
    ensures
        r.0.origin == addr,
        addr == 0 ==> r.0.inner@.len() == 0,
        r.0.inner@ == mirror_of_chunks(r.1@),
        forall|i: int| 0 <= i < r.0.inner@.len() - 1 ==> r.0.inner@[i] != 0,
{
    let (inner, chunks) = read_bytes_with_nul(tracee, addr);
    (MayBePtr { inner, origin: addr }, chunks)
}

} // verus!
