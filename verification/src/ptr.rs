//! Host-side mirrors of syscall arguments.
//!
//! A pointer-typed argument is materialised as a local byte buffer: a single
//! NUL-terminated string, or the flattened form of a NULL-terminated array of
//! C strings (each element's bytes, NUL included, concatenated, with one
//! extra NUL at the end). This module holds the mirror type, the walk over a
//! flat buffer, and the pure split/concatenate logic with its round-trip law.
use vstd::prelude::*;

verus! {

/// Host-side mirror of one syscall argument: the materialised value and the
/// tracee address it was read from (0 for plain integers).
pub struct MayBePtr<T> {
    pub inner: T,
    pub origin: u64,
}

/// A well-formed C string held locally: nonempty, NUL-terminated, with no
/// interior NUL.
pub open spec fn is_c_str(s: Seq<u8>) -> bool {
    s.len() > 0 && s.last() == 0 && forall|i: int| 0 <= i < s.len() - 1 ==> s[i] != 0
}

/// Index of the first NUL byte of `s` at or after `start`; `s.len()` if
/// there is none.
pub open spec fn first_nul_at(s: Seq<u8>, start: int) -> int
    decreases s.len() - start
        when 0 <= start <= s.len()
{
    if start >= s.len() {
        s.len() as int
    } else if s[start] == 0 {
        start
    } else {
        first_nul_at(s, start + 1)
    }
}

pub proof fn lemma_first_nul_at(s: Seq<u8>, start: int)
    requires
        0 <= start <= s.len(),
    ensures
        start <= first_nul_at(s, start) <= s.len(),
        first_nul_at(s, start) < s.len() ==> s[first_nul_at(s, start)] == 0,
        forall|j: int| start <= j < first_nul_at(s, start) ==> s[j] != 0,
    decreases s.len() - start,
{
    if start < s.len() && s[start] != 0 {
        lemma_first_nul_at(s, start + 1);
    }
}

/// Searching from position `start + k` of the whole buffer is searching from
/// position `k` of the suffix that begins at `start`.
proof fn lemma_first_nul_chop_at(s: Seq<u8>, start: int, k: int)
    requires
        0 <= start,
        0 <= k,
        start + k <= s.len(),
    ensures
        first_nul_at(s, start + k) == start + first_nul_at(
            s.subrange(start, s.len() as int),
            k,
        ),
    decreases s.len() - start - k,
{
    let rest = s.subrange(start, s.len() as int);
    if start + k == s.len() {
    } else if s[start + k] == 0 {
        assert(rest[k] == 0);
    } else {
        assert(rest[k] != 0);
        lemma_first_nul_chop_at(s, start, k + 1);
    }
}

/// `first_nul_at` looks only at the suffix: chopping the prefix off shifts
/// the found index.
pub proof fn lemma_first_nul_chop(s: Seq<u8>, start: int)
    requires
        0 <= start <= s.len(),
    ensures
        first_nul_at(s.subrange(start, s.len() as int), 0) == first_nul_at(s, start) - start,
{
    lemma_first_nul_chop_at(s, start, 0);
}

/// The NUL-terminated chunks of a flat buffer, in order, stopping at the
/// terminating empty string (a leading NUL); bytes after the last NUL, if
/// any, belong to no chunk and are dropped.
pub open spec fn chunks_of(s: Seq<u8>) -> Seq<Seq<u8>>
    decreases s.len(),
{
    if s.len() == 0 || s[0] == 0 {
        Seq::empty()
    } else {
        let n = first_nul_at(s, 0);
        if 0 <= n < s.len() {
            seq![s.subrange(0, n + 1)] + chunks_of(s.subrange(n + 1, s.len() as int))
        } else {
            Seq::empty()
        }
    }
}

/// Concatenation of byte strings, in order.
pub open spec fn concat_of(v: Seq<Seq<u8>>) -> Seq<u8>
    decreases v.len(),
{
    if v.len() == 0 {
        Seq::empty()
    } else {
        v.first() + concat_of(v.drop_first())
    }
}

/// An owned copy of a byte buffer.
pub fn clone_bytes(v: &Vec<u8>) -> (r: Vec<u8>)
    ensures
        r@ == v@,
{
    let r = v.clone();
    proof {
        assert forall|i: int| 0 <= i < r@.len() implies r@[i] == v@[i] by {
            assert(cloned::<u8>(v@[i], r@[i]));
        }
        assert(r@ =~= v@);
    }
    r
}

/// Walk over the chunks of a flat buffer held in a `MayBePtr<Vec<u8>>`: each
/// step yields the next NUL-terminated slice.
pub struct MayBePtrIter {
    pub offset: usize,
}

impl MayBePtr<Vec<u8>> {
    /// Start a walk over the buffer's NUL-terminated chunks.
    pub fn iter(&self) -> (r: MayBePtrIter)
        ensures
            r.offset == 0,
    {
        MayBePtrIter { offset: 0 }
    }

    /// The buffer a hook receives: the bytes of the local mirror.
    pub fn get_bytes(&self) -> (r: Vec<u8>)
        ensures
            r@ == self.inner@,
    {
        clone_bytes(&self.inner)
    }
}

impl MayBePtrIter {
    /// The next NUL-terminated chunk of `mbp`'s buffer at or after the
    /// current offset, NUL included; `None` once no NUL is left.
    pub fn next(&mut self, mbp: &MayBePtr<Vec<u8>>) -> (r: Option<Vec<u8>>)
        requires
            old(self).offset <= mbp.inner@.len(),
        ensures
            final(self).offset <= mbp.inner@.len(),
            ({
                let n = first_nul_at(mbp.inner@, old(self).offset as int);
                if n < mbp.inner@.len() {
                    r is Some && r.unwrap()@ == mbp.inner@.subrange(old(self).offset as int, n + 1)
                        && final(self).offset == n + 1
                } else {
                    r is None && final(self).offset == old(self).offset
                }
            }),
    {
        proof {
            lemma_first_nul_at(mbp.inner@, self.offset as int);
        }
        let ghost n = first_nul_at(mbp.inner@, old(self).offset as int);
        let mut i = self.offset;
        while i < mbp.inner.len() && mbp.inner[i] != 0
            invariant
                old(self).offset <= i <= mbp.inner@.len(),
                self == old(self),
                n == first_nul_at(mbp.inner@, i as int),
            decreases mbp.inner@.len() - i,
        {
            i = i + 1;
        }
        if i == mbp.inner.len() {
            return None;
        }
        let mut chunk: Vec<u8> = Vec::new();
        let mut j = self.offset;
        while j <= i
            invariant
                old(self).offset <= j <= i + 1,
                i < mbp.inner@.len() <= usize::MAX,
                self == old(self),
                chunk@ == mbp.inner@.subrange(old(self).offset as int, j as int),
            decreases i + 1 - j,
        {
            let b = mbp.inner[j];
            chunk.push(b);
            proof {
                assert(chunk@ =~= mbp.inner@.subrange(old(self).offset as int, j + 1));
            }
            j = j + 1;
        }
        self.offset = i + 1;
        Some(chunk)
    }
}

/// Split a flat buffer into its NUL-terminated strings, each with its NUL.
/// The walk ends at the buffer's terminating empty string, or with the last
/// complete string when no terminator follows.
pub fn split_c_strings(buf: &Vec<u8>) -> (r: Vec<Vec<u8>>)
    ensures
        r@.map_values(|c: Vec<u8>| c@) == chunks_of(buf@),
{
    let mbp = MayBePtr { inner: clone_bytes(buf), origin: 0 };
    let mut r: Vec<Vec<u8>> = Vec::new();
    let mut it = mbp.iter();
    proof {
        assert(buf@.subrange(0, buf@.len() as int) =~= buf@);
    }
    loop
        invariant
            it.offset <= buf@.len(),
            mbp.inner@ == buf@,
            r@.map_values(|c: Vec<u8>| c@) + chunks_of(
                buf@.subrange(it.offset as int, buf@.len() as int),
            ) == chunks_of(buf@),
        ensures
            r@.map_values(|c: Vec<u8>| c@) == chunks_of(buf@),
        decreases buf@.len() - it.offset,
    {
        let ghost off0 = it.offset as int;
        let ghost rest = buf@.subrange(off0, buf@.len() as int);
        if it.offset < mbp.inner.len() && mbp.inner[it.offset] == 0 {
            proof {
                assert(rest[0] == 0);
                assert(chunks_of(rest) =~= Seq::<Seq<u8>>::empty());
                assert(r@.map_values(|c: Vec<u8>| c@) =~= chunks_of(buf@));
            }
            break;
        }
        if it.offset == mbp.inner.len() {
            proof {
                assert(rest.len() == 0);
                assert(chunks_of(rest) =~= Seq::<Seq<u8>>::empty());
                assert(r@.map_values(|c: Vec<u8>| c@) =~= chunks_of(buf@));
            }
            break;
        }
        match it.next(&mbp) {
            None => {
                proof {
                    lemma_first_nul_at(buf@, off0);
                    lemma_first_nul_chop(buf@, off0);
                    assert(first_nul_at(rest, 0) == rest.len());
                    assert(chunks_of(rest) =~= Seq::<Seq<u8>>::empty());
                    assert(r@.map_values(|c: Vec<u8>| c@) =~= chunks_of(buf@));
                }
                break;
            },
            Some(chunk) => {
                proof {
                    let n = first_nul_at(buf@, off0);
                    lemma_first_nul_at(buf@, off0);
                    lemma_first_nul_chop(buf@, off0);
                    assert(rest.len() > 0 && rest[0] != 0);
                    assert(rest.subrange(0, n - off0 + 1) =~= buf@.subrange(off0, n + 1));
                    assert(rest.subrange(n - off0 + 1, rest.len() as int) =~= buf@.subrange(
                        n + 1,
                        buf@.len() as int,
                    ));
                    assert(chunks_of(rest) =~= seq![buf@.subrange(off0, n + 1)] + chunks_of(
                        buf@.subrange(n + 1, buf@.len() as int),
                    ));
                }
                let ghost r_old = r@;
                r.push(chunk);
                proof {
                    assert(r@.map_values(|c: Vec<u8>| c@) =~= r_old.map_values(|c: Vec<u8>| c@)
                        + seq![buf@.subrange(off0, first_nul_at(buf@, off0) + 1)]);
                }
            },
        }
    }
    r
}

/// Concatenate byte strings back into one flat buffer, in order.
pub fn concat_c_strings(v: &Vec<Vec<u8>>) -> (r: Vec<u8>)
    ensures
        r@ == concat_of(v@.map_values(|c: Vec<u8>| c@)),
{
    let mut r: Vec<u8> = Vec::new();
    let mut i: usize = 0;
    while i < v.len()
        invariant
            i <= v@.len(),
            r@ == concat_of(v@.map_values(|c: Vec<u8>| c@).take(i as int)),
        decreases v@.len() - i,
    {
        let ghost pieces = v@.map_values(|c: Vec<u8>| c@);
        let mut j: usize = 0;
        while j < v[i].len()
            invariant
                i < v@.len(),
                j <= v@[i as int]@.len(),
                pieces == v@.map_values(|c: Vec<u8>| c@),
                r@ == concat_of(pieces.take(i as int)) + v@[i as int]@.subrange(0, j as int),
            decreases v@[i as int]@.len() - j,
        {
            let b = v[i][j];
            r.push(b);
            proof {
                assert(r@ =~= concat_of(pieces.take(i as int)) + v@[i as int]@.subrange(
                    0,
                    j + 1,
                ));
            }
            j = j + 1;
        }
        proof {
            assert(v@[i as int]@.subrange(0, v@[i as int]@.len() as int) =~= v@[i as int]@);
            lemma_concat_take_step(pieces, i as int);
            assert(r@ =~= concat_of(pieces.take(i + 1)));
        }
        i = i + 1;
    }
    proof {
        assert(v@.map_values(|c: Vec<u8>| c@).take(v@.len() as int) =~= v@.map_values(
            |c: Vec<u8>| c@,
        ));
    }
    r
}

/// Concatenating one more piece appends its bytes.
pub proof fn lemma_concat_take_step(v: Seq<Seq<u8>>, i: int)
    requires
        0 <= i < v.len(),
    ensures
        concat_of(v.take(i + 1)) == concat_of(v.take(i)) + v[i],
    decreases i,
{
    if i == 0 {
        assert(v.take(1).drop_first() =~= Seq::<Seq<u8>>::empty());
        assert(v.take(0) =~= Seq::<Seq<u8>>::empty());
        assert(v.take(1).first() == v[0]);
        assert(concat_of(Seq::<Seq<u8>>::empty()) == Seq::<u8>::empty());
        assert(concat_of(v.take(1)) == v.take(1).first() + concat_of(v.take(1).drop_first()));
        assert(concat_of(v.take(1)) =~= v[0]);
        assert(concat_of(v.take(0)) + v[0] =~= v[0]);
    } else {
        lemma_concat_take_step(v.drop_first(), i - 1);
        assert(v.take(i + 1).drop_first() =~= v.drop_first().take(i));
        assert(v.take(i).drop_first() =~= v.drop_first().take(i - 1));
        assert(concat_of(v.take(i + 1)) =~= v[0] + concat_of(v.drop_first().take(i)));
        assert(concat_of(v.take(i)) + v[i] =~= v[0] + (concat_of(v.drop_first().take(i - 1))
            + v.drop_first()[i - 1]));
    }
}

/// In a buffer beginning with a well-formed C string, the first NUL is that
/// string's terminator.
proof fn lemma_first_nul_of_c_str_prefix(c: Seq<u8>, rest: Seq<u8>, k: int)
    requires
        is_c_str(c),
        0 <= k <= c.len() - 1,
        ensure_prefix_nonzero(c, rest, k),
    ensures
        first_nul_at(c + rest, k) == c.len() - 1,
    decreases c.len() - k,
{
    let s = c + rest;
    if k == c.len() - 1 {
        assert(s[k] == c[k] && c[k] == 0);
    } else {
        assert(s[k] == c[k] && c[k] != 0);
        lemma_first_nul_of_c_str_prefix(c, rest, k + 1);
    }
}

/// Helper premise for the induction above: positions before `k` hold no NUL.
spec fn ensure_prefix_nonzero(c: Seq<u8>, rest: Seq<u8>, k: int) -> bool {
    forall|j: int| 0 <= j < k ==> (c + rest)[j] != 0
}

/// Round trip: a flat buffer built from well-formed, nonempty C strings plus
/// its terminating NUL splits back into exactly those strings. An empty
/// string (a lone NUL) cannot take part: in the flat form it is the
/// terminator itself.
pub proof fn lemma_chunks_concat_round_trip(cs: Seq<Seq<u8>>)
    requires
        forall|i: int| 0 <= i < cs.len() ==> is_c_str(#[trigger] cs[i]) && cs[i].len() >= 2,
    ensures
        chunks_of(concat_of(cs).push(0)) == cs,
    decreases cs.len(),
{
    let s = concat_of(cs).push(0);
    if cs.len() == 0 {
        assert(concat_of(cs) =~= Seq::<u8>::empty());
        assert(s.len() == 1 && s[0] == 0);
        assert(chunks_of(s) =~= Seq::<Seq<u8>>::empty());
        assert(chunks_of(s) =~= cs);
    } else {
        let c = cs.first();
        let rest = concat_of(cs.drop_first()).push(0);
        lemma_chunks_concat_round_trip(cs.drop_first());
        assert(s =~= c + rest);
        assert(s[0] == c[0] && c[0] != 0);
        lemma_first_nul_of_c_str_prefix(c, rest, 0);
        let n = first_nul_at(s, 0);
        assert(n == c.len() - 1);
        assert(n < s.len());
        assert(s.subrange(0, n + 1) =~= c);
        assert(s.subrange(n + 1, s.len() as int) =~= rest);
        assert(chunks_of(s) =~= seq![c] + chunks_of(rest));
        assert(seq![c] + cs.drop_first() =~= cs);
    }
}

/// How an argument mirror is handed to a hook: the value behind it.
pub trait Ptr<T> {
    /// Relation between the mirror and the value a hook receives.
    spec fn ptr_model(&self, r: T) -> bool;

    /// The value handed to the hook.
    fn get(&self) -> (r: T)
        ensures
            self.ptr_model(r),
    ;
}

/// A plain machine-integer argument is handed to the hook as itself.
impl<T: Copy> Ptr<T> for MayBePtr<T> {
    open spec fn ptr_model(&self, r: T) -> bool {
        r == self.inner
    }

    fn get(&self) -> (r: T) {
        self.inner
    }
}

/// Conversion between a declared integer argument or return type and the
/// raw register value that carries it.
pub trait Number: Sized {
    spec fn spec_from_u64(u: u64) -> Self;

    spec fn spec_to_u64(self) -> u64;

    fn from_u64(u: u64) -> (r: Self)
        ensures
            r == Self::spec_from_u64(u),
    ;

    fn to_u64(self) -> (r: u64)
        ensures
            r == self.spec_to_u64(),
    ;
}

impl Number for u64 {
    open spec fn spec_from_u64(u: u64) -> u64 {
        u
    }

    open spec fn spec_to_u64(self) -> u64 {
        self
    }

    fn from_u64(u: u64) -> (r: u64) {
        u
    }

    fn to_u64(self) -> (r: u64) {
        self
    }
}

impl Number for u8 {
    open spec fn spec_from_u64(u: u64) -> u8 {
        u as u8
    }

    open spec fn spec_to_u64(self) -> u64 {
        self as u64
    }

    fn from_u64(u: u64) -> (r: u8) {
        #[verifier::truncate]
        (u as u8)
    }

    fn to_u64(self) -> (r: u64) {
        self as u64
    }
}

impl Number for u16 {
    open spec fn spec_from_u64(u: u64) -> u16 {
        u as u16
    }

    open spec fn spec_to_u64(self) -> u64 {
        self as u64
    }

    fn from_u64(u: u64) -> (r: u16) {
        #[verifier::truncate]
        (u as u16)
    }

    fn to_u64(self) -> (r: u64) {
        self as u64
    }
}

impl Number for u32 {
    open spec fn spec_from_u64(u: u64) -> u32 {
        u as u32
    }

    open spec fn spec_to_u64(self) -> u64 {
        self as u64
    }

    fn from_u64(u: u64) -> (r: u32) {
        #[verifier::truncate]
        (u as u32)
    }

    fn to_u64(self) -> (r: u64) {
        self as u64
    }
}

impl Number for usize {
    open spec fn spec_from_u64(u: u64) -> usize {
        u as usize
    }

    open spec fn spec_to_u64(self) -> u64 {
        self as u64
    }

    fn from_u64(u: u64) -> (r: usize) {
        #[verifier::truncate]
        (u as usize)
    }

    fn to_u64(self) -> (r: u64) {
        self as u64
    }
}

impl Number for i8 {
    open spec fn spec_from_u64(u: u64) -> i8 {
        u as i8
    }

    open spec fn spec_to_u64(self) -> u64 {
        self as u64
    }

    fn from_u64(u: u64) -> (r: i8) {
        #[verifier::truncate]
        (u as i8)
    }

    fn to_u64(self) -> (r: u64) {
        #[verifier::truncate]
        (self as u64)
    }
}

impl Number for i16 {
    open spec fn spec_from_u64(u: u64) -> i16 {
        u as i16
    }

    open spec fn spec_to_u64(self) -> u64 {
        self as u64
    }

    fn from_u64(u: u64) -> (r: i16) {
        #[verifier::truncate]
        (u as i16)
    }

    fn to_u64(self) -> (r: u64) {
        #[verifier::truncate]
        (self as u64)
    }
}

impl Number for i32 {
    open spec fn spec_from_u64(u: u64) -> i32 {
        u as i32
    }

    open spec fn spec_to_u64(self) -> u64 {
        self as u64
    }

    fn from_u64(u: u64) -> (r: i32) {
        #[verifier::truncate]
        (u as i32)
    }

    fn to_u64(self) -> (r: u64) {
        #[verifier::truncate]
        (self as u64)
    }
}

impl Number for i64 {
    open spec fn spec_from_u64(u: u64) -> i64 {
        u as i64
    }

    open spec fn spec_to_u64(self) -> u64 {
        self as u64
    }

    fn from_u64(u: u64) -> (r: i64) {
        #[verifier::truncate]
        (u as i64)
    }

    fn to_u64(self) -> (r: u64) {
        #[verifier::truncate]
        (self as u64)
    }
}

impl Number for isize {
    open spec fn spec_from_u64(u: u64) -> isize {
        u as isize
    }

    open spec fn spec_to_u64(self) -> u64 {
        self as u64
    }

    fn from_u64(u: u64) -> (r: isize) {
        #[verifier::truncate]
        (u as isize)
    }

    fn to_u64(self) -> (r: u64) {
        #[verifier::truncate]
        (self as u64)
    }
}

} // verus!

verus! {

/// Whether two byte strings hold the same bytes.
pub fn bytes_eq(a: &Vec<u8>, b: &Vec<u8>) -> (r: bool)
    ensures
        r == (a@ == b@),
{
    if a.len() != b.len() {
        return false;
    }
    let mut i: usize = 0;
    while i < a.len()
        invariant
            0 <= i <= a@.len(),
            a@.len() == b@.len(),
            forall|j: int| 0 <= j < i ==> a@[j] == b@[j],
        decreases a@.len() - i,
    {
        if a[i] != b[i] {
            return false;
        }
        i = i + 1;
    }
    proof {
        assert(a@ =~= b@);
    }
    true
}

} // verus!
