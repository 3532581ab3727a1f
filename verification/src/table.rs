//! The syscall-number table: the mapping from kernel syscall number to its
//! canonical name, parsed from a tab-separated resource of
//! `<number>\t<name>` lines.
use vstd::prelude::*;

verus! {

/// Index of the first occurrence of `b` in `s` at or after `start`;
/// `s.len()` if there is none.
pub open spec fn find_byte(s: Seq<u8>, b: u8, start: int) -> int
    decreases s.len() - start
        when 0 <= start <= s.len()
{
    if start >= s.len() {
        s.len() as int
    } else if s[start] == b {
        start
    } else {
        find_byte(s, b, start + 1)
    }
}

pub proof fn lemma_find_byte(s: Seq<u8>, b: u8, start: int)
    requires
        0 <= start <= s.len(),
    ensures
        start <= find_byte(s, b, start) <= s.len(),
        find_byte(s, b, start) < s.len() ==> s[find_byte(s, b, start)] == b,
        forall|j: int| start <= j < find_byte(s, b, start) ==> s[j] != b,
    decreases s.len() - start,
{
    if start < s.len() && s[start] != b {
        lemma_find_byte(s, b, start + 1);
    }
}

/// Searching from position `start + k` of the whole buffer is searching from
/// position `k` of the suffix that begins at `start`.
proof fn lemma_find_byte_chop_at(s: Seq<u8>, b: u8, start: int, k: int)
    requires
        0 <= start,
        0 <= k,
        start + k <= s.len(),
    ensures
        find_byte(s, b, start + k) == start + find_byte(s.subrange(start, s.len() as int), b, k),
    decreases s.len() - start - k,
{
    let rest = s.subrange(start, s.len() as int);
    if start + k == s.len() {
    } else if s[start + k] == b {
        assert(rest[k] == b);
    } else {
        assert(rest[k] != b);
        lemma_find_byte_chop_at(s, b, start, k + 1);
    }
}

pub proof fn lemma_find_byte_chop(s: Seq<u8>, b: u8, start: int)
    requires
        0 <= start <= s.len(),
    ensures
        find_byte(s.subrange(start, s.len() as int), b, 0) == find_byte(s, b, start) - start,
{
    lemma_find_byte_chop_at(s, b, start, 0);
}

/// Position of the first occurrence of `b` in `v` at or after `start`;
/// the length if there is none.
pub fn find_byte_from(v: &Vec<u8>, b: u8, start: usize) -> (r: usize)
    requires
        start <= v@.len(),
    ensures
        r == find_byte(v@, b, start as int),
{
    proof {
        lemma_find_byte(v@, b, start as int);
    }
    let mut i = start;
    while i < v.len() && v[i] != b
        invariant
            start <= i <= v@.len(),
            find_byte(v@, b, start as int) == find_byte(v@, b, i as int),
        decreases v@.len() - i,
    {
        i = i + 1;
    }
    i
}

/// An ASCII whitespace byte, as trimming understands it.
pub open spec fn is_space(b: u8) -> bool {
    b == 32 || b == 9 || b == 10 || b == 11 || b == 12 || b == 13
}

/// An ASCII decimal digit.
pub open spec fn is_digit(b: u8) -> bool {
    48 <= b <= 57
}

/// First index at or after `i` that holds a non-space byte; `s.len()` if all
/// spaces.
pub open spec fn trim_start_idx(s: Seq<u8>, i: int) -> int
    decreases s.len() - i
        when 0 <= i <= s.len()
{
    if i < s.len() && is_space(s[i]) {
        trim_start_idx(s, i + 1)
    } else {
        i
    }
}

/// One past the last index before `i` that holds a non-space byte; 0 if all
/// spaces.
pub open spec fn trim_end_idx(s: Seq<u8>, i: int) -> int
    decreases i
        when 0 <= i <= s.len()
{
    if i > 0 && is_space(s[i - 1]) {
        trim_end_idx(s, i - 1)
    } else {
        i
    }
}

/// `s` with leading and trailing ASCII whitespace removed.
pub open spec fn trimmed(s: Seq<u8>) -> Seq<u8> {
    let a = trim_start_idx(s, 0);
    let b = trim_end_idx(s, s.len() as int);
    if a <= b {
        s.subrange(a, b)
    } else {
        Seq::empty()
    }
}

proof fn lemma_trim_start_bounds(s: Seq<u8>, i: int)
    requires
        0 <= i <= s.len(),
    ensures
        i <= trim_start_idx(s, i) <= s.len(),
    decreases s.len() - i,
{
    if i < s.len() && is_space(s[i]) {
        lemma_trim_start_bounds(s, i + 1);
    }
}

proof fn lemma_trim_end_bounds(s: Seq<u8>, i: int)
    requires
        0 <= i <= s.len(),
    ensures
        0 <= trim_end_idx(s, i) <= i,
    decreases i,
{
    if i > 0 && is_space(s[i - 1]) {
        lemma_trim_end_bounds(s, i - 1);
    }
}

/// `s` with its surrounding whitespace dropped.
pub fn trimmed_bytes(s: &Vec<u8>) -> (r: Vec<u8>)
    ensures
        r@ == trimmed(s@),
{
    proof {
        lemma_trim_start_bounds(s@, 0);
        lemma_trim_end_bounds(s@, s@.len() as int);
    }
    let mut a: usize = 0;
    while a < s.len() && (s[a] == 32 || s[a] == 9 || s[a] == 10 || s[a] == 11 || s[a] == 12
        || s[a] == 13)
        invariant
            0 <= a <= s@.len(),
            trim_start_idx(s@, 0) == trim_start_idx(s@, a as int),
        decreases s@.len() - a,
    {
        a = a + 1;
    }
    let mut b: usize = s.len();
    while b > 0 && (s[b - 1] == 32 || s[b - 1] == 9 || s[b - 1] == 10 || s[b - 1] == 11 || s[b
        - 1] == 12 || s[b - 1] == 13)
        invariant
            0 <= b <= s@.len(),
            trim_end_idx(s@, s@.len() as int) == trim_end_idx(s@, b as int),
        decreases b,
    {
        b = b - 1;
    }
    let mut r: Vec<u8> = Vec::new();
    if a >= b {
        proof {
            assert(r@ =~= trimmed(s@));
        }
        return r;
    }
    let mut i = a;
    while i < b
        invariant
            a <= i <= b <= s@.len(),
            r@ == s@.subrange(a as int, i as int),
        decreases b - i,
    {
        let c = s[i];
        r.push(c);
        proof {
            assert(r@ =~= s@.subrange(a as int, i + 1));
        }
        i = i + 1;
    }
    proof {
        assert(r@ =~= trimmed(s@));
    }
    r
}

/// The number a run of decimal digits denotes, most significant first.
pub open spec fn dec_value(s: Seq<u8>) -> int
    decreases s.len(),
{
    if s.len() == 0 {
        0
    } else {
        dec_value(s.drop_last()) * 10 + (s.last() - 48)
    }
}

/// Every byte is a decimal digit.
pub open spec fn all_digits(s: Seq<u8>) -> bool {
    forall|i: int| 0 <= i < s.len() ==> is_digit(#[trigger] s[i])
}

/// Once a digit prefix denotes more than fits, appending digits only grows
/// the value.
proof fn lemma_dec_overflow(s: Seq<u8>, k: int)
    requires
        0 <= k <= s.len(),
        dec_value(s.take(k)) > u64::MAX,
        forall|i: int| 0 <= i < s.len() ==> is_digit(#[trigger] s[i]),
    ensures
        dec_value(s) > u64::MAX,
    decreases s.len() - k,
{
    if k == s.len() {
        assert(s.take(k) =~= s);
    } else {
        assert(s.take(k + 1).drop_last() =~= s.take(k));
        assert(s.take(k + 1).last() == s[k]);
        assert(dec_value(s.take(k + 1)) == dec_value(s.take(k)) * 10 + (s[k] - 48));
        lemma_dec_overflow(s, k + 1);
    }
}

/// Parse a decimal number with optional surrounding whitespace. Returns the
/// value exactly when the trimmed text is a nonempty run of digits denoting a
/// value that fits in a machine word; otherwise nothing.
pub fn parse_u64(s: &Vec<u8>) -> (r: Option<u64>)
    ensures
        ({
            let t = trimmed(s@);
            match r {
                Some(v) => t.len() > 0 && all_digits(t) && dec_value(t) == v,
                None => t.len() == 0 || !all_digits(t) || dec_value(t) > u64::MAX,
            }
        }),
{
    let t = trimmed_bytes(s);
    if t.len() == 0 {
        return None;
    }
    let mut acc: u64 = 0;
    let mut i: usize = 0;
    while i < t.len()
        invariant
            t@ == trimmed(s@),
            0 <= i <= t@.len(),
            forall|j: int| 0 <= j < i ==> is_digit(#[trigger] t@[j]),
            acc == dec_value(t@.take(i as int)),
        decreases t@.len() - i,
    {
        let c = t[i];
        if c < 48 || c > 57 {
            return None;
        }
        let d = (c - 48) as u64;
        proof {
            assert(t@.take(i + 1).drop_last() =~= t@.take(i as int));
            assert(t@.take(i + 1).last() == t@[i as int]);
        }
        let next = match acc.checked_mul(10) {
            Some(x) => x.checked_add(d),
            None => None,
        };
        match next {
            Some(v) => {
                acc = v;
            },
            None => {
                proof {
                    assert(dec_value(t@.take(i + 1)) > u64::MAX);
                    if all_digits(t@) {
                        lemma_dec_overflow(t@, i + 1);
                    }
                }
                return None;
            },
        }
        i = i + 1;
    }
    proof {
        assert(t@.take(t@.len() as int) =~= t@);
    }
    Some(acc)
}

/// One `<number>\t<name>` line: the number parsed, the name trimmed. A line
/// without a tab, or whose number part is not a plain decimal that fits,
/// parses to nothing.
pub open spec fn spec_parse_line(l: Seq<u8>) -> Option<(u64, Seq<u8>)> {
    let tab = find_byte(l, 9, 0);
    if tab == l.len() {
        None
    } else {
        let tn = trimmed(l.take(tab));
        let name = trimmed(l.subrange(tab + 1, l.len() as int));
        if tn.len() > 0 && all_digits(tn) && dec_value(tn) <= u64::MAX {
            Some((dec_value(tn) as u64, name))
        } else {
            None
        }
    }
}

/// The lines of `s`, split on newline bytes; a trailing newline ends the
/// last line rather than opening an empty one.
pub open spec fn split_lines(s: Seq<u8>) -> Seq<Seq<u8>>
    decreases s.len(),
{
    if s.len() == 0 {
        Seq::empty()
    } else {
        let n = find_byte(s, 10, 0);
        if 0 <= n < s.len() {
            seq![s.take(n)] + split_lines(s.subrange(n + 1, s.len() as int))
        } else {
            seq![s]
        }
    }
}

/// All lines parsed, in order; one malformed line spoils the whole table.
pub open spec fn spec_parse_lines(ls: Seq<Seq<u8>>) -> Option<Seq<(u64, Seq<u8>)>>
    decreases ls.len(),
{
    if ls.len() == 0 {
        Some(Seq::empty())
    } else {
        match spec_parse_line(ls.first()) {
            None => None,
            Some(e) => match spec_parse_lines(ls.drop_first()) {
                None => None,
                Some(rest) => Some(seq![e] + rest),
            },
        }
    }
}

/// The syscall-number-to-name entries parsed from the embedded resource, in
/// its order.
pub struct SyscallTable {
    entries: Vec<(u64, Vec<u8>)>,
}

impl View for SyscallTable {
    type V = Seq<(u64, Seq<u8>)>;

    closed spec fn view(&self) -> Seq<(u64, Seq<u8>)> {
        self.entries@.map_values(|e: (u64, Vec<u8>)| (e.0, e.1@))
    }
}

/// The name the table gives a syscall number; with a duplicated number the
/// later line wins.
pub open spec fn spec_lookup(s: Seq<(u64, Seq<u8>)>, no: u64) -> Option<Seq<u8>>
    decreases s.len(),
{
    if s.len() == 0 {
        None
    } else if s.last().0 == no {
        Some(s.last().1)
    } else {
        spec_lookup(s.drop_last(), no)
    }
}

impl SyscallTable {
    /// The canonical name of syscall number `no`, if the table knows it.
    pub fn get(&self, no: u64) -> (r: Option<&Vec<u8>>)
        ensures
            match r {
                Some(v) => spec_lookup(self@, no) == Some(v@),
                None => spec_lookup(self@, no) is None,
            },
    {
        let mut i: usize = self.entries.len();
        proof {
            assert(self@.take(i as int) =~= self@);
        }
        while i > 0
            invariant
                0 <= i <= self.entries@.len(),
                spec_lookup(self@, no) == spec_lookup(self@.take(i as int), no),
            decreases i,
        {
            proof {
                assert(self@.take(i as int).last() == self@[i - 1]);
                assert(self@.take(i as int).drop_last() =~= self@.take(i - 1));
            }
            if self.entries[i - 1].0 == no {
                return Some(&self.entries[i - 1].1);
            }
            i = i - 1;
        }
        proof {
            assert(self@.take(0) =~= Seq::<(u64, Seq<u8>)>::empty());
        }
        None
    }
}

/// Parse one table line.
pub fn parse_line(line: &Vec<u8>) -> (r: Option<(u64, Vec<u8>)>)
    ensures
        match r {
            Some(e) => spec_parse_line(line@) == Some((e.0, e.1@)),
            None => spec_parse_line(line@) is None,
        },
{
    proof {
        lemma_find_byte(line@, 9, 0);
    }
    let tab = find_byte_from(line, 9, 0);
    if tab == line.len() {
        return None;
    }
    let mut num: Vec<u8> = Vec::new();
    let mut i: usize = 0;
    while i < tab
        invariant
            0 <= i <= tab < line@.len(),
            num@ == line@.subrange(0, i as int),
        decreases tab - i,
    {
        let c = line[i];
        num.push(c);
        proof {
            assert(num@ =~= line@.subrange(0, i + 1));
        }
        i = i + 1;
    }
    let mut name_raw: Vec<u8> = Vec::new();
    let mut j: usize = tab + 1;
    while j < line.len()
        invariant
            tab + 1 <= j <= line@.len(),
            name_raw@ == line@.subrange(tab + 1, j as int),
        decreases line@.len() - j,
    {
        let c = line[j];
        name_raw.push(c);
        proof {
            assert(name_raw@ =~= line@.subrange(tab + 1, j + 1));
        }
        j = j + 1;
    }
    proof {
        assert(num@ =~= line@.take(tab as int));
        assert(name_raw@ =~= line@.subrange(tab + 1, line@.len() as int));
    }
    match parse_u64(&num) {
        None => None,
        Some(no) => {
            let name = trimmed_bytes(&name_raw);
            Some((no, name))
        },
    }
}

/// Parse the whole tab-separated resource into the syscall table: one
/// `<number>\t<name>` entry per line, in order. A malformed line yields
/// nothing.
pub fn load_syscall_table(text: &Vec<u8>) -> (r: Option<SyscallTable>)
    ensures
        match r {
            Some(t) => spec_parse_lines(split_lines(text@)) == Some(t@),
            None => spec_parse_lines(split_lines(text@)) is None,
        },
{
    let mut entries: Vec<(u64, Vec<u8>)> = Vec::new();
    let mut pos: usize = 0;
    proof {
        assert(text@.subrange(0, text@.len() as int) =~= text@);
        let done0 = entries@.map_values(|e: (u64, Vec<u8>)| (e.0, e.1@));
        assert(done0 =~= Seq::<(u64, Seq<u8>)>::empty());
        match spec_parse_lines(split_lines(text@)) {
            Some(rest) => {
                assert(done0 + rest =~= rest);
            },
            None => {
            },
        }
    }
    loop
        invariant
            0 <= pos <= text@.len(),
            ({
                let done = entries@.map_values(|e: (u64, Vec<u8>)| (e.0, e.1@));
                match spec_parse_lines(split_lines(text@.subrange(pos as int, text@.len() as int))) {
                    Some(rest) => spec_parse_lines(split_lines(text@)) == Some(done + rest),
                    None => spec_parse_lines(split_lines(text@)) is None,
                }
            }),
        ensures
            ({
                let done = entries@.map_values(|e: (u64, Vec<u8>)| (e.0, e.1@));
                spec_parse_lines(split_lines(text@)) == Some(done)
            }),
        decreases text@.len() - pos,
    {
        let ghost rem = text@.subrange(pos as int, text@.len() as int);
        if pos == text.len() {
            proof {
                assert(rem.len() == 0);
                assert(split_lines(rem) =~= Seq::<Seq<u8>>::empty());
            }
            break;
        }
        proof {
            lemma_find_byte(text@, 10, pos as int);
            lemma_find_byte_chop(text@, 10, pos as int);
        }
        let nl = find_byte_from(text, 10, pos);
        let mut line: Vec<u8> = Vec::new();
        let mut i: usize = pos;
        while i < nl
            invariant
                pos <= i <= nl <= text@.len(),
                line@ == text@.subrange(pos as int, i as int),
            decreases nl - i,
        {
            let c = text[i];
            line.push(c);
            proof {
                assert(line@ =~= text@.subrange(pos as int, i + 1));
            }
            i = i + 1;
        }
        let ghost n_rem = find_byte(rem, 10, 0);
        proof {
            assert(n_rem == nl - pos);
            assert(line@ =~= rem.take(n_rem));
            if nl < text.len() {
                assert(split_lines(rem) == seq![rem.take(n_rem)] + split_lines(
                    rem.subrange(n_rem + 1, rem.len() as int),
                ));
            } else {
                assert(n_rem == rem.len());
                assert(rem.take(n_rem) =~= rem);
                assert(split_lines(rem) == seq![rem]);
                assert(split_lines(rem).drop_first() =~= Seq::<Seq<u8>>::empty());
            }
        }
        match parse_line(&line) {
            None => {
                proof {
                    assert(split_lines(rem).first() == line@);
                    assert(spec_parse_lines(split_lines(rem)) is None);
                }
                return None;
            },
            Some(e) => {
                let ghost entries_old = entries@;
                let ghost e_spec = (e.0, e.1@);
                entries.push(e);
                proof {
                    assert(entries@.map_values(|x: (u64, Vec<u8>)| (x.0, x.1@)) =~= entries_old
                        .map_values(|x: (u64, Vec<u8>)| (x.0, x.1@)) + seq![e_spec]);
                    assert(split_lines(rem).first() == line@);
                    assert(spec_parse_line(line@) == Some(e_spec));
                }
                if nl == text.len() {
                    proof {
                        let done_old = entries_old.map_values(|x: (u64, Vec<u8>)| (x.0, x.1@));
                        let done = entries@.map_values(|x: (u64, Vec<u8>)| (x.0, x.1@));
                        assert(spec_parse_lines(Seq::<Seq<u8>>::empty()) == Some(
                            Seq::<(u64, Seq<u8>)>::empty(),
                        ));
                        assert(split_lines(rem).first() == line@);
                        assert(seq![e_spec] + Seq::<(u64, Seq<u8>)>::empty() =~= seq![e_spec]);
                        assert(spec_parse_lines(split_lines(rem)) == Some(seq![e_spec]));
                        assert(done_old + seq![e_spec] =~= done);
                        assert(done + Seq::<(u64, Seq<u8>)>::empty() =~= done);
                    }
                    pos = nl;
                    proof {
                        let rem2 = text@.subrange(pos as int, text@.len() as int);
                        assert(rem2.len() == 0);
                        assert(split_lines(rem2) =~= Seq::<Seq<u8>>::empty());
                    }
                } else {
                    proof {
                        let rem2 = text@.subrange(nl + 1, text@.len() as int);
                        assert(rem2 =~= rem.subrange(n_rem + 1, rem.len() as int));
                        assert(split_lines(rem).first() == line@);
                        assert(split_lines(rem).drop_first() =~= split_lines(
                            rem.subrange(n_rem + 1, rem.len() as int),
                        ));
                        let done_old = entries_old.map_values(|x: (u64, Vec<u8>)| (x.0, x.1@));
                        let done = entries@.map_values(|x: (u64, Vec<u8>)| (x.0, x.1@));
                        match spec_parse_lines(split_lines(rem2)) {
                            Some(rest2) => {
                                assert(spec_parse_lines(split_lines(rem)) == Some(
                                    seq![e_spec] + rest2,
                                ));
                                assert(done_old + (seq![e_spec] + rest2) =~= done + rest2);
                            },
                            None => {
                                assert(spec_parse_lines(split_lines(rem)) is None);
                            },
                        }
                    }
                    pos = nl + 1;
                }
            },
        }
    }
    Some(SyscallTable { entries })
}

} // verus!

verus! {

/// The hexadecimal digit for a value below 16, lower case.
pub open spec fn hex_digit(d: int) -> u8 {
    if d < 10 {
        (48 + d) as u8
    } else {
        (87 + d) as u8
    }
}

/// The hexadecimal digits of `n`, most significant first; empty for 0.
pub open spec fn hex_digits(n: int) -> Seq<u8>
    decreases n when n >= 0
{
    if n <= 0 {
        Seq::empty()
    } else {
        hex_digits(n / 16).push(hex_digit(n % 16))
    }
}

/// The hexadecimal text of a syscall number, as diagnostics show one the
/// static table does not know ("unknown syscall", with its number in hex).
pub fn hex_bytes(no: u64) -> (r: Vec<u8>)
    ensures
        no == 0 ==> r@ == seq![48u8],
        no > 0 ==> r@ == hex_digits(no as int),
{
    let mut r: Vec<u8> = Vec::new();
    if no == 0 {
        r.push(48);
        proof {
            assert(r@ =~= seq![48u8]);
        }
        return r;
    }
    let mut n = no;
    proof {
        assert(hex_digits(no as int) =~= hex_digits(n as int) + r@);
    }
    while n > 0
        invariant
            hex_digits(no as int) == hex_digits(n as int) + r@,
        decreases n,
    {
        let ghost n_old = n as int;
        let d = (n % 16) as u8;
        let c = if d < 10 {
            48 + d
        } else {
            87 + d
        };
        let ghost r_old = r@;
        r.insert(0, c);
        n = n / 16;
        proof {
            assert(c == hex_digit(d as int));
            assert(r@ =~= seq![c] + r_old);
            assert(hex_digits(n_old) == hex_digits(n as int).push(hex_digit(d as int)));
            assert(hex_digits(n as int).push(hex_digit(d as int)) + r_old =~= hex_digits(
                n as int,
            ) + (seq![hex_digit(d as int)] + r_old));
        }
    }
    proof {
        assert(hex_digits(0) =~= Seq::<u8>::empty());
        assert(Seq::<u8>::empty() + r@ =~= r@);
    }
    r
}

} // verus!
