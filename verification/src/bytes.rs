//! Byte-string utilities: three-way lexicographic comparison with its order
//! laws, ASCII whitespace trimming, line splitting, substring search, and
//! decimal rendering of integers. All text in this library is held as bytes.

use vstd::prelude::*;

verus! {

/// Three-way lexicographic comparison of byte strings:
/// negative when `a < b`, zero when equal, positive when `a > b`.
pub open spec fn lex_cmp(a: Seq<u8>, b: Seq<u8>) -> int
    decreases a.len(),
{
    if a.len() == 0 && b.len() == 0 {
        0
    } else if a.len() == 0 {
        -1
    } else if b.len() == 0 {
        1
    } else if a[0] < b[0] {
        -1
    } else if a[0] > b[0] {
        1
    } else {
        lex_cmp(a.skip(1), b.skip(1))
    }
}

pub proof fn lemma_lex_cmp_eq(a: Seq<u8>, b: Seq<u8>)
    ensures
        lex_cmp(a, b) == 0 <==> a == b,
    decreases a.len(),
{
    if a.len() == 0 && b.len() == 0 {
        assert(a =~= b);
    } else if a.len() == 0 || b.len() == 0 {
    } else if a[0] == b[0] {
        lemma_lex_cmp_eq(a.skip(1), b.skip(1));
        if lex_cmp(a, b) == 0 {
            assert(a.skip(1) == b.skip(1));
            assert forall|k: int| 0 <= k < a.len() implies a[k] == b[k] by {
                if k > 0 {
                    assert(a.skip(1)[k - 1] == a[k]);
                    assert(b.skip(1)[k - 1] == b[k]);
                }
            }
            assert(a =~= b);
        } else {
            if a == b {
                assert(a.skip(1) =~= b.skip(1));
            }
        }
    } else {
        if a == b {
            assert(a[0] == b[0]);
        }
    }
}

pub proof fn lemma_lex_cmp_range(a: Seq<u8>, b: Seq<u8>)
    ensures
        lex_cmp(a, b) == -1 || lex_cmp(a, b) == 0 || lex_cmp(a, b) == 1,
    decreases a.len(),
{
    if a.len() != 0 && b.len() != 0 && a[0] == b[0] {
        lemma_lex_cmp_range(a.skip(1), b.skip(1));
    }
}

pub proof fn lemma_lex_cmp_antisym(a: Seq<u8>, b: Seq<u8>)
    ensures
        lex_cmp(a, b) == -lex_cmp(b, a),
    decreases a.len(),
{
    if a.len() != 0 && b.len() != 0 && a[0] == b[0] {
        lemma_lex_cmp_antisym(a.skip(1), b.skip(1));
    }
}

pub proof fn lemma_lex_cmp_trans(a: Seq<u8>, b: Seq<u8>, c: Seq<u8>)
    requires
        lex_cmp(a, b) <= 0,
        lex_cmp(b, c) <= 0,
    ensures
        lex_cmp(a, c) <= 0,
        lex_cmp(a, b) < 0 || lex_cmp(b, c) < 0 ==> lex_cmp(a, c) < 0,
    decreases a.len(),
{
    if a.len() == 0 {
        if a.len() == 0 && c.len() == 0 {
        }
    } else {
        // a nonempty; since lex_cmp(a, b) <= 0, b is nonempty too
        if b.len() == 0 {
            assert(lex_cmp(a, b) == 1);
        }
        if c.len() == 0 {
            assert(lex_cmp(b, c) == 1);
        }
        if a[0] < b[0] || b[0] < c[0] {
            // a[0] <= b[0] <= c[0] with one strict
        } else {
            assert(a[0] == b[0] && b[0] == c[0]);
            lemma_lex_cmp_trans(a.skip(1), b.skip(1), c.skip(1));
        }
    }
}

proof fn lemma_lex_cmp_skip_one(a: Seq<u8>, b: Seq<u8>)
    requires
        a.len() > 0,
        b.len() > 0,
        a[0] == b[0],
    ensures
        lex_cmp(a, b) == lex_cmp(a.skip(1), b.skip(1)),
{
}

/// Exec three-way comparison, returning -1, 0 or 1 matching `lex_cmp`.
pub fn cmp_bytes(a: &[u8], b: &[u8]) -> (r: i32)
    ensures
        r == -1 || r == 0 || r == 1,
        r < 0 <==> lex_cmp(a@, b@) < 0,
        r == 0 <==> lex_cmp(a@, b@) == 0,
        r > 0 <==> lex_cmp(a@, b@) > 0,
{
    let mut i: usize = 0;
    proof {
        assert(a@.skip(0) =~= a@);
        assert(b@.skip(0) =~= b@);
    }
    loop
        invariant
            i <= a@.len(),
            i <= b@.len(),
            a@.subrange(0, i as int) =~= b@.subrange(0, i as int),
            lex_cmp(a@, b@) == lex_cmp(a@.skip(i as int), b@.skip(i as int)),
        decreases a@.len() - i,
    {
        if i == a.len() && i == b.len() {
            assert(a@.skip(i as int).len() == 0 && b@.skip(i as int).len() == 0);
            return 0;
        }
        if i == a.len() {
            assert(a@.skip(i as int).len() == 0 && b@.skip(i as int).len() > 0);
            return -1;
        }
        if i == b.len() {
            assert(b@.skip(i as int).len() == 0 && a@.skip(i as int).len() > 0);
            return 1;
        }
        let x = a[i];
        let y = b[i];
        assert(a@.skip(i as int)[0] == a@[i as int]);
        assert(b@.skip(i as int)[0] == b@[i as int]);
        if x < y {
            return -1;
        }
        if x > y {
            return 1;
        }
        proof {
            lemma_lex_cmp_skip_one(a@.skip(i as int), b@.skip(i as int));
            assert(a@.skip(i as int).skip(1) =~= a@.skip(i + 1));
            assert(b@.skip(i as int).skip(1) =~= b@.skip(i + 1));
            assert(a@.subrange(0, i + 1) =~= b@.subrange(0, i + 1));
        }
        i = i + 1;
    }
}

pub fn bytes_eq(a: &[u8], b: &[u8]) -> (r: bool)
    ensures
        r <==> a@ == b@,
{
    let c = cmp_bytes(a, b);
    proof {
        lemma_lex_cmp_eq(a@, b@);
    }
    c == 0
}

/// ASCII whitespace, as the inputs here use it.
pub open spec fn is_ascii_ws(b: u8) -> bool {
    b == 32 || b == 9 || b == 13 || b == 10 || b == 11 || b == 12
}

/// `s` with leading and trailing ASCII whitespace removed.
pub open spec fn spec_trim(s: Seq<u8>) -> Seq<u8>
    decreases s.len(),
{
    if s.len() == 0 {
        s
    } else if is_ascii_ws(s[0]) {
        spec_trim(s.skip(1))
    } else if is_ascii_ws(s[s.len() - 1]) {
        spec_trim(s.take(s.len() - 1))
    } else {
        s
    }
}

pub fn trim_ascii(s: &[u8]) -> (r: Vec<u8>)
    ensures
        r@ == spec_trim(s@),
{
    let mut lo: usize = 0;
    let mut hi: usize = s.len();
    proof {
        assert(s@.subrange(0, s@.len() as int) =~= s@);
    }
    while lo < hi && is_ws_exec(s[lo])
        invariant
            0 <= lo <= hi <= s@.len(),
            spec_trim(s@) == spec_trim(s@.subrange(lo as int, hi as int)),
            hi == s@.len(),
        decreases hi - lo,
    {
        proof {
            let t = s@.subrange(lo as int, hi as int);
            assert(t[0] == s@[lo as int]);
            assert(t.skip(1) =~= s@.subrange(lo + 1, hi as int));
        }
        lo = lo + 1;
    }
    while lo < hi && is_ws_exec(s[hi - 1])
        invariant
            0 <= lo <= hi <= s@.len(),
            spec_trim(s@) == spec_trim(s@.subrange(lo as int, hi as int)),
            lo < hi ==> !is_ascii_ws(s@[lo as int]),
        decreases hi - lo,
    {
        proof {
            let t = s@.subrange(lo as int, hi as int);
            assert(t[0] == s@[lo as int]);
            assert(t.take(t.len() - 1) =~= s@.subrange(lo as int, hi - 1));
        }
        hi = hi - 1;
    }
    proof {
        let t = s@.subrange(lo as int, hi as int);
        if t.len() > 0 {
            assert(t[0] == s@[lo as int]);
            assert(t[t.len() - 1] == s@[hi - 1]);
        }
        assert(spec_trim(t) == t);
    }
    slice_to_vec_range(s, lo, hi)
}

fn is_ws_exec(b: u8) -> (r: bool)
    ensures
        r == is_ascii_ws(b),
{
    b == 32 || b == 9 || b == 13 || b == 10 || b == 11 || b == 12
}

/// Copies `s[lo..hi]` into a fresh vector.
pub fn slice_to_vec_range(s: &[u8], lo: usize, hi: usize) -> (r: Vec<u8>)
    requires
        0 <= lo <= hi <= s@.len(),
    ensures
        r@ == s@.subrange(lo as int, hi as int),
{
    let mut out: Vec<u8> = Vec::new();
    let mut i: usize = lo;
    while i < hi
        invariant
            lo <= i <= hi <= s@.len(),
            out@ =~= s@.subrange(lo as int, i as int),
        decreases hi - i,
    {
        out.push(s[i]);
        proof {
            assert(out@ =~= s@.subrange(lo as int, i + 1));
        }
        i = i + 1;
    }
    out
}

/// Index of the first occurrence of `sep` in `s`, or `s.len()` when there is
/// none.
pub open spec fn first_occ(s: Seq<u8>, sep: u8) -> nat
    decreases s.len(),
{
    if s.len() == 0 {
        0
    } else if s[0] == sep {
        0
    } else {
        (1 + first_occ(s.skip(1), sep)) as nat
    }
}

pub proof fn lemma_first_occ(s: Seq<u8>, sep: u8)
    ensures
        first_occ(s, sep) <= s.len(),
        forall|j: int| 0 <= j < first_occ(s, sep) ==> s[j] != sep,
        first_occ(s, sep) < s.len() ==> s[first_occ(s, sep) as int] == sep,
    decreases s.len(),
{
    if s.len() > 0 && s[0] != sep {
        lemma_first_occ(s.skip(1), sep);
        assert forall|j: int| 0 <= j < first_occ(s, sep) implies s[j] != sep by {
            if j > 0 {
                assert(s.skip(1)[j - 1] == s[j]);
            }
        }
        if first_occ(s, sep) < s.len() {
            assert(s.skip(1)[first_occ(s, sep) - 1] == s[first_occ(s, sep) as int]);
        }
    }
}

pub proof fn lemma_first_occ_is(s: Seq<u8>, sep: u8, i: int)
    requires
        0 <= i <= s.len(),
        forall|j: int| 0 <= j < i ==> s[j] != sep,
        i < s.len() ==> s[i] == sep,
    ensures
        first_occ(s, sep) == i,
    decreases s.len(),
{
    if s.len() == 0 {
    } else if s[0] == sep {
        if i > 0 {
            assert(s[0] != sep);
        }
    } else {
        assert(i > 0) by {
            if i == 0 {
                assert(s[0] == sep);
            }
        }
        assert forall|j: int| 0 <= j < i - 1 implies s.skip(1)[j] != sep by {
            assert(s.skip(1)[j] == s[j + 1]);
        }
        if i - 1 < s.skip(1).len() {
            assert(s.skip(1)[i - 1] == s[i]);
        }
        lemma_first_occ_is(s.skip(1), sep, i - 1);
    }
}

/// The pieces of `s`, split at `sep` bytes; the separator is not part of a
/// piece, and text after the last separator forms a final piece (possibly
/// empty).
pub open spec fn spec_split(s: Seq<u8>, sep: u8) -> Seq<Seq<u8>>
    decreases s.len(),
{
    let i = first_occ(s, sep) as int;
    if i >= s.len() {
        seq![s]
    } else {
        seq![s.take(i)] + spec_split(s.skip(i + 1), sep)
    }
}

pub fn split_sep(s: &[u8], sep: u8) -> (r: Vec<Vec<u8>>)
    ensures
        r@.map_values(|v: Vec<u8>| v@) == spec_split(s@, sep),
        r@.len() > 0,
{
    let mut out: Vec<Vec<u8>> = Vec::new();
    let mut start: usize = 0;
    let mut i: usize = 0;
    proof {
        assert(s@.skip(0) =~= s@);
    }
    loop
        invariant
            0 <= start <= i <= s@.len(),
            forall|j: int| start <= j < i ==> s@[j] != sep,
            spec_split(s@, sep) =~= out@.map_values(|v: Vec<u8>| v@) + spec_split(
                s@.skip(start as int),
                sep,
            ),
            spec_split(s@.skip(start as int), sep).len() > 0,
        decreases s@.len() - i,
    {
        if i == s.len() {
            let last = slice_to_vec_range(s, start, i);
            proof {
                let rest = s@.skip(start as int);
                assert forall|j: int| 0 <= j < rest.len() implies rest[j] != sep by {
                    assert(rest[j] == s@[start + j]);
                }
                lemma_first_occ_is(rest, sep, rest.len() as int);
                assert(last@ =~= rest);
            }
            out.push(last);
            proof {
                assert(out@.map_values(|v: Vec<u8>| v@) =~= spec_split(s@, sep));
            }
            return out;
        }
        if s[i] == sep {
            let piece = slice_to_vec_range(s, start, i);
            proof {
                let rest = s@.skip(start as int);
                let k = i - start;
                assert(rest[k] == s@[i as int]);
                assert forall|j: int| 0 <= j < k implies rest[j] != sep by {
                    assert(rest[j] == s@[start + j]);
                }
                lemma_first_occ_is(rest, sep, k);
                assert(rest.take(k) =~= s@.subrange(start as int, i as int));
                assert(rest.skip(k + 1) =~= s@.skip(i + 1));
            }
            out.push(piece);
            proof {
                assert(spec_split(s@, sep) =~= out@.map_values(|v: Vec<u8>| v@)
                    + spec_split(s@.skip(i + 1), sep));
            }
            start = i + 1;
        }
        i = i + 1;
    }
}

/// Index of the first ASCII whitespace byte of `s`, or `s.len()`.
pub open spec fn first_ws(s: Seq<u8>) -> nat
    decreases s.len(),
{
    if s.len() == 0 {
        0
    } else if is_ascii_ws(s[0]) {
        0
    } else {
        (1 + first_ws(s.skip(1))) as nat
    }
}

pub proof fn lemma_first_ws_is(s: Seq<u8>, i: int)
    requires
        0 <= i <= s.len(),
        forall|j: int| 0 <= j < i ==> !is_ascii_ws(s[j]),
        i < s.len() ==> is_ascii_ws(s[i]),
    ensures
        first_ws(s) == i,
    decreases s.len(),
{
    if s.len() == 0 {
    } else if is_ascii_ws(s[0]) {
        if i > 0 {
            assert(!is_ascii_ws(s[0]));
        }
    } else {
        assert(i > 0) by {
            if i == 0 {
                assert(is_ascii_ws(s[0]));
            }
        }
        assert forall|j: int| 0 <= j < i - 1 implies !is_ascii_ws(s.skip(1)[j]) by {
            assert(s.skip(1)[j] == s[j + 1]);
        }
        if i - 1 < s.skip(1).len() {
            assert(s.skip(1)[i - 1] == s[i]);
        }
        lemma_first_ws_is(s.skip(1), i - 1);
    }
}

/// The pieces of `s`, split at ASCII whitespace bytes.
pub open spec fn spec_split_ws(s: Seq<u8>) -> Seq<Seq<u8>>
    decreases s.len(),
{
    let i = first_ws(s) as int;
    if i >= s.len() {
        seq![s]
    } else {
        seq![s.take(i)] + spec_split_ws(s.skip(i + 1))
    }
}

pub fn split_ws(s: &[u8]) -> (r: Vec<Vec<u8>>)
    ensures
        r@.map_values(|v: Vec<u8>| v@) == spec_split_ws(s@),
{
    let mut out: Vec<Vec<u8>> = Vec::new();
    let mut start: usize = 0;
    let mut i: usize = 0;
    proof {
        assert(s@.skip(0) =~= s@);
    }
    loop
        invariant
            0 <= start <= i <= s@.len(),
            forall|j: int| start <= j < i ==> !is_ascii_ws(s@[j]),
            spec_split_ws(s@) =~= out@.map_values(|v: Vec<u8>| v@) + spec_split_ws(
                s@.skip(start as int),
            ),
        decreases s@.len() - i,
    {
        if i == s.len() {
            let last = slice_to_vec_range(s, start, i);
            proof {
                let rest = s@.skip(start as int);
                assert forall|j: int| 0 <= j < rest.len() implies !is_ascii_ws(rest[j]) by {
                    assert(rest[j] == s@[start + j]);
                }
                lemma_first_ws_is(rest, rest.len() as int);
                assert(last@ =~= rest);
            }
            out.push(last);
            proof {
                assert(out@.map_values(|v: Vec<u8>| v@) =~= spec_split_ws(s@));
            }
            return out;
        }
        if is_ws_exec(s[i]) {
            let piece = slice_to_vec_range(s, start, i);
            proof {
                let rest = s@.skip(start as int);
                let k = i - start;
                assert(rest[k] == s@[i as int]);
                assert forall|j: int| 0 <= j < k implies !is_ascii_ws(rest[j]) by {
                    assert(rest[j] == s@[start + j]);
                }
                lemma_first_ws_is(rest, k);
                assert(rest.take(k) =~= s@.subrange(start as int, i as int));
                assert(rest.skip(k + 1) =~= s@.skip(i + 1));
            }
            out.push(piece);
            proof {
                assert(spec_split_ws(s@) =~= out@.map_values(|v: Vec<u8>| v@) + spec_split_ws(
                    s@.skip(i + 1),
                ));
            }
            start = i + 1;
        }
        i = i + 1;
    }
}

/// Whether `needle` occurs as a contiguous substring of `hay`.
pub open spec fn contains_sub(hay: Seq<u8>, needle: Seq<u8>) -> bool {
    exists|i: int|
        0 <= i <= hay.len() - needle.len() && #[trigger] hay.subrange(i, i + needle.len())
            == needle
}

fn match_at(hay: &[u8], needle: &[u8], i: usize) -> (r: bool)
    requires
        i + needle@.len() <= hay@.len(),
    ensures
        r <==> hay@.subrange(i as int, i + needle@.len()) == needle@,
{
    let hl = hay.len();
    let mut j: usize = 0;
    while j < needle.len()
        invariant
            i + needle@.len() <= hay@.len(),
            hl == hay@.len(),
            0 <= j <= needle@.len(),
            forall|k: int| 0 <= k < j ==> hay@[i + k] == needle@[k],
        decreases needle@.len() - j,
    {
        if hay[i + j] != needle[j] {
            proof {
                assert(hay@.subrange(i as int, i + needle@.len())[j as int] == hay@[i + j]);
            }
            return false;
        }
        j = j + 1;
    }
    proof {
        assert(hay@.subrange(i as int, i + needle@.len()) =~= needle@);
    }
    true
}

pub fn find_sub(hay: &[u8], needle: &[u8]) -> (r: bool)
    ensures
        r == contains_sub(hay@, needle@),
{
    if needle.len() > hay.len() {
        proof {
            assert(!contains_sub(hay@, needle@));
        }
        return false;
    }
    if needle.len() == 0 {
        proof {
            assert(hay@.subrange(0, 0 + needle@.len() as int) =~= needle@);
            assert(contains_sub(hay@, needle@));
        }
        return true;
    }
    let hl = hay.len();
    let n = hay.len() - needle.len();
    let mut i: usize = 0;
    while i <= n
        invariant
            1 <= needle@.len() <= hay@.len(),
            hl == hay@.len(),
            n == hay@.len() - needle@.len(),
            0 <= i <= n + 1,
            forall|k: int|
                0 <= k < i ==> #[trigger] hay@.subrange(k, k + needle@.len()) != needle@,
        decreases n + 1 - i,
    {
        if match_at(hay, needle, i) {
            return true;
        }
        i = i + 1;
    }
    proof {
        assert(!contains_sub(hay@, needle@));
    }
    false
}

/// Decimal rendering of `n`, most significant digit first, no leading zeros
/// (a single `'0'` for zero).
pub open spec fn dec_digits(n: nat) -> Seq<u8>
    decreases n,
{
    if n < 10 {
        seq![(48 + n) as u8]
    } else {
        dec_digits(n / 10) + seq![(48 + n % 10) as u8]
    }
}

pub fn u64_to_dec(n: u64) -> (r: Vec<u8>)
    ensures
        r@ == dec_digits(n as nat),
    decreases n,
{
    if n < 10 {
        let mut v: Vec<u8> = Vec::new();
        v.push(48 + (n as u8));
        proof {
            assert(v@ =~= dec_digits(n as nat));
        }
        v
    } else {
        let mut v = u64_to_dec(n / 10);
        v.push(48 + ((n % 10) as u8));
        proof {
            assert(v@ =~= dec_digits(n as nat));
        }
        v
    }
}

/// Appends `tail` to `out`.
pub fn push_all(out: &mut Vec<u8>, tail: &[u8])
    ensures
        final(out)@ == old(out)@ + tail@,
{
    let mut i: usize = 0;
    while i < tail.len()
        invariant
            0 <= i <= tail@.len(),
            out@ =~= old(out)@ + tail@.subrange(0, i as int),
        decreases tail@.len() - i,
    {
        out.push(tail[i]);
        proof {
            assert(out@ =~= old(out)@ + tail@.subrange(0, i + 1));
        }
        i = i + 1;
    }
    proof {
        assert(out@ =~= old(out)@ + tail@);
    }
}

} // verus!
