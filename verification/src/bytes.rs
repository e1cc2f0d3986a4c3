//! Byte-level scans of a response: line ends, the blank line that closes a
//! header block, and the hexadecimal size of a chunk.

use vstd::prelude::*;
use vstd::utf8::{decode_utf8, valid_utf8};

verus! {

/// `memchr::memchr` gives the index of the first byte equal to `needle`, or
/// `None` where no byte is.
pub assume_specification[ memchr::memchr ](needle: u8, haystack: &[u8]) -> (r: Option<usize>)
    ensures
        match r {
            Some(i) => i < haystack@.len() && haystack@[i as int] == needle && forall|j: int|
                0 <= j < i ==> haystack@[j] != needle,
            None => forall|j: int| 0 <= j < haystack@.len() ==> haystack@[j] != needle,
        },
;

/// What `String::from_utf8_lossy` makes of bytes that are not valid UTF-8.
pub uninterp spec fn utf8_lossy(bytes: Seq<u8>) -> Seq<char>;

/// `String::from_utf8_lossy` decodes valid UTF-8 as it stands, and replaces
/// what is not valid in anything else. Its result is a function of the bytes
/// alone.
#[verifier::external_body]
pub(crate) fn decode_lossy(bytes: &[u8]) -> (r: String)
    ensures
        r@ == (if valid_utf8(bytes@) {
            decode_utf8(bytes@)
        } else {
            utf8_lossy(bytes@)
        }),
{
    String::from_utf8_lossy(bytes).into_owned()
}

/// The text of bytes that came in: what they encode, or the nearest thing
/// where they are not valid.
pub open spec fn as_text(bytes: Seq<u8>) -> Seq<char> {
    if valid_utf8(bytes) {
        decode_utf8(bytes)
    } else {
        utf8_lossy(bytes)
    }
}

/// `std::str::from_utf8` succeeds exactly on valid UTF-8, which it decodes.
#[verifier::external_body]
pub(crate) fn decode_strict(bytes: &[u8]) -> (r: Option<&str>)
    ensures
        match r {
            Some(s) => valid_utf8(bytes@) && s@ == decode_utf8(bytes@),
            None => !valid_utf8(bytes@),
        },
{
    std::str::from_utf8(bytes).ok()
}

pub const CR: u8 = 13;

pub const LF: u8 = 10;

/// Whether a carriage return and a line feed stand at position `i`.
pub open spec fn crlf_here(b: Seq<u8>, i: int) -> bool {
    0 <= i && i + 2 <= b.len() && b[i] == CR && b[i + 1] == LF
}

/// Whether `i` is the position of the first line end in `b`.
pub open spec fn is_first_crlf(b: Seq<u8>, i: int) -> bool {
    crlf_here(b, i) && forall|j: int| 0 <= j < i ==> !crlf_here(b, j)
}

/// Whether `b` holds no line end.
pub open spec fn no_crlf(b: Seq<u8>) -> bool {
    forall|j: int| !crlf_here(b, j)
}

/// The position of the first line end in `b`, if there is one.
pub open spec fn first_crlf(b: Seq<u8>) -> Option<int> {
    if no_crlf(b) {
        None
    } else {
        Some(choose|i: int| is_first_crlf(b, i))
    }
}

/// Whether an empty line stands right behind a line end at position `i`.
pub open spec fn blank_line_here(b: Seq<u8>, i: int) -> bool {
    crlf_here(b, i) && crlf_here(b, i + 2)
}

/// Whether `end` is the position just past the first blank line of `b`.
pub open spec fn ends_head(b: Seq<u8>, end: int) -> bool {
    blank_line_here(b, end - 4) && forall|j: int| 0 <= j < end - 4 ==> !blank_line_here(b, j)
}

/// The position just past the first blank line of `b`, if it has one.
pub open spec fn head_end(b: Seq<u8>) -> Option<int> {
    if exists|i: int| ends_head(b, i) {
        Some(choose|i: int| ends_head(b, i))
    } else {
        None
    }
}

pub proof fn lemma_first_crlf_is(b: Seq<u8>, i: int)
    requires
        is_first_crlf(b, i),
    ensures
        first_crlf(b) == Some(i),
{
    let k = choose|k: int| is_first_crlf(b, k);
    assert(is_first_crlf(b, k));
    if k < i {
        assert(!crlf_here(b, k));
    } else if i < k {
        assert(!crlf_here(b, i));
    }
}

pub proof fn lemma_first_crlf(b: Seq<u8>)
    ensures
        match first_crlf(b) {
            Some(i) => is_first_crlf(b, i) && 0 <= i && i + 2 <= b.len(),
            None => no_crlf(b),
        },
{
    if !no_crlf(b) {
        let j = choose|j: int| crlf_here(b, j);
        lemma_least_crlf(b, j);
    }
}

proof fn lemma_least_crlf(b: Seq<u8>, j: int)
    requires
        crlf_here(b, j),
    ensures
        exists|i: int| is_first_crlf(b, i),
    decreases j,
{
    if is_first_crlf(b, j) {
    } else {
        let k = choose|k: int| 0 <= k < j && crlf_here(b, k);
        lemma_least_crlf(b, k);
    }
}

pub proof fn lemma_head_end_is(b: Seq<u8>, i: int)
    requires
        ends_head(b, i),
    ensures
        head_end(b) == Some(i),
{
    let k = choose|k: int| ends_head(b, k);
    assert(ends_head(b, k));
    if k < i {
        assert(!blank_line_here(b, k - 4));
    } else if i < k {
        assert(!blank_line_here(b, i - 4));
    }
}

/// Offset of the first line end, or `None`.
pub fn find_crlf(b: &[u8]) -> (r: Option<usize>)
    ensures
        match r {
            Some(i) => first_crlf(b@) == Some(i as int) && i + 2 <= b@.len(),
            None => first_crlf(b@) is None,
        },
{
    let n: usize = b.len();
    let mut from: usize = 0;
    while from < n
        invariant
            from <= n == b@.len(),
            forall|j: int| 0 <= j < from ==> !crlf_here(b@, j),
        decreases n - from,
    {
        let tail = vstd::slice::slice_subrange(b, from, n);
        match memchr::memchr(CR, tail) {
            None => {
                proof {
                    assert forall|j: int| !crlf_here(b@, j) by {
                        if from <= j < n {
                            assert(tail@[j - from] == b@[j]);
                        }
                    }
                }
                return None;
            },
            Some(i) => {
                let at: usize = from + i;
                proof {
                    assert(tail@[i as int] == b@[at as int]);
                    assert forall|j: int| 0 <= j < at implies !crlf_here(b@, j) by {
                        if from <= j {
                            assert(tail@[j - from] == b@[j]);
                        }
                    }
                }
                if at + 1 >= n {
                    proof {
                        assert forall|j: int| !crlf_here(b@, j) by {}
                    }
                    return None;
                }
                if b[at + 1] == LF {
                    proof {
                        assert(is_first_crlf(b@, at as int));
                        lemma_first_crlf_is(b@, at as int);
                        assert(crlf_here(b@, at as int));
                    }
                    return Some(at);
                }
                from = at + 1;
            },
        }
    }
    proof {
        assert forall|j: int| !crlf_here(b@, j) by {}
    }
    None
}

/// Offset just past the blank line that ends a header block, or `None`.
pub fn find_crlf2(b: &[u8]) -> (r: Option<usize>)
    ensures
        match r {
            Some(i) => head_end(b@) == Some(i as int) && 4 <= i <= b@.len(),
            None => head_end(b@) is None,
        },
{
    let n: usize = b.len();
    if n < 4 {
        return None;
    }
    let mut from: usize = 0;
    while from <= n - 4
        invariant
            4 <= n == b@.len(),
            from <= n - 3,
            forall|j: int| 0 <= j < from ==> !blank_line_here(b@, j),
        decreases n - from,
    {
        let window = vstd::slice::slice_subrange(b, from, n - 3);
        match memchr::memchr(CR, window) {
            None => {
                proof {
                    assert forall|j: int| !blank_line_here(b@, j) by {
                        if from <= j && j + 4 <= n {
                            assert(window@[j - from] == b@[j]);
                        }
                    }
                }
                return None;
            },
            Some(i) => {
                let at: usize = from + i;
                proof {
                    assert(window@[i as int] == b@[at as int]);
                    assert forall|j: int| 0 <= j < at implies !blank_line_here(b@, j) by {
                        if from <= j {
                            assert(window@[j - from] == b@[j]);
                        }
                    }
                }
                if b[at + 1] == LF && b[at + 2] == CR && b[at + 3] == LF {
                    proof {
                        assert(blank_line_here(b@, at as int));
                        assert(ends_head(b@, at + 4));
                        lemma_head_end_is(b@, at + 4);
                    }
                    return Some(at + 4);
                }
                from = at + 1;
            },
        }
    }
    proof {
        assert forall|j: int| !blank_line_here(b@, j) by {}
    }
    None
}

/// ASCII white space: space, tab, line feed, form feed, carriage return.
pub open spec fn is_ascii_space(c: u8) -> bool {
    c == 0x20 || c == 0x09 || c == 0x0A || c == 0x0C || c == 0x0D
}

/// `b` without leading ASCII white space.
pub open spec fn ascii_trimmed_start(b: Seq<u8>) -> Seq<u8>
    decreases b.len(),
{
    if b.len() > 0 && is_ascii_space(b[0]) {
        ascii_trimmed_start(b.skip(1))
    } else {
        b
    }
}

/// `b` without trailing ASCII white space.
pub open spec fn ascii_trimmed_end(b: Seq<u8>) -> Seq<u8>
    decreases b.len(),
{
    if b.len() > 0 && is_ascii_space(b.last()) {
        ascii_trimmed_end(b.drop_last())
    } else {
        b
    }
}

fn ascii_space(c: u8) -> (r: bool)
    ensures
        r == is_ascii_space(c),
{
    c == 0x20 || c == 0x09 || c == 0x0A || c == 0x0C || c == 0x0D
}

/// Trims ASCII white space from both ends of a byte slice.
pub fn trim_ascii(b: &[u8]) -> (r: &[u8])
    ensures
        r@ == ascii_trimmed_end(ascii_trimmed_start(b@)),
{
    let mut lo: usize = 0;
    let n: usize = b.len();
    proof {
        assert(b@.skip(0) =~= b@);
    }
    while lo < n && ascii_space(b[lo])
        invariant
            lo <= n == b@.len(),
            ascii_trimmed_start(b@) == ascii_trimmed_start(b@.skip(lo as int)),
        decreases n - lo,
    {
        proof {
            assert(b@.skip(lo as int).skip(1) =~= b@.skip(lo + 1));
        }
        lo = lo + 1;
    }
    let ghost start = b@.skip(lo as int);
    let mut hi: usize = n;
    proof {
        assert(start =~= b@.subrange(lo as int, n as int));
    }
    while lo < hi && ascii_space(b[hi - 1])
        invariant
            lo <= hi <= n == b@.len(),
            ascii_trimmed_end(start) == ascii_trimmed_end(b@.subrange(lo as int, hi as int)),
        decreases hi,
    {
        proof {
            assert(b@.subrange(lo as int, hi as int).drop_last() =~= b@.subrange(
                lo as int,
                hi - 1,
            ));
        }
        hi = hi - 1;
    }
    vstd::slice::slice_subrange(b, lo, hi)
}

/// The value of a byte as a hexadecimal digit.
pub open spec fn hex_value(c: u8) -> Option<int> {
    if 0x30 <= c <= 0x39 {
        Some(c - 0x30)
    } else if 0x61 <= c <= 0x66 {
        Some(c - 0x61 + 10)
    } else if 0x41 <= c <= 0x46 {
        Some(c - 0x41 + 10)
    } else {
        None
    }
}

/// The value of a byte as a hexadecimal digit.
pub fn hex(c: u8) -> (r: Option<u8>)
    ensures
        match r {
            Some(d) => hex_value(c) == Some(d as int) && d < 16,
            None => hex_value(c) is None,
        },
{
    if 0x30 <= c && c <= 0x39 {
        Some(c - 0x30)
    } else if 0x61 <= c && c <= 0x66 {
        Some(c - 0x61 + 10)
    } else if 0x41 <= c && c <= 0x46 {
        Some(c - 0x41 + 10)
    } else {
        None
    }
}

/// The number that a string of hexadecimal digits writes.
pub open spec fn hex_number(b: Seq<u8>) -> Option<int>
    decreases b.len(),
{
    if b.len() == 0 {
        Some(0)
    } else {
        match (hex_number(b.drop_last()), hex_value(b.last())) {
            (Some(v), Some(d)) => Some(v * 16 + d),
            _ => None,
        }
    }
}

/// The size that a chunk-size field of one to sixteen digits states.
pub open spec fn chunk_size(b: Seq<u8>) -> Option<int> {
    if 1 <= b.len() <= 16 {
        hex_number(b)
    } else {
        None
    }
}

pub open spec fn pow16(n: nat) -> int
    decreases n,
{
    if n == 0 {
        1
    } else {
        16 * pow16((n - 1) as nat)
    }
}

proof fn lemma_hex_prefix(b: Seq<u8>, k: int)
    requires
        0 <= k <= b.len(),
        hex_number(b.take(k)) is None,
    ensures
        hex_number(b) is None,
    decreases b.len(),
{
    if k == b.len() {
        assert(b.take(k) =~= b);
    } else {
        assert(b.drop_last().take(k) =~= b.take(k));
        lemma_hex_prefix(b.drop_last(), k);
    }
}

proof fn lemma_pow16(n: nat)
    ensures
        pow16(n) >= 1,
        n <= 16 ==> pow16(n) <= 0x1_0000_0000_0000_0000,
{
    reveal_with_fuel(pow16, 18);
    lemma_pow16_positive(n);
}

proof fn lemma_pow16_positive(n: nat)
    ensures
        pow16(n) >= 1,
    decreases n,
{
    if n > 0 {
        lemma_pow16_positive((n - 1) as nat);
    }
}

proof fn lemma_hex_number_bound(b: Seq<u8>)
    ensures
        hex_number(b) matches Some(v) ==> 0 <= v < pow16(b.len()),
    decreases b.len(),
{
    if b.len() > 0 {
        lemma_hex_number_bound(b.drop_last());
    }
}

pub proof fn lemma_chunk_size_bound(b: Seq<u8>)
    ensures
        chunk_size(b) matches Some(v) ==> 0 <= v <= u64::MAX,
{
    lemma_hex_number_bound(b);
    lemma_pow16(b.len());
}

/// Reads a chunk size straight from bytes: one to sixteen hexadecimal digits
/// and nothing else.
pub fn parse_hex_u64(b: &[u8]) -> (r: Option<u64>)
    ensures
        match r {
            Some(v) => chunk_size(b@) == Some(v as int),
            None => chunk_size(b@) is None,
        },
{
    if b.len() == 0 || b.len() > 16 {
        return None;
    }
    let mut v: u64 = 0;
    let mut i: usize = 0;
    proof {
        assert(b@.take(0) =~= Seq::<u8>::empty());
    }
    while i < b.len()
        invariant
            i <= b@.len() <= 16,
            b@.len() >= 1,
            hex_number(b@.take(i as int)) == Some(v as int),
            0 <= v < pow16(i as nat),
        decreases b@.len() - i,
    {
        proof {
            assert(b@.take(i + 1).drop_last() =~= b@.take(i as int));
            assert(b@.take(i + 1).last() == b@[i as int]);
            lemma_pow16(i as nat);
            lemma_pow16((i + 1) as nat);
        }
        match hex(b[i]) {
            Some(d) => {
                proof {
                    assert(v < 0x1000_0000_0000_0000) by {
                        assert(pow16((i + 1) as nat) == 16 * pow16(i as nat));
                    }
                    let w = v;
                    let e = d;
                    assert((w << 4) | (e as u64) == w * 16 + e) by (bit_vector)
                        requires
                            w < 0x1000_0000_0000_0000u64,
                            e < 16u8,
                    ;
                }
                v = (v << 4) | (d as u64);
            },
            None => {
                proof {
                    lemma_hex_prefix(b@, i + 1);
                }
                return None;
            },
        }
        i = i + 1;
    }
    proof {
        assert(b@.take(i as int) =~= b@);
    }
    Some(v)
}

/// A head ends just behind its first blank line, and one without a blank line
/// has not ended.
pub proof fn law_a_head_ends_behind_its_first_blank_line(b: Seq<u8>, n: int)
    ensures
        head_end(b) == Some(n) <==> 4 <= n <= b.len() && b.subrange(n - 4, n) == seq![
            13u8,
            10u8,
            13u8,
            10u8,
        ] && forall|m: int|
            4 <= m < n ==> #[trigger] b.subrange(m - 4, m) != seq![13u8, 10u8, 13u8, 10u8],
        head_end(b) is None <==> forall|m: int|
            4 <= m <= b.len() ==> #[trigger] b.subrange(m - 4, m) != seq![13u8, 10u8, 13u8, 10u8],
{
    let mark = seq![13u8, 10u8, 13u8, 10u8];
    assert forall|m: int| 4 <= m <= b.len() implies #[trigger] blank_line_here(b, m - 4) == (
    b.subrange(m - 4, m) == mark) by {
        let part = b.subrange(m - 4, m);
        assert(part[0] == b[m - 4] && part[1] == b[m - 3] && part[2] == b[m - 2] && part[3] == b[m
            - 1]);
        if blank_line_here(b, m - 4) {
            assert(part =~= mark);
        }
        if part == mark {
            assert(mark[0] == 13u8 && mark[1] == 10u8 && mark[2] == 13u8 && mark[3] == 10u8);
        }
    }
    assert forall|m: int| ends_head(b, m) implies head_end(b) == Some(m) by {
        let k = choose|k: int| ends_head(b, k);
        assert(ends_head(b, k));
        if k < m {
            assert(!blank_line_here(b, k - 4));
        } else if m < k {
            assert(!blank_line_here(b, m - 4));
        }
    }
    if head_end(b) == Some(n) {
        assert(ends_head(b, n));
        assert(blank_line_here(b, n - 4));
        assert forall|m: int| 4 <= m < n implies #[trigger] b.subrange(m - 4, m) != mark by {
            assert(!blank_line_here(b, m - 4));
        }
    }
    if 4 <= n <= b.len() && b.subrange(n - 4, n) == mark && (forall|m: int|
        4 <= m < n ==> #[trigger] b.subrange(m - 4, m) != mark) {
        assert(blank_line_here(b, n - 4));
        assert forall|j: int| 0 <= j < n - 4 implies !blank_line_here(b, j) by {
            assert(b.subrange(j + 4 - 4, j + 4) != mark);
            assert(blank_line_here(b, (j + 4) - 4) == (b.subrange((j + 4) - 4, j + 4) == mark));
        }
        assert(ends_head(b, n));
    }
    if head_end(b) is None {
        assert forall|m: int| 4 <= m <= b.len() implies #[trigger] b.subrange(m - 4, m) != mark by {
            if b.subrange(m - 4, m) == mark {
                assert(blank_line_here(b, m - 4));
                lemma_some_head_end(b, m - 4);
            }
        }
    } else {
        let k = head_end(b)->0;
        assert(ends_head(b, k));
        assert(blank_line_here(b, k - 4));
        assert(b.subrange(k - 4, k) == mark);
    }
}

proof fn lemma_some_head_end(b: Seq<u8>, i: int)
    requires
        blank_line_here(b, i),
    ensures
        exists|n: int| ends_head(b, n),
    decreases i,
{
    if exists|j: int| 0 <= j < i && blank_line_here(b, j) {
        let j = choose|j: int| 0 <= j < i && blank_line_here(b, j);
        lemma_some_head_end(b, j);
    } else {
        assert(ends_head(b, i + 4));
    }
}

/// The first line end is the first place where a carriage return is followed by
/// a line feed.
pub proof fn law_the_first_line_end_comes_first(b: Seq<u8>, i: int)
    ensures
        first_crlf(b) == Some(i) ==> 0 <= i && i + 2 <= b.len() && b[i] == 13 && b[i + 1] == 10,
        first_crlf(b) == Some(i) ==> forall|j: int|
            0 <= j < i ==> !(#[trigger] b[j] == 13 && b[j + 1] == 10),
        first_crlf(b) is None && 0 <= i && i + 2 <= b.len() ==> !(b[i] == 13 && b[i + 1] == 10),
{
    lemma_first_crlf(b);
    if first_crlf(b) == Some(i) {
        assert forall|j: int| 0 <= j < i implies !(#[trigger] b[j] == 13 && b[j + 1] == 10) by {
            assert(!crlf_here(b, j));
        }
    }
    if first_crlf(b) is None {
        assert(!crlf_here(b, i));
    }
}

/// Trimming bytes takes ASCII white space off the ends and nothing else.
pub proof fn law_trimming_bytes_takes_white_space_only(b: Seq<u8>) -> (r: (int, int))
    ensures
        0 <= r.0 <= r.1 <= b.len(),
        ascii_trimmed_end(ascii_trimmed_start(b)) == b.subrange(r.0, r.1),
        forall|i: int|
            0 <= i < r.0 || r.1 <= i < b.len() ==> #[trigger] b[i] == 0x20 || b[i] == 0x09 || b[i]
                == 0x0A || b[i] == 0x0C || b[i] == 0x0D,
        r.0 < r.1 ==> b[r.0] != 0x20 && b[r.0] != 0x09 && b[r.1 - 1] != 0x20 && b[r.1 - 1] != 0x09
            && b[r.1 - 1] != 0x0D && b[r.1 - 1] != 0x0A,
{
    lemma_ascii_start(b);
    let t = ascii_trimmed_start(b);
    let a = b.len() - t.len();
    lemma_ascii_end(t);
    let n = ascii_trimmed_end(t).len() as int;
    assert(ascii_trimmed_end(t) =~= b.subrange(a, a + n));
    assert forall|i: int| 0 <= i < a || a + n <= i < b.len() implies #[trigger] b[i] == 0x20 || b[i]
        == 0x09 || b[i] == 0x0A || b[i] == 0x0C || b[i] == 0x0D by {
        if i >= a {
            assert(b[i] == t[i - a]);
            assert(is_ascii_space(t[i - a]));
        } else {
            assert(is_ascii_space(b[i]));
        }
    }
    if n > 0 {
        assert(b[a] == t[0]);
        assert(b[a + n - 1] == ascii_trimmed_end(t).last());
    }
    (a, a + n)
}

proof fn lemma_ascii_start(s: Seq<u8>)
    ensures
        ascii_trimmed_start(s).len() <= s.len(),
        ascii_trimmed_start(s) == s.skip(s.len() - ascii_trimmed_start(s).len()),
        forall|i: int|
            0 <= i < s.len() - ascii_trimmed_start(s).len() ==> is_ascii_space(#[trigger] s[i]),
        ascii_trimmed_start(s).len() > 0 ==> !is_ascii_space(ascii_trimmed_start(s)[0]),
    decreases s.len(),
{
    if s.len() > 0 && is_ascii_space(s[0]) {
        let t = s.skip(1);
        lemma_ascii_start(t);
        let n = s.len() - ascii_trimmed_start(s).len();
        assert(s.skip(n) =~= t.skip(n - 1));
        assert forall|i: int| 0 <= i < n implies is_ascii_space(#[trigger] s[i]) by {
            if i > 0 {
                assert(s[i] == t[i - 1]);
            }
        }
    } else {
        assert(s.skip(0) =~= s);
    }
}

proof fn lemma_ascii_end(s: Seq<u8>)
    ensures
        ascii_trimmed_end(s).len() <= s.len(),
        ascii_trimmed_end(s) == s.take(ascii_trimmed_end(s).len() as int),
        forall|i: int|
            ascii_trimmed_end(s).len() <= i < s.len() ==> is_ascii_space(#[trigger] s[i]),
        ascii_trimmed_end(s).len() > 0 ==> !is_ascii_space(ascii_trimmed_end(s).last()),
    decreases s.len(),
{
    if s.len() > 0 && is_ascii_space(s.last()) {
        let t = s.drop_last();
        lemma_ascii_end(t);
        let n = ascii_trimmed_end(s).len() as int;
        assert(s.take(n) =~= t.take(n));
        assert forall|i: int| n <= i < s.len() implies is_ascii_space(#[trigger] s[i]) by {
            if i < t.len() {
                assert(s[i] == t[i]);
            }
        }
    } else {
        assert(s.take(s.len() as int) =~= s);
    }
}

/// Hexadecimal digits count by their place, in either case, and nothing else is
/// a digit; a size has from one to sixteen of them.
pub proof fn law_hexadecimal_digits_count_by_their_place(b: Seq<u8>, c: u8)
    ensures
        hex_number(Seq::<u8>::empty()) == Some(0int),
        hex_number(b) is Some && 0x30 <= c <= 0x39 ==> hex_number(b.push(c)) == Some(
            hex_number(b)->0 * 16 + (c - 0x30),
        ),
        hex_number(b) is Some && 0x61 <= c <= 0x66 ==> hex_number(b.push(c)) == Some(
            hex_number(b)->0 * 16 + (c - 0x61 + 10),
        ),
        hex_number(b) is Some && 0x41 <= c <= 0x46 ==> hex_number(b.push(c)) == Some(
            hex_number(b)->0 * 16 + (c - 0x41 + 10),
        ),
        hex_number(b) is None || !(0x30 <= c <= 0x39 || 0x61 <= c <= 0x66 || 0x41 <= c <= 0x46)
            ==> hex_number(b.push(c)) is None,
        b.len() == 0 || b.len() > 16 ==> chunk_size(b) is None,
        1 <= b.len() <= 16 ==> chunk_size(b) == hex_number(b),
{
    assert(b.push(c).drop_last() =~= b);
}

/// The text of the bytes that encode a text is that text.
pub proof fn law_encoded_text_reads_back(s: Seq<char>)
    ensures
        as_text(vstd::utf8::encode_utf8(s)) == s,
{
    vstd::utf8::encode_utf8_valid_utf8(s);
    vstd::utf8::encode_utf8_decode_utf8(s);
}

} // verus!
