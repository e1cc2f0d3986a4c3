//! Text handling over characters: trimming, searching, splitting, case
//! folding, and the decimal and hexadecimal forms of unsigned numbers.
//!
//! Every function reads a string as the sequence of its characters, which is
//! what the contracts speak of.

use vstd::prelude::*;

verus! {

/// `String::push` appends one character to the end.
pub assume_specification[ String::push ](s: &mut String, c: char)
    ensures
        final(s)@ == old(s)@.push(c),
;

/// The characters with the Unicode `White_Space` property.
pub open spec fn is_space(c: char) -> bool {
    let n = c as u32;
    ||| 0x09 <= n <= 0x0D
    ||| n == 0x20
    ||| n == 0x85
    ||| n == 0xA0
    ||| n == 0x1680
    ||| 0x2000 <= n <= 0x200A
    ||| n == 0x2028
    ||| n == 0x2029
    ||| n == 0x202F
    ||| n == 0x205F
    ||| n == 0x3000
}

/// Whether `c` is Unicode white space.
pub fn is_whitespace(c: char) -> (r: bool)
    ensures
        r == is_space(c),
{
    let n: u32 = c as u32;
    (0x09 <= n && n <= 0x0D) || n == 0x20 || n == 0x85 || n == 0xA0 || n == 0x1680 || (0x2000 <= n
        && n <= 0x200A) || n == 0x2028 || n == 0x2029 || n == 0x202F || n == 0x205F || n == 0x3000
}

/// The characters of `s`, in order.
pub fn chars_of(s: &str) -> (r: Vec<char>)
    ensures
        r@ == s@,
{
    let mut out: Vec<char> = Vec::new();
    for c in iter: s.chars()
        invariant
            iter.seq() == s@,
            out@ == s@.take(iter.index() as int),
    {
        out.push(c);
    }
    proof {
        assert(s@.take(s@.len() as int) =~= s@);
    }
    out
}

/// The string made of the characters `s`.
pub fn string_of(s: &[char]) -> (r: String)
    ensures
        r@ == s@,
{
    let mut out = String::new();
    let mut i: usize = 0;
    while i < s.len()
        invariant
            i <= s@.len(),
            out@ == s@.take(i as int),
        decreases s@.len() - i,
    {
        out.push(s[i]);
        i = i + 1;
        proof {
            assert(s@.take(i as int) =~= s@.take(i - 1).push(s@[i - 1]));
        }
    }
    proof {
        assert(s@.take(s@.len() as int) =~= s@);
    }
    out
}

/// `s` without its leading white space.
pub open spec fn trimmed_start(s: Seq<char>) -> Seq<char>
    decreases s.len(),
{
    if s.len() > 0 && is_space(s[0]) {
        trimmed_start(s.skip(1))
    } else {
        s
    }
}

/// `s` without its trailing white space.
pub open spec fn trimmed_end(s: Seq<char>) -> Seq<char>
    decreases s.len(),
{
    if s.len() > 0 && is_space(s.last()) {
        trimmed_end(s.drop_last())
    } else {
        s
    }
}

/// `s` without white space at either end.
pub open spec fn trimmed(s: Seq<char>) -> Seq<char> {
    trimmed_end(trimmed_start(s))
}

/// Removes leading white space.
pub fn trim_start(s: &[char]) -> (r: &[char])
    ensures
        r@ == trimmed_start(s@),
{
    let n: usize = s.len();
    let mut i: usize = 0;
    proof {
        assert(s@.skip(0) =~= s@);
    }
    while i < n && is_whitespace(s[i])
        invariant
            i <= n == s@.len(),
            trimmed_start(s@) == trimmed_start(s@.skip(i as int)),
        decreases n - i,
    {
        proof {
            assert(s@.skip(i as int).skip(1) =~= s@.skip(i + 1));
        }
        i = i + 1;
    }
    proof {
        assert(s@.skip(i as int) =~= s@.subrange(i as int, n as int));
    }
    vstd::slice::slice_subrange(s, i, n)
}

/// Removes trailing white space.
pub fn trim_end(s: &[char]) -> (r: &[char])
    ensures
        r@ == trimmed_end(s@),
{
    let mut n: usize = s.len();
    proof {
        assert(s@.take(n as int) =~= s@);
    }
    while n > 0 && is_whitespace(s[n - 1])
        invariant
            n <= s@.len(),
            trimmed_end(s@) == trimmed_end(s@.take(n as int)),
        decreases n,
    {
        proof {
            assert(s@.take(n as int).drop_last() =~= s@.take(n - 1));
        }
        n = n - 1;
    }
    proof {
        assert(s@.take(n as int) =~= s@.subrange(0, n as int));
    }
    vstd::slice::slice_subrange(s, 0, n)
}

/// Removes white space from both ends.
pub fn trim(s: &[char]) -> (r: &[char])
    ensures
        r@ == trimmed(s@),
{
    trim_end(trim_start(s))
}

/// The position of the first `c` in `s`, or the length of `s` where there is
/// none.
pub open spec fn first_of(s: Seq<char>, c: char) -> int
    decreases s.len(),
{
    if s.len() == 0 || s[0] == c {
        0
    } else {
        1 + first_of(s.skip(1), c)
    }
}

/// The position just past the last `c` in `s`, or zero where there is none.
pub open spec fn past_last(s: Seq<char>, c: char) -> int
    decreases s.len(),
{
    if s.len() == 0 || s.last() == c {
        s.len() as int
    } else {
        past_last(s.drop_last(), c)
    }
}

pub proof fn lemma_first_of(s: Seq<char>, c: char)
    ensures
        0 <= first_of(s, c) <= s.len(),
        forall|j: int| 0 <= j < first_of(s, c) ==> s[j] != c,
        first_of(s, c) < s.len() ==> s[first_of(s, c)] == c,
    decreases s.len(),
{
    if s.len() == 0 || s[0] == c {
    } else {
        let t = s.skip(1);
        lemma_first_of(t, c);
        assert forall|j: int| 0 <= j < first_of(s, c) implies s[j] != c by {
            if j > 0 {
                assert(s[j] == t[j - 1]);
            }
        }
    }
}

pub proof fn lemma_first_of_at(s: Seq<char>, c: char, k: int)
    requires
        0 <= k <= s.len(),
        forall|j: int| 0 <= j < k ==> s[j] != c,
        k < s.len() ==> s[k] == c,
    ensures
        first_of(s, c) == k,
{
    lemma_first_of(s, c);
}

pub proof fn lemma_past_last(s: Seq<char>, c: char)
    ensures
        0 <= past_last(s, c) <= s.len(),
        forall|j: int| past_last(s, c) <= j < s.len() ==> s[j] != c,
        past_last(s, c) > 0 ==> s[past_last(s, c) - 1] == c,
    decreases s.len(),
{
    if s.len() == 0 || s.last() == c {
    } else {
        let t = s.drop_last();
        lemma_past_last(t, c);
        assert forall|j: int| past_last(s, c) <= j < s.len() implies s[j] != c by {
            if j < t.len() {
                assert(s[j] == t[j]);
            }
        }
    }
}

pub proof fn lemma_past_last_at(s: Seq<char>, c: char, k: int)
    requires
        0 <= k <= s.len(),
        forall|j: int| k <= j < s.len() ==> s[j] != c,
        k > 0 ==> s[k - 1] == c,
    ensures
        past_last(s, c) == k,
{
    lemma_past_last(s, c);
    if past_last(s, c) < k {
        assert(s[k - 1] != c);
    }
}

/// Finds the first `c`.
pub fn find_char(s: &[char], c: char) -> (r: Option<usize>)
    ensures
        match r {
            Some(i) => i == first_of(s@, c) && i < s@.len(),
            None => first_of(s@, c) == s@.len(),
        },
{
    let mut i: usize = 0;
    while i < s.len()
        invariant
            i <= s@.len(),
            forall|j: int| 0 <= j < i ==> s@[j] != c,
        decreases s@.len() - i,
    {
        if s[i] == c {
            proof {
                lemma_first_of_at(s@, c, i as int);
            }
            return Some(i);
        }
        i = i + 1;
    }
    proof {
        lemma_first_of_at(s@, c, i as int);
    }
    None
}

/// The part of `s` before the first `c`, or all of it.
pub open spec fn before_first(s: Seq<char>, c: char) -> Seq<char> {
    s.take(first_of(s, c))
}

/// The part of `s` after the last `c`, or all of it.
pub open spec fn after_last(s: Seq<char>, c: char) -> Seq<char> {
    s.skip(past_last(s, c))
}

/// Cuts `s` off at the first `c`.
pub fn cut_before(s: &[char], c: char) -> (r: &[char])
    ensures
        r@ == before_first(s@, c),
{
    proof {
        lemma_first_of(s@, c);
        assert(s@.take(first_of(s@, c)) =~= s@.subrange(0, first_of(s@, c)));
    }
    match find_char(s, c) {
        Some(i) => vstd::slice::slice_subrange(s, 0, i),
        None => vstd::slice::slice_subrange(s, 0, s.len()),
    }
}

/// Keeps what follows the last `c`.
pub fn cut_after_last(s: &[char], c: char) -> (r: &[char])
    ensures
        r@ == after_last(s@, c),
{
    let mut n: usize = s.len();
    while n > 0 && s[n - 1] != c
        invariant
            n <= s@.len(),
            forall|j: int| n <= j < s@.len() ==> s@[j] != c,
        decreases n,
    {
        n = n - 1;
    }
    proof {
        lemma_past_last_at(s@, c, n as int);
        assert(s@.skip(n as int) =~= s@.subrange(n as int, s@.len() as int));
    }
    vstd::slice::slice_subrange(s, n, s.len())
}

/// Whether `p` stands in `s` at position `i`.
pub open spec fn stands_at(s: Seq<char>, p: Seq<char>, i: int) -> bool {
    0 <= i && i + p.len() <= s.len() && s.subrange(i, i + p.len()) == p
}

/// Whether `p` occurs in `s`.
pub open spec fn occurs(s: Seq<char>, p: Seq<char>) -> bool {
    exists|i: int| stands_at(s, p, i)
}

/// Whether `p` stands at position `i` of `s`.
pub fn matches_at(s: &[char], p: &[char], i: usize) -> (r: bool)
    ensures
        r == stands_at(s@, p@, i as int),
{
    if i > s.len() || p.len() > s.len() - i {
        return false;
    }
    let mut k: usize = 0;
    while k < p.len()
        invariant
            k <= p@.len(),
            i + p@.len() <= s@.len(),
            i <= s.len() - p.len(),
            forall|j: int| 0 <= j < k ==> s@[i + j] == p@[j],
        decreases p@.len() - k,
    {
        if s[i + k] != p[k] {
            proof {
                assert(s@.subrange(i as int, i + p@.len())[k as int] == s@[i + k]);
            }
            return false;
        }
        k = k + 1;
    }
    proof {
        assert(s@.subrange(i as int, i + p@.len()) =~= p@);
    }
    true
}

/// Finds the first place where `p` stands in `s`.
pub fn find_text(s: &[char], p: &[char]) -> (r: Option<usize>)
    ensures
        match r {
            Some(i) => stands_at(s@, p@, i as int) && forall|j: int|
                0 <= j < i ==> !stands_at(s@, p@, j),
            None => !occurs(s@, p@),
        },
{
    let mut i: usize = 0;
    while i < s.len()
        invariant
            i <= s@.len(),
            forall|j: int| 0 <= j < i ==> !stands_at(s@, p@, j),
        decreases s@.len() - i,
    {
        if matches_at(s, p, i) {
            return Some(i);
        }
        i = i + 1;
    }
    if p.len() == 0 {
        proof {
            assert(s@.subrange(i as int, i as int) =~= p@);
        }
        return Some(i);
    }
    None
}

/// Whether `p` occurs in `s`.
pub fn contains_text(s: &[char], p: &[char]) -> (r: bool)
    ensures
        r == occurs(s@, p@),
{
    match find_text(s, p) {
        Some(i) => {
            proof {
                assert(stands_at(s@, p@, i as int));
            }
            true
        },
        None => false,
    }
}

/// Whether `s` begins with `p`.
pub open spec fn begins(s: Seq<char>, p: Seq<char>) -> bool {
    stands_at(s, p, 0)
}

/// Whether `s` begins with `p`.
pub fn starts_with(s: &[char], p: &[char]) -> (r: bool)
    ensures
        r == begins(s@, p@),
{
    matches_at(s, p, 0)
}

/// Whether two slices hold the same characters.
pub fn same_text(a: &[char], b: &[char]) -> (r: bool)
    ensures
        r == (a@ == b@),
{
    if a.len() != b.len() {
        return false;
    }
    let r = matches_at(a, b, 0);
    proof {
        assert(a@.subrange(0, b@.len() as int) =~= a@);
    }
    r
}

/// Whether two strings hold the same characters.
pub fn same_str(a: &str, b: &str) -> (r: bool)
    ensures
        r == (a@ == b@),
{
    let x = chars_of(a);
    let y = chars_of(b);
    same_text(x.as_slice(), y.as_slice())
}

/// A character with the ASCII letters folded to lower case.
pub open spec fn lower(c: char) -> char {
    if 'A' <= c <= 'Z' {
        (c as u32 + 32) as char
    } else {
        c
    }
}

/// A text with its ASCII letters folded to lower case.
pub open spec fn lowered(s: Seq<char>) -> Seq<char> {
    Seq::new(s.len(), |i: int| lower(s[i]))
}

/// Folds one character to lower case, where it is an ASCII letter.
pub fn lower_char(c: char) -> (r: char)
    ensures
        r == lower(c),
{
    if 'A' <= c && c <= 'Z' {
        (c as u8 + 32) as char
    } else {
        c
    }
}

/// Folds the ASCII letters of a text to lower case.
pub fn to_lower(s: &[char]) -> (r: Vec<char>)
    ensures
        r@ == lowered(s@),
{
    let mut out: Vec<char> = Vec::new();
    let mut i: usize = 0;
    while i < s.len()
        invariant
            i <= s@.len(),
            out@.len() == i,
            forall|j: int| 0 <= j < i ==> out@[j] == lower(s@[j]),
        decreases s@.len() - i,
    {
        out.push(lower_char(s[i]));
        i = i + 1;
    }
    proof {
        assert(out@ =~= lowered(s@));
    }
    out
}

/// The length of the longest prefix of `s` without white space.
pub open spec fn word_len(s: Seq<char>) -> int
    decreases s.len(),
{
    if s.len() == 0 || is_space(s[0]) {
        0
    } else {
        1 + word_len(s.skip(1))
    }
}

/// The `n`-th of the words of `s`, counted from zero, where words are the
/// longest stretches without white space.
pub open spec fn nth_word(s: Seq<char>, n: nat) -> Option<Seq<char>>
    decreases n,
{
    let t = trimmed_start(s);
    if t.len() == 0 {
        None
    } else if n == 0 {
        Some(t.take(word_len(t)))
    } else {
        nth_word(t.skip(word_len(t)), (n - 1) as nat)
    }
}

fn word_end(s: &[char]) -> (r: usize)
    ensures
        r == word_len(s@),
        r <= s@.len(),
{
    let mut i: usize = 0;
    proof {
        assert(s@.skip(0) =~= s@);
    }
    while i < s.len() && !is_whitespace(s[i])
        invariant
            i <= s@.len(),
            word_len(s@) == i + word_len(s@.skip(i as int)),
        decreases s@.len() - i,
    {
        proof {
            assert(s@.skip(i as int).skip(1) =~= s@.skip(i + 1));
        }
        i = i + 1;
    }
    i
}

/// Picks the `n`-th word, counted from zero.
pub fn word_at(s: &[char], n: usize) -> (r: Option<&[char]>)
    ensures
        match r {
            Some(w) => nth_word(s@, n as nat) == Some(w@),
            None => nth_word(s@, n as nat) is None,
        },
    decreases n,
{
    let t = trim_start(s);
    if t.len() == 0 {
        return None;
    }
    let k: usize = word_end(t);
    proof {
        assert(t@.take(k as int) =~= t@.subrange(0, k as int));
        assert(t@.skip(k as int) =~= t@.subrange(k as int, t@.len() as int));
    }
    if n == 0 {
        Some(vstd::slice::slice_subrange(t, 0, k))
    } else {
        word_at(vstd::slice::slice_subrange(t, k, t.len()), n - 1)
    }
}

/// The texts that a vector of vectors holds.
pub open spec fn views(v: Seq<Vec<char>>) -> Seq<Seq<char>> {
    Seq::new(v.len(), |i: int| v[i]@)
}

/// The texts that a vector of strings holds.
pub open spec fn texts(v: Seq<String>) -> Seq<Seq<char>> {
    Seq::new(v.len(), |i: int| v[i]@)
}

/// The text of an optional string.
pub open spec fn text_of(s: Option<String>) -> Option<Seq<char>> {
    match s {
        Some(t) => Some(t@),
        None => None,
    }
}

/// The position of the first `"\r\n"` in `s`, or the length of `s`.
pub open spec fn crlf_at(s: Seq<char>) -> int
    decreases s.len(),
{
    if s.len() < 2 {
        s.len() as int
    } else if s[0] == '\r' && s[1] == '\n' {
        0
    } else {
        1 + crlf_at(s.skip(1))
    }
}

/// The pieces of `s` between its `"\r\n"` pairs.
pub open spec fn crlf_split(s: Seq<char>) -> Seq<Seq<char>>
    decreases s.len(),
{
    let i = crlf_at(s);
    if i < 0 || i + 2 > s.len() {
        seq![s]
    } else {
        seq![s.take(i)] + crlf_split(s.skip(i + 2))
    }
}

pub proof fn lemma_crlf_at(s: Seq<char>)
    ensures
        0 <= crlf_at(s) <= s.len(),
        crlf_at(s) < s.len() ==> crlf_at(s) + 2 <= s.len() && s[crlf_at(s)] == '\r' && s[crlf_at(s)
            + 1] == '\n',
        forall|j: int|
            0 <= j < crlf_at(s) && j + 1 < s.len() ==> !(#[trigger] s[j] == '\r' && s[j + 1]
                == '\n'),
    decreases s.len(),
{
    if s.len() < 2 || (s[0] == '\r' && s[1] == '\n') {
    } else {
        let t = s.skip(1);
        lemma_crlf_at(t);
        assert forall|j: int| 0 <= j < crlf_at(s) && j + 1 < s.len() implies !(#[trigger] s[j]
            == '\r' && s[j + 1] == '\n') by {
            if j > 0 {
                assert(s[j] == t[j - 1] && s[j + 1] == t[j]);
            }
        }
    }
}

fn find_crlf_from(s: &[char], from: usize) -> (r: usize)
    requires
        from <= s@.len(),
    ensures
        r == from + crlf_at(s@.skip(from as int)),
        from <= r <= s@.len(),
        r < s@.len() ==> r + 2 <= s@.len(),
{
    let n: usize = s.len();
    let mut i: usize = from;
    while i < n
        invariant
            from <= i <= n == s@.len(),
            crlf_at(s@.skip(from as int)) == (i - from) + crlf_at(s@.skip(i as int)),
        decreases n - i,
    {
        if n - i < 2 {
            return n;
        }
        if s[i] == '\r' && s[i + 1] == '\n' {
            return i;
        }
        proof {
            assert(s@.skip(i as int).skip(1) =~= s@.skip(i + 1));
        }
        i = i + 1;
    }
    n
}

/// Splits a text at every `"\r\n"`.
pub fn split_crlf(s: &[char]) -> (r: Vec<Vec<char>>)
    ensures
        views(r@) == crlf_split(s@),
        r@.len() > 0,
{
    let n: usize = s.len();
    let mut out: Vec<Vec<char>> = Vec::new();
    let mut pos: usize = 0;
    proof {
        assert(s@.skip(0) =~= s@);
        assert(views(out@) + crlf_split(s@) =~= crlf_split(s@));
    }
    loop
        invariant
            pos <= n == s@.len(),
            views(out@) + crlf_split(s@.skip(pos as int)) == crlf_split(s@),
        decreases n - pos,
    {
        let i: usize = find_crlf_from(s, pos);
        let ghost rest = s@.skip(pos as int);
        let ghost before = views(out@);
        proof {
            lemma_crlf_at(rest);
        }
        let piece = vstd::slice::slice_to_vec(vstd::slice::slice_subrange(s, pos, i));
        out.push(piece);
        proof {
            assert(views(out@) =~= before.push(s@.subrange(pos as int, i as int)));
        }
        if i >= n {
            proof {
                assert(rest =~= s@.subrange(pos as int, i as int));
                assert(before + seq![rest] =~= before.push(rest));
            }
            return out;
        }
        proof {
            let k = i - pos;
            assert(rest.take(k) =~= s@.subrange(pos as int, i as int));
            assert(rest.skip(k + 2) =~= s@.skip(i + 2));
            assert(before + (seq![rest.take(k)] + crlf_split(rest.skip(k + 2))) =~= before.push(
                rest.take(k),
            ) + crlf_split(rest.skip(k + 2)));
        }
        pos = i + 2;
    }
}

/// A line without the `'\r'` that came before its line feed.
pub open spec fn without_cr(s: Seq<char>) -> Seq<char> {
    if s.len() > 0 && s.last() == '\r' {
        s.drop_last()
    } else {
        s
    }
}

/// The lines of `s`: each ends at a line feed, which a carriage return may
/// precede, and the last may lack one.
pub open spec fn line_split(s: Seq<char>) -> Seq<Seq<char>>
    decreases s.len(),
{
    if s.len() == 0 {
        Seq::empty()
    } else {
        let i = first_of(s, '\n');
        if i < 0 || i >= s.len() {
            seq![s]
        } else {
            seq![without_cr(s.take(i))] + line_split(s.skip(i + 1))
        }
    }
}

/// Splits a text into its lines.
pub fn split_lines(s: &[char]) -> (r: Vec<Vec<char>>)
    ensures
        views(r@) == line_split(s@),
{
    let n: usize = s.len();
    let mut out: Vec<Vec<char>> = Vec::new();
    let mut pos: usize = 0;
    proof {
        assert(s@.skip(0) =~= s@);
        assert(views(out@) + line_split(s@) =~= line_split(s@));
    }
    while pos < n
        invariant
            pos <= n == s@.len(),
            views(out@) + line_split(s@.skip(pos as int)) == line_split(s@),
        decreases n - pos,
    {
        let rest = vstd::slice::slice_subrange(s, pos, n);
        let ghost before = views(out@);
        proof {
            assert(rest@ =~= s@.skip(pos as int));
            lemma_first_of(rest@, '\n');
        }
        match find_char(rest, '\n') {
            Some(i) => {
                let mut end: usize = i;
                if end > 0 && rest[end - 1] == '\r' {
                    end = end - 1;
                }
                let piece = vstd::slice::slice_to_vec(vstd::slice::slice_subrange(rest, 0, end));
                out.push(piece);
                proof {
                    assert(without_cr(rest@.take(i as int)) =~= rest@.subrange(0, end as int));
                    assert(rest@.skip(i + 1) =~= s@.skip(pos + i + 1));
                    assert(views(out@) =~= before.push(rest@.subrange(0, end as int)));
                    assert(before + (seq![rest@.subrange(0, end as int)] + line_split(
                        rest@.skip(i + 1),
                    )) =~= before.push(rest@.subrange(0, end as int)) + line_split(
                        rest@.skip(i + 1),
                    ));
                }
                pos = pos + i + 1;
            },
            None => {
                out.push(vstd::slice::slice_to_vec(rest));
                proof {
                    assert(views(out@) =~= before.push(rest@));
                    assert(before + seq![rest@] =~= before.push(rest@));
                    assert(s@.skip(n as int) =~= Seq::<char>::empty());
                    assert(views(out@) + Seq::<Seq<char>>::empty() =~= views(out@));
                }
                pos = n;
            },
        }
    }
    proof {
        assert(s@.skip(n as int) =~= Seq::<char>::empty());
        assert(views(out@) + Seq::<Seq<char>>::empty() =~= views(out@));
    }
    out
}

/// The value of `c` as a digit in base ten or sixteen.
pub open spec fn digit_value(c: char, radix: int) -> Option<int> {
    let d = if '0' <= c <= '9' {
        c as int - '0' as int
    } else if 'a' <= c <= 'f' {
        c as int - 'a' as int + 10
    } else if 'A' <= c <= 'F' {
        c as int - 'A' as int + 10
    } else {
        99
    };
    if d < radix {
        Some(d)
    } else {
        None
    }
}

/// The number that the digits `s` write, where every character is a digit.
pub open spec fn digits_value(s: Seq<char>, radix: int) -> Option<int>
    decreases s.len(),
{
    if s.len() == 0 {
        Some(0)
    } else {
        match (digits_value(s.drop_last(), radix), digit_value(s.last(), radix)) {
            (Some(v), Some(d)) => Some(v * radix + d),
            _ => None,
        }
    }
}

/// The number that `s` writes: an optional plus sign and at least one digit,
/// with a value of at most `max`.
pub open spec fn number(s: Seq<char>, radix: int, max: int) -> Option<int> {
    let body = if s.len() > 0 && s[0] == '+' {
        s.skip(1)
    } else {
        s
    };
    if body.len() == 0 {
        None
    } else {
        match digits_value(body, radix) {
            Some(v) => if v <= max {
                Some(v)
            } else {
                None
            },
            None => None,
        }
    }
}

proof fn lemma_digits_prefix(s: Seq<char>, radix: int, k: int)
    requires
        0 <= k <= s.len(),
        radix >= 1,
    ensures
        digits_value(s, radix) matches Some(v) ==> digits_value(s.take(k), radix) matches Some(w)
            && 0 <= w <= v,
    decreases s.len(),
{
    if s.len() == 0 {
        assert(s.take(k) =~= s);
    } else if k == s.len() {
        assert(s.take(k) =~= s);
        lemma_digits_prefix(s.drop_last(), radix, k - 1);
        if let Some(v) = digits_value(s, radix) {
            lemma_digits_prefix(s.drop_last(), radix, s.len() - 1);
            let w = digits_value(s.drop_last(), radix)->0;
            assert(w >= 0) by {
                assert(s.drop_last().take(s.len() - 1) =~= s.drop_last());
            }
            assert(w * radix >= 0) by (nonlinear_arith)
                requires
                    w >= 0,
                    radix >= 1,
            ;
        }
    } else {
        assert(s.drop_last().take(k) =~= s.take(k));
        lemma_digits_prefix(s.drop_last(), radix, k);
        if let Some(v) = digits_value(s, radix) {
            let w = digits_value(s.drop_last(), radix)->0;
            assert(w * radix >= w) by (nonlinear_arith)
                requires
                    w >= 0,
                    radix >= 1,
            ;
        }
    }
}

pub proof fn lemma_number_bound(s: Seq<char>, radix: int, max: int)
    requires
        radix >= 1,
    ensures
        number(s, radix, max) matches Some(v) ==> 0 <= v <= max,
{
    let body = if s.len() > 0 && s[0] == '+' {
        s.skip(1)
    } else {
        s
    };
    lemma_digits_prefix(body, radix, body.len() as int);
    assert(body.take(body.len() as int) =~= body);
}

fn digit_of(c: char, radix: u64) -> (r: Option<u64>)
    ensures
        match r {
            Some(d) => digit_value(c, radix as int) == Some(d as int) && d < radix,
            None => digit_value(c, radix as int) is None,
        },
{
    let n: u32 = c as u32;
    let d: u64 = if '0' <= c && c <= '9' {
        (n - 0x30) as u64
    } else if 'a' <= c && c <= 'f' {
        (n - 0x61 + 10) as u64
    } else if 'A' <= c && c <= 'F' {
        (n - 0x41 + 10) as u64
    } else {
        99
    };
    if d < radix {
        Some(d)
    } else {
        None
    }
}

/// Reads an unsigned number in base ten or sixteen: an optional plus sign,
/// at least one digit, and a value of at most `max`.
pub fn parse_number(s: &[char], radix: u64, max: u64) -> (r: Option<u64>)
    requires
        radix == 10 || radix == 16,
    ensures
        match r {
            Some(v) => number(s@, radix as int, max as int) == Some(v as int) && v <= max,
            None => number(s@, radix as int, max as int) is None,
        },
{
    let n: usize = s.len();
    let mut i: usize = 0;
    if n > 0 && s[0] == '+' {
        i = 1;
    }
    let ghost start = i as int;
    let ghost body = s@.skip(start);
    proof {
        if start == 0 {
            assert(body =~= s@);
        }
    }
    if i == n {
        return None;
    }
    let mut v: u64 = 0;
    proof {
        assert(body.take(0) =~= Seq::<char>::empty());
    }
    while i < n
        invariant
            radix == 10 || radix == 16,
            0 <= start <= i <= n == s@.len(),
            body == s@.skip(start),
            v <= max,
            digits_value(body.take(i - start), radix as int) == Some(v as int),
            start < n,
            number(s@, radix as int, max as int) == (match digits_value(body, radix as int) {
                Some(v) => if v <= max {
                    Some(v)
                } else {
                    None
                },
                None => None,
            }),
        decreases n - i,
    {
        let ghost k = i - start;
        proof {
            assert(body.take(k + 1).drop_last() =~= body.take(k));
            assert(body.take(k + 1).last() == s@[i as int]);
            lemma_digits_prefix(body, radix as int, k + 1);
        }
        match digit_of(s[i], radix) {
            Some(d) => {
                let next: u128 = v as u128 * radix as u128 + d as u128;
                if next > max as u128 {
                    return None;
                }
                v = next as u64;
            },
            None => {
                return None;
            },
        }
        i = i + 1;
    }
    proof {
        assert(body.take(n - start) =~= body);
    }
    Some(v)
}

/// The decimal digit for a value below ten.
pub open spec fn digit_char(n: nat) -> char {
    (n + '0' as nat) as char
}

/// The decimal form of `n`, without leading zeros.
pub open spec fn decimal(n: nat) -> Seq<char>
    decreases n,
{
    if n < 10 {
        seq![digit_char(n)]
    } else {
        decimal(n / 10).push(digit_char(n % 10))
    }
}

/// Appends the decimal form of `n`.
pub fn push_decimal(out: &mut String, n: u64)
    ensures
        final(out)@ == old(out)@ + decimal(n as nat),
    decreases n,
{
    if n < 10 {
        out.push((n as u8 + 0x30) as char);
        proof {
            assert(final(out)@ =~= old(out)@ + decimal(n as nat));
        }
    } else {
        push_decimal(out, n / 10);
        out.push(((n % 10) as u8 + 0x30) as char);
        proof {
            assert(final(out)@ =~= old(out)@ + decimal(n as nat));
        }
    }
}

/// Reading the decimal form of a number gives the number back, as long as it
/// is within the limit.
pub proof fn law_decimal_reads_back(n: nat, max: int)
    ensures
        number(decimal(n), 10, max) == (if n <= max {
            Some(n as int)
        } else {
            None
        }),
        forall|i: int| 0 <= i < decimal(n).len() ==> '0' <= #[trigger] decimal(n)[i] <= '9',
        decimal(n).len() > 0,
        digits_value(decimal(n), 10) == Some(n as int),
    decreases n,
{
    if n < 10 {
        assert(decimal(n).drop_last() =~= Seq::<char>::empty());
        reveal_with_fuel(digits_value, 2);
        assert(decimal(n).last() == digit_char(n));
        assert(digit_value(digit_char(n), 10) == Some(n as int));
    } else {
        law_decimal_reads_back(n / 10, max);
        assert(decimal(n).drop_last() =~= decimal(n / 10));
        assert(decimal(n)[0] == decimal(n / 10)[0]);
        assert(digit_value(digit_char(n % 10), 10) == Some((n % 10) as int));
    }
}

/// White space is what the standard lists: the ASCII control characters from tab
/// to carriage return, the spaces, and the line and paragraph separators; no
/// printable character is.
pub proof fn law_printable_characters_are_no_space(c: char)
    ensures
        0x21 <= c as u32 <= 0x7E ==> !is_space(c),
        c == ' ' || c == '\t' || c == '\n' || c == '\r' ==> is_space(c),
        c as u32 == 0x0B || c as u32 == 0x0C || c as u32 == 0x85 || c as u32 == 0xA0 ==> is_space(
            c,
        ),
        c as u32 == 0x1680 || 0x2000 <= c as u32 <= 0x200A || c as u32 == 0x2028 || c as u32
            == 0x2029 || c as u32 == 0x202F || c as u32 == 0x205F || c as u32 == 0x3000
            ==> is_space(c),
        is_space(c) ==> c as u32 <= 0x20 || c as u32 == 0x85 || c as u32 == 0xA0 || c as u32
            == 0x1680 || 0x2000 <= c as u32 <= 0x205F || c as u32 == 0x3000,
{
}

proof fn lemma_trimmed_start(s: Seq<char>)
    ensures
        trimmed_start(s).len() <= s.len(),
        trimmed_start(s) == s.skip(s.len() - trimmed_start(s).len()),
        forall|i: int| 0 <= i < s.len() - trimmed_start(s).len() ==> is_space(#[trigger] s[i]),
        trimmed_start(s).len() > 0 ==> !is_space(trimmed_start(s)[0]),
    decreases s.len(),
{
    if s.len() > 0 && is_space(s[0]) {
        let t = s.skip(1);
        lemma_trimmed_start(t);
        let n = s.len() - trimmed_start(s).len();
        assert(s.skip(n) =~= t.skip(n - 1));
        assert forall|i: int| 0 <= i < n implies is_space(#[trigger] s[i]) by {
            if i > 0 {
                assert(s[i] == t[i - 1]);
            }
        }
    } else {
        assert(s.skip(0) =~= s);
    }
}

proof fn lemma_trimmed_end(s: Seq<char>)
    ensures
        trimmed_end(s).len() <= s.len(),
        trimmed_end(s) == s.take(trimmed_end(s).len() as int),
        forall|i: int| trimmed_end(s).len() <= i < s.len() ==> is_space(#[trigger] s[i]),
        trimmed_end(s).len() > 0 ==> !is_space(trimmed_end(s).last()),
    decreases s.len(),
{
    if s.len() > 0 && is_space(s.last()) {
        let t = s.drop_last();
        lemma_trimmed_end(t);
        let n = trimmed_end(s).len() as int;
        assert(s.take(n) =~= t.take(n));
        assert forall|i: int| n <= i < s.len() implies is_space(#[trigger] s[i]) by {
            if i < t.len() {
                assert(s[i] == t[i]);
            }
        }
    } else {
        assert(s.take(s.len() as int) =~= s);
    }
}

/// Trimming takes white space off the ends and nothing else: what is left is a
/// stretch of the text with no white space at its ends, and everything before
/// and behind it is white space.
pub proof fn law_trimming_takes_white_space_only(s: Seq<char>) -> (r: (int, int))
    ensures
        0 <= r.0 <= r.1 <= s.len(),
        trimmed(s) == s.subrange(r.0, r.1),
        forall|i: int| 0 <= i < r.0 ==> is_space(#[trigger] s[i]),
        forall|i: int| r.1 <= i < s.len() ==> is_space(#[trigger] s[i]),
        r.0 < r.1 ==> !is_space(s[r.0]) && !is_space(s[r.1 - 1]),
        trimmed_start(s) == s.skip(r.0) || r.0 == r.1,
{
    lemma_trimmed_start(s);
    let t = trimmed_start(s);
    let a = s.len() - t.len();
    lemma_trimmed_end(t);
    let n = trimmed_end(t).len() as int;
    assert(trimmed(s) =~= s.subrange(a, a + n));
    assert forall|i: int| a + n <= i < s.len() implies is_space(#[trigger] s[i]) by {
        assert(s[i] == t[i - a]);
    }
    if n > 0 {
        assert(s[a] == t[0]);
        assert(s[a + n - 1] == trimmed_end(t).last());
    }
    (a, a + n)
}

/// A text with no white space at its ends is trimmed to itself, and white space
/// around it makes no difference.
pub proof fn law_white_space_around_a_text_goes(a: Seq<char>, s: Seq<char>, b: Seq<char>)
    requires
        forall|i: int| 0 <= i < a.len() ==> is_space(#[trigger] a[i]),
        forall|i: int| 0 <= i < b.len() ==> is_space(#[trigger] b[i]),
        s.len() > 0 ==> !is_space(s[0]) && !is_space(s.last()),
    ensures
        trimmed(a + s + b) == s,
{
    let w = a + s + b;
    let (x, y) = law_trimming_takes_white_space_only(w);
    let n = a.len() as int;
    let m = n + s.len();
    if s.len() > 0 {
        assert(w[n] == s[0]);
        assert(w[m - 1] == s.last());
        if x > n {
            assert(is_space(w[n]));
        }
        if y < m {
            assert(is_space(w[m - 1]));
        }
        if x < n {
            assert(w[x] == a[x]);
        }
        if y > m {
            assert(w[y - 1] == b[y - 1 - m]);
        }
        assert(w.subrange(n, m) =~= s);
    } else {
        if x < y {
            if x < n {
                assert(w[x] == a[x]);
            } else {
                assert(w[x] == b[x - n]);
            }
        }
        assert(w.subrange(x, y) =~= s);
    }
}

/// Folding to lower case changes the twenty-six capital letters, each into its
/// small form, and nothing else.
pub proof fn law_lower_case_folds_letters_only(s: Seq<char>, i: int)
    requires
        0 <= i < s.len(),
    ensures
        lowered(s).len() == s.len(),
        'A' <= s[i] <= 'Z' ==> lowered(s)[i] as int == s[i] as int + 32,
        !('A' <= s[i] <= 'Z') ==> lowered(s)[i] == s[i],
{
}

/// What a text begins with comes first in it, and behind that comes the rest.
pub proof fn law_a_text_begins_with_its_front(s: Seq<char>, p: Seq<char>, rest: Seq<char>)
    ensures
        begins(p + rest, p),
        begins(s, p) ==> p.len() <= s.len() && s == p + s.skip(p.len() as int),
{
    assert((p + rest).subrange(0, p.len() as int) =~= p);
    if begins(s, p) {
        assert(s.subrange(0, p.len() as int) == p);
        assert(s =~= p + s.skip(p.len() as int));
    }
}

/// A text occurs in another exactly where the other is something, the text and
/// something.
pub proof fn law_a_text_occurs_between_its_ends(a: Seq<char>, p: Seq<char>, b: Seq<char>, s: Seq<char>)
    ensures
        occurs(a + p + b, p),
        occurs(s, p) ==> exists|i: int|
            0 <= i <= s.len() - p.len() && s == #[trigger] s.take(i) + p + s.skip(i + p.len()),
{
    let w = a + p + b;
    assert(w.subrange(a.len() as int, a.len() as int + p.len()) =~= p);
    assert(stands_at(w, p, a.len() as int));
    if occurs(s, p) {
        let i = choose|i: int| stands_at(s, p, i);
        assert(s.subrange(i, i + p.len()) == p);
        assert(s =~= s.take(i) + p + s.skip(i + p.len()));
    }
}

/// A text without `c` is all before the first and all after the last `c`; with
/// one it is cut there.
pub proof fn law_texts_are_cut_at_a_character(a: Seq<char>, c: char, b: Seq<char>)
    ensures
        !a.contains(c) ==> before_first(a, c) == a && before_first(a + seq![c] + b, c) == a,
        !b.contains(c) ==> after_last(b, c) == b && after_last(a + seq![c] + b, c) == b,
{
    let w = a + seq![c] + b;
    let n = a.len() as int;
    if !a.contains(c) {
        lemma_first_of_at(a, c, n);
        assert(a.take(n) =~= a);
        assert forall|j: int| 0 <= j < n implies w[j] != c by {
            assert(w[j] == a[j]);
        }
        lemma_first_of_at(w, c, n);
        assert(w.take(n) =~= a);
    }
    if !b.contains(c) {
        lemma_past_last_at(b, c, 0);
        assert(b.skip(0) =~= b);
        assert forall|j: int| n + 1 <= j < w.len() implies w[j] != c by {
            assert(w[j] == b[j - n - 1]);
        }
        lemma_past_last_at(w, c, n + 1);
        assert(w.skip(n + 1) =~= b);
    }
}

proof fn lemma_word_len(w: Seq<char>, rest: Seq<char>)
    requires
        forall|i: int| 0 <= i < w.len() ==> !is_space(#[trigger] w[i]),
        rest.len() > 0 ==> is_space(rest[0]),
    ensures
        word_len(w + rest) == w.len(),
    decreases w.len(),
{
    if w.len() == 0 {
        assert(w + rest =~= rest);
    } else {
        let t = w.skip(1);
        assert forall|i: int| 0 <= i < t.len() implies !is_space(#[trigger] t[i]) by {
            assert(!is_space(w[i + 1]));
        }
        lemma_word_len(t, rest);
        assert((w + rest).skip(1) =~= t + rest);
        assert(!is_space(w[0]));
    }
}

/// Words are what stands between white space: the first word of a line is what
/// comes before its first space, and the second what follows up to the next.
pub proof fn law_words_stand_between_spaces(a: Seq<char>, w: Seq<char>, rest: Seq<char>)
    requires
        a.len() > 0,
        w.len() > 0,
        forall|i: int| 0 <= i < a.len() ==> !is_space(#[trigger] a[i]),
        forall|i: int| 0 <= i < w.len() ==> !is_space(#[trigger] w[i]),
        rest.len() > 0 ==> is_space(rest[0]),
    ensures
        nth_word(a + seq![' '] + w + rest, 0) == Some(a),
        nth_word(a + seq![' '] + w + rest, 1) == Some(w),
{
    let behind = seq![' '] + w + rest;
    let s = a + seq![' '] + w + rest;
    assert(s =~= a + behind);
    assert(!is_space(a[0]));
    assert(trimmed_start(s) == s);
    lemma_word_len(a, behind);
    assert(s.take(a.len() as int) =~= a);
    assert(s.skip(a.len() as int) =~= behind);
    let t = w + rest;
    assert(behind.skip(1) =~= t);
    assert(!is_space(w[0]));
    assert(trimmed_start(behind) == t) by {
        reveal_with_fuel(trimmed_start, 2);
    }
    lemma_word_len(w, rest);
    assert(t.take(w.len() as int) =~= w);
    reveal_with_fuel(nth_word, 2);
}

/// A text of fewer than two words has no second one.
pub proof fn law_a_single_word_has_no_second(w: Seq<char>)
    requires
        forall|i: int| 0 <= i < w.len() ==> !is_space(#[trigger] w[i]),
    ensures
        nth_word(w, 1) is None,
{
    let none = Seq::<char>::empty();
    lemma_word_len(w, none);
    assert(w + none =~= w);
    if w.len() > 0 {
        assert(!is_space(w[0]));
    }
    assert(w.skip(w.len() as int) =~= none);
    reveal_with_fuel(nth_word, 2);
}

/// Texts put together with `"\r\n"` between them.
pub open spec fn crlf_joined(pieces: Seq<Seq<char>>) -> Seq<char>
    decreases pieces.len(),
{
    if pieces.len() == 0 {
        Seq::empty()
    } else if pieces.len() == 1 {
        pieces[0]
    } else {
        pieces[0] + seq!['\r', '\n'] + crlf_joined(pieces.skip(1))
    }
}

/// Splitting at the line ends loses nothing and leaves none behind: no piece
/// holds one, and the pieces with the line ends between them are the text.
pub proof fn law_split_lines_join_back(s: Seq<char>)
    ensures
        crlf_split(s).len() > 0,
        crlf_joined(crlf_split(s)) == s,
        forall|k: int, i: int|
            0 <= k < crlf_split(s).len() && 0 <= i && i + 1 < crlf_split(s)[k].len() ==> !(
            #[trigger] crlf_split(s)[k][i] == '\r' && crlf_split(s)[k][i + 1] == '\n'),
    decreases s.len(),
{
    lemma_crlf_at(s);
    let i = crlf_at(s);
    let all = crlf_split(s);
    if i < s.len() {
        let rest = s.skip(i + 2);
        law_split_lines_join_back(rest);
        let more = crlf_split(rest);
        assert(all.skip(1) =~= more);
        assert(s =~= s.take(i) + seq!['\r', '\n'] + rest);
        assert forall|k: int, j: int|
            0 <= k < all.len() && 0 <= j && j + 1 < all[k].len() implies !(#[trigger] all[k][j]
            == '\r' && all[k][j + 1] == '\n') by {
            if k == 0 {
                assert(s[j] == all[0][j] && s[j + 1] == all[0][j + 1]);
            } else {
                assert(all[k] == more[k - 1]);
                assert(!(more[k - 1][j] == '\r' && more[k - 1][j + 1] == '\n'));
            }
        }
    }
}

/// The lines of a text are read one by one: a line ends at its line feed, and a
/// carriage return before that belongs to the line end.
pub proof fn law_lines_end_at_line_feeds(line: Seq<char>, rest: Seq<char>)
    requires
        !line.contains('\n'),
    ensures
        line_split(line + seq!['\r', '\n'] + rest) == seq![line] + line_split(rest),
        line.len() == 0 || line.last() != '\r' ==> line_split(line + seq!['\n'] + rest)
            == seq![line] + line_split(rest),
        line.len() > 0 ==> line_split(line) == seq![line],
        line_split(Seq::<char>::empty()) == Seq::<Seq<char>>::empty(),
{
    let n = line.len() as int;
    let a = line + seq!['\r', '\n'] + rest;
    assert forall|j: int| 0 <= j < n + 1 implies a[j] != '\n' by {
        if j < n {
            assert(a[j] == line[j]);
        }
    }
    lemma_first_of_at(a, '\n', n + 1);
    assert(a.take(n + 1) =~= line.push('\r'));
    assert(line.push('\r').drop_last() =~= line);
    assert(a.skip(n + 2) =~= rest);
    let b = line + seq!['\n'] + rest;
    assert forall|j: int| 0 <= j < n implies b[j] != '\n' by {
        assert(b[j] == line[j]);
    }
    lemma_first_of_at(b, '\n', n);
    assert(b.take(n) =~= line);
    assert(b.skip(n + 1) =~= rest);
    lemma_first_of_at(line, '\n', n);
}

/// Digits count by their place: another digit behind a number makes it ten, or
/// sixteen, times as large and adds the digit's own value. Letters are digits in
/// base sixteen only, in either case, and nothing else is a digit.
pub proof fn law_digits_count_by_their_place(s: Seq<char>, c: char)
    ensures
        digits_value(Seq::<char>::empty(), 10) == Some(0int),
        digits_value(Seq::<char>::empty(), 16) == Some(0int),
        '0' <= c <= '9' && digits_value(s, 10) is Some ==> digits_value(s.push(c), 10) == Some(
            digits_value(s, 10)->0 * 10 + (c as int - '0' as int),
        ),
        !('0' <= c <= '9') || digits_value(s, 10) is None ==> digits_value(s.push(c), 10) is None,
        digits_value(s, 16) is Some && '0' <= c <= '9' ==> digits_value(s.push(c), 16) == Some(
            digits_value(s, 16)->0 * 16 + (c as int - '0' as int),
        ),
        digits_value(s, 16) is Some && 'a' <= c <= 'f' ==> digits_value(s.push(c), 16) == Some(
            digits_value(s, 16)->0 * 16 + (c as int - 'a' as int + 10),
        ),
        digits_value(s, 16) is Some && 'A' <= c <= 'F' ==> digits_value(s.push(c), 16) == Some(
            digits_value(s, 16)->0 * 16 + (c as int - 'A' as int + 10),
        ),
        digits_value(s, 16) is None || !('0' <= c <= '9' || 'a' <= c <= 'f' || 'A' <= c <= 'F')
            ==> digits_value(s.push(c), 16) is None,
{
    assert(s.push(c).drop_last() =~= s);
}

/// A number is its digits, with or without a plus sign, as long as there are any
/// and the value is within the limit; anything else is no number.
pub proof fn law_a_number_is_its_digits(s: Seq<char>, radix: int, max: int)
    requires
        radix == 10 || radix == 16,
    ensures
        number(Seq::<char>::empty(), radix, max) is None,
        number(seq!['+'], radix, max) is None,
        s.len() > 0 && s[0] != '+' ==> number(s, radix, max) == (match digits_value(s, radix) {
            Some(v) if v <= max => Some(v),
            _ => None,
        }),
        s.len() > 0 ==> number(seq!['+'] + s, radix, max) == (match digits_value(s, radix) {
            Some(v) if v <= max => Some(v),
            _ => None,
        }),
{
    assert((seq!['+'] + s).skip(1) =~= s);
    assert(seq!['+'].skip(1) =~= Seq::<char>::empty());
}

/// The decimal form has no needless zero in front.
pub proof fn law_decimal_has_no_leading_zero(n: nat)
    ensures
        decimal(n).len() > 1 ==> decimal(n)[0] != '0',
        n < 10 ==> decimal(n).len() == 1,
    decreases n,
{
    if n >= 10 {
        law_decimal_has_no_leading_zero(n / 10);
        law_decimal_reads_back(n / 10, n as int);
        assert(decimal(n)[0] == decimal(n / 10)[0]);
        if decimal(n / 10).len() == 1 {
            if n / 10 >= 10 {
                law_decimal_reads_back(n / 100, n as int);
                assert(decimal(n / 10).len() == decimal(n / 10 / 10).len() + 1);
                law_decimal_reads_back(n / 10 / 10, n as int);
            }
            assert(decimal(n / 10)[0] == digit_char(n / 10));
        }
    }
}

/// The texts of a list are those of its strings, in order.
pub proof fn law_texts_are_those_of_the_strings(v: Seq<String>, w: Seq<Vec<char>>, i: int)
    ensures
        texts(v).len() == v.len(),
        0 <= i < v.len() ==> texts(v)[i] == v[i]@,
        views(w).len() == w.len(),
        0 <= i < w.len() ==> views(w)[i] == w[i]@,
        text_of(None) is None,
        0 <= i < v.len() ==> text_of(Some(v[i])) == Some(v[i]@),
{
}

} // verus!
