use vstd::prelude::*;

use crate::bytes::push_range;

verus! {

pub const SPACE: u8 = 0x20;
pub const NEWLINE: u8 = 0x0a;
pub const SEVEN: u8 = 0x37;

/// Tony's Boguscoin address, which replaces every address seen: "7YWHMfk9JZe0LM0g1ZauHuiSxhI".
pub open spec fn tony_address() -> Seq<u8> {
    seq![
        0x37u8, 0x59, 0x57, 0x48, 0x4d, 0x66, 0x6b, 0x39, 0x4a, 0x5a, 0x65, 0x30, 0x4c, 0x4d, 0x30,
        0x67, 0x31, 0x5a, 0x61, 0x75, 0x48, 0x75, 0x69, 0x53, 0x78, 0x68, 0x49,
    ]
}

/// Tony's address as bytes.
pub fn tony_address_bytes() -> (r: Vec<u8>)
    ensures
        r@ == tony_address(),
{
    let r: Vec<u8> = vec![
        0x37u8, 0x59, 0x57, 0x48, 0x4d, 0x66, 0x6b, 0x39, 0x4a, 0x5a, 0x65, 0x30, 0x4c, 0x4d, 0x30,
        0x67, 0x31, 0x5a, 0x61, 0x75, 0x48, 0x75, 0x69, 0x53, 0x78, 0x68, 0x49,
    ];
    assert(r@ =~= tony_address());
    r
}

/// An ASCII letter or digit.
pub open spec fn is_alnum(b: u8) -> bool {
    (0x30 <= b <= 0x39) || (0x41 <= b <= 0x5a) || (0x61 <= b <= 0x7a)
}

/// The length of the run of letters and digits in `s` from `q`.
pub open spec fn run_len(s: Seq<u8>, q: int) -> int
    decreases s.len() - q,
{
    if 0 <= q < s.len() && is_alnum(s[q]) {
        1 + run_len(s, q + 1)
    } else {
        0
    }
}

/// `p` is at the start of a line of `s`.
pub open spec fn line_start(s: Seq<u8>, p: int) -> bool {
    p == 0 || s[p - 1] == NEWLINE
}

/// Where the address starting at `p` ends.
pub open spec fn address_end(s: Seq<u8>, p: int) -> int {
    p + 1 + run_len(s, p + 1)
}

/// A Boguscoin address starts at `p`: at the start of a line, a `7` followed by 25 to
/// 34 letters and digits, then a newline or the end. This is where the pattern
/// `(?m)(^7[a-zA-Z0-9]{25,34})(\n|$)` matches.
pub open spec fn address_at(s: Seq<u8>, p: int) -> bool {
    &&& 0 <= p < s.len()
    &&& line_start(s, p)
    &&& s[p] == SEVEN
    &&& 25 <= run_len(s, p + 1) <= 34
    &&& (address_end(s, p) == s.len() || s[address_end(s, p)] == NEWLINE)
}

/// The leftmost address in `s` at or after `p`.
pub open spec fn first_address_from(s: Seq<u8>, p: int) -> Option<int>
    decreases s.len() - p,
{
    if p < 0 || p >= s.len() {
        None
    } else if address_at(s, p) {
        Some(p)
    } else {
        first_address_from(s, p + 1)
    }
}

/// A word with its leftmost address, if any, replaced by Tony's.
pub open spec fn rewrite_word(w: Seq<u8>) -> Seq<u8> {
    match first_address_from(w, 0) {
        Some(p) => w.take(p) + tony_address() + w.skip(address_end(w, p)),
        None => w,
    }
}

/// The position of the first space in `s` at or after `p`.
pub open spec fn first_space_from(s: Seq<u8>, p: int) -> Option<int>
    decreases s.len() - p,
{
    if p < 0 || p >= s.len() {
        None
    } else if s[p] == SPACE {
        Some(p)
    } else {
        first_space_from(s, p + 1)
    }
}

/// A line split at single spaces, each word rewritten, and joined again with single
/// spaces.
pub open spec fn rewrite_line(s: Seq<u8>) -> Seq<u8>
    decreases s.len(),
{
    match first_space_from(s, 0) {
        Some(i) => if 0 <= i < s.len() {
            rewrite_word(s.take(i)) + seq![SPACE] + rewrite_line(s.skip(i + 1))
        } else {
            s
        },
        None => rewrite_word(s),
    }
}

proof fn lemma_first_space_bounds(s: Seq<u8>, p: int)
    requires
        0 <= p,
    ensures
        first_space_from(s, p) matches Some(i) ==> p <= i < s.len() && s[i] == SPACE && forall|j: int|
            p <= j < i ==> s[j] != SPACE,
        first_space_from(s, p) is None ==> forall|j: int| p <= j < s.len() ==> s[j] != SPACE,
    decreases s.len() - p,
{
    if p < s.len() && s[p] != SPACE {
        lemma_first_space_bounds(s, p + 1);
    }
}

proof fn lemma_first_address_bounds(s: Seq<u8>, p: int)
    requires
        0 <= p,
    ensures
        first_address_from(s, p) matches Some(i) ==> p <= i && address_at(s, i),
    decreases s.len() - p,
{
    if p < s.len() && !address_at(s, p) {
        lemma_first_address_bounds(s, p + 1);
    }
}

/// The length of the run of letters and digits from `q`.
fn run_length(w: &[u8], q: usize) -> (r: usize)
    requires
        q <= w@.len(),
    ensures
        r == run_len(w@, q as int),
        q + r <= w@.len(),
{
    let n = w.len();
    let mut k = q;
    while k < n && ((0x30 <= w[k] && w[k] <= 0x39) || (0x41 <= w[k] && w[k] <= 0x5a) || (0x61
        <= w[k] && w[k] <= 0x7a))
        invariant
            q <= k <= n,
            n == w@.len(),
            run_len(w@, q as int) == (k - q) + run_len(w@, k as int),
        decreases n - k,
    {
        k = k + 1;
    }
    k - q
}

/// Whether an address starts at `p`, and where it ends.
fn address_here(w: &[u8], p: usize) -> (r: Option<usize>)
    requires
        p < w@.len(),
    ensures
        match r {
            Some(e) => address_at(w@, p as int) && e == address_end(w@, p as int) && e <= w@.len(),
            None => !address_at(w@, p as int),
        },
{
    if p > 0 && w[p - 1] != NEWLINE {
        return None;
    }
    if w[p] != SEVEN {
        return None;
    }
    let len = run_length(w, p + 1);
    if len < 25 || len > 34 {
        return None;
    }
    let e = p + 1 + len;
    if e == w.len() || w[e] == NEWLINE {
        Some(e)
    } else {
        None
    }
}

/// Appends the word `line[from..to]`, its leftmost address replaced by Tony's.
fn push_rewritten_word(out: &mut Vec<u8>, line: &[u8], from: usize, to: usize)
    requires
        from <= to <= line@.len(),
    ensures
        final(out)@ == old(out)@ + rewrite_word(line@.subrange(from as int, to as int)),
{
    let mut word: Vec<u8> = Vec::new();
    push_range(&mut word, line, from, to);
    assert(word@ =~= line@.subrange(from as int, to as int));
    let w = word.as_slice();
    let n = w.len();
    let mut p: usize = 0;
    while p < n
        invariant
            n == w@.len(),
            from <= to <= line@.len(),
            w@ == line@.subrange(from as int, to as int),
            p <= n,
            first_address_from(w@, 0) == first_address_from(w@, p as int),
            out@ == old(out)@,
        decreases n - p,
    {
        match address_here(w, p) {
            Some(e) => {
                push_range(out, w, 0, p);
                let tony = tony_address_bytes();
                push_range(out, tony.as_slice(), 0, tony.len());
                push_range(out, w, e, n);
                assert(w@.subrange(0, p as int) =~= w@.take(p as int));
                assert(tony@.subrange(0, tony@.len() as int) =~= tony_address());
                assert(w@.subrange(e as int, n as int) =~= w@.skip(e as int));
                return;
            },
            None => {
                p = p + 1;
            },
        }
    }
    push_range(out, w, 0, n);
    assert(w@.subrange(0, n as int) =~= w@);
}

/// Rewrites a line as it passes through the proxy: every word, the line being split
/// at single spaces, has its leftmost Boguscoin address replaced by Tony's.
pub fn rewrite_boguscoin(line: &[u8]) -> (out: Vec<u8>)
    ensures
        out@ == rewrite_line(line@),
{
    let n = line.len();
    let mut out: Vec<u8> = Vec::new();
    let mut start: usize = 0;
    let mut i: usize = 0;
    assert(line@.skip(0) =~= line@);
    while i < n
        invariant
            n == line@.len(),
            start <= i <= n,
            forall|j: int| start <= j < i ==> line@[j] != SPACE,
            rewrite_line(line@) == out@ + rewrite_line(line@.skip(start as int)),
        decreases n - i,
    {
        if line[i] == SPACE {
            let ghost rest = line@.skip(start as int);
            proof {
                lemma_first_space_bounds(rest, 0);
                assert(rest[i - start] == SPACE);
                assert forall|j: int| 0 <= j < i - start implies rest[j] != SPACE by {
                    assert(rest[j] == line@[start + j]);
                }
                let k = first_space_from(rest, 0).unwrap();
                assert(k == i - start);
                assert(rest.take(i - start) =~= line@.subrange(start as int, i as int));
                assert(rest.skip(i - start + 1) =~= line@.skip(i + 1));
            }
            push_rewritten_word(&mut out, line, start, i);
            out.push(SPACE);
            start = i + 1;
        }
        i = i + 1;
    }
    let ghost rest = line@.skip(start as int);
    proof {
        lemma_first_space_bounds(rest, 0);
        assert forall|j: int| 0 <= j < rest.len() implies rest[j] != SPACE by {
            assert(rest[j] == line@[start + j]);
        }
        assert(rest =~= line@.subrange(start as int, n as int));
    }
    push_rewritten_word(&mut out, line, start, n);
    out
}

/// `s` has no space from `p` on.
pub open spec fn no_space_from(s: Seq<u8>, p: int) -> bool {
    forall|j: int| p <= j < s.len() ==> s[j] != SPACE
}

proof fn lemma_first_space_is(s: Seq<u8>, p: int, i: int)
    requires
        0 <= p <= i,
        i < s.len(),
        s[i] == SPACE,
        forall|j: int| p <= j < i ==> s[j] != SPACE,
    ensures
        first_space_from(s, p) == Some(i),
    decreases i - p,
{
    if p < i {
        lemma_first_space_is(s, p + 1, i);
    }
}

proof fn lemma_no_first_space(s: Seq<u8>, p: int)
    requires
        0 <= p,
        no_space_from(s, p),
    ensures
        first_space_from(s, p) is None,
    decreases s.len() - p,
{
    if p < s.len() {
        lemma_no_first_space(s, p + 1);
    }
}

proof fn lemma_first_address_is(s: Seq<u8>, a: int, p: int)
    requires
        0 <= a <= p,
        address_at(s, p),
        forall|q: int| a <= q < p ==> !address_at(s, q),
    ensures
        first_address_from(s, a) == Some(p),
    decreases p - a,
{
    if a < p {
        lemma_first_address_is(s, a + 1, p);
    }
}

proof fn lemma_first_address_minimal(s: Seq<u8>, a: int, q: int)
    requires
        0 <= a <= q,
        first_address_from(s, a) matches Some(p) && q < p,
    ensures
        !address_at(s, q),
    decreases q - a,
{
    if a < q {
        lemma_first_address_minimal(s, a + 1, q);
    }
}

proof fn lemma_run_len_exact(s: Seq<u8>, q: int, k: int)
    requires
        0 <= q,
        0 <= k,
        q + k <= s.len(),
        forall|j: int| q <= j < q + k ==> is_alnum(#[trigger] s[j]),
        q + k == s.len() || !is_alnum(s[q + k]),
    ensures
        run_len(s, q) == k,
    decreases k,
{
    if k > 0 {
        lemma_run_len_exact(s, q + 1, k - 1);
    }
}

proof fn lemma_run_len_bound(s: Seq<u8>, q: int)
    requires
        0 <= q <= s.len(),
    ensures
        0 <= run_len(s, q) <= s.len() - q,
    decreases s.len() - q,
{
    if q < s.len() {
        lemma_run_len_bound(s, q + 1);
    }
}

proof fn lemma_run_len_agree(s1: Seq<u8>, s2: Seq<u8>, q: int, b: int)
    requires
        0 <= q <= b,
        b < s1.len(),
        b < s2.len(),
        !is_alnum(s1[b]),
        !is_alnum(s2[b]),
        forall|j: int| q <= j < b ==> s1[j] == s2[j],
    ensures
        run_len(s1, q) == run_len(s2, q),
        run_len(s1, q) <= b - q,
    decreases b - q,
{
    if q < b {
        lemma_run_len_agree(s1, s2, q + 1, b);
    }
}

/// Rewriting a word that has been rewritten changes nothing more.
proof fn lemma_rewrite_word_idempotent(w: Seq<u8>)
    ensures
        rewrite_word(rewrite_word(w)) == rewrite_word(w),
        no_space_from(w, 0) ==> no_space_from(rewrite_word(w), 0),
{
    reveal_with_fuel(run_len, 2);
    lemma_first_address_bounds(w, 0);
    if let Some(p) = first_address_from(w, 0) {
        let e = address_end(w, p);
        let t = tony_address();
        lemma_run_len_bound(w, p + 1);
        assert(t.len() == 27);
        let r = w.take(p) + t + w.skip(e);
        assert(r.len() == p + 27 + (w.len() - e));
        assert forall|j: int| 0 <= j < p implies r[j] == w[j] by {}
        assert forall|j: int| 0 <= j < 27 implies r[p + j] == t[j] by {}
        assert forall|j: int| p + 27 <= j < r.len() implies r[j] == w[e + j - p - 27] by {}
        // Tony's address is an address in its place.
        assert forall|j: int| p + 1 <= j < p + 27 implies is_alnum(#[trigger] r[j]) by {
            assert(r[j] == t[j - p]);
        }
        lemma_run_len_exact(r, p + 1, 26);
        assert(address_at(r, p));
        // Nothing before it is an address.
        assert forall|q: int| 0 <= q < p implies !address_at(r, q) by {
            lemma_first_address_minimal(w, 0, q);
            if address_at(r, q) {
                assert(w[p - 1] == NEWLINE);
                assert(q < p - 1);
                lemma_run_len_agree(r, w, q + 1, p - 1);
                assert(r[q] == w[q]);
                assert(q > 0 ==> r[q - 1] == w[q - 1]);
                assert(address_end(w, q) <= p - 1);
                assert(w[address_end(w, q)] == r[address_end(r, q)]);
                assert(address_at(w, q));
            }
        }
        lemma_first_address_is(r, 0, p);
        assert(address_end(r, p) == p + 27);
        assert(r.take(p) + t + r.skip(p + 27) =~= r);
        if no_space_from(w, 0) {
            assert forall|j: int| 0 <= j < r.len() implies r[j] != SPACE by {
                if j >= p && j < p + 27 {
                    assert(r[j] == t[j - p]);
                }
            }
        }
    }
}

/// Law: what the proxy has rewritten passes through it unchanged a second time; in
/// particular a line whose only addresses are Tony's is left as it is.
pub proof fn lemma_rewrite_idempotent(s: Seq<u8>)
    ensures
        rewrite_line(rewrite_line(s)) == rewrite_line(s),
    decreases s.len(),
{
    lemma_first_space_bounds(s, 0);
    match first_space_from(s, 0) {
        Some(i) => {
            let w = s.take(i);
            let rest = s.skip(i + 1);
            let a = rewrite_word(w);
            let b = rewrite_line(rest);
            let r = a + seq![SPACE] + b;
            assert(no_space_from(w, 0));
            lemma_rewrite_word_idempotent(w);
            assert(r[a.len() as int] == SPACE);
            lemma_first_space_is(r, 0, a.len() as int);
            assert(r.take(a.len() as int) =~= a);
            assert(r.skip(a.len() + 1int) =~= b);
            lemma_rewrite_idempotent(rest);
        },
        None => {
            lemma_rewrite_word_idempotent(s);
            lemma_no_first_space(rewrite_word(s), 0);
        },
    }
}

/// An ASCII letter or digit, spelled out by code ranges: `0`-`9` (48-57), `A`-`Z`
/// (65-90), `a`-`z` (97-122).
pub open spec fn letter_or_digit(b: u8) -> bool {
    (48 <= b <= 57) || (65 <= b <= 90) || (97 <= b <= 122)
}

/// Law: a word made of `7` and then 25 to 34 ASCII letters and digits is a Boguscoin
/// address, and a line that is just that word, alone or followed by a newline,
/// becomes Tony's address (followed by the same newline).
pub proof fn lemma_address_word_rewritten(rest: Seq<u8>)
    requires
        25 <= rest.len() <= 34,
        forall|j: int| 0 <= j < rest.len() ==> letter_or_digit(#[trigger] rest[j]),
    ensures
        rewrite_line(seq![55u8] + rest) == tony_address(),
        rewrite_line(seq![55u8] + rest + seq![10u8]) == tony_address() + seq![10u8],
{
    let w = seq![55u8] + rest;
    let wn = w + seq![NEWLINE];
    assert forall|j: int| 1 <= j < 1 + rest.len() implies is_alnum(#[trigger] w[j]) by {
        assert(w[j] == rest[j - 1]);
    }
    assert forall|j: int| 1 <= j < 1 + rest.len() implies is_alnum(#[trigger] wn[j]) by {
        assert(wn[j] == rest[j - 1]);
    }
    lemma_run_len_exact(w, 1, rest.len() as int);
    lemma_run_len_exact(wn, 1, rest.len() as int);
    assert(address_at(w, 0));
    assert(address_at(wn, 0));
    lemma_first_address_is(w, 0, 0);
    lemma_first_address_is(wn, 0, 0);
    assert forall|j: int| 0 <= j < w.len() implies w[j] != SPACE by {
        if j > 0 {
            assert(w[j] == rest[j - 1]);
        }
    }
    assert forall|j: int| 0 <= j < wn.len() implies wn[j] != SPACE by {
        if 0 < j < w.len() {
            assert(wn[j] == rest[j - 1]);
        }
    }
    lemma_no_first_space(w, 0);
    lemma_no_first_space(wn, 0);
    assert(w.take(0) + tony_address() + w.skip(w.len() as int) =~= tony_address());
    assert(wn.take(0) + tony_address() + wn.skip(w.len() as int) =~= tony_address() + seq![
        NEWLINE,
    ]);
}

/// Law: a line that starts with such an address word, then a space, has that word
/// replaced by Tony's address and the rest of the line rewritten on its own.
pub proof fn lemma_leading_address_rewritten(rest: Seq<u8>, line: Seq<u8>)
    requires
        25 <= rest.len() <= 34,
        forall|j: int| 0 <= j < rest.len() ==> letter_or_digit(#[trigger] rest[j]),
    ensures
        rewrite_line(seq![55u8] + rest + seq![SPACE] + line) == tony_address() + seq![SPACE]
            + rewrite_line(line),
{
    let w = seq![55u8] + rest;
    let s = w + seq![SPACE] + line;
    lemma_address_word_rewritten(rest);
    assert forall|j: int| 0 <= j < w.len() implies s[j] != SPACE by {
        if j > 0 {
            assert(s[j] == rest[j - 1]);
        }
    }
    assert(s[w.len() as int] == SPACE);
    lemma_first_space_is(s, 0, w.len() as int);
    assert(s.take(w.len() as int) =~= w);
    assert(s.skip(w.len() + 1int) =~= line);
    assert forall|j: int| 0 <= j < w.len() implies w[j] != SPACE by {
        assert(w[j] == s[j]);
    }
    lemma_no_first_space(w, 0);
}

} // verus!
