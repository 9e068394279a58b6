//! Byte-level scanning primitives shared by the block and inline passes.
//!
//! Every function works on a byte sequence `d` and an exclusive upper limit
//! `hi`; nothing beyond `hi` is ever looked at.
use vstd::prelude::*;

verus! {

pub const NL: u8 = 10;

/// ASCII whitespace: space, tab, line feed, vertical tab, form feed, carriage return.
pub open spec fn is_ascii_ws(c: u8) -> bool {
    c == 32u8 || (9u8 <= c && c <= 13u8)
}

/// Byte length of the whitespace character encoded at `i` within `[i, hi)`, or 0 when
/// none starts there. These are the UTF-8 encodings of the characters with the Unicode
/// White_Space property: the ASCII ones, U+0085, U+00A0, U+1680, U+2000 to U+200A,
/// U+2028, U+2029, U+202F, U+205F and U+3000.
pub open spec fn ws_len(d: Seq<u8>, i: int, hi: int) -> int {
    if i >= hi {
        0
    } else if is_ascii_ws(d[i]) {
        1
    } else if i + 1 < hi && d[i] == 0xC2u8 && (d[i + 1] == 0x85u8 || d[i + 1] == 0xA0u8) {
        2
    } else if i + 2 < hi && ((d[i] == 0xE1u8 && d[i + 1] == 0x9Au8 && d[i + 2] == 0x80u8) || (
    d[i] == 0xE2u8 && d[i + 1] == 0x80u8 && ((0x80u8 <= d[i + 2] && d[i + 2] <= 0x8Au8) || d[i
        + 2] == 0xA8u8 || d[i + 2] == 0xA9u8 || d[i + 2] == 0xAFu8)) || (d[i] == 0xE2u8 && d[i
        + 1] == 0x81u8 && d[i + 2] == 0x9Fu8) || (d[i] == 0xE3u8 && d[i + 1] == 0x80u8 && d[i
        + 2] == 0x80u8)) {
        3
    } else {
        0
    }
}

/// Where the scan stands after the whitespace character at `i`, if there is one.
pub open spec fn ws_step(d: Seq<u8>, i: int, hi: int) -> int {
    i + ws_len(d, i, hi)
}

/// End of the run of whitespace characters that starts at `i`.
pub open spec fn ws_end(d: Seq<u8>, i: int, hi: int) -> int
    decreases hi - i,
{
    if ws_len(d, i, hi) > 0 {
        ws_end(d, i + ws_len(d, i, hi), hi)
    } else {
        i
    }
}

/// `[a, b)` is a run of whitespace characters.
pub open spec fn all_ws(d: Seq<u8>, a: int, b: int) -> bool {
    ws_end(d, a, b) == b
}

/// End of the run of byte `c` that starts at `i`.
pub open spec fn run_end(d: Seq<u8>, i: int, hi: int, c: u8) -> int
    decreases hi - i,
{
    if i < hi && d[i] == c {
        run_end(d, i + 1, hi, c)
    } else {
        i
    }
}

/// Position of the first line feed at or after `i`, or `hi` when there is none.
pub open spec fn line_end(d: Seq<u8>, i: int, hi: int) -> int
    decreases hi - i,
{
    if i < hi && d[i] != NL {
        line_end(d, i + 1, hi)
    } else {
        i
    }
}

/// First occurrence of `c` at or after `i` on the same line.
pub open spec fn find_on_line(d: Seq<u8>, i: int, hi: int, c: u8) -> Option<int>
    decreases hi - i,
{
    if i >= hi {
        None
    } else if d[i] == c {
        Some(i)
    } else if d[i] == NL {
        None
    } else {
        find_on_line(d, i + 1, hi, c)
    }
}

/// Last occurrence of `c` in `[lo, hi)`.
pub open spec fn last_of(d: Seq<u8>, lo: int, hi: int, c: u8) -> Option<int>
    decreases hi - lo,
{
    if hi <= lo {
        None
    } else if d[hi - 1] == c {
        Some(hi - 1)
    } else {
        last_of(d, lo, hi - 1, c)
    }
}

pub fn ws_char_len(d: &[u8], i: usize, hi: usize) -> (r: usize)
    requires
        i <= hi <= d@.len(),
    ensures
        r == ws_len(d@, i as int, hi as int),
        r <= hi - i,
{
    if i >= hi {
        return 0;
    }
    let b = d[i];
    if b == 32u8 || (9u8 <= b && b <= 13u8) {
        1
    } else if i + 1 < hi && b == 0xC2u8 && (d[i + 1] == 0x85u8 || d[i + 1] == 0xA0u8) {
        2
    } else if hi - i > 2 {
        let (b1, b2) = (d[i + 1], d[i + 2]);
        if (b == 0xE1u8 && b1 == 0x9Au8 && b2 == 0x80u8) || (b == 0xE2u8 && b1 == 0x80u8 && ((
        0x80u8 <= b2 && b2 <= 0x8Au8) || b2 == 0xA8u8 || b2 == 0xA9u8 || b2 == 0xAFu8)) || (b
            == 0xE2u8 && b1 == 0x81u8 && b2 == 0x9Fu8) || (b == 0xE3u8 && b1 == 0x80u8 && b2
            == 0x80u8) {
            3
        } else {
            0
        }
    } else {
        0
    }
}

pub fn scan_ws(d: &[u8], i: usize, hi: usize) -> (r: usize)
    requires
        i <= hi <= d@.len(),
    ensures
        r == ws_end(d@, i as int, hi as int),
        i <= r <= hi,
{
    let mut k: usize = i;
    loop
        invariant
            i <= k <= hi <= d@.len(),
            ws_end(d@, k as int, hi as int) == ws_end(d@, i as int, hi as int),
        decreases hi - k,
    {
        let n = ws_char_len(d, k, hi);
        if n == 0 {
            return k;
        }
        k = k + n;
    }
}

pub fn scan_run(d: &[u8], i: usize, hi: usize, c: u8) -> (r: usize)
    requires
        i <= hi <= d@.len(),
    ensures
        r == run_end(d@, i as int, hi as int, c),
        i <= r <= hi,
{
    let mut k: usize = i;
    while k < hi && d[k] == c
        invariant
            i <= k <= hi <= d@.len(),
            run_end(d@, k as int, hi as int, c) == run_end(d@, i as int, hi as int, c),
        decreases hi - k,
    {
        k = k + 1;
    }
    k
}

pub fn scan_line(d: &[u8], i: usize, hi: usize) -> (r: usize)
    requires
        i <= hi <= d@.len(),
    ensures
        r == line_end(d@, i as int, hi as int),
        i <= r <= hi,
{
    let mut k: usize = i;
    while k < hi && d[k] != NL
        invariant
            i <= k <= hi <= d@.len(),
            line_end(d@, k as int, hi as int) == line_end(d@, i as int, hi as int),
        decreases hi - k,
    {
        k = k + 1;
    }
    k
}

pub fn scan_find_on_line(d: &[u8], i: usize, hi: usize, c: u8) -> (r: Option<usize>)
    requires
        i <= hi <= d@.len(),
    ensures
        r matches Some(j) ==> find_on_line(d@, i as int, hi as int, c) == Some(j as int) && i <= j < hi,
        r is None ==> find_on_line(d@, i as int, hi as int, c) is None,
{
    let mut k: usize = i;
    while k < hi
        invariant
            i <= k <= hi <= d@.len(),
            find_on_line(d@, k as int, hi as int, c) == find_on_line(d@, i as int, hi as int, c),
        decreases hi - k,
    {
        if d[k] == c {
            return Some(k);
        }
        if d[k] == NL {
            return None;
        }
        k = k + 1;
    }
    None
}

pub fn scan_last_of(d: &[u8], lo: usize, hi: usize, c: u8) -> (r: Option<usize>)
    requires
        hi <= d@.len(),
    ensures
        r matches Some(j) ==> last_of(d@, lo as int, hi as int, c) == Some(j as int) && lo <= j < hi,
        r is None ==> last_of(d@, lo as int, hi as int, c) is None,
{
    let mut k: usize = hi;
    while k > lo
        invariant
            k <= hi <= d@.len(),
            lo < k ==> last_of(d@, lo as int, k as int, c) == last_of(d@, lo as int, hi as int, c),
            k <= lo ==> last_of(d@, lo as int, hi as int, c) is None || hi <= lo,
            hi <= lo ==> k == hi,
        decreases k,
    {
        if d[k - 1] == c {
            return Some(k - 1);
        }
        k = k - 1;
    }
    None
}

pub proof fn lemma_ws_end(d: Seq<u8>, i: int, hi: int)
    requires
        i <= hi,
    ensures
        i <= ws_end(d, i, hi) <= hi,
        ws_len(d, ws_end(d, i, hi), hi) == 0,
    decreases hi - i,
{
    if ws_len(d, i, hi) > 0 {
        lemma_ws_end(d, i + ws_len(d, i, hi), hi);
    }
}

/// Bytes inside a multi-byte whitespace character start nothing and are no line feed.
pub proof fn lemma_ws_inner(d: Seq<u8>, p: int, hi: int, e: int)
    requires
        p < e < p + ws_len(d, p, hi),
    ensures
        ws_len(d, e, hi) == 0,
        d[e] != NL,
        0x80u8 <= d[e] < 0xC0u8,
{
}

/// A run that reaches `n` runs on, under a larger limit, as it would from `n`.
pub proof fn lemma_ws_through(d: Seq<u8>, p: int, n: int, hi: int)
    requires
        p <= n <= hi,
        ws_end(d, p, n) == n,
    ensures
        ws_end(d, p, hi) == ws_end(d, n, hi),
    decreases n - p,
{
    if p < n {
        assert(ws_len(d, p, n) > 0);
        assert(ws_len(d, p, hi) == ws_len(d, p, n));
        lemma_ws_end(d, p + ws_len(d, p, n), n);
        lemma_ws_through(d, p + ws_len(d, p, n), n, hi);
    }
}

/// A line feed inside a whitespace run ends a whitespace run of its own from the start.
pub proof fn lemma_ws_upto_nl(d: Seq<u8>, p: int, hi: int, q: int)
    requires
        p <= q < ws_end(d, p, hi),
        d[q] == NL,
    ensures
        ws_end(d, p, q + 1) == q + 1,
    decreases hi - p,
{
    let l = ws_len(d, p, hi);
    assert(l > 0);
    if p == q {
        assert(ws_len(d, p, q + 1) == 1);
        assert(ws_len(d, q + 1, q + 1) == 0);
        assert(ws_end(d, q + 1, q + 1) == q + 1);
        assert(ws_end(d, p, q + 1) == ws_end(d, p + 1, q + 1));
    } else {
        if l > 1 {
            assert(d[p + 1] != NL);
        }
        if l > 2 {
            assert(d[p + 2] != NL);
        }
        assert(q >= p + l);
        assert(ws_len(d, p, q + 1) == l);
        assert(ws_end(d, p, hi) == ws_end(d, p + l, hi));
        lemma_ws_upto_nl(d, p + l, hi, q);
        assert(ws_end(d, p, q + 1) == ws_end(d, p + l, q + 1));
    }
}

pub proof fn lemma_run_end(d: Seq<u8>, i: int, hi: int, c: u8)
    requires
        i <= hi,
    ensures
        i <= run_end(d, i, hi, c) <= hi,
        forall|k: int| i <= k < run_end(d, i, hi, c) ==> #[trigger] d[k] == c,
    decreases hi - i,
{
    if i < hi && d[i] == c {
        lemma_run_end(d, i + 1, hi, c);
    }
}

pub proof fn lemma_line_end(d: Seq<u8>, i: int, hi: int)
    requires
        i <= hi,
    ensures
        i <= line_end(d, i, hi) <= hi,
        forall|k: int| i <= k < line_end(d, i, hi) ==> #[trigger] d[k] != NL,
        line_end(d, i, hi) < hi ==> d[line_end(d, i, hi)] == NL,
    decreases hi - i,
{
    if i < hi && d[i] != NL {
        lemma_line_end(d, i + 1, hi);
    }
}

pub proof fn lemma_find_on_line(d: Seq<u8>, i: int, hi: int, c: u8)
    ensures
        find_on_line(d, i, hi, c) matches Some(j) ==> i <= j < hi && d[j] == c,
    decreases hi - i,
{
    if i < hi && d[i] != c && d[i] != NL {
        lemma_find_on_line(d, i + 1, hi, c);
    }
}

pub proof fn lemma_last_of(d: Seq<u8>, lo: int, hi: int, c: u8)
    ensures
        last_of(d, lo, hi, c) matches Some(j) ==> lo <= j < hi && d[j] == c && forall|k: int|
            j < k < hi ==> #[trigger] d[k] != c,
        last_of(d, lo, hi, c) is None ==> forall|k: int| lo <= k < hi ==> #[trigger] d[k] != c,
    decreases hi - lo,
{
    if lo < hi && d[hi - 1] != c {
        lemma_last_of(d, lo, hi - 1, c);
    }
}

} // verus!
