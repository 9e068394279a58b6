//! Inline scanner: code spans, bold spans, links and plain text runs.
use vstd::prelude::*;

use vstd::string::StringSliceAdditionalSpecFns;

use crate::scan::{
    find_on_line, last_of, lemma_find_on_line, lemma_last_of, lemma_line_end, line_end,
    scan_find_on_line, scan_last_of, scan_line, NL,
};
use crate::token::{all_leaves, shape, shapes, span, Node, NodeType, Range, Shape, Token};

verus! {

pub const BACKTICK: u8 = 96;
pub const STAR: u8 = 42;
pub const BANG: u8 = 33;
pub const OPEN_BRACKET: u8 = 91;
pub const CLOSE_BRACKET: u8 = 93;
pub const OPEN_PAREN: u8 = 40;
pub const CLOSE_PAREN: u8 = 41;

/// Scanner over one text span; it holds no state of its own.
pub struct Inline {}

#[derive(Clone, Copy, Debug, PartialEq, Eq, Structural)]
pub struct Text {
    pub range: Range,
}

/// Payload of a code span: the text between the backticks.
#[derive(Clone, Copy, Debug, PartialEq, Eq, Structural)]
pub struct Quote {
    pub range: Range,
}

/// Payload of a bold span: the text between the asterisks.
#[derive(Clone, Copy, Debug, PartialEq, Eq, Structural)]
pub struct Bold {
    pub range: Range,
}

/// Payload of a link: the label between brackets and the destination between parentheses.
#[derive(Clone, Copy, Debug, PartialEq, Eq, Structural)]
pub struct Link {
    pub description_range: Range,
    pub link_range: Range,
}

/// A code span at `i`: a backtick, then the shortest run up to the next backtick on the line.
/// Gives the inner range and the end of the match.
pub open spec fn code_span_at(d: Seq<u8>, i: int, hi: int) -> Option<(Range, int)> {
    if i < hi && d[i] == BACKTICK {
        match find_on_line(d, i + 1, hi, BACKTICK) {
            Some(j) => Some((span(i + 1, j), j + 1)),
            None => None,
        }
    } else {
        None
    }
}

/// A bold span at `i`: an asterisk, then the longest run up to the last asterisk on the line.
pub open spec fn bold_at(d: Seq<u8>, i: int, hi: int) -> Option<(Range, int)> {
    if i < hi && d[i] == STAR {
        match last_of(d, i + 1, line_end(d, i + 1, hi), STAR) {
            Some(j) => Some((span(i + 1, j), j + 1)),
            None => None,
        }
    } else {
        None
    }
}

/// The first `](` at or after `i` on the line that is followed by a `)` on the same line.
pub open spec fn label_end(d: Seq<u8>, i: int, hi: int) -> Option<int>
    decreases hi - i,
{
    if i >= hi {
        None
    } else if d[i] == CLOSE_BRACKET && i + 1 < hi && d[i + 1] == OPEN_PAREN && find_on_line(
        d,
        i + 2,
        hi,
        CLOSE_PAREN,
    ) is Some {
        Some(i)
    } else if d[i] == NL {
        None
    } else {
        label_end(d, i + 1, hi)
    }
}

/// `[description](destination)` at `i`, optionally preceded by `!`; both parts are the
/// shortest that match and stay on one line. Gives description, destination and the end.
pub open spec fn link_at(d: Seq<u8>, i: int, hi: int) -> Option<(Range, Range, int)> {
    let ds = if i < hi && d[i] == BANG {
        i + 1
    } else {
        i
    };
    if ds < hi && d[ds] == OPEN_BRACKET {
        match label_end(d, ds + 1, hi) {
            Some(k) => match find_on_line(d, k + 2, hi, CLOSE_PAREN) {
                Some(j) => Some((span(ds + 1, k), span(k + 2, j), j + 1)),
                None => None,
            },
            None => None,
        }
    } else {
        None
    }
}

/// The inline construct that starts at `i`, in priority order code span, bold, link.
pub open spec fn span_at(d: Seq<u8>, i: int, hi: int) -> Option<(NodeType, Node, int)> {
    match code_span_at(d, i, hi) {
        Some((r, e)) => Some((NodeType::Quote, Node::Quote(Quote { range: r }), e)),
        None => match bold_at(d, i, hi) {
            Some((r, e)) => Some((NodeType::Bold, Node::Bold(Bold { range: r }), e)),
            None => match link_at(d, i, hi) {
                Some((a, b, e)) => Some(
                    (NodeType::Link, Node::Link(Link { description_range: a, link_range: b }), e),
                ),
                None => None,
            },
        },
    }
}

pub open spec fn text_shape(a: int, b: int) -> Shape {
    (span(a, b), NodeType::Text, Node::Text(Text { range: span(a, b) }))
}

/// The text run `[a, b)`, if it is not empty.
pub open spec fn pending_text(a: int, b: int) -> Seq<Shape> {
    if a < b {
        seq![text_shape(a, b)]
    } else {
        seq![]
    }
}

/// Tokens of `[i, hi)` when the text not yet emitted starts at `pend`.
pub open spec fn inline_from(d: Seq<u8>, i: int, pend: int, hi: int) -> Seq<Shape>
    decreases hi - i,
{
    if i < hi {
        match span_at(d, i, hi) {
            Some((k, n, e)) => if i < e <= hi {
                pending_text(pend, i) + seq![(span(i, e), k, n)] + inline_from(d, e, e, hi)
            } else {
                seq![]
            },
            None => inline_from(d, i + 1, pend, hi),
        }
    } else {
        pending_text(pend, hi)
    }
}

/// Inline tokens of the span `[lo, hi)`.
pub open spec fn inline_spans(d: Seq<u8>, lo: int, hi: int) -> Seq<Shape> {
    inline_from(d, lo, lo, hi)
}

fn find_label_end(d: &[u8], i: usize, hi: usize) -> (r: Option<usize>)
    requires
        i <= hi <= d@.len(),
    ensures
        r matches Some(k) ==> label_end(d@, i as int, hi as int) == Some(k as int) && i <= k
            && k + 2 <= hi,
        r is None ==> label_end(d@, i as int, hi as int) is None,
{
    let mut k: usize = i;
    while k < hi
        invariant
            i <= k <= hi <= d@.len(),
            label_end(d@, k as int, hi as int) == label_end(d@, i as int, hi as int),
        decreases hi - k,
    {
        if d[k] == CLOSE_BRACKET && k + 1 < hi && d[k + 1] == OPEN_PAREN {
            if scan_find_on_line(d, k + 2, hi, CLOSE_PAREN).is_some() {
                return Some(k);
            }
        }
        if d[k] == NL {
            return None;
        }
        k = k + 1;
    }
    None
}

impl Quote {
    /// The code span that starts at `at`, within `[at, hi)`.
    pub fn parser(content: &str, at: usize, hi: usize) -> (r: Option<Token>)
        requires
            at <= hi <= content.spec_bytes().len(),
        ensures
            match code_span_at(content.spec_bytes(), at as int, hi as int) {
                Some((inner, e)) => r matches Some(t) && t.range == span(at as int, e) && t.iden
                    == NodeType::Quote && t.node == Node::Quote(Quote { range: inner })
                    && t.children@.len() == 0 && at < e <= hi,
                None => r is None,
            },
    {
        let d = content.as_bytes();
        if at < hi && d[at] == BACKTICK {
            match scan_find_on_line(d, at + 1, hi, BACKTICK) {
                Some(j) => {
                    let inner = Range { start: at + 1, end: j };
                    Some(
                        Token {
                            range: Range { start: at, end: j + 1 },
                            iden: NodeType::Quote,
                            node: Node::Quote(Quote { range: inner }),
                            children: Vec::new(),
                        },
                    )
                },
                None => None,
            }
        } else {
            None
        }
    }
}

impl Bold {
    /// The bold span that starts at `at`, within `[at, hi)`.
    pub fn parser(content: &str, at: usize, hi: usize) -> (r: Option<Token>)
        requires
            at <= hi <= content.spec_bytes().len(),
        ensures
            match bold_at(content.spec_bytes(), at as int, hi as int) {
                Some((inner, e)) => r matches Some(t) && t.range == span(at as int, e) && t.iden
                    == NodeType::Bold && t.node == Node::Bold(Bold { range: inner })
                    && t.children@.len() == 0 && at < e <= hi,
                None => r is None,
            },
    {
        let d = content.as_bytes();
        if at < hi && d[at] == STAR {
            let le = scan_line(d, at + 1, hi);
            match scan_last_of(d, at + 1, le, STAR) {
                Some(j) => {
                    let inner = Range { start: at + 1, end: j };
                    Some(
                        Token {
                            range: Range { start: at, end: j + 1 },
                            iden: NodeType::Bold,
                            node: Node::Bold(Bold { range: inner }),
                            children: Vec::new(),
                        },
                    )
                },
                None => None,
            }
        } else {
            None
        }
    }
}

/// The link markup at `at` within `[at, hi)`: description, destination and end.
pub(crate) fn match_link(d: &[u8], at: usize, hi: usize) -> (r: Option<(Range, Range, usize)>)
    requires
        at <= hi <= d@.len(),
    ensures
        match link_at(d@, at as int, hi as int) {
            Some((a, b, e)) => r matches Some((ra, rb, re)) && ra == a && rb == b && re == e && at
                < e <= hi,
            None => r is None,
        },
{
    let ds: usize = if at < hi && d[at] == BANG {
        at + 1
    } else {
        at
    };
    if ds < hi && d[ds] == OPEN_BRACKET {
        match find_label_end(d, ds + 1, hi) {
            Some(k) => match scan_find_on_line(d, k + 2, hi, CLOSE_PAREN) {
                Some(j) => Some(
                    (Range { start: ds + 1, end: k }, Range { start: k + 2, end: j }, j + 1),
                ),
                None => None,
            },
            None => None,
        }
    } else {
        None
    }
}

impl Link {
    /// The link that starts at `at`, within `[at, hi)`.
    pub fn parser(content: &str, at: usize, hi: usize) -> (r: Option<Token>)
        requires
            at <= hi <= content.spec_bytes().len(),
        ensures
            match link_at(content.spec_bytes(), at as int, hi as int) {
                Some((a, b, e)) => r matches Some(t) && t.range == span(at as int, e) && t.iden
                    == NodeType::Link && t.node == Node::Link(
                    Link { description_range: a, link_range: b },
                ) && t.children@.len() == 0 && at < e <= hi,
                None => r is None,
            },
    {
        match match_link(content.as_bytes(), at, hi) {
            Some((a, b, e)) => Some(
                Token {
                    range: Range { start: at, end: e },
                    iden: NodeType::Link,
                    node: Node::Link(Link { description_range: a, link_range: b }),
                    children: Vec::new(),
                },
            ),
            None => None,
        }
    }
}

impl Inline {
    /// A text token for `[prev_start, current_start)`, unless that run is empty.
    pub fn handle_prev(prev_start: usize, current_start: usize) -> (r: Option<Token>)
        ensures
            prev_start < current_start ==> (r matches Some(t) && shape(t) == text_shape(
                prev_start as int,
                current_start as int,
            ) && t.children@.len() == 0),
            prev_start >= current_start ==> r is None,
    {
        if prev_start < current_start {
            let range = Range { start: prev_start, end: current_start };
            Some(
                Token {
                    range,
                    iden: NodeType::Text,
                    node: Node::Text(Text { range }),
                    children: Vec::new(),
                },
            )
        } else {
            None
        }
    }

    /// The first position at or after `k` where `index` holds `v`, or `index.len()` when
    /// there is none.
    pub fn next_index(index: &Vec<usize>, k: usize, v: usize) -> (r: usize)
        ensures
            k <= index@.len() ==> k <= r <= index@.len(),
            k > index@.len() ==> r == k,
            r < index@.len() ==> index@[r as int] == v,
            forall|j: int| k <= j < r && j < index@.len() ==> index@[j] != v,
    {
        let mut j: usize = k;
        while j < index.len()
            invariant
                k <= j,
                k <= index@.len() ==> j <= index@.len(),
                k > index@.len() ==> j == k,
                forall|i: int| k <= i < j && i < index@.len() ==> index@[i] != v,
            decreases index@.len() - j,
        {
            if index[j] == v {
                return j;
            }
            j = j + 1;
        }
        j
    }

    /// Scans `[start, end)` of `content` into text, code span, bold and link tokens, with
    /// offsets into `content`.
    pub fn parser(content: &str, start: usize, end: usize) -> (r: Vec<Token>)
        requires
            start <= end <= content.spec_bytes().len(),
        ensures
            shapes(r@) == inline_spans(content.spec_bytes(), start as int, end as int),
            all_leaves(r@),
            forall|i: int|
                0 <= i < r@.len() ==> start <= (#[trigger] r@[i]).range.start <= r@[i].range.end
                    <= end,
    {
        let ghost d = content.spec_bytes();
        let mut tokens: Vec<Token> = Vec::new();
        let mut i: usize = start;
        let mut pend: usize = start;
        while i < end
            invariant
                start <= pend <= i <= end <= d.len(),
                d == content.spec_bytes(),
                shapes(tokens@) + inline_from(d, i as int, pend as int, end as int)
                    == inline_spans(d, start as int, end as int),
                all_leaves(tokens@),
                forall|j: int|
                    0 <= j < tokens@.len() ==> start <= (#[trigger] tokens@[j]).range.start
                        <= tokens@[j].range.end <= pend,
            decreases end - i,
        {
            let ghost before = tokens@;
            let found = match Quote::parser(content, i, end) {
                Some(t) => Some(t),
                None => match Bold::parser(content, i, end) {
                    Some(t) => Some(t),
                    None => Link::parser(content, i, end),
                },
            };
            match found {
                Some(t) => {
                    let e = t.range.end;
                    assert(span_at(d, i as int, end as int) == Some((t.iden, t.node, e as int)));
                    let ghost m = shape(t);
                    match Inline::handle_prev(pend, i) {
                        Some(p) => tokens.push(p),
                        None => {},
                    }
                    tokens.push(t);
                    assert(shapes(tokens@) =~= shapes(before) + pending_text(pend as int, i as int)
                        + seq![m]);
                    pend = e;
                    i = e;
                },
                None => {
                    i = i + 1;
                },
            }
        }
        let ghost before = tokens@;
        match Inline::handle_prev(pend, end) {
            Some(p) => tokens.push(p),
            None => {},
        }
        assert(shapes(tokens@) =~= shapes(before) + pending_text(pend as int, end as int));
        tokens
    }
}

pub proof fn lemma_label_end(d: Seq<u8>, i: int, hi: int)
    ensures
        label_end(d, i, hi) matches Some(k) ==> i <= k && k + 2 <= hi && d[k] == CLOSE_BRACKET
            && d[k + 1] == OPEN_PAREN,
    decreases hi - i,
{
    if i < hi && !(d[i] == CLOSE_BRACKET && i + 1 < hi && d[i + 1] == OPEN_PAREN && find_on_line(
        d,
        i + 2,
        hi,
        CLOSE_PAREN,
    ) is Some) && d[i] != NL {
        lemma_label_end(d, i + 1, hi);
    }
}

/// A link's description and destination lie inside the markup, in this order.
pub proof fn lemma_link_at(d: Seq<u8>, i: int, hi: int)
    requires
        0 <= i <= hi <= usize::MAX,
    ensures
        link_at(d, i, hi) matches Some((a, b, e)) ==> i < a.start <= a.end < b.start <= b.end < e
            <= hi,
{
    let ds = if i < hi && d[i] == BANG {
        i + 1
    } else {
        i
    };
    lemma_label_end(d, ds + 1, hi);
    if let Some(k) = label_end(d, ds + 1, hi) {
        lemma_find_on_line(d, k + 2, hi, CLOSE_PAREN);
    }
}

/// The ranges of `ss` are non-empty and follow one another from `lo` to `hi` without a gap.
pub open spec fn tiles(ss: Seq<Shape>, lo: int, hi: int) -> bool {
    if ss.len() == 0 {
        lo == hi
    } else {
        &&& ss[0].0.start == lo
        &&& ss[ss.len() - 1].0.end == hi
        &&& forall|i: int| 0 <= i < ss.len() ==> (#[trigger] ss[i]).0.start < ss[i].0.end
        &&& forall|i: int|
            #![trigger ss[i], ss[i + 1]]
            0 <= i < ss.len() - 1 ==> ss[i].0.end == ss[i + 1].0.start
    }
}

proof fn lemma_tiles_concat(x: Seq<Shape>, y: Seq<Shape>, lo: int, mid: int, hi: int)
    requires
        tiles(x, lo, mid),
        tiles(y, mid, hi),
    ensures
        tiles(x + y, lo, hi),
{
    let z = x + y;
    if x.len() > 0 && y.len() > 0 {
        assert forall|i: int| 0 <= i < z.len() implies (#[trigger] z[i]).0.start < z[i].0.end by {
            if i >= x.len() {
                assert(z[i] == y[i - x.len()]);
            }
        }
        assert forall|i: int|
            #![trigger z[i], z[i + 1]]
            0 <= i < z.len() - 1 implies z[i].0.end == z[i + 1].0.start by {
            if i + 1 < x.len() {
                assert(z[i] == x[i] && z[i + 1] == x[i + 1]);
            } else if i + 1 == x.len() {
                assert(z[i + 1] == y[0]);
            } else {
                let j = i - x.len();
                assert(z[i] == y[j] && z[i + 1] == y[j + 1]);
            }
        }
    } else if x.len() == 0 {
        assert(z =~= y);
    } else {
        assert(z =~= x);
    }
}

proof fn lemma_inline_from_tiles(d: Seq<u8>, i: int, pend: int, hi: int)
    requires
        0 <= pend <= i <= hi <= usize::MAX,
    ensures
        tiles(inline_from(d, i, pend, hi), pend, hi),
    decreases hi - i,
{
    if i < hi {
        match span_at(d, i, hi) {
            Some((k, n, e)) => {
                if i < e <= hi {
                    lemma_inline_from_tiles(d, e, e, hi);
                    let m: Seq<Shape> = seq![(span(i, e), k, n)];
                    assert(tiles(pending_text(pend, i), pend, i));
                    assert(tiles(m, i, e));
                    lemma_tiles_concat(pending_text(pend, i), m, pend, i, e);
                    lemma_tiles_concat(pending_text(pend, i) + m, inline_from(d, e, e, hi), pend, e, hi);
                } else {
                    // `span_at` never gives such an end; the scan then stops.
                    assert(false) by {
                        lemma_span_at(d, i, hi);
                    }
                }
            },
            None => {
                lemma_inline_from_tiles(d, i + 1, pend, hi);
            },
        }
    }
}

proof fn lemma_span_at(d: Seq<u8>, i: int, hi: int)
    requires
        0 <= i < hi <= usize::MAX,
    ensures
        span_at(d, i, hi) matches Some((_, _, e)) ==> i < e <= hi,
{
    lemma_find_on_line(d, i + 1, hi, BACKTICK);
    lemma_line_end(d, i + 1, hi);
    lemma_last_of(d, i + 1, line_end(d, i + 1, hi), STAR);
    lemma_link_at(d, i, hi);
}

/// The inline tokens of a span reconstruct it exactly: each covers a non-empty range, the
/// first starts at `lo`, each next one starts where the previous ended, the last ends at `hi`.
pub proof fn lemma_inline_tiles(d: Seq<u8>, lo: int, hi: int)
    requires
        0 <= lo <= hi <= usize::MAX,
    ensures
        tiles(inline_spans(d, lo, hi), lo, hi),
{
    lemma_inline_from_tiles(d, lo, lo, hi);
}

} // verus!
