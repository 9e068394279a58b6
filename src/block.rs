//! Block pass: splits a document into blocks and classifies each one.
use vstd::prelude::*;
use vstd::string::StringSliceAdditionalSpecFns;

use crate::inline::{
    inline_spans, label_end, lemma_label_end, lemma_link_at, link_at, match_link, BANG,
    CLOSE_BRACKET, CLOSE_PAREN, Inline, OPEN_BRACKET, OPEN_PAREN,
};
use crate::scan::{
    all_ws, last_of, lemma_find_on_line, lemma_last_of, lemma_line_end, lemma_run_end,
    lemma_ws_end, lemma_ws_inner, lemma_ws_through, lemma_ws_upto_nl, line_end, run_end,
    scan_last_of, scan_line, scan_run, scan_ws, ws_char_len, ws_end, ws_len, ws_step, NL,
};
use crate::token::{all_leaves, shape, shapes, span, Node, NodeType, Range, Shape, Token};

verus! {

pub const HASH: u8 = 35;
pub const GT: u8 = 62;

/// Splits a document into blocks and classifies them.
pub struct Block {}

#[derive(Clone, Copy, Debug, PartialEq, Eq, Structural)]
pub struct Paragraph {}

/// Payload of a header: the title, without the marks and the whitespace after them.
#[derive(Clone, Copy, Debug, PartialEq, Eq, Structural)]
pub struct Header {
    pub range: Range,
}

/// Payload of a block quote: the block without its leading `>` and whitespace character.
#[derive(Clone, Copy, Debug, PartialEq, Eq, Structural)]
pub struct BlockQuote {
    pub range: Range,
}

/// Payload of an image: the description and the destination.
#[derive(Clone, Copy, Debug, PartialEq, Eq, Structural)]
pub struct Image {
    pub description_range: Range,
    pub link_range: Range,
}

/// A forced break at `e`: two or more whitespace characters, the last of them a line feed.
/// The separator takes the longest such run; gives its end.
pub open spec fn long_break_end(d: Seq<u8>, e: int, hi: int) -> Option<int> {
    match last_of(d, ws_step(d, ws_step(d, e, hi), hi), ws_end(d, e, hi), NL) {
        Some(q) => Some(q + 1),
        None => None,
    }
}

/// A blank-line break at `e`: a line feed, then whitespace that holds another line feed.
pub open spec fn blank_break_end(d: Seq<u8>, e: int, hi: int) -> Option<int> {
    if e < hi && d[e] == NL {
        match last_of(d, e + 1, ws_end(d, e, hi), NL) {
            Some(q) => Some(q + 1),
            None => None,
        }
    } else {
        None
    }
}

pub open spec fn break_end(d: Seq<u8>, e: int, hi: int, long: bool) -> Option<int> {
    if long {
        long_break_end(d, e, hi)
    } else {
        blank_break_end(d, e, hi)
    }
}

/// The first position at or after `e` where a break of the given sort starts.
pub open spec fn first_break(d: Seq<u8>, e: int, hi: int, long: bool) -> Option<int>
    decreases hi - e,
{
    if e >= hi {
        None
    } else if break_end(d, e, hi, long) is Some {
        Some(e)
    } else {
        first_break(d, e + 1, hi, long)
    }
}

/// For the block that starts at `p`: the end of its content and where the next one starts.
/// A forced break anywhere ahead wins over a blank line; with neither, the block runs to `hi`.
pub open spec fn block_at(d: Seq<u8>, p: int, hi: int) -> (int, int) {
    match first_break(d, p, hi, true) {
        Some(e) => match long_break_end(d, e, hi) {
            Some(n) => (e, n),
            None => (hi, hi),
        },
        None => match first_break(d, p, hi, false) {
            Some(e) => match blank_break_end(d, e, hi) {
                Some(n) => (e, n),
                None => (hi, hi),
            },
            None => (hi, hi),
        },
    }
}

/// The block `[p, e)`, unless it is empty.
pub open spec fn nonempty_block(p: int, e: int) -> Seq<(int, int)> {
    if p < e {
        seq![(p, e)]
    } else {
        seq![]
    }
}

/// Content ranges of the blocks from `p` on; a block with no content is left out.
pub open spec fn blocks_from(d: Seq<u8>, p: int, hi: int) -> Seq<(int, int)>
    decreases hi - p,
{
    if p < hi {
        let (e, n) = block_at(d, p, hi);
        if p < n <= hi {
            nonempty_block(p, e) + blocks_from(d, n, hi)
        } else {
            nonempty_block(p, e)
        }
    } else {
        seq![]
    }
}

/// Content ranges of the blocks of `d`.
pub open spec fn block_spans(d: Seq<u8>) -> Seq<(int, int)> {
    blocks_from(d, 0, d.len() as int)
}

pub open spec fn header_level(n: int) -> NodeType {
    if n == 1 {
        NodeType::H1
    } else if n == 2 {
        NodeType::H2
    } else if n == 3 {
        NodeType::H3
    } else if n == 4 {
        NodeType::H4
    } else if n == 5 {
        NodeType::H5
    } else {
        NodeType::H6
    }
}

/// A header block `[s, e)`: a run of `#`, whitespace, then the title up to the end of its line.
pub open spec fn header_at(d: Seq<u8>, s: int, e: int) -> Option<(NodeType, Range)> {
    let h = run_end(d, s, e, HASH);
    let w = ws_end(d, h, e);
    if s < h && h < w {
        Some((header_level(h - s), span(w, line_end(d, w, e))))
    } else {
        None
    }
}

/// A block quote `[s, e)`: a `>` and one whitespace character; the content is the rest.
pub open spec fn blockquote_at(d: Seq<u8>, s: int, e: int) -> Option<Range> {
    if s < e && d[s] == GT && ws_len(d, s + 1, e) > 0 {
        Some(span(s + 1 + ws_len(d, s + 1, e), e))
    } else {
        None
    }
}

/// The kind and payload that the three passes give the block `[s, e)`.
#[verifier::opaque]
pub open spec fn classify(d: Seq<u8>, s: int, e: int) -> (NodeType, Node) {
    match header_at(d, s, e) {
        Some((k, t)) => (k, Node::Header(Header { range: t })),
        None => match blockquote_at(d, s, e) {
            Some(c) => (NodeType::BlockQuote, Node::BlockQuote(BlockQuote { range: c })),
            None => match link_at(d, s, e) {
                Some((a, b, _)) => (
                    NodeType::Image,
                    Node::Image(Image { description_range: a, link_range: b }),
                ),
                None => (NodeType::Paragraph, Node::Paragraph(Paragraph {})),
            },
        },
    }
}

pub open spec fn block_shape(d: Seq<u8>, r: (int, int)) -> Shape {
    let (k, n) = classify(d, r.0, r.1);
    (span(r.0, r.1), k, n)
}

/// Tokens whose ranges lie in a document of length `len`, with no children yet.
pub open spec fn fresh_blocks(ts: Seq<Token>, len: int) -> bool {
    forall|i: int|
        0 <= i < ts.len() ==> 0 <= (#[trigger] ts[i]).range.start <= ts[i].range.end <= len
            && ts[i].children@.len() == 0
}

fn find_break_end(d: &[u8], e: usize, hi: usize, long: bool) -> (r: Option<usize>)
    requires
        e < hi <= d@.len(),
    ensures
        r matches Some(n) ==> break_end(d@, e as int, hi as int, long) == Some(n as int) && e
            < n <= hi,
        r is None ==> break_end(d@, e as int, hi as int, long) is None,
{
    let w = scan_ws(d, e, hi);
    if long {
        let l1 = ws_char_len(d, e, hi);
        let l2 = ws_char_len(d, e + l1, hi);
        match scan_last_of(d, e + l1 + l2, w, NL) {
            Some(q) => Some(q + 1),
            None => None,
        }
    } else {
        if d[e] != NL {
            return None;
        }
        match scan_last_of(d, e + 1, w, NL) {
            Some(q) => Some(q + 1),
            None => None,
        }
    }
}

fn find_first_break(d: &[u8], p: usize, hi: usize, long: bool) -> (r: Option<(usize, usize)>)
    requires
        p <= hi <= d@.len(),
    ensures
        r matches Some((e, n)) ==> first_break(d@, p as int, hi as int, long) == Some(e as int)
            && break_end(d@, e as int, hi as int, long) == Some(n as int) && p <= e < n <= hi,
        r is None ==> first_break(d@, p as int, hi as int, long) is None,
{
    let mut e: usize = p;
    while e < hi
        invariant
            p <= e <= hi <= d@.len(),
            first_break(d@, e as int, hi as int, long) == first_break(d@, p as int, hi as int, long),
        decreases hi - e,
    {
        match find_break_end(d, e, hi, long) {
            Some(n) => {
                return Some((e, n));
            },
            None => {},
        }
        e = e + 1;
    }
    None
}

fn next_block(d: &[u8], p: usize, hi: usize) -> (r: (usize, usize))
    requires
        p < hi <= d@.len(),
    ensures
        block_at(d@, p as int, hi as int) == (r.0 as int, r.1 as int),
        p <= r.0 <= r.1 <= hi,
        p < r.1,
{
    match find_first_break(d, p, hi, true) {
        Some((e, n)) => (e, n),
        None => match find_first_break(d, p, hi, false) {
            Some((e, n)) => (e, n),
            None => (hi, hi),
        },
    }
}

impl Block {
    /// Splits `content` into blocks, each a paragraph token.
    fn split(content: &str) -> (r: Vec<Token>)
        ensures
            r@.len() == block_spans(content.spec_bytes()).len(),
            forall|i: int|
                0 <= i < r@.len() ==> (#[trigger] r@[i]).range == span(
                    block_spans(content.spec_bytes())[i].0,
                    block_spans(content.spec_bytes())[i].1,
                ) && r@[i].iden == NodeType::Paragraph && r@[i].node == Node::Paragraph(
                    Paragraph {},
                ) && 0 <= block_spans(content.spec_bytes())[i].0 <= block_spans(
                    content.spec_bytes(),
                )[i].1 <= content.spec_bytes().len(),
            fresh_blocks(r@, content.spec_bytes().len() as int),
            content.spec_bytes().len() <= usize::MAX,
    {
        let d = content.as_bytes();
        let hi = d.len();
        let ghost ds = d@;
        let mut tokens: Vec<Token> = Vec::new();
        let mut p: usize = 0;
        while p < hi
            invariant
                p <= hi == ds.len(),
                ds == content.spec_bytes(),
                d@ == ds,
                tokens@.len() + blocks_from(ds, p as int, hi as int).len() == block_spans(ds).len(),
                forall|i: int|
                    0 <= i < tokens@.len() ==> (#[trigger] tokens@[i]).range == span(
                        block_spans(ds)[i].0,
                        block_spans(ds)[i].1,
                    ) && tokens@[i].iden == NodeType::Paragraph && tokens@[i].node
                        == Node::Paragraph(Paragraph {}) && 0 <= block_spans(ds)[i].0
                        <= block_spans(ds)[i].1 <= hi,
                forall|i: int|
                    0 <= i < blocks_from(ds, p as int, hi as int).len() ==> block_spans(
                        ds,
                    )[tokens@.len() + i] == #[trigger] blocks_from(ds, p as int, hi as int)[i],
                fresh_blocks(tokens@, hi as int),
            decreases hi - p,
        {
            let (e, n) = next_block(d, p, hi);
            let ghost rest = blocks_from(ds, n as int, hi as int);
            let ghost here = blocks_from(ds, p as int, hi as int);
            assert(here == nonempty_block(p as int, e as int) + rest);
            if p < e {
                assert(here[0] == (p as int, e as int));
                assert(block_spans(ds)[tokens@.len() as int] == (p as int, e as int));
                tokens.push(
                    Token {
                        range: Range { start: p, end: e },
                        iden: NodeType::Paragraph,
                        node: Node::Paragraph(Paragraph {}),
                        children: Vec::new(),
                    },
                );
                assert forall|i: int| 0 <= i < rest.len() implies block_spans(ds)[tokens@.len()
                    + i] == #[trigger] rest[i] by {
                    assert(here[i + 1] == rest[i]);
                }
            } else {
                assert(here =~= rest);
            }
            p = n;
        }
        tokens
    }
}

/// Ranges of `ts` lie in a document of length `len`.
pub open spec fn in_bounds(ts: Seq<Token>, len: int) -> bool {
    forall|i: int|
        0 <= i < ts.len() ==> 0 <= (#[trigger] ts[i]).range.start <= ts[i].range.end <= len
}

/// `b` is `a` with the kinds and payloads of `pass` applied; ranges and children are kept.
pub open spec fn reclassified(
    a: Seq<Token>,
    b: Seq<Token>,
    pass: spec_fn(Token) -> Option<(NodeType, Node)>,
) -> bool {
    &&& b.len() == a.len()
    &&& forall|i: int|
        0 <= i < a.len() ==> {
            &&& (#[trigger] b[i]).range == a[i].range
            &&& b[i].children@ == a[i].children@
            &&& match pass(a[i]) {
                Some((k, n)) => b[i].iden == k && b[i].node == n,
                None => b[i].iden == a[i].iden && b[i].node == a[i].node,
            }
        }
}

pub open spec fn header_pass(d: Seq<u8>, t: Token) -> Option<(NodeType, Node)> {
    match header_at(d, t.range.start as int, t.range.end as int) {
        Some((k, r)) => Some((k, Node::Header(Header { range: r }))),
        None => None,
    }
}

impl Header {
    pub fn level(n: usize) -> (r: NodeType)
        ensures
            r == header_level(n as int),
    {
        match n {
            1 => NodeType::H1,
            2 => NodeType::H2,
            3 => NodeType::H3,
            4 => NodeType::H4,
            5 => NodeType::H5,
            _ => NodeType::H6,
        }
    }

    /// Turns every block that opens with header marks into a header.
    pub fn identify(content: &str, tokens: &mut Vec<Token>) -> (r: bool)
        requires
            in_bounds(old(tokens)@, content.spec_bytes().len() as int),
        ensures
            r,
            reclassified(old(tokens)@, final(tokens)@, |t: Token| header_pass(content.spec_bytes(), t)),
    {
        let d = content.as_bytes();
        let ghost start = tokens@;
        let mut i: usize = 0;
        while i < tokens.len()
            invariant
                i <= tokens@.len() == start.len(),
                in_bounds(start, d@.len() as int),
                d@ == content.spec_bytes(),
                forall|j: int|
                    i <= j < start.len() ==> #[trigger] tokens@[j] == start[j],
                forall|j: int|
                    0 <= j < i ==> {
                        &&& (#[trigger] tokens@[j]).range == start[j].range
                        &&& tokens@[j].children@ == start[j].children@
                        &&& match header_pass(d@, start[j]) {
                            Some((k, n)) => tokens@[j].iden == k && tokens@[j].node == n,
                            None => tokens@[j].iden == start[j].iden && tokens@[j].node == start[j].node,
                        }
                    },
            decreases start.len() - i,
        {
            let s = tokens[i].range.start;
            let e = tokens[i].range.end;
            let h = scan_run(d, s, e, HASH);
            let w = scan_ws(d, h, e);
            if s < h && h < w {
                let title = Range { start: w, end: scan_line(d, w, e) };
                tokens[i].iden = Header::level(h - s);
                tokens[i].node = Node::Header(Header { range: title });
            }
            i = i + 1;
        }
        true
    }
}

pub open spec fn blockquote_pass(d: Seq<u8>, t: Token) -> Option<(NodeType, Node)> {
    if t.iden == NodeType::Paragraph {
        match blockquote_at(d, t.range.start as int, t.range.end as int) {
            Some(c) => Some((NodeType::BlockQuote, Node::BlockQuote(BlockQuote { range: c }))),
            None => None,
        }
    } else {
        None
    }
}

pub open spec fn image_pass(d: Seq<u8>, t: Token) -> Option<(NodeType, Node)> {
    if t.iden == NodeType::Paragraph {
        match link_at(d, t.range.start as int, t.range.end as int) {
            Some((a, b, _)) => Some(
                (NodeType::Image, Node::Image(Image { description_range: a, link_range: b })),
            ),
            None => None,
        }
    } else {
        None
    }
}

impl BlockQuote {
    /// Turns every paragraph block that opens with `>` and a whitespace character into a block
    /// quote.
    pub fn identify(content: &str, tokens: &mut Vec<Token>) -> (r: bool)
        requires
            in_bounds(old(tokens)@, content.spec_bytes().len() as int),
        ensures
            r,
            reclassified(
                old(tokens)@,
                final(tokens)@,
                |t: Token| blockquote_pass(content.spec_bytes(), t),
            ),
    {
        let d = content.as_bytes();
        let ghost start = tokens@;
        let mut i: usize = 0;
        while i < tokens.len()
            invariant
                i <= tokens@.len() == start.len(),
                in_bounds(start, d@.len() as int),
                d@ == content.spec_bytes(),
                forall|j: int| i <= j < start.len() ==> #[trigger] tokens@[j] == start[j],
                forall|j: int|
                    0 <= j < i ==> {
                        &&& (#[trigger] tokens@[j]).range == start[j].range
                        &&& tokens@[j].children@ == start[j].children@
                        &&& match blockquote_pass(d@, start[j]) {
                            Some((k, n)) => tokens@[j].iden == k && tokens@[j].node == n,
                            None => tokens@[j].iden == start[j].iden && tokens@[j].node
                                == start[j].node,
                        }
                    },
            decreases start.len() - i,
        {
            let s = tokens[i].range.start;
            let e = tokens[i].range.end;
            if tokens[i].iden == NodeType::Paragraph && s < e && d[s] == GT {
                let l = ws_char_len(d, s + 1, e);
                if l > 0 {
                    tokens[i].iden = NodeType::BlockQuote;
                    tokens[i].node = Node::BlockQuote(
                        BlockQuote { range: Range { start: s + 1 + l, end: e } },
                    );
                }
            }
            i = i + 1;
        }
        true
    }
}

impl Image {
    /// Turns every paragraph block that opens with `[description](destination)`, with or
    /// without a leading `!`, into an image.
    pub fn identify(content: &str, tokens: &mut Vec<Token>) -> (r: bool)
        requires
            in_bounds(old(tokens)@, content.spec_bytes().len() as int),
        ensures
            r,
            reclassified(old(tokens)@, final(tokens)@, |t: Token| image_pass(content.spec_bytes(), t)),
    {
        let d = content.as_bytes();
        let ghost start = tokens@;
        let mut i: usize = 0;
        while i < tokens.len()
            invariant
                i <= tokens@.len() == start.len(),
                in_bounds(start, d@.len() as int),
                d@ == content.spec_bytes(),
                forall|j: int| i <= j < start.len() ==> #[trigger] tokens@[j] == start[j],
                forall|j: int|
                    0 <= j < i ==> {
                        &&& (#[trigger] tokens@[j]).range == start[j].range
                        &&& tokens@[j].children@ == start[j].children@
                        &&& match image_pass(d@, start[j]) {
                            Some((k, n)) => tokens@[j].iden == k && tokens@[j].node == n,
                            None => tokens@[j].iden == start[j].iden && tokens@[j].node
                                == start[j].node,
                        }
                    },
            decreases start.len() - i,
        {
            if tokens[i].iden == NodeType::Paragraph {
                let s = tokens[i].range.start;
                let e = tokens[i].range.end;
                match match_link(d, s, e) {
                    Some((a, b, _)) => {
                        tokens[i].iden = NodeType::Image;
                        tokens[i].node = Node::Image(Image { description_range: a, link_range: b });
                    },
                    None => {},
                }
            }
            i = i + 1;
        }
        true
    }
}

impl Block {
    /// Splits `content` into blocks and classifies each as header, block quote, image or
    /// paragraph, in that priority.
    pub fn parser(content: &str) -> (r: Vec<Token>)
        ensures
            r@.len() == block_spans(content.spec_bytes()).len(),
            forall|i: int|
                0 <= i < r@.len() ==> shape(#[trigger] r@[i]) == block_shape(
                    content.spec_bytes(),
                    block_spans(content.spec_bytes())[i],
                ),
            forall|i: int|
                0 <= i < r@.len() ==> 0 <= (#[trigger] block_spans(content.spec_bytes())[i]).0
                    <= block_spans(content.spec_bytes())[i].1 <= content.spec_bytes().len(),
            fresh_blocks(r@, content.spec_bytes().len() as int),
            content.spec_bytes().len() <= usize::MAX,
    {
        let ghost d = content.spec_bytes();
        let mut blocks = Block::split(content);
        let ghost b0 = blocks@;
        Header::identify(content, &mut blocks);
        let ghost b1 = blocks@;
        BlockQuote::identify(content, &mut blocks);
        let ghost b2 = blocks@;
        Image::identify(content, &mut blocks);
        assert forall|i: int| 0 <= i < blocks@.len() implies shape(#[trigger] blocks@[i])
            == block_shape(d, block_spans(d)[i]) by {
            reveal(classify);
            assert(reclassified(b0, b1, |t: Token| header_pass(d, t)));
            assert(reclassified(b1, b2, |t: Token| blockquote_pass(d, t)));
            assert(b1[i].range == b0[i].range);
            assert(b2[i].range == b0[i].range);
            let sp = block_spans(d)[i];
            assert(b0[i].range.start as int == sp.0 && b0[i].range.end as int == sp.1);
        }
        assert forall|i: int| 0 <= i < blocks@.len() implies 0 <= (#[trigger] block_spans(d)[i]).0
            <= block_spans(d)[i].1 <= d.len() by {
            assert(b0[i].range == span(block_spans(d)[i].0, block_spans(d)[i].1));
        }
        blocks
    }
}

/// Where the content of the line that starts at `a` and ends at `le` begins: after a
/// leading `>` and one whitespace character, when the line opens with them.
pub open spec fn line_content_start(d: Seq<u8>, a: int, le: int) -> int {
    if a < le && d[a] == GT && ws_len(d, a + 1, le) > 0 {
        a + 1 + ws_len(d, a + 1, le)
    } else {
        a
    }
}

/// Content ranges of the lines of `[a, e)`, split at line feeds: each runs from
/// `line_content_start` to the line feed or to `e`.
pub open spec fn quote_lines(d: Seq<u8>, a: int, e: int) -> Seq<(int, int)>
    decreases e - a,
{
    let le = line_end(d, a, e);
    let c = line_content_start(d, a, le);
    if a <= le && le < e {
        seq![(c, le)] + quote_lines(d, le + 1, e)
    } else {
        seq![(c, le)]
    }
}

/// `t` is the paragraph for the line content `r`, with its inline tokens as children.
pub open spec fn line_token(d: Seq<u8>, t: Token, r: (int, int)) -> bool {
    &&& t.range == span(r.0, r.1)
    &&& t.iden == NodeType::Paragraph
    &&& t.node == Node::Paragraph(Paragraph {})
    &&& shapes(t.children@) == inline_spans(d, r.0, r.1)
    &&& all_leaves(t.children@)
}

impl BlockQuote {
    /// One paragraph per line of `[start, end)`, each already scanned for inline tokens; the
    /// range given is a block quote's content.
    pub fn parser(content: &str, start: usize, end: usize) -> (r: Vec<Token>)
        requires
            start <= end <= content.spec_bytes().len(),
        ensures
            r@.len() == quote_lines(content.spec_bytes(), start as int, end as int).len(),
            forall|i: int|
                0 <= i < r@.len() ==> start <= (#[trigger] r@[i]).range.start <= r@[i].range.end
                    <= end,
            forall|i: int|
                0 <= i < r@.len() ==> line_token(
                    content.spec_bytes(),
                    #[trigger] r@[i],
                    quote_lines(content.spec_bytes(), start as int, end as int)[i],
                ),
    {
        let d = content.as_bytes();
        let ghost all = quote_lines(d@, start as int, end as int);
        let mut tokens: Vec<Token> = Vec::new();
        let mut a: usize = start;
        loop
            invariant
                start <= a <= end <= d@.len(),
                d@ == content.spec_bytes(),
                all == quote_lines(d@, start as int, end as int),
                tokens@.len() + quote_lines(d@, a as int, end as int).len() == all.len(),
                forall|i: int|
                    0 <= i < quote_lines(d@, a as int, end as int).len() ==> all[tokens@.len() + i]
                        == #[trigger] quote_lines(d@, a as int, end as int)[i],
                forall|i: int|
                    0 <= i < tokens@.len() ==> line_token(d@, #[trigger] tokens@[i], all[i]),
                forall|i: int|
                    0 <= i < tokens@.len() ==> start <= (#[trigger] tokens@[i]).range.start
                        <= tokens@[i].range.end <= a,
            decreases end - a,
        {
            let le = scan_line(d, a, end);
            let mut c: usize = a;
            if a < le && d[a] == GT {
                let l = ws_char_len(d, a + 1, le);
                if l > 0 {
                    c = a + 1 + l;
                }
            }
            let t = le;
            let ghost rest = quote_lines(d@, a as int, end as int);
            assert(rest[0] == (c as int, t as int));
            assert(all[tokens@.len() as int] == rest[0]);
            let children = Inline::parser(content, c, t);
            tokens.push(
                Token {
                    range: Range { start: c, end: t },
                    iden: NodeType::Paragraph,
                    node: Node::Paragraph(Paragraph {}),
                    children,
                },
            );
            if le >= end {
                return tokens;
            }
            let ghost next = quote_lines(d@, le + 1, end as int);
            assert(rest == seq![(c as int, t as int)] + next);
            assert forall|i: int| 0 <= i < next.len() implies all[tokens@.len() + i]
                == #[trigger] next[i] by {
                assert(rest[i + 1] == next[i]);
            }
            a = le + 1;
        }
    }
}

proof fn lemma_break_end(d: Seq<u8>, e: int, hi: int, long: bool)
    requires
        0 <= e < hi,
    ensures
        break_end(d, e, hi, long) matches Some(n) ==> e < n <= hi && all_ws(d, e, n),
{
    lemma_ws_end(d, e, hi);
    let lo = if long {
        ws_step(d, ws_step(d, e, hi), hi)
    } else {
        e + 1
    };
    lemma_last_of(d, lo, ws_end(d, e, hi), NL);
    if let Some(n) = break_end(d, e, hi, long) {
        lemma_ws_upto_nl(d, e, hi, n - 1);
    }
}

proof fn lemma_first_break(d: Seq<u8>, e: int, hi: int, long: bool)
    requires
        0 <= e,
    ensures
        first_break(d, e, hi, long) matches Some(b) ==> e <= b < hi && break_end(d, b, hi, long)
            is Some,
    decreases hi - e,
{
    if e < hi && break_end(d, e, hi, long) is None {
        lemma_first_break(d, e + 1, hi, long);
    }
}

proof fn lemma_block_at(d: Seq<u8>, p: int, hi: int)
    requires
        0 <= p < hi,
    ensures
        p <= block_at(d, p, hi).0 <= block_at(d, p, hi).1 <= hi,
        p < block_at(d, p, hi).1,
        block_at(d, p, hi).0 == block_at(d, p, hi).1 ==> block_at(d, p, hi).1 == hi,
        all_ws(d, block_at(d, p, hi).0, block_at(d, p, hi).1),
{
    lemma_first_break(d, p, hi, true);
    lemma_first_break(d, p, hi, false);
    if let Some(e) = first_break(d, p, hi, true) {
        lemma_break_end(d, e, hi, true);
    } else if let Some(e) = first_break(d, p, hi, false) {
        lemma_break_end(d, e, hi, false);
    }
}

proof fn lemma_ws_concat(d: Seq<u8>, a: int, b: int, c: int)
    requires
        a <= b <= c,
        all_ws(d, a, b),
        all_ws(d, b, c),
    ensures
        all_ws(d, a, c),
{
    lemma_ws_through(d, a, b, c);
}

/// The blocks from `p` on are non-empty, follow one another with only whitespace between
/// them, and only whitespace lies before the first and after the last; with no block at
/// all, `[p, hi)` is whitespace.
pub proof fn lemma_blocks_from(d: Seq<u8>, p: int, hi: int)
    requires
        0 <= p <= hi,
    ensures
        ({
            let bs = blocks_from(d, p, hi);
            &&& forall|i: int| 0 <= i < bs.len() ==> p <= (#[trigger] bs[i]).0 < bs[i].1 <= hi
            &&& bs.len() == 0 ==> all_ws(d, p, hi)
            &&& bs.len() > 0 ==> all_ws(d, p, bs[0].0) && all_ws(d, bs[bs.len() - 1].1, hi)
            &&& forall|i: int|
                #![trigger bs[i], bs[i + 1]]
                0 <= i < bs.len() - 1 ==> bs[i].1 < bs[i + 1].0 && all_ws(d, bs[i].1, bs[i + 1].0)
        }),
    decreases hi - p,
{
    let bs = blocks_from(d, p, hi);
    if p == hi {
        assert(ws_len(d, p, hi) == 0);
        return;
    }
    lemma_block_at(d, p, hi);
    let (e, n) = block_at(d, p, hi);
    lemma_blocks_from(d, n, hi);
    let rest = blocks_from(d, n, hi);
    assert(bs == nonempty_block(p, e) + rest);
    assert(ws_len(d, p, p) == 0);
    if rest.len() == 0 {
        lemma_ws_concat(d, e, n, hi);
        if p == e {
            assert(bs =~= rest);
        } else {
            assert(bs =~= seq![(p, e)]);
        }
    } else {
        assert(n < hi);
        lemma_ws_concat(d, e, n, rest[0].0);
        assert(bs[bs.len() - 1] == rest[rest.len() - 1]);
        if p == e {
            assert(bs =~= rest);
        } else {
            assert forall|i: int|
                #![trigger bs[i], bs[i + 1]]
                0 <= i < bs.len() - 1 implies bs[i].1 < bs[i + 1].0 && all_ws(
                    d,
                    bs[i].1,
                    bs[i + 1].0,
                ) by {
                if i > 0 {
                    let j = i - 1;
                    assert(bs[i] == rest[j]);
                    assert(bs[i + 1] == rest[j + 1]);
                } else {
                    assert(bs[1] == rest[0]);
                }
            }
        }
    }
}

/// What each payload of a classified block holds: a header's title follows a run of `#`
/// and the whitespace run after it, and ends at the end of its line; a block quote's content
/// follows `>` and one whitespace character; an image's description and destination sit
/// between their brackets and parentheses.
pub open spec fn payload_faithful(d: Seq<u8>, s: int, e: int, node: Node) -> bool {
    match node {
        Node::Header(h) => {
            let (a, b) = (h.range.start as int, h.range.end as int);
            let m = run_end(d, s, e, HASH);
            &&& s < m < a <= b <= e
            &&& forall|k: int| s <= k < m ==> #[trigger] d[k] == HASH
            &&& ws_end(d, m, e) == a
            &&& forall|k: int| a <= k < b ==> #[trigger] d[k] != NL
            &&& b == e || d[b] == NL
        },
        Node::BlockQuote(q) => {
            &&& s < e && d[s] == GT && ws_len(d, s + 1, e) > 0
            &&& q.range == span(s + 1 + ws_len(d, s + 1, e), e)
        },
        Node::Image(im) => {
            let (a, b) = (im.description_range, im.link_range);
            &&& s < a.start <= a.end < b.start <= b.end < e
            &&& d[a.start - 1] == OPEN_BRACKET
            &&& d[a.end as int] == CLOSE_BRACKET && d[a.end + 1] == OPEN_PAREN
            &&& b.start == a.end + 2
            &&& d[b.end as int] == CLOSE_PAREN
        },
        Node::Paragraph(_) => true,
        _ => false,
    }
}

pub proof fn lemma_classify_faithful(d: Seq<u8>, s: int, e: int)
    requires
        0 <= s <= e <= d.len() <= usize::MAX,
    ensures
        payload_faithful(d, s, e, classify(d, s, e).1),
{
    reveal(classify);
    let h = run_end(d, s, e, HASH);
    lemma_run_end(d, s, e, HASH);
    lemma_ws_end(d, h, e);
    let w = ws_end(d, h, e);
    lemma_line_end(d, w, e);
    let ds = if s < e && d[s] == BANG {
        s + 1
    } else {
        s
    };
    lemma_link_at(d, s, e);
    lemma_label_end(d, ds + 1, e);
    if let Some(k) = label_end(d, ds + 1, e) {
        lemma_find_on_line(d, k + 2, e, CLOSE_PAREN);
    }
}

/// Each line content lies in `[a, e]`.
pub proof fn lemma_quote_lines(d: Seq<u8>, a: int, e: int)
    requires
        0 <= a <= e,
    ensures
        forall|j: int|
            0 <= j < quote_lines(d, a, e).len() ==> a <= (#[trigger] quote_lines(d, a, e)[j]).0
                <= quote_lines(d, a, e)[j].1 <= e,
    decreases e - a,
{
    let le = line_end(d, a, e);
    lemma_line_end(d, a, e);
    if le < e {
        lemma_quote_lines(d, le + 1, e);
        let rest = quote_lines(d, le + 1, e);
        assert forall|j: int|
            0 <= j < quote_lines(d, a, e).len() implies a <= (#[trigger] quote_lines(d, a, e)[j]).0
            <= quote_lines(d, a, e)[j].1 <= e by {
            if j > 0 {
                assert(quote_lines(d, a, e)[j] == rest[j - 1]);
            }
        }
    }
}

/// In a whitespace run with no forced break at its start, no break of either sort starts
/// after it.
proof fn lemma_no_later_breaks(d: Seq<u8>, p: int, hi: int, e: int)
    requires
        0 <= p < e,
        p < hi,
        all_ws(d, p, hi),
        long_break_end(d, p, hi) is None,
    ensures
        first_break(d, e, hi, true) is None,
        first_break(d, e, hi, false) is None,
    decreases hi - e,
{
    if e < hi {
        let p1 = ws_step(d, p, hi);
        let s2 = ws_step(d, p1, hi);
        lemma_last_of(d, s2, hi, NL);
        lemma_ws_end(d, e, hi);
        let e2 = ws_step(d, ws_step(d, e, hi), hi);
        lemma_last_of(d, e2, ws_end(d, e, hi), NL);
        lemma_last_of(d, e + 1, ws_end(d, e, hi), NL);
        if e < p1 {
            lemma_ws_inner(d, p, hi, e);
        } else if e == p1 {
            if ws_len(d, p1, hi) > 1 {
                assert(d[p1] != NL);
            }
        } else if e < s2 {
            lemma_ws_inner(d, p1, hi, e);
        }
        assert(long_break_end(d, e, hi) is None);
        assert(blank_break_end(d, e, hi) is None);
        lemma_no_later_breaks(d, p, hi, e + 1);
    }
}

/// Each step of the split on a whitespace run either takes all of it as one block or leaves
/// an empty block before a separator.
proof fn lemma_ws_block_at(d: Seq<u8>, p: int, hi: int)
    requires
        0 <= p < hi,
        all_ws(d, p, hi),
    ensures
        block_at(d, p, hi).0 == p || block_at(d, p, hi) == (hi, hi),
{
    if long_break_end(d, p, hi) is None {
        lemma_no_later_breaks(d, p, hi, p + 1);
        assert(first_break(d, p, hi, true) is None);
    }
}

/// A whitespace run splits into at most one block.
pub proof fn lemma_blank_blocks(d: Seq<u8>, p: int, hi: int)
    requires
        0 <= p <= hi,
        all_ws(d, p, hi),
    ensures
        blocks_from(d, p, hi).len() <= 1,
    decreases hi - p,
{
    if p < hi {
        lemma_block_at(d, p, hi);
        lemma_ws_block_at(d, p, hi);
        let (e, n) = block_at(d, p, hi);
        if e == p {
            lemma_ws_through(d, p, n, hi);
            lemma_blank_blocks(d, n, hi);
            assert(blocks_from(d, p, hi) =~= blocks_from(d, n, hi));
        } else {
            assert(blocks_from(d, hi, hi).len() == 0);
        }
    }
}

} // verus!
