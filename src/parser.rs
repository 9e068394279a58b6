//! The parser façade: split, classify, expand.
use vstd::prelude::*;
use vstd::string::StringSliceAdditionalSpecFns;

use crate::block::{
    block_shape, block_spans, classify, lemma_blank_blocks, lemma_blocks_from,
    lemma_classify_faithful, lemma_quote_lines, line_token, payload_faithful, quote_lines, Block,
};
use crate::inline::{lemma_inline_tiles, tiles};
use crate::scan::all_ws;
use crate::token::{
    all_leaves, expanded, inside, shape, shapes, span, wf_token, Node, Shape, Token,
};

verus! {

/// `r` is the token tree of `d`: one token per block, each classified and expanded.
pub open spec fn parsed(d: Seq<u8>, r: Seq<Token>) -> bool {
    &&& r.len() == block_spans(d).len()
    &&& forall|i: int|
        0 <= i < r.len() ==> shape(#[trigger] r[i]) == block_shape(d, block_spans(d)[i])
            && expanded(d, shape(r[i]), r[i].children@)
}

/// The root tokens account for the whole document: each has content, each ends before the
/// next starts, and only whitespace lies before the first, between two of them and after the
/// last; with no root token the document is whitespace.
pub proof fn lemma_roots_cover(d: Seq<u8>, r: Seq<Token>)
    requires
        parsed(d, r),
        d.len() <= usize::MAX,
    ensures
        forall|i: int| 0 <= i < r.len() ==> (#[trigger] r[i]).range.start < r[i].range.end <= d.len(),
        r.len() == 0 ==> all_ws(d, 0, d.len() as int),
        r.len() > 0 ==> all_ws(d, 0, r[0].range.start as int) && all_ws(
            d,
            r[r.len() - 1].range.end as int,
            d.len() as int,
        ),
        forall|i: int|
            #![trigger r[i], r[i + 1]]
            0 <= i < r.len() - 1 ==> r[i].range.end < r[i + 1].range.start && all_ws(
                d,
                r[i].range.end as int,
                r[i + 1].range.start as int,
            ),
{
    let bs = block_spans(d);
    assert(r.len() == bs.len());
    lemma_blocks_from(d, 0, d.len() as int);
    assert forall|i: int| 0 <= i < r.len() implies (#[trigger] r[i]).range == span(bs[i].0, bs[i].1)
        && 0 <= bs[i].0 < bs[i].1 <= d.len() by {
        assert(shape(r[i]) == block_shape(d, bs[i]));
    }
    assert forall|i: int|
        #![trigger r[i], r[i + 1]]
        0 <= i < r.len() - 1 implies r[i].range.end < r[i + 1].range.start && all_ws(
            d,
            r[i].range.end as int,
            r[i + 1].range.start as int,
        ) by {
        assert(r[i].range == span(bs[i].0, bs[i].1));
        assert(r[i + 1].range == span(bs[i + 1].0, bs[i + 1].1));
    }
    if r.len() > 0 {
        assert(r[0].range == span(bs[0].0, bs[0].1));
        assert(r[r.len() - 1].range == span(bs[bs.len() - 1].0, bs[bs.len() - 1].1));
    }
}

/// A child and the shapes of its own children.
pub open spec fn child_view(c: Token) -> (Shape, Seq<Shape>) {
    (shape(c), shapes(c.children@))
}

/// A token down to its grandchildren.
pub open spec fn tree_view(t: Token) -> (Shape, Seq<(Shape, Seq<Shape>)>) {
    (shape(t), t.children@.map_values(|c: Token| child_view(c)))
}

proof fn lemma_expansion_unique(d: Seq<u8>, t: Shape, ca: Seq<Token>, cb: Seq<Token>)
    requires
        expanded(d, t, ca),
        expanded(d, t, cb),
    ensures
        ca.map_values(|c: Token| child_view(c)) == cb.map_values(|c: Token| child_view(c)),
        forall|j: int| 0 <= j < ca.len() ==> all_leaves((#[trigger] ca[j]).children@),
{
    reveal(expanded);
    let va = ca.map_values(|c: Token| child_view(c));
    let vb = cb.map_values(|c: Token| child_view(c));
    match t.2 {
        Node::BlockQuote(q) => {
            assert(ca.len() == cb.len());
            assert forall|j: int| 0 <= j < ca.len() implies va[j] == vb[j] by {
                let lines = quote_lines(d, q.range.start as int, q.range.end as int);
                assert(line_token(d, ca[j], lines[j]));
                assert(line_token(d, cb[j], lines[j]));
            }
            assert(va =~= vb);
        },
        Node::Paragraph(_) | Node::Header(_) => {
            assert(shapes(ca) == shapes(cb));
            assert(shapes(ca).len() == shapes(cb).len());
            assert forall|j: int| 0 <= j < ca.len() implies va[j] == vb[j] by {
                assert(shapes(ca)[j] == shapes(cb)[j]);
                assert(ca[j].children@.len() == 0);
                assert(cb[j].children@.len() == 0);
                assert(shapes(ca[j].children@) =~= shapes(cb[j].children@));
            }
            assert(va =~= vb);
            assert forall|j: int| 0 <= j < ca.len() implies all_leaves((#[trigger] ca[j]).children@) by {
                assert(ca[j].children@.len() == 0);
            }
        },
        _ => {
            assert(va =~= vb);
        },
    }
}

/// Parsing depends on the document alone: two results for the same document have the same
/// tree, and the tokens below the second level are leaves in both.
pub proof fn lemma_parse_deterministic(d: Seq<u8>, a: Seq<Token>, b: Seq<Token>)
    requires
        parsed(d, a),
        parsed(d, b),
    ensures
        a.map_values(|t: Token| tree_view(t)) == b.map_values(|t: Token| tree_view(t)),
        forall|i: int, j: int|
            0 <= i < a.len() && 0 <= j < a[i].children@.len() ==> all_leaves(
                (#[trigger] a[i].children@[j]).children@,
            ),
{
    let va = a.map_values(|t: Token| tree_view(t));
    let vb = b.map_values(|t: Token| tree_view(t));
    assert forall|i: int| 0 <= i < a.len() implies va[i] == vb[i] && forall|j: int|
        0 <= j < a[i].children@.len() ==> all_leaves((#[trigger] a[i].children@[j]).children@) by {
        assert(shape(a[i]) == shape(b[i]));
        lemma_expansion_unique(d, shape(a[i]), a[i].children@, b[i].children@);
    }
    assert(va =~= vb);
    assert forall|i: int, j: int|
        0 <= i < a.len() && 0 <= j < a[i].children@.len() implies all_leaves(
            (#[trigger] a[i].children@[j]).children@,
        ) by {
        lemma_expansion_unique(d, shape(a[i]), a[i].children@, b[i].children@);
    }
}

/// Each token covers what its component meant to capture: every payload is faithful to the
/// markup around it, and the inline children of a paragraph, of a header's title and of each
/// line of a block quote reconstruct exactly the text they were scanned from.
pub proof fn lemma_range_fidelity(d: Seq<u8>, r: Seq<Token>)
    requires
        parsed(d, r),
        d.len() <= usize::MAX,
    ensures
        forall|i: int|
            0 <= i < r.len() ==> payload_faithful(
                d,
                (#[trigger] r[i]).range.start as int,
                r[i].range.end as int,
                r[i].node,
            ) && match r[i].node {
                Node::Paragraph(_) => tiles(
                    shapes(r[i].children@),
                    r[i].range.start as int,
                    r[i].range.end as int,
                ),
                Node::Header(h) => tiles(
                    shapes(r[i].children@),
                    h.range.start as int,
                    h.range.end as int,
                ),
                Node::BlockQuote(q) => forall|j: int|
                    0 <= j < r[i].children@.len() ==> tiles(
                        shapes((#[trigger] r[i].children@[j]).children@),
                        r[i].children@[j].range.start as int,
                        r[i].children@[j].range.end as int,
                    ) && inside(r[i].children@[j].range, q.range),
                _ => r[i].children@.len() == 0,
            },
{
    let bs = block_spans(d);
    if d.len() > 0 {
        lemma_blocks_from(d, 0, d.len() as int);
    }
    assert forall|i: int| 0 <= i < r.len() implies payload_faithful(
        d,
        (#[trigger] r[i]).range.start as int,
        r[i].range.end as int,
        r[i].node,
    ) && match r[i].node {
        Node::Paragraph(_) => tiles(
            shapes(r[i].children@),
            r[i].range.start as int,
            r[i].range.end as int,
        ),
        Node::Header(h) => tiles(shapes(r[i].children@), h.range.start as int, h.range.end as int),
        Node::BlockQuote(q) => forall|j: int|
            0 <= j < r[i].children@.len() ==> tiles(
                shapes((#[trigger] r[i].children@[j]).children@),
                r[i].children@[j].range.start as int,
                r[i].children@[j].range.end as int,
            ) && inside(r[i].children@[j].range, q.range),
        _ => r[i].children@.len() == 0,
    } by {
        assert(shape(r[i]) == block_shape(d, bs[i]));
        let (s, e) = bs[i];
        assert(r[i].range == span(s, e));
        lemma_classify_faithful(d, s, e);
        reveal(expanded);
        match r[i].node {
            Node::Paragraph(_) => {
                lemma_inline_tiles(d, s, e);
            },
            Node::Header(h) => {
                lemma_inline_tiles(d, h.range.start as int, h.range.end as int);
            },
            Node::BlockQuote(q) => {
                let cs = r[i].children@;
                let (a, b) = (q.range.start as int, q.range.end as int);
                let lines = quote_lines(d, a, b);
                lemma_quote_lines(d, a, b);
                assert forall|j: int| 0 <= j < cs.len() implies tiles(
                    shapes((#[trigger] cs[j]).children@),
                    cs[j].range.start as int,
                    cs[j].range.end as int,
                ) && inside(cs[j].range, q.range) by {
                    assert(line_token(d, cs[j], lines[j]));
                    lemma_inline_tiles(d, lines[j].0, lines[j].1);
                }
            },
            _ => {},
        }
    }
}

/// An empty or whitespace-only document gives at most one root token.
pub proof fn lemma_blank_document(d: Seq<u8>, r: Seq<Token>)
    requires
        parsed(d, r),
        all_ws(d, 0, d.len() as int),
    ensures
        r.len() <= 1,
{
    lemma_blank_blocks(d, 0, d.len() as int);
}

#[derive(Debug)]
pub struct Parser {}

impl Parser {
    pub fn new() -> (r: Parser) {
        Parser {}
    }

    /// The token tree of `content`.
    pub fn parser(&self, content: &str) -> (r: Vec<Token>)
        ensures
            parsed(content.spec_bytes(), r@),
            all_ws(content.spec_bytes(), 0, content.spec_bytes().len() as int) ==> r@.len() <= 1,
            forall|i: int|
                0 <= i < r@.len() ==> wf_token(#[trigger] r@[i], content.spec_bytes().len() as int),
    {
        let ghost d = content.spec_bytes();
        let mut tokens = Block::parser(content);
        let ghost blocks = tokens@;
        let mut i: usize = 0;
        while i < tokens.len()
            invariant
                i <= tokens@.len() == blocks.len() == block_spans(d).len(),
                d == content.spec_bytes(),
                forall|j: int|
                    0 <= j < blocks.len() ==> shape(#[trigger] tokens@[j]) == shape(blocks[j]),
                forall|j: int|
                    0 <= j < blocks.len() ==> shape(#[trigger] blocks[j]) == block_shape(
                        d,
                        block_spans(d)[j],
                    ),
                forall|j: int|
                    0 <= j < blocks.len() ==> 0 <= (#[trigger] block_spans(d)[j]).0
                        <= block_spans(d)[j].1 <= d.len(),
                d.len() <= usize::MAX,
                forall|j: int|
                    0 <= j < i ==> expanded(d, shape(#[trigger] tokens@[j]), tokens@[j].children@),
                forall|j: int| 0 <= j < i ==> wf_token(#[trigger] tokens@[j], d.len() as int),
            decreases blocks.len() - i,
        {
            proof {
                let sp = block_spans(d)[i as int];
                reveal(classify);
                lemma_classify_faithful(d, sp.0, sp.1);
                assert(blocks[i as int].range.start as int == sp.0);
            }
            let children = tokens[i].parser(content);
            tokens[i].children = children;
            i = i + 1;
        }
        proof {
            if all_ws(d, 0, d.len() as int) {
                lemma_blank_document(d, tokens@);
            }
        }
        tokens
    }
}

} // verus!
