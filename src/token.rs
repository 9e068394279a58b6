//! The token tree: kinds, ranges, per-kind payloads.
use vstd::prelude::*;

use vstd::string::StringSliceAdditionalSpecFns;

use crate::block::{line_token, quote_lines, BlockQuote, Header, Image, Paragraph};
use crate::inline::{inline_spans, Bold, Inline, Link, Quote, Text};

verus! {

/// Half-open byte range `[start, end)` into the original document.
#[derive(Clone, Copy, Debug, PartialEq, Eq, Structural)]
pub struct Range {
    pub start: usize,
    pub end: usize,
}

#[derive(Clone, Copy, Debug, PartialEq, Eq, Structural)]
pub enum NodeType {
    H1,
    H2,
    H3,
    H4,
    H5,
    H6,
    Paragraph,
    BlockQuote,
    Image,
    Text,
    Quote,
    Bold,
    Link,
}

/// Kind-specific payload of a token.
#[derive(Clone, Copy, Debug, PartialEq, Eq, Structural)]
pub enum Node {
    Paragraph(Paragraph),
    Header(Header),
    BlockQuote(BlockQuote),
    Image(Image),
    Text(Text),
    Quote(Quote),
    Bold(Bold),
    Link(Link),
}

#[derive(Debug, PartialEq, Eq)]
pub struct Token {
    pub range: Range,
    pub iden: NodeType,
    pub node: Node,
    pub children: Vec<Token>,
}

/// A token without its children: range, kind and payload.
pub type Shape = (Range, NodeType, Node);

pub open spec fn span(a: int, b: int) -> Range {
    Range { start: a as usize, end: b as usize }
}

pub open spec fn shape(t: Token) -> Shape {
    (t.range, t.iden, t.node)
}

pub open spec fn shapes(ts: Seq<Token>) -> Seq<Shape> {
    ts.map_values(|t: Token| shape(t))
}

/// Every token of `ts` is a leaf.
pub open spec fn all_leaves(ts: Seq<Token>) -> bool {
    forall|i: int| 0 <= i < ts.len() ==> (#[trigger] ts[i]).children@.len() == 0
}

pub open spec fn is_header(k: NodeType) -> bool {
    k == NodeType::H1 || k == NodeType::H2 || k == NodeType::H3 || k == NodeType::H4
        || k == NodeType::H5 || k == NodeType::H6
}

/// `inner` lies inside `outer`.
pub open spec fn inside(inner: Range, outer: Range) -> bool {
    outer.start <= inner.start <= inner.end <= outer.end
}

/// A well-formed token of a document of length `len`: its range lies in the document, its
/// payload matches its kind, and every payload range lies inside the token's range.
pub open spec fn wf_token(t: Token, len: int) -> bool {
    &&& t.range.start <= t.range.end <= len
    &&& match t.node {
        Node::Paragraph(_) => t.iden == NodeType::Paragraph,
        Node::Header(h) => is_header(t.iden) && inside(h.range, t.range),
        Node::BlockQuote(q) => t.iden == NodeType::BlockQuote && inside(q.range, t.range),
        Node::Image(im) => t.iden == NodeType::Image && inside(im.description_range, t.range)
            && inside(im.link_range, t.range),
        Node::Text(x) => t.iden == NodeType::Text && x.range == t.range,
        Node::Quote(x) => t.iden == NodeType::Quote && inside(x.range, t.range),
        Node::Bold(x) => t.iden == NodeType::Bold && inside(x.range, t.range),
        Node::Link(x) => t.iden == NodeType::Link && inside(x.description_range, t.range)
            && inside(x.link_range, t.range),
    }
}

/// The range that a token's children are drawn from: a header's title, a block quote's
/// content, or else the token's own range.
pub open spec fn child_source(t: Shape) -> Range {
    match t.2 {
        Node::Header(h) => h.range,
        Node::BlockQuote(q) => q.range,
        _ => t.0,
    }
}

/// `cs` are the children that expanding `t` gives, by the kind of its payload: the inline
/// tokens of a paragraph's range or of a header's title, one scanned paragraph per line of a
/// block quote's content, and none for the other kinds.
#[verifier::opaque]
pub open spec fn expanded(d: Seq<u8>, t: Shape, cs: Seq<Token>) -> bool {
    let (range, _, node) = t;
    match node {
        Node::Paragraph(_) => shapes(cs) == inline_spans(d, range.start as int, range.end as int)
            && all_leaves(cs),
        Node::Header(h) => shapes(cs) == inline_spans(d, h.range.start as int, h.range.end as int)
            && all_leaves(cs),
        Node::BlockQuote(q) => {
            let lines = quote_lines(d, q.range.start as int, q.range.end as int);
            &&& cs.len() == lines.len()
            &&& forall|i: int| 0 <= i < cs.len() ==> line_token(d, #[trigger] cs[i], lines[i])
        },
        _ => cs.len() == 0,
    }
}

impl Token {
    /// The children of this token, found from its kind and ranges in `content`.
    pub fn parser(&self, content: &str) -> (r: Vec<Token>)
        requires
            wf_token(*self, content.spec_bytes().len() as int),
        ensures
            expanded(content.spec_bytes(), shape(*self), r@),
            forall|i: int|
                0 <= i < r@.len() ==> inside((#[trigger] r@[i]).range, child_source(shape(*self)))
                    && inside(r@[i].range, self.range),
    {
        reveal(expanded);
        match self.node {
            Node::Paragraph(_) => Inline::parser(content, self.range.start, self.range.end),
            Node::Header(h) => Inline::parser(content, h.range.start, h.range.end),
            Node::BlockQuote(q) => BlockQuote::parser(content, q.range.start, q.range.end),
            _ => Vec::new(),
        }
    }
}

} // verus!
