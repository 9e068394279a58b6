use rsmark::block::{Block, BlockQuote, Header, Image, Paragraph};
use rsmark::inline::{Bold, Inline, Link, Quote, Text};
use rsmark::parser::Parser;
use rsmark::token::{Node, NodeType, Range, Token};

fn r(start: usize, end: usize) -> Range {
    Range { start, end }
}

fn parse(doc: &str) -> Vec<Token> {
    Parser::new().parser(doc)
}

fn text(start: usize, end: usize) -> Token {
    Token {
        range: r(start, end),
        iden: NodeType::Text,
        node: Node::Text(Text { range: r(start, end) }),
        children: Vec::new(),
    }
}

fn paragraph(start: usize, end: usize, children: Vec<Token>) -> Token {
    Token {
        range: r(start, end),
        iden: NodeType::Paragraph,
        node: Node::Paragraph(Paragraph {}),
        children,
    }
}

#[test]
fn header_level_one() {
    let t = parse("# x");
    assert_eq!(t.len(), 1);
    assert_eq!(t[0].iden, NodeType::H1);
    assert_eq!(t[0].range, r(0, 3));
    assert_eq!(t[0].node, Node::Header(Header { range: r(2, 3) }));
    assert_eq!(t[0].children, vec![text(2, 3)]);
}

#[test]
fn header_level_six() {
    let t = parse("###### x");
    assert_eq!(t.len(), 1);
    assert_eq!(t[0].iden, NodeType::H6);
    assert_eq!(t[0].node, Node::Header(Header { range: r(7, 8) }));
}

#[test]
fn header_seven_marks_falls_back_to_six() {
    let t = parse("####### x");
    assert_eq!(t.len(), 1);
    assert_eq!(t[0].iden, NodeType::H6);
    assert_eq!(t[0].node, Node::Header(Header { range: r(8, 9) }));
    assert_eq!(t[0].children, vec![text(8, 9)]);
}

#[test]
fn header_title_stops_at_line_end() {
    let t = parse("## ab\nmore");
    assert_eq!(t.len(), 1);
    assert_eq!(t[0].iden, NodeType::H2);
    assert_eq!(t[0].range, r(0, 10));
    assert_eq!(t[0].node, Node::Header(Header { range: r(3, 5) }));
    assert_eq!(t[0].children, vec![text(3, 5)]);
}

#[test]
fn header_needs_whitespace() {
    let t = parse("#x");
    assert_eq!(t[0].iden, NodeType::Paragraph);
    assert_eq!(t[0].children, vec![text(0, 2)]);
}

#[test]
fn header_wins_over_quote() {
    let t = parse("# > x");
    assert_eq!(t[0].iden, NodeType::H1);
    assert_eq!(t[0].node, Node::Header(Header { range: r(2, 5) }));
}

#[test]
fn blockquote_two_lines() {
    let doc = "> hello\n> world";
    let t = parse(doc);
    assert_eq!(t.len(), 1);
    assert_eq!(t[0].iden, NodeType::BlockQuote);
    assert_eq!(t[0].range, r(0, 15));
    assert_eq!(t[0].node, Node::BlockQuote(BlockQuote { range: r(2, 15) }));
    assert_eq!(
        t[0].children,
        vec![paragraph(2, 7, vec![text(2, 7)]), paragraph(10, 15, vec![text(10, 15)])]
    );
    assert_eq!(&doc[2..7], "hello");
    assert_eq!(&doc[10..15], "world");
}

#[test]
fn blockquote_lines_drop_one_marker_and_are_scanned() {
    let t = BlockQuote::parser("> a *b*\n>c \t", 0, 12);
    assert_eq!(t.len(), 2);
    let bold = Token {
        range: r(4, 7),
        iden: NodeType::Bold,
        node: Node::Bold(Bold { range: r(5, 6) }),
        children: Vec::new(),
    };
    assert_eq!(t[0], paragraph(2, 7, vec![text(2, 4), bold]));
    assert_eq!(t[1], paragraph(8, 12, vec![text(8, 12)]));
}

#[test]
fn nested_marker_is_not_a_blockquote() {
    let t = parse(">> x");
    assert_eq!(t[0].iden, NodeType::Paragraph);
}

#[test]
fn image_block() {
    let doc = "![alt](http://x)";
    let t = parse(doc);
    assert_eq!(t.len(), 1);
    assert_eq!(t[0].iden, NodeType::Image);
    assert_eq!(
        t[0].node,
        Node::Image(Image { description_range: r(2, 5), link_range: r(7, 15) })
    );
    assert_eq!(&doc[2..5], "alt");
    assert_eq!(&doc[7..15], "http://x");
    assert!(t[0].children.is_empty());
}

#[test]
fn image_without_bang() {
    let t = parse("[a](b) tail");
    assert_eq!(t[0].iden, NodeType::Image);
    assert_eq!(t[0].node, Node::Image(Image { description_range: r(1, 2), link_range: r(4, 5) }));
    assert!(t[0].children.is_empty());
}

#[test]
fn code_span_wins_over_bold() {
    let t = parse("`*a*`");
    assert_eq!(t.len(), 1);
    assert_eq!(t[0].iden, NodeType::Paragraph);
    assert_eq!(
        t[0].children,
        vec![Token {
            range: r(0, 5),
            iden: NodeType::Quote,
            node: Node::Quote(Quote { range: r(1, 4) }),
            children: Vec::new(),
        }]
    );
}

#[test]
fn bold_then_text() {
    let t = parse("*a* b");
    assert_eq!(
        t[0].children,
        vec![
            Token {
                range: r(0, 3),
                iden: NodeType::Bold,
                node: Node::Bold(Bold { range: r(1, 2) }),
                children: Vec::new(),
            },
            text(3, 5),
        ]
    );
}

#[test]
fn bold_is_greedy_on_its_line() {
    let t = Inline::parser("*a* *b*\n*", 0, 9);
    assert_eq!(t[0].range, r(0, 7));
    assert_eq!(t[0].node, Node::Bold(Bold { range: r(1, 6) }));
    assert_eq!(t[1], text(7, 9));
}

#[test]
fn link_in_text() {
    let t = parse("see [a](b) now");
    assert_eq!(
        t[0].children,
        vec![
            text(0, 4),
            Token {
                range: r(4, 10),
                iden: NodeType::Link,
                node: Node::Link(Link { description_range: r(5, 6), link_range: r(8, 9) }),
                children: Vec::new(),
            },
            text(10, 14),
        ]
    );
}

#[test]
fn multibyte_text_keeps_byte_offsets() {
    let doc = "é *b*";
    let t = parse(doc);
    assert_eq!(t[0].children[0], text(0, 3));
    assert_eq!(t[0].children[1].range, r(3, 6));
    assert_eq!(&doc[4..5], "b");
}

#[test]
fn unclosed_markup_is_text() {
    let t = parse("`a *b [c](d");
    assert_eq!(t[0].children, vec![text(0, 11)]);
}

#[test]
fn blank_line_splits_blocks() {
    let t = parse("a\n\nb");
    assert_eq!(t.len(), 2);
    assert_eq!(t[0].range, r(0, 1));
    assert_eq!(t[1].range, r(3, 4));
}

#[test]
fn forced_break_splits_blocks() {
    let t = parse("a  \nb");
    assert_eq!(t.len(), 2);
    assert_eq!(t[0].range, r(0, 1));
    assert_eq!(t[1].range, r(4, 5));
}

#[test]
fn forced_break_ahead_wins_over_blank_line() {
    let t = parse("a\n\nb  \nc");
    assert_eq!(t.len(), 2);
    assert_eq!(t[0].range, r(0, 4));
    assert_eq!(t[1].range, r(7, 8));
}

#[test]
fn trailing_separator_leaves_no_empty_block() {
    let t = parse("a\n\n");
    assert_eq!(t.len(), 1);
    assert_eq!(t[0].range, r(0, 1));
}

#[test]
fn roots_cover_document() {
    let doc = "# t\n\n> q\n\ntext\n\n![i](u)";
    let t = parse(doc);
    assert_eq!(t.len(), 4);
    assert_eq!(t[0].range.start, 0);
    for w in t.windows(2) {
        assert!(w[0].range.end < w[1].range.start);
        assert!(doc[w[0].range.end..w[1].range.start].chars().all(|c| c.is_whitespace()));
    }
    assert!(doc[t[3].range.end..].chars().all(|c| c.is_whitespace()));
    let kinds: Vec<NodeType> = t.iter().map(|x| x.iden).collect();
    assert_eq!(kinds, vec![NodeType::H1, NodeType::BlockQuote, NodeType::Paragraph, NodeType::Image]);
}

#[test]
fn parsing_twice_gives_the_same_tree() {
    let doc = "# a `b`\n\n> c *d*\n> [e](f)\n\ng";
    assert_eq!(parse(doc), parse(doc));
}

#[test]
fn header_payload_excludes_marks() {
    let doc = "###   title";
    let t = parse(doc);
    match t[0].node {
        Node::Header(h) => assert_eq!(&doc[h.range.start..h.range.end], "title"),
        _ => panic!("not a header"),
    }
}

#[test]
fn empty_document() {
    assert!(parse("").is_empty());
}

#[test]
fn whitespace_only_document() {
    let t = parse("   ");
    assert_eq!(t, vec![paragraph(0, 3, vec![text(0, 3)])]);
    assert!(parse("   \n\n").is_empty());
    let t = parse("  \n  ");
    assert_eq!(t, vec![paragraph(3, 5, vec![text(3, 5)])]);
}

#[test]
fn handle_prev_only_for_nonempty_runs() {
    assert_eq!(Inline::handle_prev(1, 3), Some(text(1, 3)));
    assert_eq!(Inline::handle_prev(3, 3), None);
}

#[test]
fn header_levels() {
    assert_eq!(Header::level(1), NodeType::H1);
    assert_eq!(Header::level(5), NodeType::H5);
    assert_eq!(Header::level(6), NodeType::H6);
    assert_eq!(Header::level(9), NodeType::H6);
}

#[test]
fn inline_matchers_at_offsets() {
    let s = "x`a` *b* ![c](d)";
    let q = Quote::parser(s, 1, 16).unwrap();
    assert_eq!((q.range, q.node), (r(1, 4), Node::Quote(Quote { range: r(2, 3) })));
    assert!(Quote::parser(s, 0, 16).is_none());
    assert!(Quote::parser(s, 1, 3).is_none());
    let b = Bold::parser(s, 5, 16).unwrap();
    assert_eq!((b.range, b.node), (r(5, 8), Node::Bold(Bold { range: r(6, 7) })));
    let l = Link::parser(s, 9, 16).unwrap();
    assert_eq!(
        (l.range, l.node),
        (r(9, 16), Node::Link(Link { description_range: r(11, 12), link_range: r(14, 15) }))
    );
    assert!(Link::parser(s, 9, 15).is_none());
}

#[test]
fn classifier_passes_keep_earlier_kinds() {
    let doc = "## > [a](b)";
    let mut tokens = vec![paragraph(0, 11, Vec::new())];
    assert!(Header::identify(doc, &mut tokens));
    assert_eq!(tokens[0].iden, NodeType::H2);
    assert!(BlockQuote::identify(doc, &mut tokens));
    assert!(Image::identify(doc, &mut tokens));
    assert_eq!(tokens[0].iden, NodeType::H2);
    assert_eq!(tokens[0].node, Node::Header(Header { range: r(3, 11) }));
    let doc = "> [a](b)";
    let mut tokens = vec![paragraph(0, 8, Vec::new())];
    assert!(Image::identify(doc, &mut tokens));
    assert_eq!(tokens[0].iden, NodeType::Paragraph);
    assert!(BlockQuote::identify(doc, &mut tokens));
    assert_eq!(tokens[0].node, Node::BlockQuote(BlockQuote { range: r(2, 8) }));
}

#[test]
fn block_parser_classifies_without_children() {
    let t = Block::parser("# h\n\n[x](y)");
    assert_eq!(t.len(), 2);
    assert_eq!(t[0].iden, NodeType::H1);
    assert_eq!(t[1].iden, NodeType::Image);
    assert!(t.iter().all(|x| x.children.is_empty()));
}

#[test]
fn token_expansion_by_kind() {
    let doc = "# *t*";
    let blocks = Block::parser(doc);
    let children = blocks[0].parser(doc);
    assert_eq!(children.len(), 1);
    assert_eq!(children[0].range, r(2, 5));
    let image = Token {
        range: r(0, 5),
        iden: NodeType::Image,
        node: Node::Image(Image { description_range: r(0, 0), link_range: r(0, 0) }),
        children: Vec::new(),
    };
    assert!(image.parser(doc).is_empty());
}

#[test]
fn whitespace_after_closing_separator_is_the_only_block() {
    let t = parse("\n\n\n  ");
    assert_eq!(t.len(), 1);
    assert_eq!(t[0].range, r(3, 5));
    let t = parse("\u{3000}\n\u{3000}");
    assert!(t.len() <= 1);
}

#[test]
fn leading_blank_lines_give_no_empty_block() {
    let t = parse("\n\nfoo");
    assert_eq!(t, vec![paragraph(2, 5, vec![text(2, 5)])]);
}

#[test]
fn blockquote_splits_its_content_only() {
    let t = parse(">\nfoo");
    assert_eq!(t.len(), 1);
    assert_eq!(t[0].iden, NodeType::BlockQuote);
    assert_eq!(t[0].node, Node::BlockQuote(BlockQuote { range: r(2, 5) }));
    assert_eq!(t[0].children, vec![paragraph(2, 5, vec![text(2, 5)])]);
}

#[test]
fn blockquote_line_loses_at_most_one_marker() {
    let t = parse("> a\n>> b");
    assert_eq!(t[0].node, Node::BlockQuote(BlockQuote { range: r(2, 8) }));
    assert_eq!(
        t[0].children,
        vec![paragraph(2, 3, vec![text(2, 3)]), paragraph(4, 8, vec![text(4, 8)])]
    );
}

#[test]
fn unicode_whitespace_after_header_marks() {
    let doc = "#\u{a0}x";
    let t = parse(doc);
    assert_eq!(t[0].iden, NodeType::H1);
    assert_eq!(t[0].node, Node::Header(Header { range: r(3, 4) }));
    assert_eq!(&doc[3..4], "x");
}

#[test]
fn unicode_whitespace_after_quote_marker() {
    let doc = ">\u{3000}x";
    let t = parse(doc);
    assert_eq!(t[0].iden, NodeType::BlockQuote);
    assert_eq!(t[0].node, Node::BlockQuote(BlockQuote { range: r(4, 5) }));
    assert_eq!(t[0].children, vec![paragraph(4, 5, vec![text(4, 5)])]);
}

#[test]
fn forced_break_counts_whitespace_characters() {
    let t = parse("a\u{3000}\u{3000}\nb");
    assert_eq!(t.len(), 2);
    assert_eq!(t[0].range, r(0, 1));
    assert_eq!(t[1].range, r(8, 9));
    let t = parse("a\u{3000}\nb");
    assert_eq!(t.len(), 1);
    assert_eq!(t[0].range, r(0, 6));
}

#[test]
fn next_index_finds_first_match() {
    let index = vec![0, 2, 3, 5, 2];
    assert_eq!(Inline::next_index(&index, 0, 2), 1);
    assert_eq!(Inline::next_index(&index, 2, 2), 4);
    assert_eq!(Inline::next_index(&index, 0, 7), 5);
}
