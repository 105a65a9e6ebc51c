use mdhtml::data::{Block, EmbedInfo, List, Prim, Span};
use mdhtml::parser::{links_to_resolve, parse_markdown, parse_markdown_with, Parser};
use mdhtml::scrape::{extract_ogp, extract_title, ogp_from_pairs};

fn text_of(p: &Prim) -> String {
    match p {
        Prim::Text { text } => text.clone(),
        _ => panic!("not a text primitive"),
    }
}

fn span_text(s: &Span) -> String {
    match s {
        Span::PrimElem(p) => text_of(p),
        _ => panic!("not a primitive span"),
    }
}

fn spans_of(b: &Block) -> &Vec<Span> {
    match b {
        Block::Paragraph { spans } => spans,
        _ => panic!("not a paragraph"),
    }
}

fn header_id(b: &Block) -> String {
    match b {
        Block::Header { id, .. } => id.clone(),
        _ => panic!("not a heading"),
    }
}

fn link_url(s: &Span) -> String {
    match s {
        Span::PrimElem(Prim::Link { url, .. }) => url.clone(),
        _ => panic!("not a link"),
    }
}

#[test]
fn parse_consumes_whole_input() {
    let inputs = [
        "",
        "plain",
        "**open bold",
        "__open italic\nnext",
        "a ] b [ c",
        "[text](url",
        "@[cap](x.png",
        "| a | b\n|-|\n",
        "- a\n   - b\n - c\n",
        "$$ x",
        "```rust\nfn",
        "#### gap first\n## then",
        "\r\n\r\n> q\r\n",
    ];
    for doc in inputs.iter() {
        let mut p = Parser::new(doc);
        p.parse_markdown();
        assert_eq!(p.pos, p.chs.len());
    }
}

#[test]
fn repeated_headings_get_numbered_ids() {
    let (_, toc, content) = parse_markdown("## Intro\n## Intro\n## Intro\n");
    assert_eq!(content.len(), 3);
    assert_eq!(header_id(&content[0]), "Intro");
    assert_eq!(header_id(&content[1]), "Intro-1");
    assert_eq!(header_id(&content[2]), "Intro-2");
    assert_eq!(toc.items.len(), 3);
    assert_eq!(link_url(&toc.items[0].spans[0]), "#Intro");
    assert_eq!(link_url(&toc.items[1].spans[0]), "#Intro-1");
    assert_eq!(link_url(&toc.items[2].spans[0]), "#Intro-2");
}

#[test]
fn toc_depth_follows_level() {
    let (_, toc, _) = parse_markdown("## a\n### b\n#### c\n");
    assert!(toc.ordered);
    assert_eq!(toc.items.len(), 1);
    assert_eq!(link_url(&toc.items[0].spans[0]), "#a");
    let l1 = &toc.items[0].list;
    assert_eq!(l1.items.len(), 1);
    assert_eq!(link_url(&l1.items[0].spans[0]), "#b");
    let l2 = &l1.items[0].list;
    assert_eq!(l2.items.len(), 1);
    assert_eq!(link_url(&l2.items[0].spans[0]), "#c");
}

#[test]
fn toc_pads_skipped_levels() {
    let (_, toc, _) = parse_markdown("#### deep\n");
    assert_eq!(toc.items.len(), 1);
    assert!(toc.items[0].spans.is_empty());
    let l1 = &toc.items[0].list;
    assert_eq!(l1.items.len(), 1);
    assert!(l1.items[0].spans.is_empty());
    let l2 = &l1.items[0].list;
    assert_eq!(l2.items.len(), 1);
    assert_eq!(link_url(&l2.items[0].spans[0]), "#deep");
}

#[test]
fn level_one_heading_sets_title() {
    let (title, toc, content) = parse_markdown("# My `Doc`\n");
    assert_eq!(title, "My Doc");
    assert!(toc.items.is_empty());
    assert_eq!(header_id(&content[0]), "My Doc");
}

#[test]
fn heading_link_gives_its_text_to_id() {
    let (_, toc, content) = parse_markdown("## see [the docs](http://d)\n");
    assert_eq!(header_id(&content[0]), "see the docs");
    match &toc.items[0].spans[0] {
        Span::PrimElem(Prim::Link { text, url }) => {
            assert_eq!(url, "#see the docs");
            assert_eq!(text.len(), 2);
            assert_eq!(text_of(&text[0]), "see ");
            assert_eq!(text_of(&text[1]), "the docs");
        },
        _ => panic!("contents entry is not a link"),
    }
}

#[test]
fn empty_link_text_takes_resolved_title() {
    let (_, _, content) = parse_markdown_with(
        "[](http://example.com)",
        vec!["Example".to_string()],
        vec![],
    );
    assert_eq!(content.len(), 1);
    let spans = spans_of(&content[0]);
    assert_eq!(spans.len(), 1);
    match &spans[0] {
        Span::PrimElem(Prim::Link { text, url }) => {
            assert_eq!(url, "http://example.com");
            assert_eq!(text.len(), 1);
            assert_eq!(text_of(&text[0]), "Example");
        },
        _ => panic!("not a link"),
    }
}

#[test]
fn empty_link_without_answer_gets_empty_title() {
    let (_, _, content) = parse_markdown("[](http://example.com)");
    match &spans_of(&content[0])[0] {
        Span::PrimElem(Prim::Link { text, .. }) => {
            assert_eq!(text.len(), 1);
            assert_eq!(text_of(&text[0]), "");
        },
        _ => panic!("not a link"),
    }
}

#[test]
fn nested_list() {
    let (_, _, content) = parse_markdown("- a\n  - b\n");
    assert_eq!(content.len(), 1);
    match &content[0] {
        Block::ListElement(List { ordered, items }) => {
            assert!(!*ordered);
            assert_eq!(items.len(), 1);
            assert_eq!(items[0].spans.len(), 1);
            assert_eq!(span_text(&items[0].spans[0]), "a");
            let child = &items[0].list;
            assert!(!child.ordered);
            assert_eq!(child.items.len(), 1);
            assert_eq!(span_text(&child.items[0].spans[0]), "b");
            assert!(child.items[0].list.items.is_empty());
        },
        _ => panic!("not a list"),
    }
}

#[test]
fn ordered_list_marker() {
    let (_, _, content) = parse_markdown("+ one\n+ two\n");
    match &content[0] {
        Block::ListElement(list) => {
            assert!(list.ordered);
            assert_eq!(list.items.len(), 2);
            assert_eq!(span_text(&list.items[1].spans[0]), "two");
        },
        _ => panic!("not a list"),
    }
}

#[test]
fn table_separator_is_dropped() {
    let (_, _, content) = parse_markdown("|h1|h2|\n|-|-|\n|v1|v2|\n");
    assert_eq!(content.len(), 1);
    match &content[0] {
        Block::Table { head, body } => {
            assert_eq!(head, &vec![vec!["h1".to_string(), "h2".to_string()]]);
            assert_eq!(body, &vec![vec!["v1".to_string(), "v2".to_string()]]);
        },
        _ => panic!("not a table"),
    }
}

#[test]
fn table_cells_are_trimmed_and_escaped() {
    let (_, _, content) = parse_markdown("| a<b |  c \n");
    match &content[0] {
        Block::Table { head, body } => {
            assert_eq!(head, &vec![vec!["a&lt;b".to_string(), "c".to_string()]]);
            assert!(body.is_empty());
        },
        _ => panic!("not a table"),
    }
}

#[test]
fn angle_brackets_are_escaped() {
    let (_, _, content) = parse_markdown("a<b> `<c>` $<d>$");
    let spans = spans_of(&content[0]);
    assert_eq!(spans.len(), 4);
    assert_eq!(span_text(&spans[0]), "a&lt;b&gt; ");
    match &spans[1] {
        Span::PrimElem(Prim::Code { code }) => assert_eq!(code, "&lt;c&gt;"),
        _ => panic!("not code"),
    }
    assert_eq!(span_text(&spans[2]), " ");
    match &spans[3] {
        Span::PrimElem(Prim::Math { math }) => assert_eq!(math, "&lt;d&gt;"),
        _ => panic!("not math"),
    }
}

#[test]
fn no_trailing_empty_paragraph() {
    let (_, _, content) = parse_markdown("a\n\n");
    assert_eq!(content.len(), 1);
    assert_eq!(spans_of(&content[0]).len(), 1);
    let (_, _, content) = parse_markdown("\n\n\r\n");
    assert!(content.is_empty());
}

#[test]
fn empty_document() {
    let (title, toc, content) = parse_markdown("");
    assert_eq!(title, "");
    assert!(toc.ordered);
    assert!(toc.items.is_empty());
    assert!(content.is_empty());
}

#[test]
fn bold_and_italic_nest() {
    let (_, _, content) = parse_markdown("**a __b__**");
    let spans = spans_of(&content[0]);
    assert_eq!(spans.len(), 1);
    match &spans[0] {
        Span::Bold { text } => {
            assert_eq!(text.len(), 2);
            assert_eq!(span_text(&text[0]), "a ");
            match &text[1] {
                Span::Ital { text } => assert_eq!(span_text(&text[0]), "b"),
                _ => panic!("not italic"),
            }
        },
        _ => panic!("not bold"),
    }
}

#[test]
fn open_emphasis_closes_at_end() {
    let (_, _, content) = parse_markdown("**open");
    match &spans_of(&content[0])[0] {
        Span::Bold { text } => assert_eq!(span_text(&text[0]), "open"),
        _ => panic!("not bold"),
    }
}

#[test]
fn stray_bracket_stays_text() {
    let (_, _, content) = parse_markdown("a ] b");
    let spans = spans_of(&content[0]);
    assert_eq!(spans.len(), 2);
    assert_eq!(span_text(&spans[0]), "a ");
    assert_eq!(span_text(&spans[1]), "] b");
}

#[test]
fn blockquote_lines() {
    let (_, _, content) = parse_markdown("> one\n> two\nafter\n");
    assert_eq!(content.len(), 2);
    match &content[0] {
        Block::Blockquote { lines } => {
            assert_eq!(lines.len(), 2);
            assert_eq!(span_text(&lines[1][0]), "two");
        },
        _ => panic!("not a blockquote"),
    }
}

#[test]
fn code_and_math_blocks() {
    let (_, _, content) = parse_markdown("```rust\nlet a = 1 < 2;\n```\n$$x>0$$\n");
    match &content[0] {
        Block::CodeBlock { lang, code } => {
            assert_eq!(lang, "rust");
            assert_eq!(code, "let a = 1 &lt; 2;\n");
        },
        _ => panic!("not a code block"),
    }
    match &content[1] {
        Block::MathBlock { math } => assert_eq!(math, "x&gt;0"),
        _ => panic!("not a math block"),
    }
}

#[test]
fn embed_image_and_card() {
    let info = EmbedInfo {
        title: "Site".to_string(),
        image: Some("i.png".to_string()),
        description: None,
        site_name: Some("S".to_string()),
    };
    let (_, _, content) = parse_markdown_with("@[a cat](cat.jpg)\n@[](http://s)\n", vec![], vec![info]);
    assert_eq!(content.len(), 2);
    match &content[0] {
        Block::Image { title, url } => {
            assert_eq!(url, "cat.jpg");
            assert_eq!(text_of(&title[0]), "a cat");
        },
        _ => panic!("not an image"),
    }
    match &content[1] {
        Block::LinkCard { title, image, url, description, site_name } => {
            assert_eq!(title, "Site");
            assert_eq!(image.as_deref(), Some("i.png"));
            assert_eq!(url, "http://s");
            assert!(description.is_none());
            assert_eq!(site_name.as_deref(), Some("S"));
        },
        _ => panic!("not a link card"),
    }
}

#[test]
fn embed_card_without_answer_is_empty() {
    let (_, _, content) = parse_markdown("@[](http://s)");
    match &content[0] {
        Block::LinkCard { title, image, description, site_name, .. } => {
            assert_eq!(title, "");
            assert!(image.is_none() && description.is_none() && site_name.is_none());
        },
        _ => panic!("not a link card"),
    }
}

#[test]
fn urls_to_resolve_in_order() {
    let (titles, embeds) = links_to_resolve("[](http://a) [x](http://b) [](http://c)\n@[](http://e)\n@[p](p.png)\n");
    assert_eq!(titles, vec!["http://a".to_string(), "http://c".to_string()]);
    assert_eq!(embeds, vec!["http://e".to_string()]);
}

#[test]
fn card_metadata_from_properties() {
    let pairs = vec![
        ("title".to_string(), "First".to_string()),
        ("image".to_string(), "a.png".to_string()),
        ("title".to_string(), "Second".to_string()),
        ("site_name".to_string(), "Site".to_string()),
        ("type".to_string(), "website".to_string()),
    ];
    let info = ogp_from_pairs(&pairs, Some("Page".to_string()));
    assert_eq!(info.title, "Second");
    assert_eq!(info.image.as_deref(), Some("a.png"));
    assert!(info.description.is_none());
    assert_eq!(info.site_name.as_deref(), Some("Site"));
}

#[test]
fn card_title_falls_back_to_page_title() {
    let pairs = vec![("title".to_string(), "".to_string())];
    let info = ogp_from_pairs(&pairs, Some("Page".to_string()));
    assert_eq!(info.title, "Page");
    let info = ogp_from_pairs(&vec![], None);
    assert_eq!(info.title, "");
}

#[test]
fn page_title_from_html() {
    assert_eq!(extract_title("<html><head><title>Hello</title></head></html>"), "Hello");
    assert_eq!(extract_title("<html>no title</html>"), "");
}

#[test]
fn card_metadata_from_html() {
    let body = "<meta property=\"og:title\" content=\"T\"><meta property=\"og:description\" content=\"D\"><title>P</title>";
    let info = extract_ogp(body);
    assert_eq!(info.title, "T");
    assert_eq!(info.description.as_deref(), Some("D"));
    assert!(info.image.is_none());
    let info = extract_ogp("<title>Only</title>");
    assert_eq!(info.title, "Only");
}

#[test]
fn row_parser_drops_separator_line() {
    let mut p = Parser::new("|-|--|\n|a|\n");
    assert!(p.parse_table_row().is_none());
    assert_eq!(p.pos, 7);
    let row = p.parse_table_row().unwrap();
    assert_eq!(row, vec!["a".to_string()]);
    assert_eq!(p.pos, p.chs.len());
    let mut q = Parser::new("x|");
    assert!(q.parse_table_row().is_none());
    assert_eq!(q.pos, 0);
}

#[test]
fn table_cells_trim_unicode_white_space() {
    let (_, _, content) = parse_markdown("|\u{c}a\u{a0}|\u{3000}b\u{2009}|\n");
    match &content[0] {
        Block::Table { head, .. } => {
            assert_eq!(head, &vec![vec!["a".to_string(), "b".to_string()]]);
        },
        _ => panic!("not a table"),
    }
}
