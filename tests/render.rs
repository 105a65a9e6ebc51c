use mdhtml::data::{Block, Elem, List};
use mdhtml::parser::parse_markdown;
use mdhtml::render::{render_html, Stamp};

fn stamp() -> Stamp {
    Stamp { year: 2024, month: 3, day: 7, hour: 9, minute: 5, second: 0 }
}

fn page(doc: &str, template: Vec<Elem>) -> String {
    let (title, toc, content) = parse_markdown(doc);
    render_html(&title, &toc, &content, &template, &stamp())
}

#[test]
fn render_date_slots_are_zero_padded() {
    let template = vec![
        Elem::Year,
        Elem::Str("-".to_string()),
        Elem::Month,
        Elem::Str("-".to_string()),
        Elem::Day,
        Elem::Str(" ".to_string()),
        Elem::Hour,
        Elem::Str(":".to_string()),
        Elem::Minute,
        Elem::Str(":".to_string()),
        Elem::Second,
    ];
    assert_eq!(page("", template), "2024-03-07 09:05:00");
}

#[test]
fn render_title_and_paragraph() {
    let out = page("# Hi\nsome **bold** and __it__ [l](u) `c` $m$\n", vec![Elem::Title, Elem::Content(0)]);
    assert_eq!(
        out,
        "Hi\n <h1 id=\"Hi\">Hi</h1>\n <p>some <strong>bold</strong> and <em>it</em> <a href=\"u\">l</a> <code>c</code> \\(m\\)</p>\n"
    );
}

#[test]
fn render_toc_list() {
    let out = page("## A\n### B\n", vec![Elem::Toc(2)]);
    let expected = "\n  <ol>\n    <li>\n      <a href=\"#A\">A</a>\n      <ol>\n        <li>\n          <a href=\"#B\">B</a>\n        </li>\n      </ol>\n    </li>\n  </ol>\n";
    assert_eq!(out, expected);
}

#[test]
fn render_empty_toc_is_blank() {
    let out = page("text\n", vec![Elem::Toc(2)]);
    assert_eq!(out, "\n");
}

#[test]
fn render_table_and_blocks() {
    let out = page("|a|\n|-|\n|b|\n", vec![Elem::Content(0)]);
    let expected = "\n <table>\n   <thead>\n     <tr>\n       <td>a</td>\n     </tr>\n   </thead>\n   <tbody>\n     <tr>\n       <td>b</td>\n     </tr>\n   </tbody>\n </table>\n";
    assert_eq!(out, expected);
}

#[test]
fn render_code_math_quote_image() {
    let out = page("```\nx\n```\n$$y$$\n> q\n@[cap](p.png)\n", vec![Elem::Content(2)]);
    let expected = "\n  <pre><code class=\"language-plaintext\">x\n</code></pre>\n  <p>\\[y\\]</p>\n  <blockquote>\n    <p>q</p>\n  </blockquote>\n  <div class=\"image\">\n    <img src=\"p.png\">\n    <p class=\"caption\">cap</p>\n  </div>\n";
    assert_eq!(out, expected);
}

#[test]
fn render_link_card_falls_back_to_url() {
    let content = vec![Block::LinkCard {
        title: "T".to_string(),
        image: None,
        url: "http://s".to_string(),
        description: Some("D".to_string()),
        site_name: None,
    }];
    let toc = List { ordered: true, items: vec![] };
    let out = render_html(&String::new(), &toc, &content, &vec![Elem::Content(0)], &stamp());
    let expected = "\n<div class=\"linkcard\"><a class=\"linkcard-link\" href=\"http://s\">\n  <div class=\"linkcard-text\">\n    <h3 class=\"linkcard-title\">T</h3>\n    <p class=\"linkcard-description\">D</p>\n    <img  class=\"linkcard-favicon\" src=\"http://www.google.com/s2/favicons?domain=http://s\"><span  class=\"linkcard-sitename\">http://s</span>\n  </div>\n</a></div>\n";
    assert_eq!(out, expected);
}
