use vstd::prelude::*;
use crate::data::{Block, Elem, List, ListItem, Prim, Span};
use crate::scrape::opt_view;
use crate::text::{decimal, push_decimal, push_str, push_string, string_of};

verus! {

/// The HTML of a primitive.
pub open spec fn prim_html(p: Prim) -> Seq<char>
    decreases p,
{
    match p {
        Prim::Link { text, url } => "<a href=\""@ + url@ + "\">"@ + prims_html(text@) + "</a>"@,
        Prim::Math { math } => "\\("@ + math@ + "\\)"@,
        Prim::Code { code } => "<code>"@ + code@ + "</code>"@,
        Prim::Text { text } => text@,
    }
}

/// The HTML of a sequence of primitives, in order.
pub open spec fn prims_html(ps: Seq<Prim>) -> Seq<char>
    decreases ps,
{
    if ps.len() == 0 {
        Seq::empty()
    } else {
        prims_html(ps.subrange(0, ps.len() - 1)) + prim_html(ps[ps.len() - 1])
    }
}

/// Appends the HTML of `p` to `out`.
pub fn push_prim(out: &mut Vec<char>, p: &Prim)
    ensures
        final(out)@ == old(out)@ + prim_html(*p),
    decreases p,
{
    match p {
        Prim::Link { text, url } => {
            push_str(out, "<a href=\"");
            push_string(out, url);
            push_str(out, "\">");
            let ghost mid = out@;
            let mut j: usize = 0;
            while j < text.len()
                invariant
                    *p is Link,
                    (*p)->Link_text == *text,
                    j <= text@.len(),
                    out@ == mid + prims_html(text@.subrange(0, j as int)),
                decreases text@.len() - j,
            {
                proof {
                    assert(decreases_to!(*p => (*p)->Link_text));
                    assert(decreases_to!(*text => text@));
                    assert(decreases_to!(text@ => text@[j as int]));
                }
                push_prim(out, &text[j]);
                assert(text@.subrange(0, j + 1).subrange(0, j as int) =~= text@.subrange(0, j as int));
                assert(out@ =~= mid + prims_html(text@.subrange(0, j + 1)));
                j = j + 1;
            }
            assert(text@.subrange(0, text@.len() as int) =~= text@);
            push_str(out, "</a>");
            assert(out@ =~= old(out)@ + prim_html(*p));
        },
        Prim::Math { math } => {
            push_str(out, "\\(");
            push_string(out, math);
            push_str(out, "\\)");
            assert(out@ =~= old(out)@ + prim_html(*p));
        },
        Prim::Code { code } => {
            push_str(out, "<code>");
            push_string(out, code);
            push_str(out, "</code>");
            assert(out@ =~= old(out)@ + prim_html(*p));
        },
        Prim::Text { text } => {
            push_string(out, text);
        },
    }
}

/// Appends the HTML of each primitive of `ps` to `out`.
pub fn push_prims(out: &mut Vec<char>, ps: &Vec<Prim>)
    ensures
        final(out)@ == old(out)@ + prims_html(ps@),
{
    let mut j: usize = 0;
    while j < ps.len()
        invariant
            j <= ps@.len(),
            out@ == old(out)@ + prims_html(ps@.subrange(0, j as int)),
        decreases ps@.len() - j,
    {
        push_prim(out, &ps[j]);
        assert(ps@.subrange(0, j + 1).subrange(0, j as int) =~= ps@.subrange(0, j as int));
        assert(out@ =~= old(out)@ + prims_html(ps@.subrange(0, j + 1)));
        j = j + 1;
    }
    assert(ps@.subrange(0, ps@.len() as int) =~= ps@);
}

/// The HTML of a span: emphasis as `strong` and `em` around the nested spans.
pub open spec fn span_html(s: Span) -> Seq<char>
    decreases s,
{
    match s {
        Span::Bold { text } => "<strong>"@ + spans_html(text@) + "</strong>"@,
        Span::Ital { text } => "<em>"@ + spans_html(text@) + "</em>"@,
        Span::PrimElem(p) => prim_html(p),
    }
}

/// The HTML of a sequence of spans, in order.
pub open spec fn spans_html(ss: Seq<Span>) -> Seq<char>
    decreases ss,
{
    if ss.len() == 0 {
        Seq::empty()
    } else {
        spans_html(ss.subrange(0, ss.len() - 1)) + span_html(ss[ss.len() - 1])
    }
}

/// Appends the HTML of `s` to `out`.
pub fn push_span(out: &mut Vec<char>, s: &Span)
    ensures
        final(out)@ == old(out)@ + span_html(*s),
    decreases s,
{
    match s {
        Span::PrimElem(p) => push_prim(out, p),
        Span::Bold { text } => {
            push_str(out, "<strong>");
            let ghost mid = out@;
            let mut j: usize = 0;
            while j < text.len()
                invariant
                    *s is Bold,
                    (*s)->Bold_text == *text,
                    j <= text@.len(),
                    out@ == mid + spans_html(text@.subrange(0, j as int)),
                decreases text@.len() - j,
            {
                proof {
                    assert(decreases_to!(*s => (*s)->Bold_text));
                    assert(decreases_to!(*text => text@));
                    assert(decreases_to!(text@ => text@[j as int]));
                }
                push_span(out, &text[j]);
                assert(text@.subrange(0, j + 1).subrange(0, j as int) =~= text@.subrange(0, j as int));
                assert(out@ =~= mid + spans_html(text@.subrange(0, j + 1)));
                j = j + 1;
            }
            assert(text@.subrange(0, text@.len() as int) =~= text@);
            push_str(out, "</strong>");
            assert(out@ =~= old(out)@ + span_html(*s));
        },
        Span::Ital { text } => {
            push_str(out, "<em>");
            let ghost mid = out@;
            let mut j: usize = 0;
            while j < text.len()
                invariant
                    *s is Ital,
                    (*s)->Ital_text == *text,
                    j <= text@.len(),
                    out@ == mid + spans_html(text@.subrange(0, j as int)),
                decreases text@.len() - j,
            {
                proof {
                    assert(decreases_to!(*s => (*s)->Ital_text));
                    assert(decreases_to!(*text => text@));
                    assert(decreases_to!(text@ => text@[j as int]));
                }
                push_span(out, &text[j]);
                assert(text@.subrange(0, j + 1).subrange(0, j as int) =~= text@.subrange(0, j as int));
                assert(out@ =~= mid + spans_html(text@.subrange(0, j + 1)));
                j = j + 1;
            }
            assert(text@.subrange(0, text@.len() as int) =~= text@);
            push_str(out, "</em>");
            assert(out@ =~= old(out)@ + span_html(*s));
        },
    }
}

/// Appends the HTML of each span of `ss` to `out`.
pub fn push_spans(out: &mut Vec<char>, ss: &Vec<Span>)
    ensures
        final(out)@ == old(out)@ + spans_html(ss@),
{
    let mut j: usize = 0;
    while j < ss.len()
        invariant
            j <= ss@.len(),
            out@ == old(out)@ + spans_html(ss@.subrange(0, j as int)),
        decreases ss@.len() - j,
    {
        push_span(out, &ss[j]);
        assert(ss@.subrange(0, j + 1).subrange(0, j as int) =~= ss@.subrange(0, j as int));
        assert(out@ =~= old(out)@ + spans_html(ss@.subrange(0, j + 1)));
        j = j + 1;
    }
    assert(ss@.subrange(0, ss@.len() as int) =~= ss@);
}

/// `n` spaces.
pub open spec fn spaces(n: nat) -> Seq<char> {
    Seq::new(n, |i: int| ' ')
}

/// The indentation of a line at `indent`: a single space right-aligned in `indent`
/// columns, so never less than one space.
pub open spec fn pad(indent: nat) -> Seq<char> {
    spaces(if indent == 0 { 1 } else { indent })
}

/// The indentation one nesting level deeper.
pub open spec fn deeper(indent: nat) -> nat {
    if indent + 4 <= usize::MAX {
        indent + 4
    } else {
        usize::MAX as nat
    }
}

/// Appends `n` spaces to `out`.
pub fn push_spaces(out: &mut Vec<char>, n: usize)
    ensures
        final(out)@ == old(out)@ + spaces(n as nat),
{
    let mut k: usize = 0;
    while k < n
        invariant
            k <= n,
            out@ == old(out)@ + spaces(k as nat),
        decreases n - k,
    {
        out.push(' ');
        assert(out@ =~= old(out)@ + spaces((k + 1) as nat));
        k = k + 1;
    }
}

/// Appends the indentation of a line at `indent` to `out`.
pub fn push_pad(out: &mut Vec<char>, indent: usize)
    ensures
        final(out)@ == old(out)@ + pad(indent as nat),
{
    push_spaces(out, if indent == 0 { 1 } else { indent });
}

/// The HTML of a list at `indent`: nothing for a list without items, else an `ol` or
/// `ul` element with one `li` per item, nested lists four columns deeper.
pub open spec fn list_html(l: List, indent: nat) -> Seq<char>
    decreases l,
{
    if l.items@.len() == 0 {
        Seq::empty()
    } else {
        let tag = if l.ordered { "ol"@ } else { "ul"@ };
        pad(indent) + "<"@ + tag + ">\n"@ + items_html(l.items@, indent) + pad(indent) + "</"@ + tag
            + ">\n"@
    }
}

/// The HTML of list items at `indent`, in order.
pub open spec fn items_html(items: Seq<ListItem>, indent: nat) -> Seq<char>
    decreases items,
{
    if items.len() == 0 {
        Seq::empty()
    } else {
        items_html(items.subrange(0, items.len() - 1), indent) + item_html(items[items.len() - 1], indent)
    }
}

/// The HTML of one list item at `indent`.
pub open spec fn item_html(it: ListItem, indent: nat) -> Seq<char>
    decreases it,
{
    pad(indent) + "  <li>\n"@ + pad(indent) + "    "@ + spans_html(it.spans@) + "\n"@ + list_html(
        it.list,
        deeper(indent),
    ) + pad(indent) + "  </li>\n"@
}

/// Appends the HTML of `l` at `indent` to `out`.
pub fn push_list(out: &mut Vec<char>, l: &List, indent: usize)
    ensures
        final(out)@ == old(out)@ + list_html(*l, indent as nat),
    decreases l,
{
    if l.items.len() == 0 {
        assert(out@ =~= old(out)@ + list_html(*l, indent as nat));
        return;
    }
    let tag = if l.ordered { "ol" } else { "ul" };
    push_pad(out, indent);
    push_str(out, "<");
    push_str(out, tag);
    push_str(out, ">\n");
    let ghost mid = out@;
    let mut j: usize = 0;
    while j < l.items.len()
        invariant
            j <= l.items@.len(),
            out@ == mid + items_html(l.items@.subrange(0, j as int), indent as nat),
        decreases l.items@.len() - j,
    {
        proof {
            assert(decreases_to!(*l => l.items));
            assert(decreases_to!(l.items => l.items@));
            assert(decreases_to!(l.items@ => l.items@[j as int]));
        }
        push_item(out, &l.items[j], indent);
        assert(l.items@.subrange(0, j + 1).subrange(0, j as int) =~= l.items@.subrange(0, j as int));
        assert(out@ =~= mid + items_html(l.items@.subrange(0, j + 1), indent as nat));
        j = j + 1;
    }
    assert(l.items@.subrange(0, l.items@.len() as int) =~= l.items@);
    push_pad(out, indent);
    push_str(out, "</");
    push_str(out, tag);
    push_str(out, ">\n");
    assert(out@ =~= old(out)@ + list_html(*l, indent as nat));
}

fn push_item_open(out: &mut Vec<char>, spans: &Vec<Span>, indent: usize)
    ensures
        final(out)@ == old(out)@ + (pad(indent as nat) + "  <li>\n"@ + pad(indent as nat) + "    "@
            + spans_html(spans@) + "\n"@),
{
    push_pad(out, indent);
    push_str(out, "  <li>\n");
    push_pad(out, indent);
    push_str(out, "    ");
    push_spans(out, spans);
    push_str(out, "\n");
    assert(out@ =~= old(out)@ + (pad(indent as nat) + "  <li>\n"@ + pad(indent as nat) + "    "@
        + spans_html(spans@) + "\n"@));
}

fn push_item_close(out: &mut Vec<char>, indent: usize)
    ensures
        final(out)@ == old(out)@ + (pad(indent as nat) + "  </li>\n"@),
{
    push_pad(out, indent);
    push_str(out, "  </li>\n");
    assert(out@ =~= old(out)@ + (pad(indent as nat) + "  </li>\n"@));
}

/// Appends the HTML of one list item at `indent` to `out`.
pub fn push_item(out: &mut Vec<char>, it: &ListItem, indent: usize)
    ensures
        final(out)@ == old(out)@ + item_html(*it, indent as nat),
    decreases it,
{
    let ghost p = pad(indent as nat);
    push_item_open(out, &it.spans, indent);
    let ghost a = out@;
    let next = if indent <= usize::MAX - 4 { indent + 4 } else { usize::MAX };
    assert(next as nat == deeper(indent as nat));
    proof {
        assert(decreases_to!(*it => it.list));
    }
    push_list(out, &it.list, next);
    push_item_close(out, indent);
    assert(item_html(*it, indent as nat) =~= (p + "  <li>\n"@ + p + "    "@ + spans_html(it.spans@) + "\n"@)
        + list_html(it.list, next as nat) + (p + "  </li>\n"@));
    assert(out@ =~= old(out)@ + item_html(*it, indent as nat));
}

/// The HTML of blockquote lines at `indent`: one paragraph per line.
pub open spec fn lines_html(lines: Seq<Vec<Span>>, indent: nat) -> Seq<char>
    decreases lines.len(),
{
    if lines.len() == 0 {
        Seq::empty()
    } else {
        lines_html(lines.drop_last(), indent) + pad(indent) + "  <p>"@ + spans_html(lines.last()@)
            + "</p>\n"@
    }
}

/// The HTML of the cells of a table row at `indent`.
pub open spec fn cells_html(cells: Seq<String>, indent: nat) -> Seq<char>
    decreases cells.len(),
{
    if cells.len() == 0 {
        Seq::empty()
    } else {
        cells_html(cells.drop_last(), indent) + pad(indent) + "      <td>"@ + cells.last()@ + "</td>\n"@
    }
}

/// The HTML of table rows at `indent`.
pub open spec fn rows_html(rows: Seq<Vec<String>>, indent: nat) -> Seq<char>
    decreases rows.len(),
{
    if rows.len() == 0 {
        Seq::empty()
    } else {
        rows_html(rows.drop_last(), indent) + pad(indent) + "    <tr>\n"@ + cells_html(rows.last()@, indent)
            + pad(indent) + "    </tr>\n"@
    }
}

fn push_lines(out: &mut Vec<char>, lines: &Vec<Vec<Span>>, indent: usize)
    ensures
        final(out)@ == old(out)@ + lines_html(lines@, indent as nat),
{
    let mut j: usize = 0;
    while j < lines.len()
        invariant
            j <= lines@.len(),
            out@ == old(out)@ + lines_html(lines@.subrange(0, j as int), indent as nat),
        decreases lines@.len() - j,
    {
        let ghost before = out@;
        push_pad(out, indent);
        push_str(out, "  <p>");
        push_spans(out, &lines[j]);
        push_str(out, "</p>\n");
        assert(lines@.subrange(0, j + 1).drop_last() =~= lines@.subrange(0, j as int));
        assert(out@ =~= before + (pad(indent as nat) + "  <p>"@ + spans_html(lines@[j as int]@) + "</p>\n"@));
        assert(out@ =~= old(out)@ + lines_html(lines@.subrange(0, j + 1), indent as nat));
        j = j + 1;
    }
    assert(lines@.subrange(0, lines@.len() as int) =~= lines@);
}

fn push_cells(out: &mut Vec<char>, cells: &Vec<String>, indent: usize)
    ensures
        final(out)@ == old(out)@ + cells_html(cells@, indent as nat),
{
    let mut j: usize = 0;
    while j < cells.len()
        invariant
            j <= cells@.len(),
            out@ == old(out)@ + cells_html(cells@.subrange(0, j as int), indent as nat),
        decreases cells@.len() - j,
    {
        let ghost before = out@;
        push_pad(out, indent);
        push_str(out, "      <td>");
        push_string(out, &cells[j]);
        push_str(out, "</td>\n");
        assert(cells@.subrange(0, j + 1).drop_last() =~= cells@.subrange(0, j as int));
        assert(out@ =~= before + (pad(indent as nat) + "      <td>"@ + cells@[j as int]@ + "</td>\n"@));
        assert(out@ =~= old(out)@ + cells_html(cells@.subrange(0, j + 1), indent as nat));
        j = j + 1;
    }
    assert(cells@.subrange(0, cells@.len() as int) =~= cells@);
}

fn push_rows(out: &mut Vec<char>, rows: &Vec<Vec<String>>, indent: usize)
    ensures
        final(out)@ == old(out)@ + rows_html(rows@, indent as nat),
{
    let mut j: usize = 0;
    while j < rows.len()
        invariant
            j <= rows@.len(),
            out@ == old(out)@ + rows_html(rows@.subrange(0, j as int), indent as nat),
        decreases rows@.len() - j,
    {
        let ghost before = out@;
        push_pad(out, indent);
        push_str(out, "    <tr>\n");
        push_cells(out, &rows[j], indent);
        push_pad(out, indent);
        push_str(out, "    </tr>\n");
        assert(rows@.subrange(0, j + 1).drop_last() =~= rows@.subrange(0, j as int));
        assert(out@ =~= before + (pad(indent as nat) + "    <tr>\n"@) + cells_html(rows@[j as int]@, indent as nat)
            + (pad(indent as nat) + "    </tr>\n"@));
        assert(out@ =~= old(out)@ + rows_html(rows@.subrange(0, j + 1), indent as nat));
        j = j + 1;
    }
    assert(rows@.subrange(0, rows@.len() as int) =~= rows@);
}

/// The language class of a code block: its tag, or `plaintext` when it has none.
pub open spec fn lang_name(lang: Seq<char>) -> Seq<char> {
    if lang.len() == 0 {
        "plaintext"@
    } else {
        lang
    }
}

/// The opening lines of a link card: its link, and its title.
pub open spec fn card_head(title: Seq<char>, url: Seq<char>, indent: nat) -> Seq<char> {
    let sp = spaces(indent);
    sp + "<div class=\"linkcard\"><a class=\"linkcard-link\" href=\""@ + url + "\">\n"@ + sp
        + "  <div class=\"linkcard-text\">\n"@ + sp + "    <h3 class=\"linkcard-title\">"@ + title
        + "</h3>\n"@
}

/// A line holding `value` between `before` and `after`, or nothing when there is no value.
pub open spec fn opt_line(indent: nat, before: Seq<char>, value: Option<Seq<char>>, after: Seq<char>) -> Seq<char> {
    match value {
        Some(v) => spaces(indent) + before + v + after,
        None => Seq::empty(),
    }
}

/// The site line of a link card, naming the site or else the URL, and the end of its text.
pub open spec fn card_site(url: Seq<char>, site_name: Option<Seq<char>>, indent: nat) -> Seq<char> {
    let sp = spaces(indent);
    sp + "    <img  class=\"linkcard-favicon\" src=\"http://www.google.com/s2/favicons?domain="@ + url
        + "\"><span  class=\"linkcard-sitename\">"@ + (match site_name {
        Some(n) => n,
        None => url,
    }) + "</span>\n"@ + sp + "  </div>\n"@
}

/// The HTML of a link card at `indent`. Its lines are indented by exactly `indent`
/// columns; the site name falls back to the URL, and the description and image lines
/// appear only when present.
pub open spec fn card_html(
    title: Seq<char>,
    image: Option<Seq<char>>,
    url: Seq<char>,
    description: Option<Seq<char>>,
    site_name: Option<Seq<char>>,
    indent: nat,
) -> Seq<char> {
    card_head(title, url, indent) + opt_line(
        indent,
        "    <p class=\"linkcard-description\">"@,
        description,
        "</p>\n"@,
    ) + card_site(url, site_name, indent) + opt_line(
        indent,
        "  <img class=\"linkcard-image\" src=\""@,
        image,
        "\">\n"@,
    ) + spaces(indent) + "</a></div>\n"@
}

/// The HTML of one block at `indent`.
pub open spec fn block_html(b: Block, indent: nat) -> Seq<char> {
    let p = pad(indent);
    match b {
        Block::Header { prims, level, id } => p + "<h"@ + decimal(level as nat) + " id=\""@ + id@ + "\">"@
            + prims_html(prims@) + "</h"@ + decimal(level as nat) + ">\n"@,
        Block::Blockquote { lines } => p + "<blockquote>\n"@ + lines_html(lines@, indent) + p
            + "</blockquote>\n"@,
        Block::ListElement(l) => list_html(l, indent),
        Block::Table { head, body } => p + "<table>\n"@ + p + "  <thead>\n"@ + rows_html(head@, indent) + p
            + "  </thead>\n"@ + p + "  <tbody>\n"@ + rows_html(body@, indent) + p + "  </tbody>\n"@ + p
            + "</table>\n"@,
        Block::Image { title, url } => p + "<div class=\"image\">\n"@ + p + "  <img src=\""@ + url@
            + "\">\n"@ + p + "  <p class=\"caption\">"@ + prims_html(title@) + "</p>\n"@ + p
            + "</div>\n"@,
        Block::LinkCard { title, image, url, description, site_name } => card_html(
            title@,
            opt_view(image),
            url@,
            opt_view(description),
            opt_view(site_name),
            indent,
        ),
        Block::MathBlock { math } => p + "<p>\\["@ + math@ + "\\]</p>\n"@,
        Block::CodeBlock { lang, code } => p + "<pre><code class=\"language-"@ + lang_name(lang@)
            + "\">"@ + code@ + "</code></pre>\n"@,
        Block::Paragraph { spans } => p + "<p>"@ + spans_html(spans@) + "</p>\n"@,
    }
}

/// The HTML of blocks at `indent`, in order.
pub open spec fn blocks_html(bs: Seq<Block>, indent: nat) -> Seq<char>
    decreases bs.len(),
{
    if bs.len() == 0 {
        Seq::empty()
    } else {
        blocks_html(bs.drop_last(), indent) + block_html(bs.last(), indent)
    }
}

fn push_header(out: &mut Vec<char>, prims: &Vec<Prim>, level: u32, id: &String, indent: usize)
    ensures
        final(out)@ == old(out)@ + (pad(indent as nat) + "<h"@ + decimal(level as nat) + " id=\""@ + id@
            + "\">"@ + prims_html(prims@) + "</h"@ + decimal(level as nat) + ">\n"@),
{
    push_pad(out, indent);
    push_str(out, "<h");
    push_decimal(out, level as usize);
    push_str(out, " id=\"");
    push_string(out, id);
    push_str(out, "\">");
    push_prims(out, prims);
    push_str(out, "</h");
    push_decimal(out, level as usize);
    push_str(out, ">\n");
    assert(out@ =~= old(out)@ + (pad(indent as nat) + "<h"@ + decimal(level as nat) + " id=\""@ + id@
        + "\">"@ + prims_html(prims@) + "</h"@ + decimal(level as nat) + ">\n"@));
}

fn push_table(out: &mut Vec<char>, head: &Vec<Vec<String>>, body: &Vec<Vec<String>>, indent: usize)
    ensures
        final(out)@ == old(out)@ + (pad(indent as nat) + "<table>\n"@ + pad(indent as nat) + "  <thead>\n"@
            + rows_html(head@, indent as nat) + pad(indent as nat) + "  </thead>\n"@ + pad(indent as nat)
            + "  <tbody>\n"@ + rows_html(body@, indent as nat) + pad(indent as nat) + "  </tbody>\n"@
            + pad(indent as nat) + "</table>\n"@),
{
    let ghost p = pad(indent as nat);
    push_pad(out, indent);
    push_str(out, "<table>\n");
    push_pad(out, indent);
    push_str(out, "  <thead>\n");
    let ghost a = out@;
    assert(a =~= old(out)@ + (p + "<table>\n"@ + p + "  <thead>\n"@));
    push_rows(out, head, indent);
    let ghost b = out@;
    push_pad(out, indent);
    push_str(out, "  </thead>\n");
    push_pad(out, indent);
    push_str(out, "  <tbody>\n");
    let ghost c = out@;
    assert(c =~= b + (p + "  </thead>\n"@ + p + "  <tbody>\n"@));
    push_rows(out, body, indent);
    let ghost d = out@;
    push_pad(out, indent);
    push_str(out, "  </tbody>\n");
    push_pad(out, indent);
    push_str(out, "</table>\n");
    assert(out@ =~= d + (p + "  </tbody>\n"@ + p + "</table>\n"@));
    assert(out@ =~= old(out)@ + (p + "<table>\n"@ + p + "  <thead>\n"@ + rows_html(head@, indent as nat) + p
        + "  </thead>\n"@ + p + "  <tbody>\n"@ + rows_html(body@, indent as nat) + p + "  </tbody>\n"@ + p
        + "</table>\n"@));
}

fn push_opt_line(out: &mut Vec<char>, indent: usize, before: &str, value: &Option<String>, after: &str)
    ensures
        final(out)@ == old(out)@ + opt_line(indent as nat, before@, opt_view(*value), after@),
{
    match value {
        Some(v) => {
            push_spaces(out, indent);
            push_str(out, before);
            push_string(out, v);
            push_str(out, after);
            assert(out@ =~= old(out)@ + (spaces(indent as nat) + before@ + v@ + after@));
        },
        None => {
            assert(out@ =~= old(out)@ + Seq::<char>::empty());
        },
    }
}

fn push_card_head(out: &mut Vec<char>, title: &String, url: &String, indent: usize)
    ensures
        final(out)@ == old(out)@ + card_head(title@, url@, indent as nat),
{
    push_spaces(out, indent);
    push_str(out, "<div class=\"linkcard\"><a class=\"linkcard-link\" href=\"");
    push_string(out, url);
    push_str(out, "\">\n");
    push_spaces(out, indent);
    push_str(out, "  <div class=\"linkcard-text\">\n");
    push_spaces(out, indent);
    push_str(out, "    <h3 class=\"linkcard-title\">");
    push_string(out, title);
    push_str(out, "</h3>\n");
    assert(out@ =~= old(out)@ + card_head(title@, url@, indent as nat));
}

fn push_card_site(out: &mut Vec<char>, url: &String, site_name: &Option<String>, indent: usize)
    ensures
        final(out)@ == old(out)@ + card_site(url@, opt_view(*site_name), indent as nat),
{
    push_spaces(out, indent);
    push_str(out, "    <img  class=\"linkcard-favicon\" src=\"http://www.google.com/s2/favicons?domain=");
    push_string(out, url);
    push_str(out, "\"><span  class=\"linkcard-sitename\">");
    match site_name {
        Some(n) => push_string(out, n),
        None => push_string(out, url),
    }
    push_str(out, "</span>\n");
    push_spaces(out, indent);
    push_str(out, "  </div>\n");
    assert(out@ =~= old(out)@ + card_site(url@, opt_view(*site_name), indent as nat));
}

fn push_card(
    out: &mut Vec<char>,
    title: &String,
    image: &Option<String>,
    url: &String,
    description: &Option<String>,
    site_name: &Option<String>,
    indent: usize,
)
    ensures
        final(out)@ == old(out)@ + card_html(
            title@,
            opt_view(*image),
            url@,
            opt_view(*description),
            opt_view(*site_name),
            indent as nat,
        ),
{
    push_card_head(out, title, url, indent);
    push_opt_line(out, indent, "    <p class=\"linkcard-description\">", description, "</p>\n");
    push_card_site(out, url, site_name, indent);
    push_opt_line(out, indent, "  <img class=\"linkcard-image\" src=\"", image, "\">\n");
    push_spaces(out, indent);
    push_str(out, "</a></div>\n");
    assert(out@ =~= old(out)@ + card_html(
        title@,
        opt_view(*image),
        url@,
        opt_view(*description),
        opt_view(*site_name),
        indent as nat,
    ));
}

fn push_blockquote(out: &mut Vec<char>, lines: &Vec<Vec<Span>>, indent: usize)
    ensures
        final(out)@ == old(out)@ + (pad(indent as nat) + "<blockquote>\n"@ + lines_html(lines@, indent as nat)
            + pad(indent as nat) + "</blockquote>\n"@),
{
    push_pad(out, indent);
    push_str(out, "<blockquote>\n");
    push_lines(out, lines, indent);
    push_pad(out, indent);
    push_str(out, "</blockquote>\n");
    assert(out@ =~= old(out)@ + (pad(indent as nat) + "<blockquote>\n"@ + lines_html(lines@, indent as nat)
        + pad(indent as nat) + "</blockquote>\n"@));
}

fn push_image(out: &mut Vec<char>, title: &Vec<Prim>, url: &String, indent: usize)
    ensures
        final(out)@ == old(out)@ + (pad(indent as nat) + "<div class=\"image\">\n"@ + pad(indent as nat)
            + "  <img src=\""@ + url@ + "\">\n"@ + pad(indent as nat) + "  <p class=\"caption\">"@
            + prims_html(title@) + "</p>\n"@ + pad(indent as nat) + "</div>\n"@),
{
    let ghost p = pad(indent as nat);
    push_pad(out, indent);
    push_str(out, "<div class=\"image\">\n");
    push_pad(out, indent);
    push_str(out, "  <img src=\"");
    push_string(out, url);
    push_str(out, "\">\n");
    push_pad(out, indent);
    push_str(out, "  <p class=\"caption\">");
    let ghost a = out@;
    assert(a =~= old(out)@ + (p + "<div class=\"image\">\n"@ + p + "  <img src=\""@ + url@ + "\">\n"@ + p
        + "  <p class=\"caption\">"@));
    push_prims(out, title);
    let ghost b = out@;
    push_str(out, "</p>\n");
    push_pad(out, indent);
    push_str(out, "</div>\n");
    assert(out@ =~= b + ("</p>\n"@ + p + "</div>\n"@));
    assert(out@ =~= old(out)@ + (p + "<div class=\"image\">\n"@ + p + "  <img src=\""@ + url@ + "\">\n"@ + p
        + "  <p class=\"caption\">"@ + prims_html(title@) + "</p>\n"@ + p + "</div>\n"@));
}

fn push_code_block(out: &mut Vec<char>, lang: &String, code: &String, indent: usize)
    ensures
        final(out)@ == old(out)@ + (pad(indent as nat) + "<pre><code class=\"language-"@ + lang_name(lang@)
            + "\">"@ + code@ + "</code></pre>\n"@),
{
    push_pad(out, indent);
    push_str(out, "<pre><code class=\"language-");
    if lang.as_str().unicode_len() == 0 {
        push_str(out, "plaintext");
    } else {
        push_string(out, lang);
    }
    push_str(out, "\">");
    push_string(out, code);
    push_str(out, "</code></pre>\n");
    assert(out@ =~= old(out)@ + (pad(indent as nat) + "<pre><code class=\"language-"@ + lang_name(lang@)
        + "\">"@ + code@ + "</code></pre>\n"@));
}

/// Appends the HTML of `b` at `indent` to `out`.
pub fn push_block(out: &mut Vec<char>, b: &Block, indent: usize)
    ensures
        final(out)@ == old(out)@ + block_html(*b, indent as nat),
{
    match b {
        Block::Header { prims, level, id } => push_header(out, prims, *level, id, indent),
        Block::Blockquote { lines } => push_blockquote(out, lines, indent),
        Block::ListElement(l) => push_list(out, l, indent),
        Block::Table { head, body } => push_table(out, head, body, indent),
        Block::Image { title, url } => push_image(out, title, url, indent),
        Block::LinkCard { title, image, url, description, site_name } => {
            push_card(out, title, image, url, description, site_name, indent)
        },
        Block::MathBlock { math } => {
            push_pad(out, indent);
            push_str(out, "<p>\\[");
            push_string(out, math);
            push_str(out, "\\]</p>\n");
            assert(out@ =~= old(out)@ + block_html(*b, indent as nat));
        },
        Block::CodeBlock { lang, code } => push_code_block(out, lang, code, indent),
        Block::Paragraph { spans } => {
            push_pad(out, indent);
            push_str(out, "<p>");
            push_spans(out, spans);
            push_str(out, "</p>\n");
            assert(out@ =~= old(out)@ + block_html(*b, indent as nat));
        },
    }
}

/// Appends the HTML of each block of `bs` at `indent` to `out`.
pub fn push_blocks(out: &mut Vec<char>, bs: &Vec<Block>, indent: usize)
    ensures
        final(out)@ == old(out)@ + blocks_html(bs@, indent as nat),
{
    let mut j: usize = 0;
    while j < bs.len()
        invariant
            j <= bs@.len(),
            out@ == old(out)@ + blocks_html(bs@.subrange(0, j as int), indent as nat),
        decreases bs@.len() - j,
    {
        push_block(out, &bs[j], indent);
        assert(bs@.subrange(0, j + 1).drop_last() =~= bs@.subrange(0, j as int));
        assert(out@ =~= old(out)@ + blocks_html(bs@.subrange(0, j + 1), indent as nat));
        j = j + 1;
    }
    assert(bs@.subrange(0, bs@.len() as int) =~= bs@);
}

/// A moment in local time, as the slots of a page template show it.
pub struct Stamp {
    pub year: u32,
    pub month: u32,
    pub day: u32,
    pub hour: u32,
    pub minute: u32,
    pub second: u32,
}

/// `n` in decimal, with leading zeros up to `width` digits.
pub open spec fn padded(n: nat, width: nat) -> Seq<char> {
    let d = decimal(n);
    if d.len() < width {
        Seq::new((width - d.len()) as nat, |i: int| '0') + d
    } else {
        d
    }
}

/// The text that fills one slot of a page template.
pub open spec fn elem_html(e: Elem, title: Seq<char>, toc: List, content: Seq<Block>, now: Stamp) -> Seq<char> {
    match e {
        Elem::Title => title,
        Elem::Year => padded(now.year as nat, 4),
        Elem::Month => padded(now.month as nat, 2),
        Elem::Day => padded(now.day as nat, 2),
        Elem::Hour => padded(now.hour as nat, 2),
        Elem::Minute => padded(now.minute as nat, 2),
        Elem::Second => padded(now.second as nat, 2),
        Elem::Toc(indent) => "\n"@ + list_html(toc, indent as nat),
        Elem::Content(indent) => "\n"@ + blocks_html(content, indent as nat),
        Elem::Str(text) => text@,
    }
}

/// A page: the template with each slot filled, in order.
pub open spec fn page_html(template: Seq<Elem>, title: Seq<char>, toc: List, content: Seq<Block>, now: Stamp) -> Seq<char>
    decreases template.len(),
{
    if template.len() == 0 {
        Seq::empty()
    } else {
        page_html(template.drop_last(), title, toc, content, now) + elem_html(template.last(), title, toc, content, now)
    }
}

fn push_padded(out: &mut Vec<char>, n: u32, width: usize)
    ensures
        final(out)@ == old(out)@ + padded(n as nat, width as nat),
{
    let mut digits: Vec<char> = Vec::new();
    push_decimal(&mut digits, n as usize);
    assert(digits@ =~= decimal(n as nat));
    let mut k: usize = digits.len();
    let ghost start = out@;
    while k < width
        invariant
            digits@ == decimal(n as nat),
            digits@.len() <= k,
            k <= width || k == digits@.len(),
            out@ == start + Seq::new((k - digits@.len()) as nat, |i: int| '0'),
        decreases width - k,
    {
        out.push('0');
        assert(out@ =~= start + Seq::new((k + 1 - digits@.len()) as nat, |i: int| '0'));
        k = k + 1;
    }
    let ghost zeros = out@;
    let mut j: usize = 0;
    while j < digits.len()
        invariant
            j <= digits@.len(),
            out@ == zeros + digits@.subrange(0, j as int),
        decreases digits@.len() - j,
    {
        out.push(digits[j]);
        assert(out@ =~= zeros + digits@.subrange(0, j + 1));
        j = j + 1;
    }
    assert(digits@.subrange(0, digits@.len() as int) =~= digits@);
    assert(out@ =~= old(out)@ + padded(n as nat, width as nat));
}

/// The page that `template` gives for a document with the given title, contents table
/// and blocks, at the moment `now`.
pub fn render_html(title: &String, toc: &List, content: &Vec<Block>, template: &Vec<Elem>, now: &Stamp) -> (r: String)
    ensures
        r@ == page_html(template@, title@, *toc, content@, *now),
{
    let mut out: Vec<char> = Vec::new();
    let mut j: usize = 0;
    while j < template.len()
        invariant
            j <= template@.len(),
            out@ == page_html(template@.subrange(0, j as int), title@, *toc, content@, *now),
        decreases template@.len() - j,
    {
        let ghost before = out@;
        match &template[j] {
            Elem::Title => push_string(&mut out, title),
            Elem::Year => push_padded(&mut out, now.year, 4),
            Elem::Month => push_padded(&mut out, now.month, 2),
            Elem::Day => push_padded(&mut out, now.day, 2),
            Elem::Hour => push_padded(&mut out, now.hour, 2),
            Elem::Minute => push_padded(&mut out, now.minute, 2),
            Elem::Second => push_padded(&mut out, now.second, 2),
            Elem::Toc(indent) => {
                push_str(&mut out, "\n");
                push_list(&mut out, toc, *indent);
            },
            Elem::Content(indent) => {
                push_str(&mut out, "\n");
                push_blocks(&mut out, content, *indent);
            },
            Elem::Str(text) => push_string(&mut out, text),
        }
        assert(out@ =~= before + elem_html(template@[j as int], title@, *toc, content@, *now));
        assert(template@.subrange(0, j + 1).drop_last() =~= template@.subrange(0, j as int));
        j = j + 1;
    }
    assert(template@.subrange(0, template@.len() as int) =~= template@);
    string_of(out)
}

} // verus!
