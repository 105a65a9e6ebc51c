use vstd::prelude::*;
use crate::heading::{
    heading_base, heading_id, heading_text, label_v, prim_v, prims_v, PrimV, lemma_heading_ids_distinct, lemma_used_count_bound, make_heading_id, register, registry_ok, toc_label,
    used_count,
};
use crate::toc::{
    inserted, item_in, last_at_depth, lemma_inserted_depth, lemma_inserted_keeps, lemma_inserted_path, toc_push,
};
use crate::data::{Block, EmbedInfo, List, ListItem, Prim, Span};
use crate::text::{
    all_dashes, any_at, skipped, term_skip, any_with_at, chars_of, copy_range, ends_with, ends_with_chars, is_dashes,
    trim, trim_escaped, escape, escaped, find_stop, first_stop, lemma_first_stop_bounds,
    lemma_starts_at_one, push_escaped_range, starts_at, starts_with_at, string_of, views,
};

verus! {

/// The markers that end a run of plain text.
pub open spec fn text_stops() -> Seq<Seq<char>> {
    seq![
        seq!['*', '*'],
        seq!['_', '_'],
        seq!['['],
        seq![']'],
        seq!['$'],
        seq!['`'],
        seq!['\n'],
        seq!['\r', '\n'],
    ]
}

/// A line ending (either convention) starts at `i`.
pub open spec fn newline_at(s: Seq<char>, i: int) -> bool {
    starts_at(s, i, seq!['\n']) || starts_at(s, i, seq!['\r', '\n'])
}

/// Where a run of plain text that starts at `i` ends. A run takes at least one character
/// unless it stands at a line ending or at the end, so that a marker that nothing else
/// claims (a stray `]`) is kept as literal text.
pub open spec fn text_run_end(s: Seq<char>, i: int) -> int {
    if i < s.len() && !newline_at(s, i) && any_at(s, i, text_stops()) {
        first_stop(s, i + 1, text_stops())
    } else {
        first_stop(s, i, text_stops())
    }
}

/// What ends the URL of a link: `)` or a line ending.
pub open spec fn url_stops() -> Seq<Seq<char>> {
    seq![seq![')'], seq!['\n'], seq!['\r', '\n']]
}

/// `r` is a link whose URL runs from `a` up to `)` or the line ending, and `end` lies
/// just past that terminator.
pub open spec fn link_ends_at(s: Seq<char>, a: int, r: Prim, end: int) -> bool {
    let stop = first_stop(s, a, url_stops());
    &&& r matches Prim::Link { url, .. } && url@ == s.subrange(a, stop)
    &&& end == stop + skipped(s, stop, url_stops())
}

/// `r` is the block of an embed whose URL runs from `a` up to `)`, and `end` lies just
/// past the `)`. An image URL gives an image with no lookup; any other URL gives the
/// link card of the next embed answer and is recorded, from `before` to `after`.
pub open spec fn embed_ends_at(
    s: Seq<char>,
    a: int,
    r: Block,
    end: int,
    embeds: Seq<EmbedInfo>,
    before: Seq<String>,
    after: Seq<String>,
) -> bool {
    let stop = first_stop(s, a, seq![seq![')']]);
    let u = s.subrange(a, stop);
    &&& end == stop + skipped(s, stop, seq![seq![')']])
    &&& is_image_url(u) ==> (r matches Block::Image { url, .. } && url@ == u) && after == before
    &&& !is_image_url(u) ==> card_matches(r, u, embed_answer(embeds, before.len() as int))
        && after.len() == before.len() + 1 && after.last()@ == u && after.drop_last() == before
}

/// `r` is the table whose rows start at `i`, and `end` lies after them: header rows up
/// to the first separator row, then, only if there was one, body rows up to a line that
/// is no row or up to and past a second separator.
pub open spec fn table_parsed(s: Seq<char>, i: int, r: Block, end: int) -> bool {
    let h = table_part(s, i);
    let b = table_part(s, h.2);
    &&& r matches Block::Table { head, body } && rows_view(head@) == h.0 && (if h.1 {
        rows_view(body@) == b.0
    } else {
        body@.len() == 0
    })
    &&& end == (if h.1 { b.2 } else { h.2 })
}

/// What a block does to the document state, from `o` to `n`: a heading records itself
/// (see `heading_recorded`) and is made of the primitives of its line after the marker;
/// any other block leaves title, registry and contents alone.
pub open spec fn block_recorded(o: Parser, n: Parser, r: Block) -> bool {
    match r {
        Block::Header { prims, level, id } => heading_recorded(o, n, prims@, level, id@) && prims_v(prims@)
            == prims_line(o.chs@, o.pos + level + 1, o.titles@, urls_v(o.title_urls@)).0,
        _ => n.doc_kept(&o),
    }
}

/// `r` is the content of the block that starts at `o`'s cursor and ends at `n`'s: the
/// exact spans of a paragraph, lines of a blockquote, rows of a table, escaped source of
/// a math or code block, items of a list, the URL and lookup of an embed, and where a
/// heading's line ends; and the title and embed lookups recorded while parsing it, in
/// order (none for tables, math and code blocks).
pub open spec fn block_content_ok(o: Parser, n: Parser, r: Block) -> bool {
    let s = o.chs@;
    let i = o.pos as int;
    let t = o.titles@;
    let k = urls_v(o.title_urls@);
    let asks_nothing = n.title_urls == o.title_urls && n.embed_urls == o.embed_urls;
    match r {
        Block::Paragraph { spans } => (spans_v(spans@), n.pos as int, urls_v(n.title_urls@))
            == spans_line(s, i, t, k) && n.embed_urls == o.embed_urls,
        Block::Blockquote { lines } => (lines_v(lines@), n.pos as int, urls_v(n.title_urls@))
            == quote_lines(s, i, t, k) && n.embed_urls == o.embed_urls,
        Block::Table { .. } => table_parsed(s, i, r, n.pos as int) && asks_nothing,
        Block::MathBlock { math } => {
            let stop = first_stop(s, i + 2, seq![seq!['$', '$']]);
            math@ == escape(s.subrange(i + 2, stop)) && n.pos == stop + skipped(s, stop, seq![seq!['$', '$']])
                && asks_nothing
        },
        Block::CodeBlock { lang, code } => {
            let eol = seq![seq!['\n'], seq!['\r', '\n']];
            let fence = seq![seq!['`', '`', '`']];
            let l = first_stop(s, i + 3, eol);
            let a = l + skipped(s, l, eol);
            let c = first_stop(s, a, fence);
            lang@ == escape(s.subrange(i + 3, l)) && code@ == escape(s.subrange(a, c)) && n.pos == c
                + skipped(s, c, fence) && asks_nothing
        },
        Block::Image { title, .. } => {
            let c = link_text(s, i + 2, t, k);
            embed_ends_at(s, c.1, r, n.pos as int, o.embeds@, o.embed_urls@, n.embed_urls@) && prims_v(title@)
                == c.0 && urls_v(n.title_urls@) == c.2
        },
        Block::LinkCard { .. } => {
            let c = link_text(s, i + 2, t, k);
            embed_ends_at(s, c.1, r, n.pos as int, o.embeds@, o.embed_urls@, n.embed_urls@) && urls_v(n.title_urls@)
                == c.2
        },
        Block::Header { level, .. } => {
            let line = prims_line(s, i + level + 1, t, k);
            n.pos == line.1 && urls_v(n.title_urls@) == line.2 && n.embed_urls == o.embed_urls
        },
        Block::ListElement(l) => {
            let x = list_items(s, i, 0, t, k, false, true);
            list_v(l) == (ListV { ordered: x.0, items: x.1 }) && n.pos == x.2 && urls_v(n.title_urls@) == x.3
                && n.embed_urls == o.embed_urls
        },
    }
}

/// What a block adds to the document's blocks: nothing for an empty paragraph, else the
/// block itself.
pub open spec fn kept_block(b: Block) -> Seq<Block> {
    if is_empty_paragraph(b) {
        Seq::empty()
    } else {
        seq![b]
    }
}

/// One step of the document loop from `o` to `n` parsed block `b`: the cursor moved
/// forward, `b` is the kind its marker calls for, its effect on title, registry and
/// contents table is recorded, a table is exactly the rows there, an empty paragraph
/// stands only at a blank line, and `b` was appended unless it is an empty paragraph.
pub open spec fn block_step_ok(o: Parser, n: Parser, b: Block) -> bool {
    &&& n.wf()
    &&& n.kept(&o)
    &&& o.pos < n.pos
    &&& block_kind_ok(o.chs@, o.pos as int, b)
    &&& block_recorded(o, Parser { content: o.content, ..n }, b)
    &&& block_content_ok(o, Parser { content: o.content, ..n }, b)
    &&& b is Table ==> table_parsed(o.chs@, o.pos as int, b, n.pos as int)
    &&& is_empty_paragraph(b) ==> newline_at(o.chs@, o.pos as int)
    &&& n.content@ == o.content@ + kept_block(b)
}

/// `ps` are the states before each block of `bs` and after the last one, from `o` to
/// `n`, and each step parsed its block as `block_step_ok` says.
pub open spec fn blocks_parsed(o: Parser, n: Parser, ps: Seq<Parser>, bs: Seq<Block>) -> bool {
    &&& ps.len() == bs.len() + 1
    &&& ps[0] == o
    &&& ps.last() == n
    &&& forall|k: int| 0 <= k < bs.len() ==> #[trigger] block_step_ok(ps[k], ps[k + 1], bs[k])
}

/// The primitive at `i`, when `k` title lookups came before: its value, where it ends,
/// and how many lookups there are after it. A link after `[`, inline math after `$`,
/// inline code after a backtick, else a run of text.
pub open spec fn prim_at(s: Seq<char>, i: int, titles: Seq<String>, k: Seq<Seq<char>>) -> (PrimV, int, Seq<Seq<char>>)
    decreases s.len() - i, 2nat,
{
    if i < 0 || i >= s.len() {
        (PrimV::Text(Seq::empty()), i, k)
    } else if starts_at(s, i, seq!['[']) {
        link_at(s, i + 1, titles, k)
    } else if starts_at(s, i, seq!['$']) {
        let stop = first_stop(s, i + 1, seq![seq!['$']]);
        (PrimV::Math(escape(s.subrange(i + 1, stop))), stop + skipped(s, stop, seq![seq!['$']]), k)
    } else if starts_at(s, i, seq!['`']) {
        let stop = first_stop(s, i + 1, seq![seq!['`']]);
        (PrimV::Code(escape(s.subrange(i + 1, stop))), stop + skipped(s, stop, seq![seq!['`']]), k)
    } else {
        let e = text_run_end(s, i);
        (PrimV::Text(escape(s.subrange(i, e))), e, k)
    }
}

/// A link whose text starts at `i` (just past `[`): its text, then its URL up to `)` or
/// the line ending. Empty text takes the title answer of the next lookup.
pub open spec fn link_at(s: Seq<char>, i: int, titles: Seq<String>, k: Seq<Seq<char>>) -> (PrimV, int, Seq<Seq<char>>)
    decreases s.len() - i, 4nat,
{
    if i < 0 || i > s.len() {
        (PrimV::Text(Seq::empty()), i, k)
    } else {
        let t = link_text(s, i, titles, k);
        let a = t.1;
        let stop = first_stop(s, a, url_stops());
        let end = stop + skipped(s, stop, url_stops());
        if t.0.len() == 0 {
            (
                PrimV::Link(seq![PrimV::Text(answer(titles, t.2.len() as int))], s.subrange(a, stop)),
                end,
                t.2.push(s.subrange(a, stop)),
            )
        } else {
            (PrimV::Link(t.0, s.subrange(a, stop)), end, t.2)
        }
    }
}

/// The primitives of a link's text from `i`, up to and past `](`, or up to a line ending
/// or the end.
pub open spec fn link_text(s: Seq<char>, i: int, titles: Seq<String>, k: Seq<Seq<char>>) -> (Seq<PrimV>, int, Seq<Seq<char>>)
    decreases s.len() - i, 3nat,
{
    if i < 0 || i > s.len() {
        (Seq::empty(), i, k)
    } else if starts_at(s, i, seq![']', '(']) {
        (Seq::empty(), i + 2, k)
    } else if i == s.len() || newline_at(s, i) {
        (Seq::empty(), i, k)
    } else {
        let p = prim_at(s, i, titles, k);
        if p.1 <= i || p.1 > s.len() {
            (Seq::empty(), i, k)
        } else {
            let rest = link_text(s, p.1, titles, p.2);
            (seq![p.0] + rest.0, rest.1, rest.2)
        }
    }
}

/// The primitives of the line at `i`, up to and past its line ending.
pub open spec fn prims_line(s: Seq<char>, i: int, titles: Seq<String>, k: Seq<Seq<char>>) -> (Seq<PrimV>, int, Seq<Seq<char>>)
    decreases s.len() - i,
{
    if i < 0 || i >= s.len() {
        (Seq::empty(), i, k)
    } else if newline_at(s, i) {
        (Seq::empty(), i + (if starts_at(s, i, seq!['\n']) { 1int } else { 2int }), k)
    } else {
        let p = prim_at(s, i, titles, k);
        if p.1 <= i || p.1 > s.len() {
            (Seq::empty(), i, k)
        } else {
            let rest = prims_line(s, p.1, titles, p.2);
            (seq![p.0] + rest.0, rest.1, rest.2)
        }
    }
}

/// The value of a span, with its strings as character sequences.
pub enum SpanV {
    Bold(Seq<SpanV>),
    Ital(Seq<SpanV>),
    Prim(PrimV),
}

/// The value of a span.
pub open spec fn span_v(x: Span) -> SpanV
    decreases x,
{
    match x {
        Span::Bold { text } => SpanV::Bold(spans_v(text@)),
        Span::Ital { text } => SpanV::Ital(spans_v(text@)),
        Span::PrimElem(p) => SpanV::Prim(prim_v(p)),
    }
}

/// The values of a sequence of spans.
pub open spec fn spans_v(xs: Seq<Span>) -> Seq<SpanV>
    decreases xs,
{
    if xs.len() == 0 {
        Seq::empty()
    } else {
        spans_v(xs.subrange(0, xs.len() - 1)).push(span_v(xs[xs.len() - 1]))
    }
}

/// The span at `i`, when `k` title lookups came before: bold after `**`, italic after
/// `__`, else one primitive.
pub open spec fn span_at(s: Seq<char>, i: int, titles: Seq<String>, k: Seq<Seq<char>>) -> (SpanV, int, Seq<Seq<char>>)
    decreases s.len() - i, 4nat,
{
    if i < 0 || i >= s.len() {
        (SpanV::Prim(PrimV::Text(Seq::empty())), i, k)
    } else if starts_at(s, i, seq!['*', '*']) {
        let c = emph_until(s, i + 2, seq!['*', '*'], titles, k);
        (SpanV::Bold(c.0), c.1, c.2)
    } else if starts_at(s, i, seq!['_', '_']) {
        let c = emph_until(s, i + 2, seq!['_', '_'], titles, k);
        (SpanV::Ital(c.0), c.1, c.2)
    } else {
        let p = prim_at(s, i, titles, k);
        (SpanV::Prim(p.0), p.1, p.2)
    }
}

/// The spans inside an emphasis from `i`, up to and past `close`, or up to a line ending
/// or the end.
pub open spec fn emph_until(s: Seq<char>, i: int, close: Seq<char>, titles: Seq<String>, k: Seq<Seq<char>>) -> (Seq<SpanV>, int, Seq<Seq<char>>)
    decreases s.len() - i, 5nat,
{
    if i < 0 || i > s.len() {
        (Seq::empty(), i, k)
    } else if starts_at(s, i, close) {
        (Seq::empty(), i + close.len(), k)
    } else if i == s.len() || newline_at(s, i) {
        (Seq::empty(), i, k)
    } else {
        let x = span_at(s, i, titles, k);
        if x.1 <= i || x.1 > s.len() {
            (Seq::empty(), i, k)
        } else {
            let rest = emph_until(s, x.1, close, titles, x.2);
            (seq![x.0] + rest.0, rest.1, rest.2)
        }
    }
}

/// The spans of the line at `i`, up to and past its line ending.
pub open spec fn spans_line(s: Seq<char>, i: int, titles: Seq<String>, k: Seq<Seq<char>>) -> (Seq<SpanV>, int, Seq<Seq<char>>)
    decreases s.len() - i,
{
    if i < 0 || i >= s.len() {
        (Seq::empty(), i, k)
    } else if newline_at(s, i) {
        (Seq::empty(), i + (if starts_at(s, i, seq!['\n']) { 1int } else { 2int }), k)
    } else {
        let x = span_at(s, i, titles, k);
        if x.1 <= i || x.1 > s.len() {
            (Seq::empty(), i, k)
        } else {
            let rest = spans_line(s, x.1, titles, x.2);
            (seq![x.0] + rest.0, rest.1, rest.2)
        }
    }
}

/// The values of the lines of a blockquote.
pub open spec fn lines_v(lines: Seq<Vec<Span>>) -> Seq<Seq<SpanV>> {
    lines.map_values(|l: Vec<Span>| spans_v(l@))
}

/// The lines of a blockquote from `i`: the spans of each line that starts with `> `,
/// after that prefix, up to the first line that does not.
pub open spec fn quote_lines(s: Seq<char>, i: int, titles: Seq<String>, k: Seq<Seq<char>>) -> (Seq<Seq<SpanV>>, int, Seq<Seq<char>>)
    decreases s.len() - i,
{
    if i < 0 || !starts_at(s, i, seq!['>', ' ']) {
        (Seq::empty(), i, k)
    } else {
        let l = spans_line(s, i + 2, titles, k);
        if l.1 <= i || l.1 > s.len() {
            (Seq::empty(), i, k)
        } else {
            let rest = quote_lines(s, l.1, titles, l.2);
            (seq![l.0] + rest.0, rest.1, rest.2)
        }
    }
}

/// The value of a list: its marker kind and the values of its items.
pub struct ListV {
    pub ordered: bool,
    pub items: Seq<ItemV>,
}

/// The value of a list item: its spans and the value of the list below it.
pub struct ItemV {
    pub spans: Seq<SpanV>,
    pub list: ListV,
}

/// The value of a list.
pub open spec fn list_v(l: List) -> ListV
    decreases l,
{
    ListV { ordered: l.ordered, items: items_v(l.items@) }
}

/// The values of list items.
pub open spec fn items_v(items: Seq<ListItem>) -> Seq<ItemV>
    decreases items,
{
    if items.len() == 0 {
        Seq::empty()
    } else {
        items_v(items.subrange(0, items.len() - 1)).push(item_v(items[items.len() - 1]))
    }
}

/// The value of a list item.
pub open spec fn item_v(it: ListItem) -> ItemV
    decreases it,
{
    ItemV { spans: spans_v(it.spans@), list: list_v(it.list) }
}

/// How many spaces stand at `i`.
pub open spec fn spaces_at(s: Seq<char>, i: int) -> int
    decreases s.len() - i,
{
    if 0 <= i < s.len() && s[i] == ' ' {
        1 + spaces_at(s, i + 1)
    } else {
        0
    }
}

/// The items of a list from `i` whose items are indented by at least `m` spaces, when
/// `ord` is the marker kind so far and `first` says that no item came yet: whether the
/// list ends up ordered, its items, where it ends, and how many lookups follow. Each item
/// is a `- ` or `+ ` line after its indentation, then the list indented deeper than it.
/// Where the indentation suffices but no marker follows, the list ends after the spaces,
/// unless no item came yet.
pub open spec fn list_items(s: Seq<char>, i: int, m: int, titles: Seq<String>, k: Seq<Seq<char>>, ord: bool, first: bool) -> (bool, Seq<ItemV>, int, Seq<Seq<char>>)
    decreases s.len() - i,
{
    if i < 0 || i >= s.len() {
        (ord, Seq::empty(), i, k)
    } else {
        let n = spaces_at(s, i);
        let j = i + n;
        if m <= n && (starts_at(s, j, seq!['-', ' ']) || starts_at(s, j, seq!['+', ' '])) {
            let plus = !starts_at(s, j, seq!['-', ' ']);
            let l = spans_line(s, j + 2, titles, k);
            if l.1 <= i || l.1 > s.len() {
                (ord, Seq::empty(), i, k)
            } else {
                let c = list_items(s, l.1, n + 1, titles, l.2, false, true);
                if c.2 < l.1 || c.2 > s.len() {
                    (ord, Seq::empty(), i, k)
                } else {
                    let item = ItemV { spans: l.0, list: ListV { ordered: c.0, items: c.1 } };
                    let rest = list_items(s, c.2, m, titles, c.3, plus, false);
                    (rest.0, seq![item] + rest.1, rest.2, rest.3)
                }
            }
        } else if m <= n && !first {
            (ord, Seq::empty(), j, k)
        } else {
            (ord, Seq::empty(), i, k)
        }
    }
}

proof fn lemma_spaces_at(s: Seq<char>, i: int, n: int)
    requires
        0 <= i,
        0 <= n,
        i + n <= s.len(),
        forall|j: int| i <= j < i + n ==> s[j] == ' ',
        i + n == s.len() || s[i + n] != ' ',
    ensures
        spaces_at(s, i) == n,
    decreases n,
{
    if n > 0 {
        lemma_spaces_at(s, i + 1, n - 1);
    }
}

/// The URLs of a lookup record, as character sequences.
pub open spec fn urls_v(urls: Seq<String>) -> Seq<Seq<char>> {
    urls.map_values(|u: String| u@)
}

/// The title handed to the `k`-th link whose text is empty: the `k`-th answer, or empty.
pub open spec fn answer(titles: Seq<String>, k: int) -> Seq<char> {
    if 0 <= k < titles.len() {
        titles[k]@
    } else {
        Seq::empty()
    }
}

/// The marker of a heading of `level`: `level` times `#`, then a space.
pub open spec fn heading_marker(level: nat) -> Seq<char> {
    Seq::new(level, |i: int| '#').push(' ')
}

/// `e` is the contents entry for the heading made of `prims` with identifier `id`: one
/// link to `#id`, labelled by the heading's primitives with each top-level link replaced
/// by its text (`label_v`), with
/// no entries below it yet.
pub open spec fn is_toc_entry(e: ListItem, id: Seq<char>, prims: Seq<Prim>) -> bool {
    &&& e.spans@.len() == 1
    &&& e.list.ordered
    &&& e.list.items@.len() == 0
    &&& e.spans@[0] matches Span::PrimElem(Prim::Link { text, url }) && url@ == seq!['#'] + id
        && prims_v(text@) == label_v(prims)
}

/// `new` is `old` with the entry for the heading `prims` with identifier `id` added
/// `depth` levels down.
pub open spec fn toc_entry_added(old: List, new: List, depth: nat, id: Seq<char>, prims: Seq<Prim>) -> bool {
    exists|e: ListItem| inserted(old.ordered, old.items@, new, depth, e) && is_toc_entry(e, id, prims)
}

/// What a heading of level `level` made of `prims` with identifier `id` does to the
/// document state, from `o` to `n`. A level-1 heading sets the title to its text. Any
/// other takes its text as identifier, suffixed by the number of earlier uses of that
/// text, counts the use, and adds its entry `level - 2` levels down the contents table.
pub open spec fn heading_recorded(o: Parser, n: Parser, prims: Seq<Prim>, level: u32, id: Seq<char>) -> bool {
    let base = heading_base(prims);
    if level == 1 {
        &&& id == base
        &&& n.title@ == base
        &&& n.headers == o.headers
        &&& n.toc == o.toc
    } else {
        &&& id == heading_id(base, used_count(o.headers@, base))
        &&& used_count(n.headers@, base) == used_count(o.headers@, base) + 1
        &&& forall|k: Seq<char>| k != base ==> used_count(n.headers@, k) == used_count(o.headers@, k)
        &&& n.title == o.title
        &&& toc_entry_added(o.toc, n.toc, (level - 2) as nat, id, prims)
    }
}

/// What ends a table cell: `|` or a line ending.
pub open spec fn row_stops() -> Seq<Seq<char>> {
    seq![seq!['|'], seq!['\n'], seq!['\r', '\n']]
}

/// The cells of a table line from `i` (just past its leading `|`) to its line ending:
/// each runs up to the next `|` or line ending, without surrounding white space, escaped.
pub open spec fn row_cells(s: Seq<char>, i: int) -> Seq<Seq<char>>
    decreases s.len() - i,
{
    if i < 0 || i >= s.len() || newline_at(s, i) {
        Seq::empty()
    } else {
        let stop = first_stop(s, i, row_stops());
        let next = if starts_at(s, stop, seq!['|']) { stop + 1 } else { stop };
        if next <= i || next > s.len() {
            Seq::empty()
        } else {
            seq![escape(trim(s.subrange(i, stop)))] + row_cells(s, next)
        }
    }
}

/// Where the table line whose cells start at `i` ends: past its line ending, or at the end.
pub open spec fn row_end(s: Seq<char>, i: int) -> int
    decreases s.len() - i,
{
    if i < 0 || i >= s.len() {
        s.len() as int
    } else if newline_at(s, i) {
        i + (if starts_at(s, i, seq!['\n']) { 1int } else { 2int })
    } else {
        let stop = first_stop(s, i, row_stops());
        let next = if starts_at(s, stop, seq!['|']) { stop + 1 } else { stop };
        if next <= i || next > s.len() {
            i
        } else {
            row_end(s, next)
        }
    }
}

pub open spec fn cells_view(row: Seq<String>) -> Seq<Seq<char>> {
    row.map_values(|c: String| c@)
}

pub open spec fn rows_view(rows: Seq<Vec<String>>) -> Seq<Seq<Seq<char>>> {
    rows.map_values(|r: Vec<String>| cells_view(r@))
}

/// A separator row: at least one cell, and every cell made of `-` only.
pub open spec fn separator_cells(row: Seq<Seq<char>>) -> bool {
    row.len() > 0 && forall|i: int| 0 <= i < row.len() ==> all_dashes(#[trigger] row[i])
}

/// The table rows from `i`: the cells of each line that starts with `|`, up to a line
/// that does not or up to a separator row. Also whether a separator row ended them,
/// and where they end (past that separator row).
pub open spec fn table_part(s: Seq<char>, i: int) -> (Seq<Seq<Seq<char>>>, bool, int)
    decreases s.len() - i,
{
    if i < 0 || !starts_at(s, i, seq!['|']) {
        (Seq::empty(), false, i)
    } else {
        let cells = row_cells(s, i + 1);
        let e = row_end(s, i + 1);
        if separator_cells(cells) {
            (Seq::empty(), true, e)
        } else if e <= i || e > s.len() {
            (Seq::empty(), false, i)
        } else {
            let rest = table_part(s, e);
            (seq![cells] + rest.0, rest.1, rest.2)
        }
    }
}

/// Table rows at a line starting with `|` take at least that line.
pub proof fn lemma_table_part_moves(s: Seq<char>, i: int)
    requires
        0 <= i <= s.len(),
    ensures
        i <= table_part(s, i).2,
        starts_at(s, i, seq!['|']) ==> table_part(s, i).2 > i,
    decreases s.len() - i,
{
    if starts_at(s, i, seq!['|']) {
        lemma_row_end_moves(s, i + 1);
        let e = row_end(s, i + 1);
        if !separator_cells(row_cells(s, i + 1)) && e > i && e <= s.len() {
            lemma_table_part_moves(s, e);
        }
    }
}

/// A table line ends at or after where its cells start, and within the input.
pub proof fn lemma_row_end_moves(s: Seq<char>, i: int)
    requires
        0 <= i <= s.len(),
    ensures
        i <= row_end(s, i) <= s.len(),
    decreases s.len() - i,
{
    if i < s.len() && !newline_at(s, i) {
        let stop = first_stop(s, i, row_stops());
        lemma_first_stop_bounds(s, i, row_stops());
        let next = if starts_at(s, stop, seq!['|']) { stop + 1 } else { stop };
        if next > i && next <= s.len() {
            lemma_row_end_moves(s, next);
        }
    } else if i < s.len() {
        if !starts_at(s, i, seq!['\n']) {
            assert(starts_at(s, i, seq!['\r', '\n']));
        }
    }
}

/// The kind of block that the first matching marker at `i` calls for.
pub open spec fn block_kind_ok(s: Seq<char>, i: int, b: Block) -> bool {
    if starts_at(s, i, seq!['#', ' ']) {
        b matches Block::Header { level, .. } && level == 1
    } else if starts_at(s, i, seq!['#', '#', ' ']) {
        b matches Block::Header { level, .. } && level == 2
    } else if starts_at(s, i, seq!['#', '#', '#', ' ']) {
        b matches Block::Header { level, .. } && level == 3
    } else if starts_at(s, i, seq!['#', '#', '#', '#', ' ']) {
        b matches Block::Header { level, .. } && level == 4
    } else if starts_at(s, i, seq!['#', '#', '#', '#', '#', ' ']) {
        b matches Block::Header { level, .. } && level == 5
    } else if starts_at(s, i, seq!['#', '#', '#', '#', '#', '#', ' ']) {
        b matches Block::Header { level, .. } && level == 6
    } else if starts_at(s, i, seq!['>', ' ']) {
        b is Blockquote
    } else if starts_at(s, i, seq!['+', ' ']) || starts_at(s, i, seq!['-', ' ']) {
        b is ListElement
    } else if starts_at(s, i, seq!['@', '[']) {
        b is Image || b is LinkCard
    } else if starts_at(s, i, seq!['$', '$']) {
        b is MathBlock
    } else if starts_at(s, i, seq!['`', '`', '`']) {
        b is CodeBlock
    } else if starts_at(s, i, seq!['|']) {
        b is Table
    } else {
        b is Paragraph
    }
}

/// A paragraph with no spans, as a blank line gives.
pub open spec fn is_empty_paragraph(b: Block) -> bool {
    b matches Block::Paragraph { spans } && spans@.len() == 0
}

/// An embedded URL that names an image.
pub open spec fn is_image_url(url: Seq<char>) -> bool {
    ends_with(url, seq!['.', 'p', 'n', 'g']) || ends_with(url, seq!['.', 'j', 'p', 'g'])
}

/// The `k`-th embed answer, if there is one.
pub open spec fn embed_answer(embeds: Seq<EmbedInfo>, k: int) -> Option<EmbedInfo> {
    if 0 <= k < embeds.len() {
        Some(embeds[k])
    } else {
        None
    }
}

/// The link card for an embed: the fields of `answer`, or empty ones when there is none.
pub open spec fn card_matches(b: Block, url: Seq<char>, answer: Option<EmbedInfo>) -> bool {
    b matches Block::LinkCard { title, image, url: u, description, site_name } && u@ == url && (
    match answer {
        Some(a) => title == a.title && image == a.image && description == a.description
            && site_name == a.site_name,
        None => title@.len() == 0 && image is None && description is None && site_name is None,
    })
}

fn clone_opt(o: &Option<String>) -> (r: Option<String>)
    ensures
        r == *o,
{
    match o {
        Some(s) => Some(s.clone()),
        None => None,
    }
}

/// A recursive-descent parser over a buffer of characters, with the state shared by
/// all blocks of one document: the heading registry, the title, the table of contents
/// and the blocks parsed so far. Link metadata comes in as answers consumed in the
/// order in which the parser asks for them; the URLs asked for are recorded.
pub struct Parser {
    pub chs: Vec<char>,
    pub pos: usize,
    pub headers: Vec<(Vec<char>, usize)>,
    pub title: String,
    pub toc: List,
    pub content: Vec<Block>,
    pub titles: Vec<String>,
    pub embeds: Vec<EmbedInfo>,
    pub title_urls: Vec<String>,
    pub embed_urls: Vec<String>,
}

impl Parser {
    /// The cursor lies within the input and the heading registry is sound.
    pub open spec fn wf(&self) -> bool {
        &&& self.pos <= self.chs@.len()
        &&& registry_ok(self.headers@, self.pos as int)
    }

    /// The input and the answers are unchanged and the cursor did not move back.
    pub open spec fn kept(&self, o: &Parser) -> bool {
        &&& self.chs == o.chs
        &&& self.titles == o.titles
        &&& self.embeds == o.embeds
        &&& o.pos <= self.pos
        &&& o.title_urls@.len() <= self.title_urls@.len()
        &&& o.embed_urls@.len() <= self.embed_urls@.len()
    }

    /// The document state (registry, title, contents table, blocks) is unchanged.
    pub open spec fn doc_kept(&self, o: &Parser) -> bool {
        &&& self.headers == o.headers
        &&& self.title == o.title
        &&& self.toc == o.toc
        &&& self.content == o.content
    }

    /// A step of inline parsing: well formed after, nothing but the cursor and the
    /// recorded lookups changed.
    pub open spec fn inline_step(&self, o: &Parser) -> bool {
        &&& self.wf()
        &&& self.kept(o)
        &&& self.doc_kept(o)
        &&& self.embed_urls == o.embed_urls
    }

    /// A step of block parsing: well formed after, the input, answers and blocks unchanged.
    pub open spec fn block_step(&self, o: &Parser) -> bool {
        &&& self.wf()
        &&& self.kept(o)
        &&& self.content == o.content
    }

    /// How many characters are left to parse.
    pub open spec fn rem(&self) -> int {
        self.chs@.len() - self.pos
    }

    /// A parser over `doc` with the given link metadata answers.
    pub fn with_answers(doc: &str, titles: Vec<String>, embeds: Vec<EmbedInfo>) -> (r: Parser)
        ensures
            r.wf(),
            r.chs@ == doc@,
            r.pos == 0,
            r.headers@.len() == 0,
            r.title@.len() == 0,
            r.toc.ordered,
            r.toc.items@.len() == 0,
            r.content@.len() == 0,
            r.titles == titles,
            r.embeds == embeds,
            r.title_urls@.len() == 0,
            r.embed_urls@.len() == 0,
    {
        Parser {
            chs: chars_of(doc),
            pos: 0,
            headers: Vec::new(),
            title: String::new(),
            toc: List::empty(true),
            content: Vec::new(),
            titles,
            embeds,
            title_urls: Vec::new(),
            embed_urls: Vec::new(),
        }
    }

    /// A parser over `doc` with no link metadata: every lookup yields empty values.
    pub fn new(doc: &str) -> (r: Parser)
        ensures
            r.wf(),
            r.chs@ == doc@,
            r.pos == 0,
            r.headers@.len() == 0,
            r.title@.len() == 0,
            r.toc.ordered,
            r.toc.items@.len() == 0,
            r.content@.len() == 0,
            r.titles@.len() == 0,
            r.embeds@.len() == 0,
            r.title_urls@.len() == 0,
            r.embed_urls@.len() == 0,
    {
        Parser::with_answers(doc, Vec::new(), Vec::new())
    }

    fn at_end(&self) -> (r: bool)
        requires
            self.wf(),
        ensures
            r == (self.pos == self.chs@.len()),
    {
        self.pos >= self.chs.len()
    }

    fn at_newline(&self) -> (r: bool)
        requires
            self.wf(),
        ensures
            r == newline_at(self.chs@, self.pos as int),
    {
        proof {
            reveal_strlit("\n");
            reveal_strlit("\r\n");
            assert("\n"@ =~= seq!['\n']);
            assert("\r\n"@ =~= seq!['\r', '\n']);
        }
        starts_with_at(&self.chs, self.pos, "\n") || starts_with_at(&self.chs, self.pos, "\r\n")
    }

    /// Advances past `p` when the rest of the input starts with it.
    fn starts_with_next(&mut self, p: &str) -> (r: bool)
        requires
            old(self).wf(),
        ensures
            r == starts_at(old(self).chs@, old(self).pos as int, p@),
            final(self).wf(),
            final(self).kept(old(self)),
            final(self).doc_kept(old(self)),
            final(self).title_urls == old(self).title_urls,
            final(self).embed_urls == old(self).embed_urls,
            r ==> final(self).pos == old(self).pos + p@.len(),
            !r ==> final(self).pos == old(self).pos,
    {
        proof { assert(self.chs@.len() == self.chs.len()); }
        if starts_with_at(&self.chs, self.pos, p) {
            self.pos = self.pos + p.unicode_len();
            true
        } else {
            false
        }
    }

    /// Advances past a line ending of either convention.
    fn starts_with_newline_next(&mut self) -> (r: bool)
        requires
            old(self).wf(),
        ensures
            r == newline_at(old(self).chs@, old(self).pos as int),
            final(self).wf(),
            final(self).kept(old(self)),
            final(self).doc_kept(old(self)),
            final(self).title_urls == old(self).title_urls,
            final(self).embed_urls == old(self).embed_urls,
            r ==> final(self).pos == old(self).pos + (if starts_at(
                old(self).chs@,
                old(self).pos as int,
                seq!['\n'],
            ) {
                1int
            } else {
                2int
            }),
            !r ==> final(self).pos == old(self).pos,
    {
        proof {
            reveal_strlit("\n");
            reveal_strlit("\r\n");
            assert("\n"@ =~= seq!['\n']);
            assert("\r\n"@ =~= seq!['\r', '\n']);
        }
        self.starts_with_next("\n") || self.starts_with_next("\r\n")
    }

    /// Takes the characters up to the first terminator of `terms` (or the end), as they
    /// stand. The terminator is left in place.
    fn text_until(&mut self, terms: &[&str]) -> (r: Vec<char>)
        requires
            old(self).wf(),
        ensures
            final(self).pos == first_stop(old(self).chs@, old(self).pos as int, views(terms@)),
            r@ == old(self).chs@.subrange(old(self).pos as int, final(self).pos as int),
            final(self).wf(),
            final(self).kept(old(self)),
            final(self).doc_kept(old(self)),
            final(self).title_urls == old(self).title_urls,
            final(self).embed_urls == old(self).embed_urls,
    {
        let stop = find_stop(&self.chs, self.pos, terms);
        let out = copy_range(&self.chs, self.pos, stop);
        self.pos = stop;
        out
    }

    /// Advances past the first terminator of `terms` found at the cursor, if any.
    fn skip_term(&mut self, terms: &[&str])
        requires
            old(self).wf(),
        ensures
            final(self).wf(),
            final(self).kept(old(self)),
            final(self).doc_kept(old(self)),
            final(self).title_urls == old(self).title_urls,
            final(self).embed_urls == old(self).embed_urls,
            final(self).pos == old(self).pos + skipped(old(self).chs@, old(self).pos as int, views(terms@)),
    {
        let mut k: usize = 0;
        while k < terms.len()
            invariant
                self.wf(),
                self.pos == old(self).pos,
                self.kept(old(self)),
                self.doc_kept(old(self)),
                self.title_urls == old(self).title_urls,
                self.embed_urls == old(self).embed_urls,
                k <= terms@.len(),
                term_skip(self.chs@, self.pos as int, views(terms@), k as int) == skipped(
                    self.chs@,
                    self.pos as int,
                    views(terms@),
                ),
            decreases terms@.len() - k,
        {
            if self.starts_with_next(terms[k]) {
                return;
            }
            k = k + 1;
        }
    }

    /// Takes the characters up to the first terminator of `terms` (or the end), as they
    /// stand, and advances past the first of `terms` that occurs there.
    fn text_until_trim(&mut self, terms: &[&str]) -> (r: Vec<char>)
        requires
            old(self).wf(),
        ensures
            ({
                let stop = first_stop(old(self).chs@, old(self).pos as int, views(terms@));
                &&& r@ == old(self).chs@.subrange(old(self).pos as int, stop)
                &&& final(self).pos == stop + skipped(old(self).chs@, stop, views(terms@))
            }),
            final(self).wf(),
            final(self).kept(old(self)),
            final(self).doc_kept(old(self)),
            final(self).title_urls == old(self).title_urls,
            final(self).embed_urls == old(self).embed_urls,
    {
        proof { lemma_first_stop_bounds(self.chs@, self.pos as int, views(terms@)); }
        let out = self.text_until(terms);
        self.skip_term(terms);
        out
    }

    /// A run of plain text, escaped, up to the next marker or line ending.
    fn parse_text(&mut self) -> (r: Prim)
        requires
            old(self).wf(),
        ensures
            final(self).pos == text_run_end(old(self).chs@, old(self).pos as int),
            r matches Prim::Text { text } && text@ == escape(
                old(self).chs@.subrange(old(self).pos as int, final(self).pos as int),
            ),
            old(self).pos < old(self).chs@.len() && !newline_at(old(self).chs@, old(self).pos as int)
                ==> final(self).pos > old(self).pos,
            final(self).wf(),
            final(self).kept(old(self)),
            final(self).doc_kept(old(self)),
            final(self).title_urls == old(self).title_urls,
            final(self).embed_urls == old(self).embed_urls,
    {
        let stops: &[&str] = &["**", "__", "[", "]", "$", "`", "\n", "\r\n"];
        proof {
            reveal_strlit("**");
            reveal_strlit("__");
            reveal_strlit("[");
            reveal_strlit("]");
            reveal_strlit("$");
            reveal_strlit("`");
            reveal_strlit("\n");
            reveal_strlit("\r\n");
            assert(stops@[0]@ =~= seq!['*', '*']);
            assert(stops@[1]@ =~= seq!['_', '_']);
            assert(stops@[2]@ =~= seq!['[']);
            assert(stops@[3]@ =~= seq![']']);
            assert(stops@[4]@ =~= seq!['$']);
            assert(stops@[5]@ =~= seq!['`']);
            assert(stops@[6]@ =~= seq!['\n']);
            assert(stops@[7]@ =~= seq!['\r', '\n']);
            assert(views(stops@) =~= text_stops());
        }
        let p0 = self.pos;
        let forced = p0 < self.chs.len() && !self.at_newline() && any_with_at(&self.chs, p0, stops);
        let start = if forced { p0 + 1 } else { p0 };
        let stop = find_stop(&self.chs, start, stops);
        proof {
            lemma_first_stop_bounds(self.chs@, start as int, text_stops());
            if p0 < self.chs@.len() && !forced {
                lemma_first_stop_bounds(self.chs@, p0 + 1, text_stops());
            }
        }
        let mut out: Vec<char> = Vec::new();
        push_escaped_range(&mut out, &self.chs, p0, stop);
        self.pos = stop;
        Prim::Text { text: string_of(out) }
    }

    /// Inline math, after its opening `$`: the escaped source up to the closing `$`.
    fn parse_math(&mut self) -> (r: Prim)
        requires
            old(self).wf(),
        ensures
            r matches Prim::Math { math } && math@ == escape(
                old(self).chs@.subrange(
                    old(self).pos as int,
                    first_stop(old(self).chs@, old(self).pos as int, seq![seq!['$']]),
                ),
            ),
            ({
                let stop = first_stop(old(self).chs@, old(self).pos as int, seq![seq!['$']]);
                final(self).pos == stop + skipped(old(self).chs@, stop, seq![seq!['$']])
            }),
            final(self).inline_step(old(self)),
            final(self).title_urls == old(self).title_urls,
    {
        let terms: &[&str] = &["$"];
        proof {
            reveal_strlit("$");
            assert(terms@[0]@ =~= seq!['$']);
            assert(views(terms@) =~= seq![seq!['$']]);
        }
        let math = escaped(&self.text_until_trim(terms));
        Prim::Math { math: string_of(math) }
    }

    /// Inline code, after its opening backtick: the escaped source up to the closing one.
    fn parse_code(&mut self) -> (r: Prim)
        requires
            old(self).wf(),
        ensures
            r matches Prim::Code { code } && code@ == escape(
                old(self).chs@.subrange(
                    old(self).pos as int,
                    first_stop(old(self).chs@, old(self).pos as int, seq![seq!['`']]),
                ),
            ),
            ({
                let stop = first_stop(old(self).chs@, old(self).pos as int, seq![seq!['`']]);
                final(self).pos == stop + skipped(old(self).chs@, stop, seq![seq!['`']])
            }),
            final(self).inline_step(old(self)),
            final(self).title_urls == old(self).title_urls,
    {
        let terms: &[&str] = &["`"];
        proof {
            reveal_strlit("`");
            assert(terms@[0]@ =~= seq!['`']);
            assert(views(terms@) =~= seq![seq!['`']]);
        }
        let code = escaped(&self.text_until_trim(terms));
        Prim::Code { code: string_of(code) }
    }

    /// One primitive: a link, inline math, inline code, or else a run of text.
    fn parse_primary(&mut self) -> (r: Prim)
        requires
            old(self).wf(),
            old(self).pos < old(self).chs@.len(),
            !newline_at(old(self).chs@, old(self).pos as int),
        ensures
            final(self).inline_step(old(self)),
            final(self).pos > old(self).pos,
            (r is Link) == starts_at(old(self).chs@, old(self).pos as int, seq!['[']),
            (r is Math) == starts_at(old(self).chs@, old(self).pos as int, seq!['$']),
            (r is Code) == starts_at(old(self).chs@, old(self).pos as int, seq!['`']),
            !(r is Link) ==> final(self).title_urls == old(self).title_urls,
            (prim_v(r), final(self).pos as int, urls_v(final(self).title_urls@)) == prim_at(
                old(self).chs@,
                old(self).pos as int,
                old(self).titles@,
                urls_v(old(self).title_urls@),
            ),
        decreases old(self).rem(), 2nat,
    {
        proof {
            reveal_strlit("[");
            reveal_strlit("$");
            reveal_strlit("`");
            assert("["@ =~= seq!['[']);
            assert("$"@ =~= seq!['$']);
            assert("`"@ =~= seq!['`']);
            lemma_starts_at_one(self.chs@, self.pos as int, '[');
            lemma_starts_at_one(self.chs@, self.pos as int, '$');
            lemma_starts_at_one(self.chs@, self.pos as int, '`');
        }
        if self.starts_with_next("[") {
            return self.parse_link();
        }
        if self.starts_with_next("$") {
            return self.parse_math();
        }
        if self.starts_with_next("`") {
            return self.parse_code();
        }
        let r = self.parse_text();
        r
    }

    /// A link, after its opening `[`: primitives up to `](`, then the URL up to `)` or
    /// the end of the line.
    fn parse_link(&mut self) -> (r: Prim)
        requires
            old(self).wf(),
        ensures
            final(self).inline_step(old(self)),
            r is Link,
            (prim_v(r), final(self).pos as int, urls_v(final(self).title_urls@)) == link_at(
                old(self).chs@,
                old(self).pos as int,
                old(self).titles@,
                urls_v(old(self).title_urls@),
            ),
            exists|a: int| #![trigger link_ends_at(old(self).chs@, a, r, final(self).pos as int)]
                old(self).pos <= a <= old(self).chs@.len() && link_ends_at(
                    old(self).chs@,
                    a,
                    r,
                    final(self).pos as int,
                ),
            starts_at(old(self).chs@, old(self).pos as int, seq![']', '(']) ==> link_ends_at(
                old(self).chs@,
                old(self).pos + 2,
                r,
                final(self).pos as int,
            ) && (r matches Prim::Link { text, url } && text@.len() == 1 && (text@[0] matches Prim::Text {
                text: t } && t@ == answer(old(self).titles@, old(self).title_urls@.len() as int))
                && final(self).title_urls@.len() == old(self).title_urls@.len() + 1
                && final(self).title_urls@.last()@ == url@ && final(self).title_urls@.drop_last()
                == old(self).title_urls@),
        decreases old(self).rem(), 3nat,
    {
        proof {
            reveal_strlit("](");
            assert("]("@ =~= seq![']', '(']);
        }
        let ghost lt = link_text(
            old(self).chs@,
            old(self).pos as int,
            old(self).titles@,
            urls_v(old(self).title_urls@),
        );
        let mut text: Vec<Prim> = Vec::new();
        loop
            invariant_except_break
                starts_at(old(self).chs@, old(self).pos as int, seq![']', '(']) ==> self.pos == old(self).pos
                    && text@.len() == 0,
                prims_v(text@) + link_text(self.chs@, self.pos as int, self.titles@, urls_v(self.title_urls@)).0
                    == lt.0,
                link_text(self.chs@, self.pos as int, self.titles@, urls_v(self.title_urls@)).1 == lt.1,
                link_text(self.chs@, self.pos as int, self.titles@, urls_v(self.title_urls@)).2 == lt.2,
            invariant
                self.inline_step(old(self)),
                text@.len() == 0 ==> self.title_urls == old(self).title_urls,
            ensures
                self.inline_step(old(self)),
                text@.len() == 0 ==> self.title_urls == old(self).title_urls,
                starts_at(old(self).chs@, old(self).pos as int, seq![']', '(']) ==> self.pos == old(self).pos
                    + 2 && text@.len() == 0,
                prims_v(text@) == lt.0,
                self.pos == lt.1,
                urls_v(self.title_urls@) == lt.2,
            decreases self.rem(),
        {
            proof {
                reveal_strlit("](");
                assert("]("@ =~= seq![']', '(']);
            }
            let ghost q = self.pos as int;
            if self.starts_with_next("](") {
                assert(prims_v(text@) + Seq::<PrimV>::empty() =~= prims_v(text@));
                break;
            }
            if self.at_end() || self.at_newline() {
                assert(prims_v(text@) + Seq::<PrimV>::empty() =~= prims_v(text@));
                break;
            }
            let ghost n0 = urls_v(self.title_urls@);
            let p = self.parse_primary();
            let ghost before = text@;
            text.push(p);
            proof {
                assert(text@.subrange(0, text@.len() - 1) =~= before);
                assert(prims_v(text@) == prims_v(before).push(prim_v(p)));
                let rest = link_text(self.chs@, self.pos as int, self.titles@, urls_v(self.title_urls@));
                assert(link_text(self.chs@, q, self.titles@, n0).0 == seq![prim_v(p)] + rest.0);
                assert(prims_v(text@) + rest.0 =~= prims_v(before) + (seq![prim_v(p)] + rest.0));
            }
        }
        let terms: &[&str] = &[")", "\n", "\r\n"];
        proof {
            reveal_strlit(")");
            reveal_strlit("\n");
            reveal_strlit("\r\n");
            assert(terms@[0]@ =~= seq![')']);
            assert(terms@[1]@ =~= seq!['\n']);
            assert(terms@[2]@ =~= seq!['\r', '\n']);
            assert(views(terms@) =~= url_stops());
        }
        let ghost a = self.pos as int;
        let url = self.text_until_trim(terms);
        let ghost tv = text@;
        let r = self.finish_link(text, url);
        assert(link_ends_at(old(self).chs@, a, r, self.pos as int));
        proof {
            if tv.len() == 0 {
                let t = r->Link_text@;
                assert(t.subrange(0, 0) =~= Seq::<Prim>::empty());
                assert(prims_v(Seq::<Prim>::empty()) == Seq::<PrimV>::empty());
                assert(prim_v(t[0]) == PrimV::Text(answer(self.titles@, lt.2.len() as int)));
                assert(prims_v(t) == prims_v(t.subrange(0, 0)).push(prim_v(t[0])));
                assert(prims_v(t) =~= seq![PrimV::Text(answer(self.titles@, lt.2.len() as int))]);
            }
        }
        r
    }

    /// Completes a link. Text that came out empty is replaced by the next title answer,
    /// and the URL is recorded as asked for.
    pub fn finish_link(&mut self, text: Vec<Prim>, url: Vec<char>) -> (r: Prim)
        requires
            old(self).wf(),
        ensures
            final(self).inline_step(old(self)),
            final(self).pos == old(self).pos,
            r matches Prim::Link { text: t, url: u } && u@ == url@ && (text@.len() > 0 ==> t
                == text) && (text@.len() == 0 ==> t@.len() == 1 && (t@[0] matches Prim::Text {
                text: s } && s@ == answer(old(self).titles@, old(self).title_urls@.len() as int))),
            text@.len() > 0 ==> final(self).title_urls == old(self).title_urls,
            text@.len() == 0 ==> final(self).title_urls@.len() == old(self).title_urls@.len() + 1
                && final(self).title_urls@.last()@ == url@ && final(self).title_urls@.drop_last()
                == old(self).title_urls@,
    {
        let u = string_of(url);
        if text.len() > 0 {
            return Prim::Link { text, url: u };
        }
        let k = self.title_urls.len();
        let title = if k < self.titles.len() {
            self.titles[k].clone()
        } else {
            String::new()
        };
        self.title_urls.push(u.clone());
        let mut t: Vec<Prim> = Vec::new();
        t.push(Prim::Text { text: title });
        Prim::Link { text: t, url: u }
    }

    /// A span: bold after `**`, italic after `__`, or else one primitive.
    fn parse_emph(&mut self) -> (r: Span)
        requires
            old(self).wf(),
            old(self).pos < old(self).chs@.len(),
            !newline_at(old(self).chs@, old(self).pos as int),
        ensures
            final(self).inline_step(old(self)),
            final(self).pos > old(self).pos,
            (r is Bold) == starts_at(old(self).chs@, old(self).pos as int, seq!['*', '*']),
            (r is Ital) == (!starts_at(old(self).chs@, old(self).pos as int, seq!['*', '*'])
                && starts_at(old(self).chs@, old(self).pos as int, seq!['_', '_'])),
            (span_v(r), final(self).pos as int, urls_v(final(self).title_urls@)) == span_at(
                old(self).chs@,
                old(self).pos as int,
                old(self).titles@,
                urls_v(old(self).title_urls@),
            ),
        decreases old(self).rem(), 4nat,
    {
        proof {
            reveal_strlit("**");
            reveal_strlit("__");
            assert("**"@ =~= seq!['*', '*']);
            assert("__"@ =~= seq!['_', '_']);
        }
        if self.starts_with_next("**") {
            let text = self.parse_emph_until("**");
            return Span::Bold { text };
        }
        if self.starts_with_next("__") {
            let text = self.parse_emph_until("__");
            return Span::Ital { text };
        }
        Span::PrimElem(self.parse_primary())
    }

    /// The spans inside an emphasis, up to and past its closing marker `close`. The
    /// emphasis closes silently at a line ending (left in place) or at the end.
    fn parse_emph_until(&mut self, close: &str) -> (r: Vec<Span>)
        requires
            old(self).wf(),
        ensures
            final(self).inline_step(old(self)),
            (spans_v(r@), final(self).pos as int, urls_v(final(self).title_urls@)) == emph_until(
                old(self).chs@,
                old(self).pos as int,
                close@,
                old(self).titles@,
                urls_v(old(self).title_urls@),
            ),
        decreases old(self).rem(), 5nat,
    {
        let ghost eu = emph_until(
            old(self).chs@,
            old(self).pos as int,
            close@,
            old(self).titles@,
            urls_v(old(self).title_urls@),
        );
        let mut text: Vec<Span> = Vec::new();
        loop
            invariant_except_break
                spans_v(text@) + emph_until(self.chs@, self.pos as int, close@, self.titles@, urls_v(self.title_urls@)).0
                    == eu.0,
                emph_until(self.chs@, self.pos as int, close@, self.titles@, urls_v(self.title_urls@)).1 == eu.1,
                emph_until(self.chs@, self.pos as int, close@, self.titles@, urls_v(self.title_urls@)).2 == eu.2,
            invariant
                self.inline_step(old(self)),
            ensures
                self.inline_step(old(self)),
                spans_v(text@) == eu.0,
                self.pos == eu.1,
                urls_v(self.title_urls@) == eu.2,
            decreases self.rem(),
        {
            if self.starts_with_next(close) {
                assert(spans_v(text@) + Seq::<SpanV>::empty() =~= spans_v(text@));
                break;
            }
            if self.at_end() || self.at_newline() {
                assert(spans_v(text@) + Seq::<SpanV>::empty() =~= spans_v(text@));
                break;
            }
            let ghost q = self.pos as int;
            let ghost n0 = urls_v(self.title_urls@);
            let x = self.parse_emph();
            let ghost before = text@;
            text.push(x);
            proof {
                assert(text@.subrange(0, text@.len() - 1) =~= before);
                assert(spans_v(text@) == spans_v(before).push(span_v(x)));
                let rest = emph_until(self.chs@, self.pos as int, close@, self.titles@, urls_v(self.title_urls@));
                assert(emph_until(self.chs@, q, close@, self.titles@, n0).0 == seq![span_v(x)] + rest.0);
                assert(spans_v(text@) + rest.0 =~= spans_v(before) + (seq![span_v(x)] + rest.0));
            }
        }
        text
    }

    /// The spans of one line, consuming its line ending. Nothing comes out exactly when
    /// the line is empty or the input is exhausted.
    pub fn parse_inline(&mut self) -> (r: Vec<Span>)
        requires
            old(self).wf(),
        ensures
            final(self).inline_step(old(self)),
            old(self).pos < old(self).chs@.len() ==> final(self).pos > old(self).pos,
            r@.len() == 0 <==> (old(self).pos == old(self).chs@.len() || newline_at(
                old(self).chs@,
                old(self).pos as int,
            )),
            (spans_v(r@), final(self).pos as int, urls_v(final(self).title_urls@)) == spans_line(
                old(self).chs@,
                old(self).pos as int,
                old(self).titles@,
                urls_v(old(self).title_urls@),
            ),
    {
        let ghost sl = spans_line(
            old(self).chs@,
            old(self).pos as int,
            old(self).titles@,
            urls_v(old(self).title_urls@),
        );
        let mut spans: Vec<Span> = Vec::new();
        loop
            invariant_except_break
                spans_v(spans@) + spans_line(self.chs@, self.pos as int, self.titles@, urls_v(self.title_urls@)).0
                    == sl.0,
                spans_line(self.chs@, self.pos as int, self.titles@, urls_v(self.title_urls@)).1 == sl.1,
                spans_line(self.chs@, self.pos as int, self.titles@, urls_v(self.title_urls@)).2 == sl.2,
                spans@.len() == 0 ==> self.pos == old(self).pos,
            invariant
                self.inline_step(old(self)),
                spans@.len() > 0 ==> self.pos > old(self).pos,
                spans@.len() > 0 ==> !(old(self).pos == old(self).chs@.len() || newline_at(
                    old(self).chs@,
                    old(self).pos as int,
                )),
            ensures
                self.inline_step(old(self)),
                old(self).pos < old(self).chs@.len() ==> self.pos > old(self).pos,
                spans@.len() == 0 <==> (old(self).pos == old(self).chs@.len() || newline_at(
                    old(self).chs@,
                    old(self).pos as int,
                )),
                spans_v(spans@) == sl.0,
                self.pos == sl.1,
                urls_v(self.title_urls@) == sl.2,
            decreases self.rem(),
        {
            if self.at_end() {
                assert(spans_v(spans@) + Seq::<SpanV>::empty() =~= spans_v(spans@));
                break;
            }
            if self.starts_with_newline_next() {
                assert(spans_v(spans@) + Seq::<SpanV>::empty() =~= spans_v(spans@));
                break;
            }
            let ghost q = self.pos as int;
            let ghost n0 = urls_v(self.title_urls@);
            let x = self.parse_emph();
            let ghost before = spans@;
            spans.push(x);
            proof {
                assert(spans@.subrange(0, spans@.len() - 1) =~= before);
                assert(spans_v(spans@) == spans_v(before).push(span_v(x)));
                let rest = spans_line(self.chs@, self.pos as int, self.titles@, urls_v(self.title_urls@));
                assert(spans_line(self.chs@, q, self.titles@, n0).0 == seq![span_v(x)] + rest.0);
                assert(spans_v(spans@) + rest.0 =~= spans_v(before) + (seq![span_v(x)] + rest.0));
            }
        }
        spans
    }

    /// The primitives of one line, consuming its line ending.
    fn parse_prims_line(&mut self) -> (r: Vec<Prim>)
        requires
            old(self).wf(),
        ensures
            final(self).inline_step(old(self)),
            old(self).pos < old(self).chs@.len() ==> final(self).pos > old(self).pos,
            (prims_v(r@), final(self).pos as int, urls_v(final(self).title_urls@)) == prims_line(
                old(self).chs@,
                old(self).pos as int,
                old(self).titles@,
                urls_v(old(self).title_urls@),
            ),
    {
        let ghost pl = prims_line(
            old(self).chs@,
            old(self).pos as int,
            old(self).titles@,
            urls_v(old(self).title_urls@),
        );
        let mut prims: Vec<Prim> = Vec::new();
        loop
            invariant_except_break
                prims_v(prims@) + prims_line(self.chs@, self.pos as int, self.titles@, urls_v(self.title_urls@)).0
                    == pl.0,
                prims_line(self.chs@, self.pos as int, self.titles@, urls_v(self.title_urls@)).1 == pl.1,
                prims_line(self.chs@, self.pos as int, self.titles@, urls_v(self.title_urls@)).2 == pl.2,
            invariant
                self.inline_step(old(self)),
                prims@.len() > 0 ==> self.pos > old(self).pos,
            ensures
                self.inline_step(old(self)),
                old(self).pos < old(self).chs@.len() ==> self.pos > old(self).pos,
                prims_v(prims@) == pl.0,
                self.pos == pl.1,
                urls_v(self.title_urls@) == pl.2,
            decreases self.rem(),
        {
            if self.at_end() {
                assert(prims_v(prims@) + Seq::<PrimV>::empty() =~= prims_v(prims@));
                break;
            }
            if self.starts_with_newline_next() {
                assert(prims_v(prims@) + Seq::<PrimV>::empty() =~= prims_v(prims@));
                break;
            }
            let ghost q = self.pos as int;
            let ghost n0 = urls_v(self.title_urls@);
            let p = self.parse_primary();
            let ghost before = prims@;
            prims.push(p);
            proof {
                assert(prims@.subrange(0, prims@.len() - 1) =~= before);
                assert(prims_v(prims@) == prims_v(before).push(prim_v(p)));
                let rest = prims_line(self.chs@, self.pos as int, self.titles@, urls_v(self.title_urls@));
                assert(prims_line(self.chs@, q, self.titles@, n0).0 == seq![prim_v(p)] + rest.0);
                assert(prims_v(prims@) + rest.0 =~= prims_v(before) + (seq![prim_v(p)] + rest.0));
            }
        }
        prims
    }

    /// A heading of the given level, from its marker (`level` times `#`, then a space).
    pub fn parse_header(&mut self, level: u32) -> (r: Block)
        requires
            old(self).wf(),
            1 <= level <= 6,
            starts_at(old(self).chs@, old(self).pos as int, heading_marker(level as nat)),
        ensures
            final(self).pos > old(self).pos,
            ({
                let line = prims_line(
                    old(self).chs@,
                    old(self).pos + level + 1,
                    old(self).titles@,
                    urls_v(old(self).title_urls@),
                );
                &&& r matches Block::Header { prims, .. } && prims_v(prims@) == line.0
                &&& final(self).pos == line.1
                &&& urls_v(final(self).title_urls@) == line.2
            }),
            final(self).block_step(old(self)),
            final(self).embed_urls == old(self).embed_urls,
            final(self).toc.ordered == old(self).toc.ordered,
            r matches Block::Header { prims, level: lv, id } && lv == level && heading_recorded(
                *old(self),
                *final(self),
                prims@,
                level,
                id@,
            ),
    {
        proof {
            assert(self.chs@.len() == self.chs.len());
            assert(heading_marker(level as nat).len() == level + 1);
        }
        self.pos = self.pos + level as usize + 1;
        let prims = self.parse_prims_line();
        let base = heading_text(&prims);
        if level == 1 {
            let id = string_of(base);
            self.title = id.clone();
            return Block::Header { prims, level, id };
        }
        let key = copy_range(&base, 0, base.len());
        assert(key@ =~= base@);
        proof {
            lemma_used_count_bound(self.headers@, key@, old(self).pos as int);
        }
        let n = register(&mut self.headers, key);
        let idv = make_heading_id(&base, n);
        let mut url: Vec<char> = Vec::new();
        url.push('#');
        let mut idc = copy_range(&idv, 0, idv.len());
        url.append(&mut idc);
        assert(url@ =~= seq!['#'] + idv@);
        let label = toc_label(&prims);
        let mut spans: Vec<Span> = Vec::new();
        spans.push(Span::PrimElem(Prim::Link { text: label, url: string_of(url) }));
        let entry = ListItem { spans, list: List::empty(true) };
        let ghost e = entry;
        toc_push(&mut self.toc, level - 2, entry);
        assert(is_toc_entry(e, idv@, prims@));
        Block::Header { prims, level, id: string_of(idv) }
    }

    /// Lines prefixed by `> `, each parsed as one line of spans.
    pub fn parse_blockquote(&mut self) -> (r: Block)
        requires
            old(self).wf(),
        ensures
            final(self).inline_step(old(self)),
            r is Blockquote,
            starts_at(old(self).chs@, old(self).pos as int, seq!['>', ' ']) ==> final(self).pos
                > old(self).pos,
            (lines_v(r->Blockquote_lines@), final(self).pos as int, urls_v(final(self).title_urls@))
                == quote_lines(old(self).chs@, old(self).pos as int, old(self).titles@, urls_v(old(self).title_urls@)),
    {
        let ghost ql = quote_lines(
            old(self).chs@,
            old(self).pos as int,
            old(self).titles@,
            urls_v(old(self).title_urls@),
        );
        let mut lines: Vec<Vec<Span>> = Vec::new();
        loop
            invariant
                self.inline_step(old(self)),
                lines@.len() > 0 ==> self.pos > old(self).pos,
                lines@.len() == 0 ==> self.pos == old(self).pos,
                lines_v(lines@) + quote_lines(self.chs@, self.pos as int, self.titles@, urls_v(self.title_urls@)).0
                    == ql.0,
                quote_lines(self.chs@, self.pos as int, self.titles@, urls_v(self.title_urls@)).1 == ql.1,
                quote_lines(self.chs@, self.pos as int, self.titles@, urls_v(self.title_urls@)).2 == ql.2,
            ensures
                self.inline_step(old(self)),
                starts_at(old(self).chs@, old(self).pos as int, seq!['>', ' ']) ==> self.pos > old(self).pos,
                lines_v(lines@) == ql.0,
                self.pos == ql.1,
                urls_v(self.title_urls@) == ql.2,
            decreases self.rem(),
        {
            proof {
                reveal_strlit("> ");
                assert("> "@ =~= seq!['>', ' ']);
            }
            if !self.starts_with_next("> ") {
                assert(lines_v(lines@) + Seq::<Seq<SpanV>>::empty() =~= lines_v(lines@));
                break;
            }
            let ghost q = (self.pos - 2) as int;
            let ghost n0 = urls_v(self.title_urls@);
            let line = self.parse_inline();
            let ghost before = lines@;
            lines.push(line);
            proof {
                assert(lines_v(lines@) =~= lines_v(before).push(spans_v(line@)));
                let rest = quote_lines(self.chs@, self.pos as int, self.titles@, urls_v(self.title_urls@));
                assert(quote_lines(self.chs@, q, self.titles@, n0).0 == seq![spans_v(line@)] + rest.0);
                assert(lines_v(lines@) + rest.0 =~= lines_v(before) + (seq![spans_v(line@)] + rest.0));
            }
        }
        Block::Blockquote { lines }
    }

    /// Counts the spaces at the cursor.
    fn count_spaces(&self) -> (n: usize)
        requires
            self.wf(),
        ensures
            self.pos + n <= self.chs@.len(),
            self.chs@.len() <= usize::MAX,
            forall|i: int| self.pos <= i < self.pos + n ==> self.chs@[i] == ' ',
            self.pos + n == self.chs@.len() || self.chs@[self.pos + n] != ' ',
    {
        proof { assert(self.chs@.len() == self.chs.len()); }
        let mut q = self.pos;
        while q < self.chs.len() && self.chs[q] == ' '
            invariant
                self.pos <= q <= self.chs@.len(),
                forall|i: int| self.pos <= i < q ==> self.chs@[i] == ' ',
            decreases self.chs@.len() - q,
        {
            q = q + 1;
        }
        q - self.pos
    }

    /// A list whose items are indented by at least `min_indent` spaces. Each item is one
    /// line of spans after `- ` (unordered) or `+ ` (ordered), followed by the list of
    /// items indented deeper than it. The marker of the last item decides `ordered`.
    #[verifier::rlimit(80)]
    #[verifier::spinoff_prover]
    pub fn parse_list(&mut self, min_indent: usize) -> (r: List)
        requires
            old(self).wf(),
        ensures
            final(self).inline_step(old(self)),
            min_indent == 0 && (starts_at(old(self).chs@, old(self).pos as int, seq!['-', ' '])
                || starts_at(old(self).chs@, old(self).pos as int, seq!['+', ' '])) ==> r.items@.len()
                > 0,
            r.items@.len() > 0 ==> final(self).pos > old(self).pos,
            ({
                let l = list_items(
                    old(self).chs@,
                    old(self).pos as int,
                    min_indent as int,
                    old(self).titles@,
                    urls_v(old(self).title_urls@),
                    false,
                    true,
                );
                &&& list_v(r) == (ListV { ordered: l.0, items: l.1 })
                &&& final(self).pos == l.2
                &&& urls_v(final(self).title_urls@) == l.3
            }),
        decreases old(self).rem(),
    {
        let ghost total = list_items(
            old(self).chs@,
            old(self).pos as int,
            min_indent as int,
            old(self).titles@,
            urls_v(old(self).title_urls@),
            false,
            true,
        );
        let mut ordered = false;
        let mut items: Vec<ListItem> = Vec::new();
        loop
            invariant_except_break
                items_v(items@) + list_items(self.chs@, self.pos as int, min_indent as int, self.titles@, urls_v(self.title_urls@), ordered, items@.len() == 0).1 == total.1,
                list_items(self.chs@, self.pos as int, min_indent as int, self.titles@, urls_v(self.title_urls@), ordered, items@.len() == 0).0 == total.0,
                list_items(self.chs@, self.pos as int, min_indent as int, self.titles@, urls_v(self.title_urls@), ordered, items@.len() == 0).2 == total.2,
                list_items(self.chs@, self.pos as int, min_indent as int, self.titles@, urls_v(self.title_urls@), ordered, items@.len() == 0).3 == total.3,
            invariant
                self.inline_step(old(self)),
                items@.len() > 0 ==> self.pos > old(self).pos,
                items@.len() == 0 ==> self.pos == old(self).pos,
            ensures
                self.inline_step(old(self)),
                items@.len() > 0 ==> self.pos > old(self).pos,
                min_indent == 0 && (starts_at(old(self).chs@, old(self).pos as int, seq!['-', ' '])
                    || starts_at(old(self).chs@, old(self).pos as int, seq!['+', ' '])) ==> items@.len() > 0,
                items_v(items@) == total.1,
                ordered == total.0,
                self.pos == total.2,
                urls_v(self.title_urls@) == total.3,
            decreases self.rem(),
        {
            if self.at_end() {
                assert(items_v(items@) + Seq::<ItemV>::empty() =~= items_v(items@));
                break;
            }
            let indent = self.count_spaces();
            let ghost q = self.pos as int;
            let ghost n0 = urls_v(self.title_urls@);
            let ghost first = items@.len() == 0;
            let ghost ord0 = ordered;
            proof {
                lemma_spaces_at(self.chs@, q, indent as int);
                reveal_strlit("- ");
                reveal_strlit("+ ");
                assert("- "@ =~= seq!['-', ' ']);
                assert("+ "@ =~= seq!['+', ' ']);
                if starts_at(self.chs@, self.pos as int, seq!['-', ' ']) {
                    assert(self.chs@.subrange(self.pos as int, self.pos + 2)[0] == self.chs@[self.pos as int]);
                }
                if starts_at(self.chs@, self.pos as int, seq!['+', ' ']) {
                    assert(self.chs@.subrange(self.pos as int, self.pos + 2)[0] == self.chs@[self.pos as int]);
                }
            }
            if min_indent <= indent {
                let save = self.pos;
                self.pos = self.pos + indent;
                let dash = self.starts_with_next("- ");
                let plus = !dash && self.starts_with_next("+ ");
                if dash || plus {
                    ordered = plus;
                    let spans = self.parse_inline();
                    let list = self.parse_list(indent + 1);
                    let item = ListItem { spans, list };
                    let ghost before = items@;
                    proof {
                        assert(item_v(item) == (ItemV { spans: spans_v(item.spans@), list: list_v(item.list) }));
                    }
                    items.push(item);
                    proof {
                        assert(items@.subrange(0, items@.len() - 1) =~= before);
                        assert(items_v(items@) == items_v(before).push(item_v(item)));
                        let rest = list_items(self.chs@, self.pos as int, min_indent as int, self.titles@, urls_v(self.title_urls@), ordered, false);
                        let whole = list_items(self.chs@, q, min_indent as int, self.titles@, n0, ord0, first);
                        assert(whole.1 == seq![item_v(item)] + rest.1);
                        assert(whole.0 == rest.0 && whole.2 == rest.2 && whole.3 == rest.3);
                        assert(items_v(items@) + rest.1 =~= items_v(before) + (seq![item_v(item)] + rest.1));
                    }
                    continue;
                }
                if items.len() == 0 {
                    self.pos = save;
                }
            }
            assert(items_v(items@) + Seq::<ItemV>::empty() =~= items_v(items@));
            break;
        }
        List { ordered, items }
    }

    /// Completes an embed. A URL ending in `.png` or `.jpg` gives an image captioned by
    /// `text`; any other gives a link card filled from the next embed answer, and the URL
    /// is recorded as asked for.
    pub fn finish_embed(&mut self, text: Vec<Prim>, url: Vec<char>) -> (r: Block)
        requires
            old(self).wf(),
        ensures
            final(self).wf(),
            final(self).kept(old(self)),
            final(self).doc_kept(old(self)),
            final(self).pos == old(self).pos,
            final(self).title_urls == old(self).title_urls,
            is_image_url(url@) ==> (r matches Block::Image { title, url: u } && title == text && u@
                == url@) && final(self).embed_urls == old(self).embed_urls,
            !is_image_url(url@) ==> card_matches(
                r,
                url@,
                embed_answer(old(self).embeds@, old(self).embed_urls@.len() as int),
            ) && final(self).embed_urls@.len() == old(self).embed_urls@.len() + 1
                && final(self).embed_urls@.last()@ == url@ && final(self).embed_urls@.drop_last()
                == old(self).embed_urls@,
    {
        proof {
            reveal_strlit(".png");
            reveal_strlit(".jpg");
            assert(".png"@ =~= seq!['.', 'p', 'n', 'g']);
            assert(".jpg"@ =~= seq!['.', 'j', 'p', 'g']);
        }
        let image = ends_with_chars(&url, ".png") || ends_with_chars(&url, ".jpg");
        let u = string_of(url);
        if image {
            return Block::Image { title: text, url: u };
        }
        let k = self.embed_urls.len();
        self.embed_urls.push(u.clone());
        if k < self.embeds.len() {
            let a = &self.embeds[k];
            Block::LinkCard {
                title: a.title.clone(),
                image: clone_opt(&a.image),
                url: u,
                description: clone_opt(&a.description),
                site_name: clone_opt(&a.site_name),
            }
        } else {
            Block::LinkCard { title: String::new(), image: None, url: u, description: None, site_name: None }
        }
    }

    /// An embed, after `@[`: primitives up to `](`, then the URL up to `)`.
    pub fn parse_embed(&mut self) -> (r: Block)
        requires
            old(self).wf(),
        ensures
            final(self).wf(),
            final(self).kept(old(self)),
            final(self).doc_kept(old(self)),
            r is Image || r is LinkCard,
            ({
                let t = link_text(
                    old(self).chs@,
                    old(self).pos as int,
                    old(self).titles@,
                    urls_v(old(self).title_urls@),
                );
                &&& embed_ends_at(
                    old(self).chs@,
                    t.1,
                    r,
                    final(self).pos as int,
                    old(self).embeds@,
                    old(self).embed_urls@,
                    final(self).embed_urls@,
                )
                &&& r is Image ==> prims_v(r->Image_title@) == t.0
                &&& urls_v(final(self).title_urls@) == t.2
                &&& old(self).pos <= t.1 <= old(self).chs@.len()
            }),
    {
        let ghost lt = link_text(
            old(self).chs@,
            old(self).pos as int,
            old(self).titles@,
            urls_v(old(self).title_urls@),
        );
        let mut text: Vec<Prim> = Vec::new();
        loop
            invariant_except_break
                prims_v(text@) + link_text(self.chs@, self.pos as int, self.titles@, urls_v(self.title_urls@)).0
                    == lt.0,
                link_text(self.chs@, self.pos as int, self.titles@, urls_v(self.title_urls@)).1 == lt.1,
                link_text(self.chs@, self.pos as int, self.titles@, urls_v(self.title_urls@)).2 == lt.2,
            invariant
                self.inline_step(old(self)),
            ensures
                self.inline_step(old(self)),
                prims_v(text@) == lt.0,
                self.pos == lt.1,
                urls_v(self.title_urls@) == lt.2,
            decreases self.rem(),
        {
            proof {
                reveal_strlit("](");
                assert("]("@ =~= seq![']', '(']);
            }
            let ghost q = self.pos as int;
            if self.starts_with_next("](") {
                assert(prims_v(text@) + Seq::<PrimV>::empty() =~= prims_v(text@));
                break;
            }
            if self.at_end() || self.at_newline() {
                assert(prims_v(text@) + Seq::<PrimV>::empty() =~= prims_v(text@));
                break;
            }
            let ghost n0 = urls_v(self.title_urls@);
            let p = self.parse_primary();
            let ghost before = text@;
            text.push(p);
            proof {
                assert(text@.subrange(0, text@.len() - 1) =~= before);
                assert(prims_v(text@) == prims_v(before).push(prim_v(p)));
                let rest = link_text(self.chs@, self.pos as int, self.titles@, urls_v(self.title_urls@));
                assert(link_text(self.chs@, q, self.titles@, n0).0 == seq![prim_v(p)] + rest.0);
                assert(prims_v(text@) + rest.0 =~= prims_v(before) + (seq![prim_v(p)] + rest.0));
            }
        }
        let terms: &[&str] = &[")"];
        proof {
            reveal_strlit(")");
            assert(terms@[0]@ =~= seq![')']);
            assert(views(terms@) =~= seq![seq![')']]);
        }
        let url = self.text_until_trim(terms);
        let r = self.finish_embed(text, url);
        r
    }

    /// A math block, after `$$`: the escaped source up to the closing `$$`.
    pub fn parse_math_block(&mut self) -> (r: Block)
        requires
            old(self).wf(),
        ensures
            final(self).inline_step(old(self)),
            final(self).title_urls == old(self).title_urls,
            r matches Block::MathBlock { math } && math@ == escape(
                old(self).chs@.subrange(
                    old(self).pos as int,
                    first_stop(old(self).chs@, old(self).pos as int, seq![seq!['$', '$']]),
                ),
            ),
            ({
                let stop = first_stop(old(self).chs@, old(self).pos as int, seq![seq!['$', '$']]);
                final(self).pos == stop + skipped(old(self).chs@, stop, seq![seq!['$', '$']])
            }),
    {
        let terms: &[&str] = &["$$"];
        proof {
            reveal_strlit("$$");
            assert(terms@[0]@ =~= seq!['$', '$']);
            assert(views(terms@) =~= seq![seq!['$', '$']]);
        }
        let math = escaped(&self.text_until_trim(terms));
        Block::MathBlock { math: string_of(math) }
    }

    /// A code block, after its opening fence: the rest of that line is the language, the
    /// escaped source runs up to the closing fence.
    pub fn parse_code_block(&mut self) -> (r: Block)
        requires
            old(self).wf(),
        ensures
            final(self).inline_step(old(self)),
            final(self).title_urls == old(self).title_urls,
            ({
                let s = old(self).chs@;
                let eol = seq![seq!['\n'], seq!['\r', '\n']];
                let fence = seq![seq!['`', '`', '`']];
                let l = first_stop(s, old(self).pos as int, eol);
                let a = l + skipped(s, l, eol);
                let c = first_stop(s, a, fence);
                &&& r matches Block::CodeBlock { lang, code } && lang@ == escape(
                    s.subrange(old(self).pos as int, l),
                ) && code@ == escape(s.subrange(a, c))
                &&& final(self).pos == c + skipped(s, c, fence)
            }),
    {
        let eol: &[&str] = &["\n", "\r\n"];
        let fence: &[&str] = &["```"];
        proof {
            reveal_strlit("\n");
            reveal_strlit("\r\n");
            assert(eol@[0]@ =~= seq!['\n']);
            assert(eol@[1]@ =~= seq!['\r', '\n']);
            assert(views(eol@) =~= seq![seq!['\n'], seq!['\r', '\n']]);
            reveal_strlit("```");
            assert(fence@[0]@ =~= seq!['`', '`', '`']);
            assert(views(fence@) =~= seq![seq!['`', '`', '`']]);
        }
        let lang = escaped(&self.text_until_trim(eol));
        let code = escaped(&self.text_until_trim(fence));
        Block::CodeBlock { lang: string_of(lang), code: string_of(code) }
    }

    /// One table line. Nothing is consumed and `None` comes out when the line does not
    /// start with `|`. Otherwise each cell runs up to the next `|` or the line ending,
    /// without its surrounding white space and escaped, and the line ending is consumed;
    /// a separator row (every cell made of `-` only) is dropped: `None` comes out.
    pub fn parse_table_row(&mut self) -> (r: Option<Vec<String>>)
        requires
            old(self).wf(),
        ensures
            final(self).inline_step(old(self)),
            final(self).title_urls == old(self).title_urls,
            !starts_at(old(self).chs@, old(self).pos as int, seq!['|']) ==> r is None && final(self).pos
                == old(self).pos,
            starts_at(old(self).chs@, old(self).pos as int, seq!['|']) ==> final(self).pos > old(self).pos
                && final(self).pos == row_end(old(self).chs@, old(self).pos + 1) && (if separator_cells(
                row_cells(old(self).chs@, old(self).pos + 1),
            ) {
                r is None
            } else {
                r is Some && cells_view(r->0@) == row_cells(old(self).chs@, old(self).pos + 1)
            }),
    {
        let terms: &[&str] = &["|", "\n", "\r\n"];
        proof {
            reveal_strlit("|");
            reveal_strlit("\n");
            reveal_strlit("\r\n");
            assert("|"@ =~= seq!['|']);
            assert(terms@[0]@ =~= seq!['|']);
            assert(terms@[1]@ =~= seq!['\n']);
            assert(terms@[2]@ =~= seq!['\r', '\n']);
            assert(views(terms@) =~= row_stops());
        }
        if !self.starts_with_next("|") {
            return None;
        }
        let start = self.pos;
        let mut row: Vec<String> = Vec::new();
        loop
            invariant_except_break
                cells_view(row@) + row_cells(self.chs@, self.pos as int) == row_cells(self.chs@, start as int),
                row_end(self.chs@, self.pos as int) == row_end(self.chs@, start as int),
            invariant
                self.inline_step(old(self)),
                self.title_urls == old(self).title_urls,
                self.pos > old(self).pos,
                start == old(self).pos + 1,
                start <= self.pos,
                views(terms@) == row_stops(),
            ensures
                self.inline_step(old(self)),
                self.title_urls == old(self).title_urls,
                self.pos > old(self).pos,
                cells_view(row@) == row_cells(self.chs@, start as int),
                self.pos == row_end(self.chs@, start as int),
            decreases self.rem(),
        {
            if self.at_end() {
                assert(cells_view(row@) + row_cells(self.chs@, self.pos as int) =~= cells_view(row@));
                break;
            }
            let ghost q = self.pos as int;
            if self.starts_with_newline_next() {
                assert(cells_view(row@) + Seq::<Seq<char>>::empty() =~= cells_view(row@));
                assert(row_cells(self.chs@, q) == Seq::<Seq<char>>::empty());
                break;
            }
            let p0 = self.pos;
            let stop = find_stop(&self.chs, p0, terms);
            proof {
                lemma_first_stop_bounds(self.chs@, p0 as int, views(terms@));
                if stop == p0 {
                    lemma_first_stop_bounds(self.chs@, p0 + 1, views(terms@));
                    assert(any_at(self.chs@, p0 as int, views(terms@)));
                    let k = choose|k: int| 0 <= k < views(terms@).len() && starts_at(self.chs@, p0 as int, #[trigger] views(terms@)[k]);
                    assert(k == 0);
                }
            }
            let cell = copy_range(&self.chs, p0, stop);
            self.pos = stop;
            proof {
                reveal_strlit("|");
                assert("|"@ =~= seq!['|']);
            }
            self.starts_with_next("|");
            let text = trim_escaped(&cell);
            let ghost before = row@;
            row.push(string_of(text));
            proof {
                assert(cells_view(row@) =~= cells_view(before).push(escape(trim(self.chs@.subrange(p0 as int, stop as int)))));
                assert(cells_view(row@) + row_cells(self.chs@, self.pos as int) =~= cells_view(before)
                    + row_cells(self.chs@, p0 as int));
            }
        }
        if Parser::is_separator(&row) {
            return None;
        }
        Some(row)
    }

    /// Whether a row is a separator: at least one cell, and every cell made of `-` only.
    pub fn is_separator(row: &Vec<String>) -> (r: bool)
        ensures
            r == separator_cells(cells_view(row@)),
    {
        if row.len() == 0 {
            return false;
        }
        let mut k: usize = 0;
        while k < row.len()
            invariant
                k <= row@.len(),
                forall|i: int| 0 <= i < k ==> all_dashes(#[trigger] cells_view(row@)[i]),
            decreases row@.len() - k,
        {
            let cs = chars_of(row[k].as_str());
            if !is_dashes(&cs) {
                assert(!all_dashes(cells_view(row@)[k as int]));
                return false;
            }
            k = k + 1;
        }
        true
    }

    /// Table rows from the cursor, up to a line that is no row or up to and past a
    /// separator row, which is dropped. Also says whether a separator ended them.
    fn parse_table_rows(&mut self) -> (r: (Vec<Vec<String>>, bool))
        requires
            old(self).wf(),
        ensures
            final(self).inline_step(old(self)),
            final(self).title_urls == old(self).title_urls,
            rows_view(r.0@) == table_part(old(self).chs@, old(self).pos as int).0,
            r.1 == table_part(old(self).chs@, old(self).pos as int).1,
            final(self).pos == table_part(old(self).chs@, old(self).pos as int).2,
    {
        let mut rows: Vec<Vec<String>> = Vec::new();
        loop
            invariant
                self.inline_step(old(self)),
                self.title_urls == old(self).title_urls,
                rows_view(rows@) + table_part(self.chs@, self.pos as int).0 == table_part(
                    old(self).chs@,
                    old(self).pos as int,
                ).0,
                table_part(self.chs@, self.pos as int).1 == table_part(old(self).chs@, old(self).pos as int).1,
                table_part(self.chs@, self.pos as int).2 == table_part(old(self).chs@, old(self).pos as int).2,
            decreases self.rem(),
        {
            let ghost p0 = self.pos as int;
            let start = self.pos;
            match self.parse_table_row() {
                None => {
                    if self.pos == start {
                        assert(rows_view(rows@) + table_part(self.chs@, self.pos as int).0 =~= rows_view(rows@));
                        return (rows, false);
                    }
                    assert(rows_view(rows@) + table_part(self.chs@, p0).0 =~= rows_view(rows@));
                    return (rows, true);
                },
                Some(row) => {
                    let ghost before = rows@;
                    rows.push(row);
                    proof {
                        assert(rows_view(rows@) =~= rows_view(before).push(cells_view(row@)));
                        assert(rows_view(rows@) + table_part(self.chs@, self.pos as int).0 =~= rows_view(before)
                            + table_part(self.chs@, p0).0);
                    }
                },
            }
        }
    }

    /// A table: header rows up to the first separator row, then body rows. Separator rows
    /// are dropped; a table whose header rows end without a separator has no body.
    pub fn parse_table(&mut self) -> (r: Block)
        requires
            old(self).wf(),
        ensures
            final(self).inline_step(old(self)),
            final(self).title_urls == old(self).title_urls,
            table_parsed(old(self).chs@, old(self).pos as int, r, final(self).pos as int),
            starts_at(old(self).chs@, old(self).pos as int, seq!['|']) ==> final(self).pos > old(self).pos,
    {
        proof { lemma_table_part_moves(self.chs@, self.pos as int); }
        let (head, separated) = self.parse_table_rows();
        let mut body: Vec<Vec<String>> = Vec::new();
        if separated {
            proof { lemma_table_part_moves(self.chs@, self.pos as int); }
            let (rows, _) = self.parse_table_rows();
            body = rows;
        }
        Block::Table { head, body }
    }

    /// A paragraph: one line of spans.
    pub fn parse_paragraph(&mut self) -> (r: Block)
        requires
            old(self).wf(),
        ensures
            final(self).inline_step(old(self)),
            old(self).pos < old(self).chs@.len() ==> final(self).pos > old(self).pos,
            r matches Block::Paragraph { spans } && (spans@.len() == 0 <==> (old(self).pos
                == old(self).chs@.len() || newline_at(old(self).chs@, old(self).pos as int))),
            (spans_v(r->Paragraph_spans@), final(self).pos as int, urls_v(final(self).title_urls@))
                == spans_line(old(self).chs@, old(self).pos as int, old(self).titles@, urls_v(old(self).title_urls@)),
    {
        Block::Paragraph { spans: self.parse_inline() }
    }

    /// One block, chosen by the first marker that matches at the cursor: a heading
    /// (`#` to `######` and a space), `> `, `+ ` or `- `, `@[`, `$$`, a code fence, `|`,
    /// or else a paragraph.
    pub fn parse_block(&mut self) -> (r: Block)
        requires
            old(self).wf(),
            old(self).pos < old(self).chs@.len(),
        ensures
            final(self).block_step(old(self)),
            final(self).toc.ordered == old(self).toc.ordered,
            final(self).pos > old(self).pos,
            block_kind_ok(old(self).chs@, old(self).pos as int, r),
            block_recorded(*old(self), *final(self), r),
            block_content_ok(*old(self), *final(self), r),
            r is Table ==> table_parsed(old(self).chs@, old(self).pos as int, r, final(self).pos as int),
            is_empty_paragraph(r) ==> newline_at(old(self).chs@, old(self).pos as int),
    {
        proof {
            reveal_strlit("> ");
            reveal_strlit("- ");
            reveal_strlit("+ ");
            reveal_strlit("|");
            assert("> "@ =~= seq!['>', ' ']);
            assert("- "@ =~= seq!['-', ' ']);
            assert("+ "@ =~= seq!['+', ' ']);
            assert("|"@ =~= seq!['|']);
            reveal_strlit("# ");
            reveal_strlit("## ");
            reveal_strlit("### ");
            reveal_strlit("#### ");
            reveal_strlit("##### ");
            reveal_strlit("###### ");
            reveal_strlit("@[");
            reveal_strlit("$$");
            reveal_strlit("```");
            assert("# "@.len() == 2);
            assert("## "@.len() == 3);
            assert("### "@.len() == 4);
            assert("#### "@.len() == 5);
            assert("##### "@.len() == 6);
            assert("###### "@.len() == 7);
            assert("@["@.len() == 2);
            assert("$$"@.len() == 2);
            assert("```"@.len() == 3);
            assert("# "@ =~= seq!['#', ' ']);
            assert("## "@ =~= seq!['#', '#', ' ']);
            assert("### "@ =~= seq!['#', '#', '#', ' ']);
            assert("#### "@ =~= seq!['#', '#', '#', '#', ' ']);
            assert("##### "@ =~= seq!['#', '#', '#', '#', '#', ' ']);
            assert("###### "@ =~= seq!['#', '#', '#', '#', '#', '#', ' ']);
            assert("@["@ =~= seq!['@', '[']);
            assert("$$"@ =~= seq!['$', '$']);
            assert("```"@ =~= seq!['`', '`', '`']);
        }
        if starts_with_at(&self.chs, self.pos, "# ") {
            assert(heading_marker(1) =~= "# "@);
            return self.parse_header(1);
        }
        if starts_with_at(&self.chs, self.pos, "## ") {
            assert(heading_marker(2) =~= "## "@);
            return self.parse_header(2);
        }
        if starts_with_at(&self.chs, self.pos, "### ") {
            assert(heading_marker(3) =~= "### "@);
            return self.parse_header(3);
        }
        if starts_with_at(&self.chs, self.pos, "#### ") {
            assert(heading_marker(4) =~= "#### "@);
            return self.parse_header(4);
        }
        if starts_with_at(&self.chs, self.pos, "##### ") {
            assert(heading_marker(5) =~= "##### "@);
            return self.parse_header(5);
        }
        if starts_with_at(&self.chs, self.pos, "###### ") {
            assert(heading_marker(6) =~= "###### "@);
            return self.parse_header(6);
        }
        if starts_with_at(&self.chs, self.pos, "> ") {
            return self.parse_blockquote();
        }
        if starts_with_at(&self.chs, self.pos, "+ ") || starts_with_at(&self.chs, self.pos, "- ") {
            return Block::ListElement(self.parse_list(0));
        }
        if self.starts_with_next("@[") {
            return self.parse_embed();
        }
        if self.starts_with_next("$$") {
            return self.parse_math_block();
        }
        if self.starts_with_next("```") {
            return self.parse_code_block();
        }
        if starts_with_at(&self.chs, self.pos, "|") {
            return self.parse_table();
        }
        self.parse_paragraph()
    }

    /// Parses blocks up to the end of the input, keeping every block but empty paragraphs.
    /// The steps taken are recorded by `blocks_parsed`.
    pub fn parse_markdown(&mut self)
        requires
            old(self).wf(),
        ensures
            final(self).wf(),
            final(self).kept(old(self)),
            final(self).pos == final(self).chs@.len(),
            final(self).toc.ordered == old(self).toc.ordered,
            final(self).content@.len() >= old(self).content@.len(),
            final(self).content@.subrange(0, old(self).content@.len() as int) == old(self).content@,
            forall|i: int|
                old(self).content@.len() <= i < final(self).content@.len()
                    ==> !is_empty_paragraph(#[trigger] final(self).content@[i]),
            exists|ps: Seq<Parser>, bs: Seq<Block>| blocks_parsed(*old(self), *final(self), ps, bs),
    {
        let ghost ps: Seq<Parser> = seq![*self];
        let ghost bs: Seq<Block> = Seq::empty();
        while !self.at_end()
            invariant
                self.wf(),
                self.kept(old(self)),
                self.toc.ordered == old(self).toc.ordered,
                self.content@.len() >= old(self).content@.len(),
                self.content@.subrange(0, old(self).content@.len() as int) == old(self).content@,
                forall|i: int|
                    old(self).content@.len() <= i < self.content@.len()
                        ==> !is_empty_paragraph(#[trigger] self.content@[i]),
                blocks_parsed(*old(self), *self, ps, bs),
            decreases self.rem(),
        {
            let ghost before = *self;
            let block = self.parse_block();
            let ghost gb = block;
            let ghost mid = *self;
            let empty = match &block {
                Block::Paragraph { spans } => spans.len() == 0,
                _ => false,
            };
            if !empty {
                let ghost c = self.content@;
                self.content.push(block);
                assert(self.content@.subrange(0, old(self).content@.len() as int)
                    =~= c.subrange(0, old(self).content@.len() as int));
            }
            proof {
                assert(self.content@ =~= before.content@ + kept_block(gb));
                assert(mid == Parser { content: before.content, ..*self });
                let ps2 = ps.push(*self);
                let bs2 = bs.push(gb);
                assert forall|k: int| 0 <= k < bs2.len() implies #[trigger] block_step_ok(ps2[k], ps2[k + 1], bs2[k]) by {
                    if k < bs.len() {
                        assert(ps2[k] == ps[k]);
                        assert(ps2[k + 1] == ps[k + 1]);
                    } else {
                        assert(ps2[k] == before);
                    }
                }
                ps = ps2;
                bs = bs2;
            }
        }
    }
}

/// `p` is a parser over `doc` that has not started: cursor at the start, empty
/// registry, title, contents table (ordered) and blocks, no lookups recorded.
pub open spec fn fresh(p: Parser, doc: Seq<char>, titles: Seq<String>, embeds: Seq<EmbedInfo>) -> bool {
    &&& p.wf()
    &&& p.chs@ == doc
    &&& p.pos == 0
    &&& p.headers@.len() == 0
    &&& p.title@.len() == 0
    &&& p.toc.ordered
    &&& p.toc.items@.len() == 0
    &&& p.content@.len() == 0
    &&& p.titles@ == titles
    &&& p.embeds@ == embeds
    &&& p.title_urls@.len() == 0
    &&& p.embed_urls@.len() == 0
}

/// A whole parse of `doc` with the given answers: from a fresh parser `o` to `n`, with
/// the whole input consumed, block by block as `blocks_parsed` records.
pub open spec fn document_parsed(doc: Seq<char>, titles: Seq<String>, embeds: Seq<EmbedInfo>, o: Parser, n: Parser) -> bool {
    &&& fresh(o, doc, titles, embeds)
    &&& n.wf()
    &&& n.pos == n.chs@.len()
    &&& exists|ps: Seq<Parser>, bs: Seq<Block>| blocks_parsed(o, n, ps, bs)
}

/// Parses `doc` into its title, its table of contents and its blocks, with `titles` as
/// the answers for links with empty text and `embeds` as the answers for embeds, each
/// taken in the order in which the parser meets them. The result is the final state of
/// a whole parse of `doc`.
pub fn parse_markdown_with(doc: &str, titles: Vec<String>, embeds: Vec<EmbedInfo>) -> (r: (
    String,
    List,
    Vec<Block>,
))
    ensures
        r.1.ordered,
        forall|i: int| 0 <= i < r.2@.len() ==> !is_empty_paragraph(#[trigger] r.2@[i]),
        exists|o: Parser, n: Parser|
            document_parsed(doc@, titles@, embeds@, o, n) && r.0 == n.title && r.1 == n.toc && r.2 == n.content,
{
    let ghost t = titles@;
    let ghost e = embeds@;
    let mut parser = Parser::with_answers(doc, titles, embeds);
    let ghost o = parser;
    parser.parse_markdown();
    assert(document_parsed(doc@, t, e, o, parser));
    (parser.title, parser.toc, parser.content)
}

/// Parses `doc` with no link metadata: links with empty text and link cards get empty
/// titles.
pub fn parse_markdown(doc: &str) -> (r: (String, List, Vec<Block>))
    ensures
        r.1.ordered,
        forall|i: int| 0 <= i < r.2@.len() ==> !is_empty_paragraph(#[trigger] r.2@[i]),
        exists|o: Parser, n: Parser|
            document_parsed(doc@, Seq::empty(), Seq::empty(), o, n) && r.0 == n.title && r.1 == n.toc
                && r.2 == n.content,
{
    let titles: Vec<String> = Vec::new();
    let embeds: Vec<EmbedInfo> = Vec::new();
    assert(titles@ =~= Seq::<String>::empty());
    assert(embeds@ =~= Seq::<EmbedInfo>::empty());
    parse_markdown_with(doc, titles, embeds)
}

/// The URLs whose metadata parsing `doc` asks for: first those of links with empty text,
/// then those of embeds that are no images, each in the order met. They are the lookup
/// records of a whole parse of `doc` without answers, which every block step fixes
/// exactly (`block_content_ok`).
pub fn links_to_resolve(doc: &str) -> (r: (Vec<String>, Vec<String>))
    ensures
        exists|o: Parser, n: Parser|
            document_parsed(doc@, Seq::empty(), Seq::empty(), o, n) && r.0 == n.title_urls && r.1
                == n.embed_urls,
{
    let mut parser = Parser::new(doc);
    let ghost o = parser;
    parser.parse_markdown();
    assert(parser.titles@ =~= Seq::<String>::empty());
    assert(parser.embeds@ =~= Seq::<EmbedInfo>::empty());
    assert(document_parsed(doc@, Seq::empty(), Seq::empty(), o, parser));
    (parser.title_urls, parser.embed_urls)
}

/// Two headings of level two or more with the same text, recorded one after the other,
/// get different identifiers, and the second is the text followed by `-n`, where `n`
/// counts the uses of that text before it.
pub proof fn lemma_repeated_heading_ids(
    before: Parser,
    between: Parser,
    after: Parser,
    prims1: Seq<Prim>,
    prims2: Seq<Prim>,
    level1: u32,
    level2: u32,
    id1: Seq<char>,
    id2: Seq<char>,
)
    requires
        2 <= level1 <= 6,
        2 <= level2 <= 6,
        heading_base(prims1) == heading_base(prims2),
        heading_recorded(before, between, prims1, level1, id1),
        heading_recorded(between, after, prims2, level2, id2),
    ensures
        id2 == heading_base(prims2) + seq!['-'] + crate::text::decimal(
            used_count(before.headers@, heading_base(prims1)) + 1,
        ),
        id1 != id2,
{
    let base = heading_base(prims1);
    lemma_heading_ids_distinct(base, used_count(before.headers@, base), used_count(between.headers@, base));
}

/// The contents entry of a heading of level `level >= 2` stands `level - 2` levels below
/// the root of the contents table: it is the last item reached through `level - 2`
/// levels of last items.
pub proof fn lemma_heading_toc_depth(o: Parser, n: Parser, prims: Seq<Prim>, level: u32, id: Seq<char>)
    requires
        2 <= level <= 6,
        heading_recorded(o, n, prims, level, id),
    ensures
        exists|e: ListItem| last_at_depth(n.toc, (level - 2) as nat) == Some(e) && is_toc_entry(e, id, prims),
{
    let e = choose|e: ListItem| inserted(o.toc.ordered, o.toc.items@, n.toc, (level - 2) as nat, e) && is_toc_entry(e, id, prims);
    lemma_inserted_depth(o.toc.ordered, o.toc.items@, n.toc, (level - 2) as nat, e);
}


/// In a document parsed block by block, each heading of level two or more gets as
/// identifier its text suffixed by the number of earlier uses of that text (none the
/// first time), counts one more use, and its contents entry stands `level - 2` levels
/// below the root of the contents table right after it.
pub proof fn lemma_document_heading(o: Parser, n: Parser, ps: Seq<Parser>, bs: Seq<Block>, k: int)
    requires
        blocks_parsed(o, n, ps, bs),
        0 <= k < bs.len(),
        bs[k] is Header,
        bs[k]->Header_level >= 2,
    ensures
        ({
            let prims = bs[k]->Header_prims@;
            let level = bs[k]->Header_level;
            let id = bs[k]->Header_id@;
            let base = heading_base(prims);
            &&& id == heading_id(base, used_count(ps[k].headers@, base))
            &&& used_count(ps[k + 1].headers@, base) == used_count(ps[k].headers@, base) + 1
            &&& exists|e: ListItem| last_at_depth(ps[k + 1].toc, (level - 2) as nat) == Some(e) && is_toc_entry(e, id, prims)
        }),
{
    assert(block_step_ok(ps[k], ps[k + 1], bs[k]));
    let m = Parser { content: ps[k].content, ..ps[k + 1] };
    let prims = bs[k]->Header_prims@;
    let level = bs[k]->Header_level;
    let id = bs[k]->Header_id@;
    assert(block_kind_ok(ps[k].chs@, ps[k].pos as int, bs[k]));
    assert(level <= 6);
    assert(heading_recorded(ps[k], m, prims, level, id));
    lemma_heading_toc_depth(ps[k], m, prims, level, id);
}


/// How many of the first `k` blocks are headings of level two or more whose text is `b`.
pub open spec fn uses_before(bs: Seq<Block>, k: int, b: Seq<char>) -> nat
    decreases k,
{
    if k <= 0 {
        0
    } else {
        uses_before(bs, k - 1, b) + (if bs[k - 1] is Header && bs[k - 1]->Header_level >= 2
            && heading_base(bs[k - 1]->Header_prims@) == b {
            1nat
        } else {
            0nat
        })
    }
}

proof fn lemma_uses_counted(o: Parser, n: Parser, ps: Seq<Parser>, bs: Seq<Block>, k: int, b: Seq<char>)
    requires
        blocks_parsed(o, n, ps, bs),
        o.headers@.len() == 0,
        0 <= k <= bs.len(),
    ensures
        used_count(ps[k].headers@, b) == uses_before(bs, k, b),
    decreases k,
{
    if k > 0 {
        lemma_uses_counted(o, n, ps, bs, k - 1, b);
        let j = k - 1;
        assert(block_step_ok(ps[j], ps[j + 1], bs[j]));
        assert(j + 1 == k);
        let m = Parser { content: ps[k - 1].content, ..ps[k] };
        assert(block_recorded(ps[k - 1], m, bs[k - 1]));
        assert(m.headers == ps[k].headers);
    }
}

/// In a whole document, the `k`-th block, when it is a heading of level two or more,
/// gets as identifier its text followed by `-n`, where `n` counts the earlier headings
/// of level two or more with the same text; the first of them gets the text alone.
pub proof fn lemma_document_heading_numbering(
    doc: Seq<char>,
    titles: Seq<String>,
    embeds: Seq<EmbedInfo>,
    o: Parser,
    n: Parser,
    ps: Seq<Parser>,
    bs: Seq<Block>,
    k: int,
)
    requires
        fresh(o, doc, titles, embeds),
        blocks_parsed(o, n, ps, bs),
        0 <= k < bs.len(),
        bs[k] is Header,
        bs[k]->Header_level >= 2,
    ensures
        bs[k]->Header_id@ == heading_id(
            heading_base(bs[k]->Header_prims@),
            uses_before(bs, k, heading_base(bs[k]->Header_prims@)),
        ),
{
    lemma_document_heading(o, n, ps, bs, k);
    lemma_uses_counted(o, n, ps, bs, k, heading_base(bs[k]->Header_prims@));
}

proof fn lemma_uses_grow(bs: Seq<Block>, j: int, k: int, b: Seq<char>)
    requires
        0 <= j <= k,
    ensures
        uses_before(bs, j, b) <= uses_before(bs, k, b),
    decreases k - j,
{
    if j < k {
        lemma_uses_grow(bs, j, k - 1, b);
    }
}

/// In a whole document, two headings of level two or more with the same text get
/// different identifiers.
pub proof fn lemma_document_repeats_distinct(
    doc: Seq<char>,
    titles: Seq<String>,
    embeds: Seq<EmbedInfo>,
    o: Parser,
    n: Parser,
    ps: Seq<Parser>,
    bs: Seq<Block>,
    j: int,
    k: int,
)
    requires
        fresh(o, doc, titles, embeds),
        blocks_parsed(o, n, ps, bs),
        0 <= j < k < bs.len(),
        bs[j] is Header,
        bs[j]->Header_level >= 2,
        bs[k] is Header,
        bs[k]->Header_level >= 2,
        heading_base(bs[j]->Header_prims@) == heading_base(bs[k]->Header_prims@),
    ensures
        bs[j]->Header_id@ != bs[k]->Header_id@,
{
    let b = heading_base(bs[j]->Header_prims@);
    lemma_document_heading_numbering(doc, titles, embeds, o, n, ps, bs, j);
    lemma_document_heading_numbering(doc, titles, embeds, o, n, ps, bs, k);
    lemma_uses_grow(bs, j + 1, k, b);
    assert(uses_before(bs, j + 1, b) == uses_before(bs, j, b) + 1);
    lemma_heading_ids_distinct(b, uses_before(bs, j, b), uses_before(bs, k, b));
}

/// Whether `b` is a heading of level two or more whose text is `base`.
pub open spec fn is_heading_of(b: Block, base: Seq<char>) -> bool {
    b is Header && b->Header_level >= 2 && heading_base(b->Header_prims@) == base
}

/// How many blocks of `cs` are headings of level two or more whose text is `base`.
pub open spec fn heading_uses(cs: Seq<Block>, base: Seq<char>) -> nat
    decreases cs.len(),
{
    if cs.len() == 0 {
        0
    } else {
        heading_uses(cs.drop_last(), base) + (if is_heading_of(cs.last(), base) { 1nat } else { 0nat })
    }
}

/// Every heading of level two or more among `cs` has as identifier its text followed by
/// `-n`, where `n` counts the headings before it in `cs` with the same text (the text
/// alone when there is none).
pub open spec fn heading_ids_numbered(cs: Seq<Block>) -> bool {
    forall|i: int|
        0 <= i < cs.len() && #[trigger] cs[i] is Header && cs[i]->Header_level >= 2 ==> cs[i]->Header_id@
            == heading_id(
            heading_base(cs[i]->Header_prims@),
            heading_uses(cs.subrange(0, i), heading_base(cs[i]->Header_prims@)),
        )
}

proof fn lemma_content_numbered(o: Parser, n: Parser, ps: Seq<Parser>, bs: Seq<Block>, k: int)
    requires
        blocks_parsed(o, n, ps, bs),
        o.headers@.len() == 0,
        o.content@.len() == 0,
        0 <= k <= bs.len(),
    ensures
        heading_ids_numbered(ps[k].content@),
        forall|b: Seq<char>| #[trigger] used_count(ps[k].headers@, b) == heading_uses(ps[k].content@, b),
    decreases k,
{
    if k == 0 {
        assert forall|b: Seq<char>| #[trigger] used_count(ps[0].headers@, b) == heading_uses(ps[0].content@, b) by {
            assert(ps[0].content@.len() == 0);
        }
    } else {
        let j = k - 1;
        lemma_content_numbered(o, n, ps, bs, j);
        assert(block_step_ok(ps[j], ps[j + 1], bs[j]));
        assert(j + 1 == k);
        let before = ps[j].content@;
        let after = ps[k].content@;
        let blk = bs[j];
        let m = Parser { content: ps[j].content, ..ps[k] };
        assert(block_recorded(ps[j], m, blk));
        assert(m.headers == ps[k].headers);
        if is_empty_paragraph(blk) {
            assert(after =~= before);
        } else {
            assert(after =~= before.push(blk));
            assert(after.drop_last() =~= before);
            assert forall|b: Seq<char>| #[trigger] used_count(ps[k].headers@, b) == heading_uses(after, b) by {
                if blk is Header {
                    assert(heading_recorded(ps[j], m, blk->Header_prims@, blk->Header_level, blk->Header_id@));
                }
            }
            assert forall|i: int|
                0 <= i < after.len() && #[trigger] after[i] is Header && after[i]->Header_level >= 2 implies after[i]->Header_id@
                    == heading_id(
                    heading_base(after[i]->Header_prims@),
                    heading_uses(after.subrange(0, i), heading_base(after[i]->Header_prims@)),
                ) by {
                if i < before.len() {
                    assert(after.subrange(0, i) =~= before.subrange(0, i));
                    assert(after[i] == before[i]);
                } else {
                    assert(after.subrange(0, i) =~= before);
                    assert(heading_recorded(ps[j], m, blk->Header_prims@, blk->Header_level, blk->Header_id@));
                }
            }
        }
    }
}

/// In the blocks of a whole parse of a document, each heading of level two or more has
/// as identifier its text followed by `-n`, where `n` counts the headings of level two
/// or more with the same text before it; the first of them has the text alone.
pub proof fn lemma_parsed_heading_ids(
    doc: Seq<char>,
    titles: Seq<String>,
    embeds: Seq<EmbedInfo>,
    o: Parser,
    n: Parser,
)
    requires
        document_parsed(doc, titles, embeds, o, n),
    ensures
        heading_ids_numbered(n.content@),
{
    let (ps, bs) = choose|ps: Seq<Parser>, bs: Seq<Block>| blocks_parsed(o, n, ps, bs);
    lemma_content_numbered(o, n, ps, bs, bs.len() as int);
}

/// `e` is a contents entry linking to the heading with identifier `id`.
pub open spec fn links_to(e: ListItem, id: Seq<char>) -> bool {
    e.spans@.len() == 1 && (e.spans@[0] matches Span::PrimElem(Prim::Link { url, .. }) && url@ == seq!['#']
        + id)
}

/// The contents table holds, `depth` levels below its root, an entry linking to `id`.
pub open spec fn toc_has(toc: List, depth: nat, id: Seq<char>) -> bool {
    exists|path: Seq<int>|
        path.len() == depth + 1 && #[trigger] item_in(toc.items@, path) is Some && links_to(
            item_in(toc.items@, path)->0,
            id,
        )
}

/// Every heading of level `L >= 2` among `cs` has its entry `L - 2` levels below the root
/// of `toc`.
pub open spec fn headings_in_toc(cs: Seq<Block>, toc: List) -> bool {
    forall|i: int|
        0 <= i < cs.len() && #[trigger] cs[i] is Header && cs[i]->Header_level >= 2 ==> toc_has(
            toc,
            (cs[i]->Header_level - 2) as nat,
            cs[i]->Header_id@,
        )
}

proof fn lemma_toc_kept(o: Parser, m: Parser, prims: Seq<Prim>, level: u32, id: Seq<char>, depth: nat, other: Seq<char>)
    requires
        2 <= level <= 6,
        heading_recorded(o, m, prims, level, id),
        toc_has(o.toc, depth, other),
    ensures
        toc_has(m.toc, depth, other),
{
    let e = choose|e: ListItem| inserted(o.toc.ordered, o.toc.items@, m.toc, (level - 2) as nat, e) && is_toc_entry(e, id, prims);
    let path = choose|path: Seq<int>|
        path.len() == depth + 1 && #[trigger] item_in(o.toc.items@, path) is Some && links_to(item_in(o.toc.items@, path)->0, other);
    lemma_inserted_keeps(o.toc.ordered, o.toc.items@, m.toc, (level - 2) as nat, e, path);
    assert(item_in(m.toc.items@, path) is Some);
}

proof fn lemma_toc_added(o: Parser, m: Parser, prims: Seq<Prim>, level: u32, id: Seq<char>)
    requires
        2 <= level <= 6,
        heading_recorded(o, m, prims, level, id),
    ensures
        toc_has(m.toc, (level - 2) as nat, id),
{
    let e = choose|e: ListItem| inserted(o.toc.ordered, o.toc.items@, m.toc, (level - 2) as nat, e) && is_toc_entry(e, id, prims);
    lemma_inserted_path(o.toc.ordered, o.toc.items@, m.toc, (level - 2) as nat, e);
    let path = choose|path: Seq<int>| path.len() == (level - 2) as nat + 1 && #[trigger] item_in(m.toc.items@, path) == Some(e);
    assert(item_in(m.toc.items@, path) is Some);
}

proof fn lemma_content_in_toc(o: Parser, n: Parser, ps: Seq<Parser>, bs: Seq<Block>, k: int)
    requires
        blocks_parsed(o, n, ps, bs),
        o.content@.len() == 0,
        0 <= k <= bs.len(),
    ensures
        headings_in_toc(ps[k].content@, ps[k].toc),
    decreases k,
{
    if k > 0 {
        let j = k - 1;
        lemma_content_in_toc(o, n, ps, bs, j);
        assert(block_step_ok(ps[j], ps[j + 1], bs[j]));
        assert(j + 1 == k);
        let before = ps[j].content@;
        let after = ps[k].content@;
        let blk = bs[j];
        let m = Parser { content: ps[j].content, ..ps[k] };
        assert(block_recorded(ps[j], m, blk));
        assert(m.toc == ps[k].toc);
        let grows = blk is Header && blk->Header_level >= 2;
        if grows {
            assert(block_kind_ok(ps[j].chs@, ps[j].pos as int, blk));
            assert(heading_recorded(ps[j], m, blk->Header_prims@, blk->Header_level, blk->Header_id@));
        } else if blk is Header {
            assert(heading_recorded(ps[j], m, blk->Header_prims@, blk->Header_level, blk->Header_id@));
            assert(m.toc == ps[j].toc);
        } else {
            assert(m.toc == ps[j].toc);
        }
        assert forall|i: int|
            0 <= i < after.len() && #[trigger] after[i] is Header && after[i]->Header_level >= 2 implies toc_has(
                ps[k].toc,
                (after[i]->Header_level - 2) as nat,
                after[i]->Header_id@,
            ) by {
            if i < before.len() {
                assert(after[i] == before[i]);
                if grows {
                    lemma_toc_kept(
                        ps[j],
                        m,
                        blk->Header_prims@,
                        blk->Header_level,
                        blk->Header_id@,
                        (before[i]->Header_level - 2) as nat,
                        before[i]->Header_id@,
                    );
                }
            } else {
                assert(after[i] == blk);
                lemma_toc_added(ps[j], m, blk->Header_prims@, blk->Header_level, blk->Header_id@);
            }
        }
    }
}

/// In the result of a whole parse of a document, every heading of level `L >= 2` among
/// the blocks has its contents entry, a link to `#id`, exactly `L - 2` levels below the
/// root of the contents table.
pub proof fn lemma_parsed_toc_depth(doc: Seq<char>, titles: Seq<String>, embeds: Seq<EmbedInfo>, o: Parser, n: Parser)
    requires
        document_parsed(doc, titles, embeds, o, n),
    ensures
        headings_in_toc(n.content@, n.toc),
{
    let (ps, bs) = choose|ps: Seq<Parser>, bs: Seq<Block>| blocks_parsed(o, n, ps, bs);
    lemma_content_in_toc(o, n, ps, bs, bs.len() as int);
}

proof fn lemma_heading_uses_grow(cs: Seq<Block>, i: int, j: int, b: Seq<char>)
    requires
        0 <= i <= j <= cs.len(),
    ensures
        heading_uses(cs.subrange(0, i), b) <= heading_uses(cs.subrange(0, j), b),
    decreases j - i,
{
    if i < j {
        lemma_heading_uses_grow(cs, i, j - 1, b);
        assert(cs.subrange(0, j).drop_last() =~= cs.subrange(0, j - 1));
    }
}

/// In the result of a whole parse of a document, two headings of level two or more with
/// the same text have different identifiers.
pub proof fn lemma_parsed_repeats_distinct(
    doc: Seq<char>,
    titles: Seq<String>,
    embeds: Seq<EmbedInfo>,
    o: Parser,
    n: Parser,
    i: int,
    j: int,
)
    requires
        document_parsed(doc, titles, embeds, o, n),
        0 <= i < j < n.content@.len(),
        is_heading_of(n.content@[i], heading_base(n.content@[j]->Header_prims@)),
        is_heading_of(n.content@[j], heading_base(n.content@[j]->Header_prims@)),
    ensures
        n.content@[i]->Header_id@ != n.content@[j]->Header_id@,
{
    let cs = n.content@;
    let b = heading_base(cs[j]->Header_prims@);
    lemma_parsed_heading_ids(doc, titles, embeds, o, n);
    assert(cs[i] is Header);
    assert(cs[j] is Header);
    lemma_heading_uses_grow(cs, i + 1, j, b);
    assert(cs.subrange(0, i + 1).drop_last() =~= cs.subrange(0, i));
    lemma_heading_ids_distinct(b, heading_uses(cs.subrange(0, i), b), heading_uses(cs.subrange(0, j), b));
}

} // verus!
