use vstd::prelude::*;

verus! {

/// Smallest inline unit: a link, inline math, inline code or a run of text.
pub enum Prim {
    Link { text: Vec<Prim>, url: String },
    Math { math: String },
    Code { code: String },
    Text { text: String },
}

/// Inline content that may carry emphasis around nested spans.
pub enum Span {
    Bold { text: Vec<Span> },
    Ital { text: Vec<Span> },
    PrimElem(Prim),
}

/// A list node: the marker kind and its items in order.
pub struct List {
    pub ordered: bool,
    pub items: Vec<ListItem>,
}

/// One list item: its own line and the list nested below it (empty when none).
pub struct ListItem {
    pub spans: Vec<Span>,
    pub list: List,
}

/// A top-level structural unit of a document.
pub enum Block {
    Header { prims: Vec<Prim>, level: u32, id: String },
    Blockquote { lines: Vec<Vec<Span>> },
    ListElement(List),
    Image { title: Vec<Prim>, url: String },
    LinkCard {
        title: String,
        image: Option<String>,
        url: String,
        description: Option<String>,
        site_name: Option<String>,
    },
    MathBlock { math: String },
    CodeBlock { lang: String, code: String },
    Table { head: Vec<Vec<String>>, body: Vec<Vec<String>> },
    Paragraph { spans: Vec<Span> },
}

/// One piece of a page template: a slot filled from the document, or literal text.
pub enum Elem {
    Title,
    Year,
    Month,
    Day,
    Hour,
    Minute,
    Second,
    Toc(usize),
    Content(usize),
    Str(String),
}

/// What the link-metadata resolver reports for an embedded URL.
pub struct EmbedInfo {
    pub title: String,
    pub image: Option<String>,
    pub description: Option<String>,
    pub site_name: Option<String>,
}

impl List {
    /// A list with no items.
    pub fn empty(ordered: bool) -> (r: List)
        ensures
            r.ordered == ordered,
            r.items@.len() == 0,
    {
        List { ordered, items: Vec::new() }
    }
}

} // verus!
