//! The owned events and tags that the parser emits, and the mapping from the
//! tokenizer's borrowed tags to them.
pub use pulldown_cmark::TagEnd as MarkdownTagEnd;

use crate::pulldown::{cow_string, holds_cow};
use std::ops::Range;
use vstd::prelude::*;
use vstd::utf8::encode_utf8;

verus! {

/// One unit of the normalized output stream. Ranges are carried beside it.
#[derive(Clone, Debug, PartialEq)]
pub enum MarkdownEvent {
    /// Start of a tagged element; events up to the matching `End` are inside it.
    Start(MarkdownTag),
    /// End of a tagged element.
    End(MarkdownTagEnd),
    /// Text that is exactly the source bytes of its range.
    Text,
    /// Text that differs from the source, such as a decoded HTML entity or
    /// smart punctuation. The range names the source bytes it replaces.
    SubstitutedText(String),
    /// An inline code span; its range leaves out the delimiters.
    Code,
    /// An HTML node.
    Html,
    /// An inline HTML node.
    InlineHtml,
    /// A reference to a footnote.
    FootnoteReference,
    /// A soft line break.
    SoftBreak,
    /// A hard line break.
    HardBreak,
    /// A horizontal rule.
    Rule,
    /// A task list marker; `true` when it is checked.
    TaskListMarker(bool),
}

/// Tags for elements that can contain other elements.
#[derive(Clone, Debug, PartialEq)]
pub enum MarkdownTag {
    Paragraph,
    /// A heading with optional identifier, classes and custom attributes.
    Heading {
        level: pulldown_cmark::HeadingLevel,
        id: Option<String>,
        classes: Vec<String>,
        /// Each attribute with its optional value.
        attrs: Vec<(String, Option<String>)>,
    },
    BlockQuote,
    CodeBlock(CodeBlockKind),
    HtmlBlock,
    /// A list; for an ordered list, the number of its first item.
    List(Option<u64>),
    Item,
    /// A footnote definition with its label.
    FootnoteDefinition(String),
    /// A table with the alignment of each column.
    Table(Vec<pulldown_cmark::Alignment>),
    TableHead,
    TableRow,
    TableCell,
    Emphasis,
    Strong,
    Strikethrough,
    Link { link_type: pulldown_cmark::LinkType, dest_url: String, title: String, id: String },
    Image { link_type: pulldown_cmark::LinkType, dest_url: String, title: String, id: String },
    MetadataBlock(pulldown_cmark::MetadataBlockKind),
    DefinitionList,
    DefinitionListTitle,
    DefinitionListDefinition,
}

#[derive(Clone, Debug, PartialEq)]
pub enum CodeBlockKind {
    Indented,
    /// A fenced block with its language tag, which may be empty.
    Fenced(String),
}

/// What a piece of the output is, over plain values.
pub enum Emitted {
    /// Exactly this event.
    Event(MarkdownEvent),
    /// `SubstitutedText` whose replacement has these characters.
    Substituted(Seq<char>),
    /// The start of an autolink whose destination has these UTF-8 bytes, with
    /// an empty title and id.
    Autolink(Seq<u8>),
}

/// One output event with its byte range, as the contracts describe it.
pub struct Piece {
    pub start: int,
    pub end: int,
    pub what: Emitted,
}

pub open spec fn piece(start: int, end: int, what: Emitted) -> Piece {
    Piece { start, end, what }
}

/// The event `ev` with its range is the piece `p`.
pub open spec fn emitted_as(ev: (Range<usize>, MarkdownEvent), p: Piece) -> bool {
    &&& ev.0.start == p.start
    &&& ev.0.end == p.end
    &&& match p.what {
        Emitted::Event(e) => ev.1 == e,
        Emitted::Substituted(s) => match ev.1 {
            MarkdownEvent::SubstitutedText(t) => t@ == s,
            _ => false,
        },
        Emitted::Autolink(u) => match ev.1 {
            MarkdownEvent::Start(MarkdownTag::Link { link_type, dest_url, title, id }) => {
                &&& link_type == pulldown_cmark::LinkType::Autolink
                &&& encode_utf8(dest_url@) == u
                &&& title@.len() == 0
                &&& id@.len() == 0
            },
            _ => false,
        },
    }
}

/// The events `evs` are, one for one, the pieces `ps`.
pub open spec fn emitted_all(evs: Seq<(Range<usize>, MarkdownEvent)>, ps: Seq<Piece>) -> bool {
    &&& evs.len() == ps.len()
    &&& forall|i: int| 0 <= i < evs.len() ==> emitted_as(#[trigger] evs[i], ps[i])
}

/// `new` is `old` followed by events that are the pieces `ps`.
pub open spec fn extends(
    new: Seq<(Range<usize>, MarkdownEvent)>,
    old: Seq<(Range<usize>, MarkdownEvent)>,
    ps: Seq<Piece>,
) -> bool {
    &&& new.len() == old.len() + ps.len()
    &&& new.subrange(0, old.len() as int) == old
    &&& forall|i: int| 0 <= i < ps.len() ==> emitted_as(#[trigger] new[old.len() + i], ps[i])
}

pub proof fn lemma_extends_trans(
    a: Seq<(Range<usize>, MarkdownEvent)>,
    b: Seq<(Range<usize>, MarkdownEvent)>,
    c: Seq<(Range<usize>, MarkdownEvent)>,
    pab: Seq<Piece>,
    pbc: Seq<Piece>,
)
    requires
        extends(b, a, pab),
        extends(c, b, pbc),
    ensures
        extends(c, a, pab + pbc),
{
    assert(c.subrange(0, a.len() as int) == b.subrange(0, a.len() as int));
    assert forall|i: int| 0 <= i < (pab + pbc).len() implies emitted_as(
        #[trigger] c[a.len() + i],
        (pab + pbc)[i],
    ) by {
        if i < pab.len() {
            assert(c[a.len() + i] == b[a.len() + i]);
        } else {
            assert(c[a.len() + i] == c[b.len() + (i - pab.len())]);
        }
    }
}

pub proof fn lemma_extends_push(
    a: Seq<(Range<usize>, MarkdownEvent)>,
    ev: (Range<usize>, MarkdownEvent),
    p: Piece,
)
    requires
        emitted_as(ev, p),
    ensures
        extends(a.push(ev), a, seq![p]),
{
    assert(a.push(ev).subrange(0, a.len() as int) == a);
    assert(a.push(ev)[a.len() as int] == ev);
}

pub proof fn lemma_extends_refl(a: Seq<(Range<usize>, MarkdownEvent)>)
    ensures
        extends(a, a, Seq::empty()),
{
    assert(a.subrange(0, a.len() as int) == a);
}


/// The end tag that closes an element opened with `tag`; a block quote of
/// any kind is closed by the end of any block quote.
pub open spec fn expected_end(tag: MarkdownTag) -> MarkdownTagEnd {
    match tag {
        MarkdownTag::Paragraph => MarkdownTagEnd::Paragraph,
        MarkdownTag::Heading { level, .. } => MarkdownTagEnd::Heading(level),
        MarkdownTag::BlockQuote => MarkdownTagEnd::BlockQuote(None),
        MarkdownTag::CodeBlock(_) => MarkdownTagEnd::CodeBlock,
        MarkdownTag::HtmlBlock => MarkdownTagEnd::HtmlBlock,
        MarkdownTag::List(n) => MarkdownTagEnd::List(n is Some),
        MarkdownTag::Item => MarkdownTagEnd::Item,
        MarkdownTag::FootnoteDefinition(_) => MarkdownTagEnd::FootnoteDefinition,
        MarkdownTag::Table(_) => MarkdownTagEnd::Table,
        MarkdownTag::TableHead => MarkdownTagEnd::TableHead,
        MarkdownTag::TableRow => MarkdownTagEnd::TableRow,
        MarkdownTag::TableCell => MarkdownTagEnd::TableCell,
        MarkdownTag::Emphasis => MarkdownTagEnd::Emphasis,
        MarkdownTag::Strong => MarkdownTagEnd::Strong,
        MarkdownTag::Strikethrough => MarkdownTagEnd::Strikethrough,
        MarkdownTag::Link { .. } => MarkdownTagEnd::Link,
        MarkdownTag::Image { .. } => MarkdownTagEnd::Image,
        MarkdownTag::MetadataBlock(k) => MarkdownTagEnd::MetadataBlock(k),
        MarkdownTag::DefinitionList => MarkdownTagEnd::DefinitionList,
        MarkdownTag::DefinitionListTitle => MarkdownTagEnd::DefinitionListTitle,
        MarkdownTag::DefinitionListDefinition => MarkdownTagEnd::DefinitionListDefinition,
    }
}

/// `end` closes an element that expects the end tag `x`.
pub open spec fn end_matches(x: MarkdownTagEnd, end: MarkdownTagEnd) -> bool {
    if x is BlockQuote {
        end is BlockQuote
    } else {
        x == end
    }
}

/// `s` holds the characters of `c`, when `c` has some.
pub open spec fn holds_opt_cow(s: Option<String>, c: Option<pulldown_cmark::CowStr<'_>>) -> bool {
    match (s, c) {
        (None, None) => true,
        (Some(s), Some(c)) => holds_cow(s, c),
        _ => false,
    }
}

/// `v` holds, item by item, the characters of `c`.
pub open spec fn holds_cows(v: Seq<String>, c: Seq<pulldown_cmark::CowStr<'_>>) -> bool {
    v.len() == c.len() && forall|i: int| 0 <= i < v.len() ==> holds_cow(#[trigger] v[i], c[i])
}

/// `v` holds, pair by pair, the attributes `c`.
pub open spec fn holds_attrs(
    v: Seq<(String, Option<String>)>,
    c: Seq<(pulldown_cmark::CowStr<'_>, Option<pulldown_cmark::CowStr<'_>>)>,
) -> bool {
    v.len() == c.len() && forall|i: int|
        0 <= i < v.len() ==> holds_cow(#[trigger] v[i].0, c[i].0) && holds_opt_cow(v[i].1, c[i].1)
}

/// `m` is the owned form of the tokenizer's tag `t`: the same variant, the same
/// plain fields, each borrowed string copied. A block quote drops its kind.
pub open spec fn owned_tag(t: pulldown_cmark::Tag<'_>, m: MarkdownTag) -> bool {
    match t {
        pulldown_cmark::Tag::Paragraph => m is Paragraph,
        pulldown_cmark::Tag::Heading { level, id, classes, attrs } => match m {
            MarkdownTag::Heading { level: l, id: i, classes: c, attrs: a } => l == level
                && holds_opt_cow(i, id) && holds_cows(c@, classes@) && holds_attrs(a@, attrs@),
            _ => false,
        },
        pulldown_cmark::Tag::BlockQuote(_) => m is BlockQuote,
        pulldown_cmark::Tag::CodeBlock(k) => match (k, m) {
            (pulldown_cmark::CodeBlockKind::Indented, MarkdownTag::CodeBlock(
                CodeBlockKind::Indented,
            )) => true,
            (pulldown_cmark::CodeBlockKind::Fenced(c), MarkdownTag::CodeBlock(
                CodeBlockKind::Fenced(s),
            )) => holds_cow(s, c),
            _ => false,
        },
        pulldown_cmark::Tag::HtmlBlock => m is HtmlBlock,
        pulldown_cmark::Tag::List(n) => m == MarkdownTag::List(n),
        pulldown_cmark::Tag::Item => m is Item,
        pulldown_cmark::Tag::FootnoteDefinition(c) => match m {
            MarkdownTag::FootnoteDefinition(s) => holds_cow(s, c),
            _ => false,
        },
        pulldown_cmark::Tag::Table(a) => match m {
            MarkdownTag::Table(b) => b@ == a@,
            _ => false,
        },
        pulldown_cmark::Tag::TableHead => m is TableHead,
        pulldown_cmark::Tag::TableRow => m is TableRow,
        pulldown_cmark::Tag::TableCell => m is TableCell,
        pulldown_cmark::Tag::Emphasis => m is Emphasis,
        pulldown_cmark::Tag::Strong => m is Strong,
        pulldown_cmark::Tag::Strikethrough => m is Strikethrough,
        pulldown_cmark::Tag::Link { link_type, dest_url, title, id } => match m {
            MarkdownTag::Link { link_type: lt, dest_url: d, title: ti, id: i } => lt == link_type
                && holds_cow(d, dest_url) && holds_cow(ti, title) && holds_cow(i, id),
            _ => false,
        },
        pulldown_cmark::Tag::Image { link_type, dest_url, title, id } => match m {
            MarkdownTag::Image { link_type: lt, dest_url: d, title: ti, id: i } => lt == link_type
                && holds_cow(d, dest_url) && holds_cow(ti, title) && holds_cow(i, id),
            _ => false,
        },
        pulldown_cmark::Tag::MetadataBlock(k) => m == MarkdownTag::MetadataBlock(k),
        pulldown_cmark::Tag::DefinitionList => m is DefinitionList,
        pulldown_cmark::Tag::DefinitionListTitle => m is DefinitionListTitle,
        pulldown_cmark::Tag::DefinitionListDefinition => m is DefinitionListDefinition,
    }
}

fn owned_strings(c: &Vec<pulldown_cmark::CowStr<'_>>) -> (r: Vec<String>)
    ensures
        holds_cows(r@, c@),
{
    let mut r: Vec<String> = Vec::new();
    let mut i: usize = 0;
    while i < c.len()
        invariant
            i <= c.len(),
            r@.len() == i,
            forall|j: int| 0 <= j < i ==> holds_cow(#[trigger] r@[j], c@[j]),
        decreases c.len() - i,
    {
        r.push(cow_string(&c[i]));
        i += 1;
    }
    r
}

fn owned_opt_string(c: &Option<pulldown_cmark::CowStr<'_>>) -> (r: Option<String>)
    ensures
        holds_opt_cow(r, *c),
{
    match c {
        Some(s) => Some(cow_string(s)),
        None => None,
    }
}

fn owned_attrs(c: &Vec<(pulldown_cmark::CowStr<'_>, Option<pulldown_cmark::CowStr<'_>>)>) -> (r: Vec<
    (String, Option<String>),
>)
    ensures
        holds_attrs(r@, c@),
{
    let mut r: Vec<(String, Option<String>)> = Vec::new();
    let mut i: usize = 0;
    while i < c.len()
        invariant
            i <= c.len(),
            r@.len() == i,
            forall|j: int|
                0 <= j < i ==> holds_cow(#[trigger] r@[j].0, c@[j].0) && holds_opt_cow(
                    r@[j].1,
                    c@[j].1,
                ),
        decreases c.len() - i,
    {
        let (key, value) = &c[i];
        r.push((cow_string(key), owned_opt_string(value)));
        i += 1;
    }
    r
}

impl MarkdownTag {
    /// The owned form of a tag of the tokenizer.
    pub fn from_pulldown(tag: pulldown_cmark::Tag<'_>) -> (r: MarkdownTag)
        ensures
            owned_tag(tag, r),
    {
        match tag {
            pulldown_cmark::Tag::Paragraph => MarkdownTag::Paragraph,
            pulldown_cmark::Tag::Heading { level, id, classes, attrs } => MarkdownTag::Heading {
                level,
                id: owned_opt_string(&id),
                classes: owned_strings(&classes),
                attrs: owned_attrs(&attrs),
            },
            pulldown_cmark::Tag::BlockQuote(_) => MarkdownTag::BlockQuote,
            pulldown_cmark::Tag::CodeBlock(kind) => match kind {
                pulldown_cmark::CodeBlockKind::Indented => MarkdownTag::CodeBlock(
                    CodeBlockKind::Indented,
                ),
                pulldown_cmark::CodeBlockKind::Fenced(info) => MarkdownTag::CodeBlock(
                    CodeBlockKind::Fenced(cow_string(&info)),
                ),
            },
            pulldown_cmark::Tag::HtmlBlock => MarkdownTag::HtmlBlock,
            pulldown_cmark::Tag::List(start) => MarkdownTag::List(start),
            pulldown_cmark::Tag::Item => MarkdownTag::Item,
            pulldown_cmark::Tag::FootnoteDefinition(label) => MarkdownTag::FootnoteDefinition(
                cow_string(&label),
            ),
            pulldown_cmark::Tag::Table(alignments) => MarkdownTag::Table(alignments),
            pulldown_cmark::Tag::TableHead => MarkdownTag::TableHead,
            pulldown_cmark::Tag::TableRow => MarkdownTag::TableRow,
            pulldown_cmark::Tag::TableCell => MarkdownTag::TableCell,
            pulldown_cmark::Tag::Emphasis => MarkdownTag::Emphasis,
            pulldown_cmark::Tag::Strong => MarkdownTag::Strong,
            pulldown_cmark::Tag::Strikethrough => MarkdownTag::Strikethrough,
            pulldown_cmark::Tag::Link { link_type, dest_url, title, id } => MarkdownTag::Link {
                link_type,
                dest_url: cow_string(&dest_url),
                title: cow_string(&title),
                id: cow_string(&id),
            },
            pulldown_cmark::Tag::Image { link_type, dest_url, title, id } => MarkdownTag::Image {
                link_type,
                dest_url: cow_string(&dest_url),
                title: cow_string(&title),
                id: cow_string(&id),
            },
            pulldown_cmark::Tag::MetadataBlock(kind) => MarkdownTag::MetadataBlock(kind),
            pulldown_cmark::Tag::DefinitionList => MarkdownTag::DefinitionList,
            pulldown_cmark::Tag::DefinitionListTitle => MarkdownTag::DefinitionListTitle,
            pulldown_cmark::Tag::DefinitionListDefinition => MarkdownTag::DefinitionListDefinition,
        }
    }
}

} // verus!
