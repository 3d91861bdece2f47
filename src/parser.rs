//! Markdown text to the normalized event stream, with `pulldown_cmark` as the
//! tokenizer.
use crate::event::{expected_end, owned_tag, CodeBlockKind, MarkdownEvent, MarkdownTag, MarkdownTagEnd};
use crate::normalize::{
    is_leaf, normalize_events, reversed, normalized, token_ok, tokens_ok, views, SourceEvent,
};
use crate::pulldown::{cow_string, holds_cow};
use crate::event::emitted_all;
use crate::guarantees::{
    balanced, ends_metadata, event_marks, events_in, meta_open, metadata_flat, no_metadata_tags,
    open_after,
    push_mark, starts_metadata, text_ranges_ordered, token_mark, token_marks, Mark,
};
use std::ops::Range;
use vstd::prelude::*;
use vstd::string::StringSliceAdditionalSpecFns;

verus! {

/// The tokenizer's events for the UTF-8 text `text`, in the library's terms,
/// each with its source range, in document order.
pub uninterp spec fn markdown_tokens(text: Seq<u8>) -> Seq<(Range<usize>, SourceEvent)>;

/// Relies on `pulldown_cmark::Parser::new_ext(..).into_offset_iter()`: the
/// tokenizer's events with their source ranges, in document order, with tables,
/// footnotes, strikethrough, task lists, smart punctuation, heading attributes,
/// `+++` metadata blocks and GFM enabled. The parser is deterministic: the
/// events depend on the text alone. Its start and end events are balanced, as
/// `Event::Start` documents, and a metadata block holds only text up to its
/// end tag (`parse_metadata_block` appends nothing else to it).
#[verifier::external_body]
fn offset_events(text: &str) -> (r: Vec<(pulldown_cmark::Event<'_>, Range<usize>)>)
    ensures
        balanced(raw_marks(r@)),
        forall|n: int|
            0 <= n < r@.len() && raw_meta_open(r@, n) ==> (#[trigger] r@[n]).0 is Text || r@[n].0 matches pulldown_cmark::Event::End(
                pulldown_cmark::TagEnd::MetadataBlock(_),
            ),
        r@.len() == markdown_tokens(text.spec_bytes()).len(),
        forall|i: int|
            0 <= i < r@.len() ==> {
                &&& (#[trigger] r@[i]).1 == markdown_tokens(text.spec_bytes())[i].0
                &&& adapted(r@[i].0, markdown_tokens(text.spec_bytes())[i].1)
            },
{
    let options = pulldown_cmark::Options::ENABLE_TABLES
        | pulldown_cmark::Options::ENABLE_FOOTNOTES
        | pulldown_cmark::Options::ENABLE_STRIKETHROUGH
        | pulldown_cmark::Options::ENABLE_TASKLISTS
        | pulldown_cmark::Options::ENABLE_SMART_PUNCTUATION
        | pulldown_cmark::Options::ENABLE_HEADING_ATTRIBUTES
        | pulldown_cmark::Options::ENABLE_PLUSES_DELIMITED_METADATA_BLOCKS
        | pulldown_cmark::Options::ENABLE_OLD_FOOTNOTES
        | pulldown_cmark::Options::ENABLE_GFM;
    pulldown_cmark::Parser::new_ext(text, options).into_offset_iter().collect()
}

/// The end tag that closes an element that the tokenizer opened with `t`; a
/// block quote of any kind is closed by the end of any block quote.
pub open spec fn raw_end(t: pulldown_cmark::Tag<'_>) -> MarkdownTagEnd {
    match t {
        pulldown_cmark::Tag::Paragraph => MarkdownTagEnd::Paragraph,
        pulldown_cmark::Tag::Heading { level, .. } => MarkdownTagEnd::Heading(level),
        pulldown_cmark::Tag::BlockQuote(_) => MarkdownTagEnd::BlockQuote(None),
        pulldown_cmark::Tag::CodeBlock(_) => MarkdownTagEnd::CodeBlock,
        pulldown_cmark::Tag::HtmlBlock => MarkdownTagEnd::HtmlBlock,
        pulldown_cmark::Tag::List(n) => MarkdownTagEnd::List(n is Some),
        pulldown_cmark::Tag::Item => MarkdownTagEnd::Item,
        pulldown_cmark::Tag::FootnoteDefinition(_) => MarkdownTagEnd::FootnoteDefinition,
        pulldown_cmark::Tag::Table(_) => MarkdownTagEnd::Table,
        pulldown_cmark::Tag::TableHead => MarkdownTagEnd::TableHead,
        pulldown_cmark::Tag::TableRow => MarkdownTagEnd::TableRow,
        pulldown_cmark::Tag::TableCell => MarkdownTagEnd::TableCell,
        pulldown_cmark::Tag::Emphasis => MarkdownTagEnd::Emphasis,
        pulldown_cmark::Tag::Strong => MarkdownTagEnd::Strong,
        pulldown_cmark::Tag::Strikethrough => MarkdownTagEnd::Strikethrough,
        pulldown_cmark::Tag::Link { .. } => MarkdownTagEnd::Link,
        pulldown_cmark::Tag::Image { .. } => MarkdownTagEnd::Image,
        pulldown_cmark::Tag::MetadataBlock(k) => MarkdownTagEnd::MetadataBlock(k),
        pulldown_cmark::Tag::DefinitionList => MarkdownTagEnd::DefinitionList,
        pulldown_cmark::Tag::DefinitionListTitle => MarkdownTagEnd::DefinitionListTitle,
        pulldown_cmark::Tag::DefinitionListDefinition => MarkdownTagEnd::DefinitionListDefinition,
    }
}

/// What a tokenizer event means for the nesting of elements.
pub open spec fn raw_mark(e: pulldown_cmark::Event<'_>) -> Mark {
    match e {
        pulldown_cmark::Event::Start(t) => Mark::Open(raw_end(t)),
        pulldown_cmark::Event::End(k) => Mark::Close(k),
        _ => Mark::Other,
    }
}

pub open spec fn raw_marks(r: Seq<(pulldown_cmark::Event<'_>, Range<usize>)>) -> Seq<Mark> {
    r.map_values(|x: (pulldown_cmark::Event<'_>, Range<usize>)| raw_mark(x.0))
}

/// Whether a metadata block is open after the first `n` tokenizer events.
pub open spec fn raw_meta_open(r: Seq<(pulldown_cmark::Event<'_>, Range<usize>)>, n: int) -> bool
    decreases n,
{
    if n <= 0 {
        false
    } else if r[n - 1].0 matches pulldown_cmark::Event::Start(pulldown_cmark::Tag::MetadataBlock(_)) {
        true
    } else if r[n - 1].0 matches pulldown_cmark::Event::End(pulldown_cmark::TagEnd::MetadataBlock(_)) {
        false
    } else {
        raw_meta_open(r, n - 1)
    }
}

/// `s` is the tokenizer's event `e` in the library's terms.
pub open spec fn adapted(e: pulldown_cmark::Event<'_>, s: SourceEvent) -> bool {
    match e {
        pulldown_cmark::Event::Start(t) => match s {
            SourceEvent::Start { tag, inlined } => owned_tag(t, tag) && inlined == tag_inlined(t),
            _ => false,
        },
        pulldown_cmark::Event::End(k) => s == SourceEvent::End(k),
        pulldown_cmark::Event::Text(c) => match s {
            SourceEvent::Text { text, inlined } => holds_cow(text, c) && inlined == (c is Inlined),
            _ => false,
        },
        pulldown_cmark::Event::Code(_) => s is Code,
        pulldown_cmark::Event::InlineMath(_) => s is Math,
        pulldown_cmark::Event::DisplayMath(_) => s is Math,
        pulldown_cmark::Event::Html(_) => s is Html,
        pulldown_cmark::Event::InlineHtml(_) => s is InlineHtml,
        pulldown_cmark::Event::FootnoteReference(_) => s is FootnoteReference,
        pulldown_cmark::Event::SoftBreak => s is SoftBreak,
        pulldown_cmark::Event::HardBreak => s is HardBreak,
        pulldown_cmark::Event::Rule => s is Rule,
        pulldown_cmark::Event::TaskListMarker(c) => s == SourceEvent::TaskListMarker(c),
    }
}

pub open spec fn opt_is_inlined(c: Option<pulldown_cmark::CowStr<'_>>) -> bool {
    match c {
        Some(x) => x is Inlined,
        None => false,
    }
}

pub open spec fn cows_inlined(c: Seq<pulldown_cmark::CowStr<'_>>) -> bool {
    exists|j: int| 0 <= j < c.len() && (#[trigger] c[j]) is Inlined
}

pub open spec fn attrs_inlined(
    a: Seq<(pulldown_cmark::CowStr<'_>, Option<pulldown_cmark::CowStr<'_>>)>,
) -> bool {
    exists|j: int| 0 <= j < a.len() && ((#[trigger] a[j]).0 is Inlined || opt_is_inlined(a[j].1))
}

/// Some string of the tokenizer's tag `t` was built by the tokenizer itself.
pub open spec fn tag_inlined(t: pulldown_cmark::Tag<'_>) -> bool {
    match t {
        pulldown_cmark::Tag::Heading { id, classes, attrs, .. } => opt_is_inlined(id) || cows_inlined(
            classes@,
        ) || attrs_inlined(attrs@),
        pulldown_cmark::Tag::CodeBlock(pulldown_cmark::CodeBlockKind::Fenced(c)) => c is Inlined,
        pulldown_cmark::Tag::FootnoteDefinition(c) => c is Inlined,
        pulldown_cmark::Tag::Link { dest_url, title, id, .. } => dest_url is Inlined || title is Inlined
            || id is Inlined,
        pulldown_cmark::Tag::Image { dest_url, title, id, .. } => dest_url is Inlined || title is Inlined
            || id is Inlined,
        _ => false,
    }
}

pub open spec fn same_opt(a: Option<String>, c: Option<String>) -> bool {
    match (a, c) {
        (Some(x), Some(y)) => x@ == y@,
        (None, None) => true,
        _ => false,
    }
}

/// `m1` and `m2` are the same kind of tag with the same plain fields and the
/// same number of strings in the same places.
pub open spec fn same_plain(m1: MarkdownTag, m2: MarkdownTag) -> bool {
    match (m1, m2) {
        (
            MarkdownTag::Heading { level: l1, id: i1, classes: c1, attrs: a1 },
            MarkdownTag::Heading { level: l2, id: i2, classes: c2, attrs: a2 },
        ) => {
            &&& l1 == l2
            &&& (i1 is Some) == (i2 is Some)
            &&& c1@.len() == c2@.len()
            &&& a1@.len() == a2@.len()
            &&& forall|j: int| 0 <= j < a1@.len() ==> ((#[trigger] a1@[j]).1 is Some) == (a2@[j].1 is Some)
        },
        (MarkdownTag::CodeBlock(k1), MarkdownTag::CodeBlock(k2)) => (k1 is Indented) == (k2 is Indented),
        (MarkdownTag::List(n1), MarkdownTag::List(n2)) => n1 == n2,
        (MarkdownTag::Table(a1), MarkdownTag::Table(a2)) => a1@ == a2@,
        (MarkdownTag::Link { link_type: t1, .. }, MarkdownTag::Link { link_type: t2, .. }) => t1 == t2,
        (MarkdownTag::Image { link_type: t1, .. }, MarkdownTag::Image { link_type: t2, .. }) => t1 == t2,
        (MarkdownTag::MetadataBlock(k1), MarkdownTag::MetadataBlock(k2)) => k1 == k2,
        (MarkdownTag::FootnoteDefinition(_), MarkdownTag::FootnoteDefinition(_)) => true,
        (MarkdownTag::Paragraph, MarkdownTag::Paragraph) => true,
        (MarkdownTag::BlockQuote, MarkdownTag::BlockQuote) => true,
        (MarkdownTag::HtmlBlock, MarkdownTag::HtmlBlock) => true,
        (MarkdownTag::Item, MarkdownTag::Item) => true,
        (MarkdownTag::TableHead, MarkdownTag::TableHead) => true,
        (MarkdownTag::TableRow, MarkdownTag::TableRow) => true,
        (MarkdownTag::TableCell, MarkdownTag::TableCell) => true,
        (MarkdownTag::Emphasis, MarkdownTag::Emphasis) => true,
        (MarkdownTag::Strong, MarkdownTag::Strong) => true,
        (MarkdownTag::Strikethrough, MarkdownTag::Strikethrough) => true,
        (MarkdownTag::DefinitionList, MarkdownTag::DefinitionList) => true,
        (MarkdownTag::DefinitionListTitle, MarkdownTag::DefinitionListTitle) => true,
        (MarkdownTag::DefinitionListDefinition, MarkdownTag::DefinitionListDefinition) => true,
        _ => false,
    }
}

/// Every string of `m1` has the characters of the string in the same place of `m2`.
pub open spec fn same_strings(m1: MarkdownTag, m2: MarkdownTag) -> bool {
    match (m1, m2) {
        (
            MarkdownTag::Heading { id: i1, classes: c1, attrs: a1, .. },
            MarkdownTag::Heading { id: i2, classes: c2, attrs: a2, .. },
        ) => {
            &&& same_opt(i1, i2)
            &&& forall|j: int| 0 <= j < c1@.len() ==> (#[trigger] c1@[j])@ == c2@[j]@
            &&& forall|j: int|
                0 <= j < a1@.len() ==> (#[trigger] a1@[j]).0@ == a2@[j].0@ && same_opt(a1@[j].1, a2@[j].1)
        },
        (
            MarkdownTag::CodeBlock(CodeBlockKind::Fenced(s1)),
            MarkdownTag::CodeBlock(CodeBlockKind::Fenced(s2)),
        ) => s1@ == s2@,
        (MarkdownTag::FootnoteDefinition(s1), MarkdownTag::FootnoteDefinition(s2)) => s1@ == s2@,
        (
            MarkdownTag::Link { dest_url: d1, title: t1, id: i1, .. },
            MarkdownTag::Link { dest_url: d2, title: t2, id: i2, .. },
        ) => d1@ == d2@ && t1@ == t2@ && i1@ == i2@,
        (
            MarkdownTag::Image { dest_url: d1, title: t1, id: i1, .. },
            MarkdownTag::Image { dest_url: d2, title: t2, id: i2, .. },
        ) => d1@ == d2@ && t1@ == t2@ && i1@ == i2@,
        _ => true,
    }
}

/// `x` and `y` are the same tokenizer event in the library's terms: the same
/// kind with the same plain fields, the same text wherever the tokenizer kept
/// a slice or an owned copy, and the same flags for the strings it built
/// itself, whose characters it does not expose.
pub open spec fn agree(x: SourceEvent, y: SourceEvent) -> bool {
    match (x, y) {
        (SourceEvent::Start { tag: t1, inlined: f1 }, SourceEvent::Start { tag: t2, inlined: f2 }) => {
            &&& f1 == f2
            &&& same_plain(t1, t2)
            &&& !f1 ==> same_strings(t1, t2)
        },
        (SourceEvent::Text { text: p1, inlined: f1 }, SourceEvent::Text { text: p2, inlined: f2 }) => {
            &&& f1 == f2
            &&& !f1 ==> p1@ == p2@
        },
        (SourceEvent::End(e1), SourceEvent::End(e2)) => e1 == e2,
        (SourceEvent::TaskListMarker(c1), SourceEvent::TaskListMarker(c2)) => c1 == c2,
        (SourceEvent::Code, SourceEvent::Code) => true,
        (SourceEvent::Math, SourceEvent::Math) => true,
        (SourceEvent::Html, SourceEvent::Html) => true,
        (SourceEvent::InlineHtml, SourceEvent::InlineHtml) => true,
        (SourceEvent::FootnoteReference, SourceEvent::FootnoteReference) => true,
        (SourceEvent::SoftBreak, SourceEvent::SoftBreak) => true,
        (SourceEvent::HardBreak, SourceEvent::HardBreak) => true,
        (SourceEvent::Rule, SourceEvent::Rule) => true,
        _ => false,
    }
}

/// Two events adapted from one tokenizer event agree.
pub proof fn lemma_agree(e: pulldown_cmark::Event<'_>, x: SourceEvent, y: SourceEvent)
    requires
        adapted(e, x),
        adapted(e, y),
    ensures
        agree(x, y),
{
    match e {
        pulldown_cmark::Event::Start(t) => {
            match (x, y) {
                (SourceEvent::Start { tag: m1, .. }, SourceEvent::Start { tag: m2, .. }) => {
                    match t {
                        pulldown_cmark::Tag::Heading { id, classes, attrs, .. } => {
                            match (m1, m2) {
                                (
                                    MarkdownTag::Heading { classes: c1, attrs: a1, .. },
                                    MarkdownTag::Heading { classes: c2, attrs: a2, .. },
                                ) => {
                                    assert forall|j: int| 0 <= j < a1@.len() implies ((#[trigger] a1@[j]).1 is Some) == (a2@[j].1 is Some) by {
                                        assert(holds_cow(a1@[j].0, attrs@[j].0));
                                        assert(holds_cow(a2@[j].0, attrs@[j].0));
                                        assert(crate::event::holds_opt_cow(a1@[j].1, attrs@[j].1));
                                        assert(crate::event::holds_opt_cow(a2@[j].1, attrs@[j].1));
                                    }
                                    if !tag_inlined(t) {
                                        assert forall|j: int| 0 <= j < c1@.len() implies (#[trigger] c1@[j])@ == c2@[j]@ by {
                                            assert(holds_cow(c1@[j], classes@[j]));
                                            assert(holds_cow(c2@[j], classes@[j]));
                                            assert(!(classes@[j] is Inlined));
                                        }
                                        assert forall|j: int| 0 <= j < a1@.len() implies (#[trigger] a1@[j]).0@ == a2@[j].0@ && same_opt(a1@[j].1, a2@[j].1) by {
                                            assert(holds_cow(a1@[j].0, attrs@[j].0));
                                            assert(holds_cow(a2@[j].0, attrs@[j].0));
                                            assert(crate::event::holds_opt_cow(a1@[j].1, attrs@[j].1));
                                            assert(crate::event::holds_opt_cow(a2@[j].1, attrs@[j].1));
                                            assert(!(attrs@[j].0 is Inlined));
                                        }
                                    }
                                },
                                _ => {},
                            }
                        },
                        _ => {},
                    }
                },
                _ => {},
            }
        },
        _ => {},
    }
}

/// `a` and `c` are, token for token, the same events over the same ranges.
pub open spec fn corresponds(
    a: Seq<(Range<usize>, SourceEvent)>,
    c: Seq<(Range<usize>, SourceEvent)>,
) -> bool {
    &&& a.len() == c.len()
    &&& forall|i: int| 0 <= i < a.len() ==> (#[trigger] a[i]).0 == c[i].0 && agree(a[i].1, c[i].1)
}

/// Whether the token `t` is kept after the tokens that ended their text, code
/// or HTML at `leaf_end`: its range fits the text, and a text, code or HTML
/// token does not start before `leaf_end`.
pub open spec fn keeps(b: Seq<u8>, t: (Range<usize>, SourceEvent), leaf_end: int) -> bool {
    token_ok(b, t) && (!is_leaf(t.1) || t.0.start >= leaf_end)
}

pub open spec fn is_tag(e: SourceEvent) -> bool {
    e is Start || e is End
}

/// `t` itself if its range fits the text `b`, else `t` over the empty range at
/// the start of `b`.
pub open spec fn fitted(b: Seq<u8>, t: (Range<usize>, SourceEvent)) -> (Range<usize>, SourceEvent) {
    if token_ok(b, t) {
        t
    } else {
        (Range { start: 0usize, end: 0usize }, t.1)
    }
}

/// The tokens kept from the first `n` of `toks`, and where the last kept text,
/// code or HTML token ends.
pub open spec fn keep_upto(b: Seq<u8>, toks: Seq<(Range<usize>, SourceEvent)>, n: int) -> (Seq<
    (Range<usize>, SourceEvent),
>, int)
    decreases n,
{
    if n <= 0 {
        (Seq::empty(), 0)
    } else {
        let (k, le) = keep_upto(b, toks, n - 1);
        let t = toks[n - 1];
        if is_tag(t.1) {
            (k.push(fitted(b, t)), le)
        } else if keeps(b, t, le) {
            (k.push(t), if is_leaf(t.1) {
                t.0.end as int
            } else {
                le
            })
        } else {
            (k, le)
        }
    }
}

/// The tokens of `toks` that fit the text `b`, in order. A start or end tag is
/// always kept, over the empty range at the start of `b` if its own range does
/// not lie in `b` between character boundaries; any other token whose range
/// does not, or whose text, code or HTML starts before an earlier one ends, is
/// left out.
pub open spec fn kept_tokens(b: Seq<u8>, toks: Seq<(Range<usize>, SourceEvent)>) -> Seq<
    (Range<usize>, SourceEvent),
> {
    keep_upto(b, toks, toks.len() as int).0
}

fn is_inlined(c: &pulldown_cmark::CowStr<'_>) -> (r: bool)
    ensures
        r == (*c is Inlined),
{
    match c {
        pulldown_cmark::CowStr::Inlined(_) => true,
        _ => false,
    }
}

fn opt_inlined(c: &Option<pulldown_cmark::CowStr<'_>>) -> (r: bool)
    ensures
        r == opt_is_inlined(*c),
{
    match c {
        Some(x) => is_inlined(x),
        None => false,
    }
}

/// Whether the tokenizer built some string of the tag `t` itself.
fn tag_has_inlined(t: &pulldown_cmark::Tag<'_>) -> (r: bool)
    ensures
        r == tag_inlined(*t),
{
    match t {
        pulldown_cmark::Tag::Heading { id, classes, attrs, .. } => {
            if opt_inlined(id) {
                return true;
            }
            let mut i: usize = 0;
            while i < classes.len()
                invariant
                    tag_inlined(*t) == (cows_inlined(classes@) || attrs_inlined(attrs@)),
                    i <= classes@.len(),
                    forall|j: int| 0 <= j < i ==> !((#[trigger] classes@[j]) is Inlined),
                decreases classes@.len() - i,
            {
                if is_inlined(&classes[i]) {
                    assert(classes@[i as int] is Inlined);
                    return true;
                }
                i += 1;
            }
            let mut k: usize = 0;
            while k < attrs.len()
                invariant
                    tag_inlined(*t) == attrs_inlined(attrs@),
                    k <= attrs@.len(),
                    forall|j: int|
                        0 <= j < k ==> !((#[trigger] attrs@[j]).0 is Inlined || opt_is_inlined(
                            attrs@[j].1,
                        )),
                decreases attrs@.len() - k,
            {
                if is_inlined(&attrs[k].0) || opt_inlined(&attrs[k].1) {
                    assert(attrs@[k as int].0 is Inlined || opt_is_inlined(attrs@[k as int].1));
                    return true;
                }
                k += 1;
            }
            false
        },
        pulldown_cmark::Tag::CodeBlock(pulldown_cmark::CodeBlockKind::Fenced(c)) => is_inlined(c),
        pulldown_cmark::Tag::FootnoteDefinition(c) => is_inlined(c),
        pulldown_cmark::Tag::Link { dest_url, title, id, .. } => is_inlined(dest_url) || is_inlined(
            title,
        ) || is_inlined(id),
        pulldown_cmark::Tag::Image { dest_url, title, id, .. } => is_inlined(dest_url) || is_inlined(
            title,
        ) || is_inlined(id),
        _ => false,
    }
}

/// The tokenizer's event `e` in the library's terms.
pub fn source_event(e: pulldown_cmark::Event<'_>) -> (r: SourceEvent)
    ensures
        adapted(e, r),
{
    match e {
        pulldown_cmark::Event::Start(t) => {
            let inlined = tag_has_inlined(&t);
            SourceEvent::Start { tag: MarkdownTag::from_pulldown(t), inlined }
        },
        pulldown_cmark::Event::End(k) => SourceEvent::End(k),
        pulldown_cmark::Event::Text(c) => {
            let inlined = is_inlined(&c);
            SourceEvent::Text { text: cow_string(&c), inlined }
        },
        pulldown_cmark::Event::Code(_) => SourceEvent::Code,
        pulldown_cmark::Event::InlineMath(_) => SourceEvent::Math,
        pulldown_cmark::Event::DisplayMath(_) => SourceEvent::Math,
        pulldown_cmark::Event::Html(_) => SourceEvent::Html,
        pulldown_cmark::Event::InlineHtml(_) => SourceEvent::InlineHtml,
        pulldown_cmark::Event::FootnoteReference(_) => SourceEvent::FootnoteReference,
        pulldown_cmark::Event::SoftBreak => SourceEvent::SoftBreak,
        pulldown_cmark::Event::HardBreak => SourceEvent::HardBreak,
        pulldown_cmark::Event::Rule => SourceEvent::Rule,
        pulldown_cmark::Event::TaskListMarker(c) => SourceEvent::TaskListMarker(c),
    }
}

/// Whether the token `(range, e)` is well formed in `text`.
fn token_fits(text: &str, range: &Range<usize>, e: &SourceEvent) -> (r: bool)
    ensures
        r == token_ok(text.spec_bytes(), (*range, *e)),
{
    let n = text.as_bytes().len();
    if !(range.start <= range.end && range.end <= n) {
        return false;
    }
    if !(text.is_char_boundary(range.start) && text.is_char_boundary(range.end)) {
        return false;
    }
    match e {
        SourceEvent::Code => range.end - range.start >= 2 && text.is_char_boundary(range.start + 1)
            && text.is_char_boundary(range.end - 1),
        _ => true,
    }
}

fn is_tag_event(e: &SourceEvent) -> (r: bool)
    ensures
        r == is_tag(*e),
{
    match e {
        SourceEvent::Start { .. } | SourceEvent::End(_) => true,
        _ => false,
    }
}

fn is_leaf_event(e: &SourceEvent) -> (r: bool)
    ensures
        r == is_leaf(*e),
{
    match e {
        SourceEvent::Text { .. } | SourceEvent::Code | SourceEvent::Html | SourceEvent::InlineHtml => true,
        _ => false,
    }
}

proof fn lemma_adapted_mark(e: pulldown_cmark::Event<'_>, x: SourceEvent)
    requires
        adapted(e, x),
    ensures
        token_mark(x) == raw_mark(e),
        starts_metadata(x) == (e matches pulldown_cmark::Event::Start(
            pulldown_cmark::Tag::MetadataBlock(_),
        )),
        ends_metadata(x) == (e matches pulldown_cmark::Event::End(
            pulldown_cmark::TagEnd::MetadataBlock(_),
        )),
{
}

proof fn lemma_agree_mark(x: SourceEvent, y: SourceEvent)
    requires
        agree(x, y),
    ensures
        token_mark(x) == token_mark(y),
        starts_metadata(x) == starts_metadata(y),
        ends_metadata(x) == ends_metadata(y),
{
}

proof fn lemma_open_push(ms: Seq<Mark>, m: Mark)
    ensures
        open_after(ms.push(m)) == push_mark(open_after(ms), m),
{
    assert(ms.push(m).drop_last() =~= ms);
}

proof fn lemma_meta_open_prefix(
    toks: Seq<(Range<usize>, SourceEvent)>,
    t: (Range<usize>, SourceEvent),
    k: int,
)
    requires
        0 <= k <= toks.len(),
    ensures
        meta_open(toks.push(t), k) == meta_open(toks, k),
    decreases k,
{
    if k > 0 {
        lemma_meta_open_prefix(toks, t, k - 1);
        assert(toks.push(t)[k - 1] == toks[k - 1]);
    }
}

/// The named tokens nest as the tokenizer's events do, and their metadata
/// blocks do not nest.
proof fn lemma_named_nesting(
    raw: Seq<(pulldown_cmark::Event<'_>, Range<usize>)>,
    named: Seq<(Range<usize>, SourceEvent)>,
)
    requires
        raw.len() == named.len(),
        forall|j: int| 0 <= j < raw.len() ==> adapted((#[trigger] raw[j]).0, named[j].1),
        balanced(raw_marks(raw)),
        forall|n: int|
            0 <= n < raw.len() && raw_meta_open(raw, n) ==> (#[trigger] raw[n]).0 is Text || raw[n].0 matches pulldown_cmark::Event::End(
                pulldown_cmark::TagEnd::MetadataBlock(_),
            ),
    ensures
        balanced(token_marks(named)),
        metadata_flat(named),
{
    assert forall|j: int| 0 <= j < raw.len() implies token_marks(named)[j] == raw_marks(raw)[j] by {
        lemma_adapted_mark(raw[j].0, named[j].1);
    }
    assert(token_marks(named) =~= raw_marks(raw));
    assert forall|n: int| 0 <= n <= raw.len() implies meta_open(named, n) == raw_meta_open(raw, n) by {
        lemma_meta_open_named(raw, named, n);
    }
    assert forall|n: int| 0 <= n < named.len() && starts_metadata(#[trigger] named[n].1) implies !meta_open(named, n) by {
        lemma_adapted_mark(raw[n].0, named[n].1);
        lemma_meta_open_named(raw, named, n);
    }
}

proof fn lemma_meta_open_named(
    raw: Seq<(pulldown_cmark::Event<'_>, Range<usize>)>,
    named: Seq<(Range<usize>, SourceEvent)>,
    n: int,
)
    requires
        raw.len() == named.len(),
        forall|j: int| 0 <= j < raw.len() ==> adapted((#[trigger] raw[j]).0, named[j].1),
        0 <= n <= raw.len(),
    ensures
        meta_open(named, n) == raw_meta_open(raw, n),
    decreases n,
{
    if n > 0 {
        lemma_meta_open_named(raw, named, n - 1);
        lemma_adapted_mark(raw[n - 1].0, named[n - 1].1);
    }
}

/// Keeping the tokens that fit changes neither the nesting nor the flatness
/// of metadata blocks: only tokens that are not tags are left out.
proof fn lemma_keep_nesting(b: Seq<u8>, named: Seq<(Range<usize>, SourceEvent)>, n: int)
    requires
        0 <= n <= named.len(),
    ensures
        open_after(token_marks(keep_upto(b, named, n).0)) == open_after(token_marks(named).take(n)),
        meta_open(keep_upto(b, named, n).0, keep_upto(b, named, n).0.len() as int) == meta_open(named, n),
        metadata_flat(named) ==> metadata_flat(keep_upto(b, named, n).0),
    decreases n,
{
    if n == 0 {
        assert(token_marks(Seq::<(Range<usize>, SourceEvent)>::empty()) =~= Seq::<Mark>::empty());
        assert(token_marks(named).take(0) =~= Seq::<Mark>::empty());
    } else {
        lemma_keep_nesting(b, named, n - 1);
        let (k, le) = keep_upto(b, named, n - 1);
        let t = named[n - 1];
        let m = token_mark(t.1);
        assert(token_marks(named).take(n) =~= token_marks(named).take(n - 1).push(m));
        lemma_open_push(token_marks(named).take(n - 1), m);
        if is_tag(t.1) || keeps(b, t, le) {
            let t2 = if is_tag(t.1) {
                fitted(b, t)
            } else {
                t
            };
            assert(t2.1 == t.1);
            assert(keep_upto(b, named, n).0 == k.push(t2));
            assert(token_marks(k.push(t2)) =~= token_marks(k).push(m));
            lemma_open_push(token_marks(k), m);
            lemma_meta_open_prefix(k, t2, k.len() as int);
            if metadata_flat(named) {
                let k2 = k.push(t2);
                assert forall|i: int| 0 <= i < k2.len() && starts_metadata(#[trigger] k2[i].1) implies !meta_open(k2, i) by {
                    lemma_meta_open_prefix(k, t2, i);
                    if i < k.len() {
                        assert(k2[i] == k[i]);
                    }
                }
            }
        } else {
            assert(!is_tag(t.1));
            assert(m is Other);
            assert(keep_upto(b, named, n).0 == k);
            match open_after(token_marks(named).take(n - 1)) {
                Some(_) => {},
                None => {},
            }
        }
    }
}

/// Corresponding tokens nest alike.
proof fn lemma_corresponds_nesting(
    a: Seq<(Range<usize>, SourceEvent)>,
    c: Seq<(Range<usize>, SourceEvent)>,
)
    requires
        corresponds(a, c),
    ensures
        token_marks(a) == token_marks(c),
        metadata_flat(c) ==> metadata_flat(a),
{
    assert forall|j: int| 0 <= j < a.len() implies token_marks(a)[j] == token_marks(c)[j] by {
        lemma_agree_mark(a[j].1, c[j].1);
    }
    assert(token_marks(a) =~= token_marks(c));
    assert forall|n: int| 0 <= n <= a.len() implies meta_open(a, n) == meta_open(c, n) by {
        lemma_corresponds_meta(a, c, n);
    }
    if metadata_flat(c) {
        assert forall|n: int| 0 <= n < a.len() && starts_metadata(#[trigger] a[n].1) implies !meta_open(a, n) by {
            lemma_agree_mark(a[n].1, c[n].1);
            lemma_corresponds_meta(a, c, n);
        }
    }
}

proof fn lemma_corresponds_meta(
    a: Seq<(Range<usize>, SourceEvent)>,
    c: Seq<(Range<usize>, SourceEvent)>,
    n: int,
)
    requires
        corresponds(a, c),
        0 <= n <= a.len(),
    ensures
        meta_open(a, n) == meta_open(c, n),
    decreases n,
{
    if n > 0 {
        lemma_corresponds_meta(a, c, n - 1);
        lemma_agree_mark(a[n - 1].1, c[n - 1].1);
    }
}


/// The tokens of `text`: each event of the tokenizer in the library's terms,
/// in order, leaving out any whose range does not fit the text or overlaps an
/// earlier stretch of text, code or HTML.
pub fn tokenize(text: &str) -> (r: Vec<(Range<usize>, SourceEvent)>)
    ensures
        tokens_ok(text.spec_bytes(), r@),
        corresponds(r@, kept_tokens(text.spec_bytes(), markdown_tokens(text.spec_bytes()))),
        balanced(token_marks(r@)),
        metadata_flat(r@),
{
    let ghost b = text.spec_bytes();
    let ghost named = markdown_tokens(b);
    let raw = offset_events(text);
    let ghost raw_v = raw@;
    let n = raw.len();
    let mut rest = reversed(raw);
    let mut kept: Vec<(Range<usize>, SourceEvent)> = Vec::new();
    let mut leaf_end: usize = 0;
    let mut i: usize = 0;
    while i < n
        invariant
            b == text.spec_bytes(),
            named == markdown_tokens(b),
            n == raw_v.len(),
            n == named.len(),
            forall|j: int|
                0 <= j < n ==> {
                    &&& (#[trigger] raw_v[j]).1 == named[j].0
                    &&& adapted(raw_v[j].0, named[j].1)
                },
            i <= n,
            rest@.len() == n - i,
            forall|j: int| 0 <= j < n - i ==> rest@[j] == raw_v[n - 1 - j],
            tokens_ok(b, kept@),
            forall|j: int| 0 <= j < kept@.len() && is_leaf(kept@[j].1) ==> (#[trigger] kept@[j]).0.end <= leaf_end,
            corresponds(kept@, keep_upto(b, named, i as int).0),
            leaf_end == keep_upto(b, named, i as int).1,
        decreases n - i,
    {
        let (e, range) = rest.pop().unwrap();
        assert((e, range) == raw_v[i as int]);
        let ev = source_event(e);
        proof {
            lemma_agree(e, ev, named[i as int].1);
        }
        let ghost before = kept@;
        let ghost t = named[i as int];
        assert(token_ok(b, (range, ev)) == token_ok(b, t));
        assert(is_leaf(ev) == is_leaf(t.1));
        let fits = token_fits(text, &range, &ev);
        if is_tag_event(&ev) {
            let r = if fits {
                range
            } else {
                0..0
            };
            proof {
                vstd::utf8::encode_utf8_valid_utf8(text@);
                vstd::utf8::is_char_boundary_start_end_of_seq(b);
            }
            kept.push((r, ev));
            proof {
                let k = kept@;
                assert(token_ok(b, (r, ev)));
                assert forall|j: int| 0 <= j < k.len() implies token_ok(b, #[trigger] k[j]) by {
                    if j < before.len() {
                        assert(k[j] == before[j]);
                    }
                }
                assert forall|j: int, l: int|
                    0 <= j < l < k.len() && is_leaf(k[j].1) && is_leaf(k[l].1) implies (#[trigger] k[j]).0.end
                        <= (#[trigger] k[l]).0.start by {
                    assert(k[j] == before[j]);
                    assert(k[l] == before[l]);
                }
                let kn = keep_upto(b, named, i as int).0.push(fitted(b, t));
                assert forall|j: int| 0 <= j < k.len() implies (#[trigger] k[j]).0 == kn[j].0 && agree(k[j].1, kn[j].1) by {
                    if j < before.len() {
                        assert(k[j] == before[j]);
                    }
                }
            }
        } else if fits {
            let leaf = is_leaf_event(&ev);
            if !leaf || range.start >= leaf_end {
                if leaf {
                    leaf_end = range.end;
                }
                kept.push((range, ev));
                proof {
                    let k = kept@;
                    assert forall|j: int| 0 <= j < k.len() implies token_ok(b, #[trigger] k[j]) by {
                        if j < before.len() {
                            assert(k[j] == before[j]);
                        }
                    }
                    assert forall|j: int, l: int|
                        0 <= j < l < k.len() && is_leaf(k[j].1) && is_leaf(k[l].1) implies (#[trigger] k[j]).0.end
                            <= (#[trigger] k[l]).0.start by {
                        assert(k[j] == before[j]);
                        if l < before.len() {
                            assert(k[l] == before[l]);
                        }
                    }
                    let kn = keep_upto(b, named, i as int).0.push(t);
                    assert forall|j: int| 0 <= j < k.len() implies (#[trigger] k[j]).0 == kn[j].0 && agree(k[j].1, kn[j].1) by {
                        if j < before.len() {
                            assert(k[j] == before[j]);
                        }
                    }
                }
            }
        }
        i += 1;
    }
    proof {
        lemma_named_nesting(raw_v, named);
        lemma_keep_nesting(b, named, n as int);
        assert(token_marks(named).take(n as int) =~= token_marks(named));
        lemma_corresponds_nesting(kept@, keep_upto(b, named, n as int).0);
    }
    kept
}

/// Parses markdown `text` into its events with their byte ranges, and the
/// languages of its fenced code blocks, each once, in order of appearance.
/// The result is the normalized form of the tokens that `tokenize` keeps from
/// the tokenizer's events for `text`; every range lies in `text` between
/// character boundaries, and the stretches of text, code and HTML follow each
/// other without overlap, and each end tag closes the innermost open element,
/// none left open. The tokens are the tokenizer's, with the same kinds, plain
/// fields and ranges, and the same text wherever the tokenizer kept a slice or
/// an owned copy; only the characters of strings it built itself are not
/// exposed, and such text always counts as substituted.
pub fn parse_markdown(text: &str) -> (r: (Vec<(Range<usize>, MarkdownEvent)>, Vec<String>))
    ensures
        exists|toks: Seq<(Range<usize>, SourceEvent)>|
            #![trigger normalized(text.spec_bytes(), toks)]
            {
                &&& corresponds(toks, kept_tokens(text.spec_bytes(), markdown_tokens(text.spec_bytes())))
                &&& tokens_ok(text.spec_bytes(), toks)
                &&& emitted_all(r.0@, normalized(text.spec_bytes(), toks).out)
                &&& views(r.1@) == normalized(text.spec_bytes(), toks).langs
            },
        balanced(event_marks(r.0@)),
        no_metadata_tags(r.0@),
        events_in(text.spec_bytes(), r.0@),
        text_ranges_ordered(r.0@),
{
    let tokens = tokenize(text);
    let ghost toks = tokens@;
    let r = normalize_events(text, tokens);
    assert(tokens_ok(text.spec_bytes(), toks));
    assert(emitted_all(r.0@, normalized(text.spec_bytes(), toks).out));
    r
}

} // verus!
