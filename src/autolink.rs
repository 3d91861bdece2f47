//! Bare-URL recognition in plain text, and the events that mark each URL
//! found there as a link.
use crate::event::{
    emitted_all, emitted_as, extends, lemma_extends_push, lemma_extends_refl, lemma_extends_trans, piece,
    Emitted, MarkdownEvent, MarkdownTag, MarkdownTagEnd, Piece,
};
use crate::guarantees::{
    event_text_ranges, events_in, lemma_event_text_ranges, lemma_events_from_pieces,
    lemma_link_triples, lemma_linked_text, lemma_linked_text_empty, lemma_linked_text_tiles,
    lemma_linked_text_triples, link_triples, text_ranges_ordered, tiles,
};
use std::ops::Range;
use vstd::prelude::*;
use vstd::string::StringSliceAdditionalSpecFns;
use vstd::utf8::{encode_utf8, is_char_boundary, valid_utf8};

verus! {

broadcast use vstd::utf8::group_utf8_lib;

/// The byte spans, in order, of the URLs that linkify finds in UTF-8 text.
pub uninterp spec fn url_spans(text: Seq<u8>) -> Seq<(int, int)>;

/// The spans `sp` are not empty, lie in `b`, start and end on character
/// boundaries, and follow each other without overlap.
pub open spec fn spans_ok(b: Seq<u8>, sp: Seq<(int, int)>) -> bool {
    &&& forall|i: int|
        0 <= i < sp.len() ==> {
            &&& 0 <= (#[trigger] sp[i]).0 < sp[i].1 <= b.len()
            &&& is_char_boundary(b, sp[i].0)
            &&& is_char_boundary(b, sp[i].1)
        }
    &&& forall|i: int, j: int| 0 <= i < j < sp.len() ==> (#[trigger] sp[i]).1 <= (#[trigger] sp[j]).0
}

/// The URL spans of `b` that the scanner reports.
pub open spec fn links_of(b: Seq<u8>) -> Seq<(int, int)> {
    if spans_ok(b, url_spans(b)) {
        url_spans(b)
    } else {
        Seq::empty()
    }
}

pub open spec fn spans_of(r: Seq<(usize, usize, String)>) -> Seq<(int, int)> {
    r.map_values(|l: (usize, usize, String)| (l.0 as int, l.1 as int))
}

/// Relies on linkify's `LinkFinder`, limited to URLs: the links it yields lie
/// in the text in order (each search resumes after the previous link), none is
/// empty (a URL runs from its scheme across `://` to at least one more
/// character), and `Link::as_str` is the text's slice between `start` and `end`.
#[verifier::external_body]
fn find_urls(text: &str) -> (r: Vec<(usize, usize, String)>)
    ensures
        spans_of(r@) == url_spans(text.spec_bytes()),
        spans_ok(text.spec_bytes(), spans_of(r@)),
        forall|i: int|
            0 <= i < r@.len() ==> encode_utf8((#[trigger] r@[i]).2@) == text.spec_bytes().subrange(
                r@[i].0 as int,
                r@[i].1 as int,
            ),
{
    let mut finder = linkify::LinkFinder::new();
    finder.kinds(&[linkify::LinkKind::Url]);
    finder.links(text).map(|l| (l.start(), l.end(), l.as_str().to_string())).collect()
}

/// A `Text` piece over `[s, e)`.
pub open spec fn text_piece(s: int, e: int) -> Piece {
    piece(s, e, Emitted::Event(MarkdownEvent::Text))
}

/// A `Text` piece over `[s, e)` when that range is not empty.
pub open spec fn text_if_any(s: int, e: int) -> Seq<Piece> {
    if s < e {
        seq![text_piece(s, e)]
    } else {
        Seq::empty()
    }
}

/// The pieces for one URL at `[s, e)` of `b`, after the text that precedes it
/// from `cursor`.
pub open spec fn link_pieces(b: Seq<u8>, cursor: int, s: int, e: int) -> Seq<Piece> {
    text_if_any(cursor, s) + seq![
        piece(s, e, Emitted::Autolink(b.subrange(s, e))),
        text_piece(s, e),
        piece(s, e, Emitted::Event(MarkdownEvent::End(MarkdownTagEnd::Link))),
    ]
}

/// Where the text after the first `k` URLs of `sp`, shifted by `off`, begins.
pub open spec fn cursor_after(off: int, sp: Seq<(int, int)>, k: int) -> int {
    if k == 0 {
        off
    } else {
        off + sp[k - 1].1
    }
}

/// The pieces for the first `k` URLs of `sp`, shifted by `off`.
pub open spec fn links_prefix(b: Seq<u8>, off: int, sp: Seq<(int, int)>, k: int) -> Seq<Piece>
    decreases k,
{
    if k <= 0 {
        Seq::empty()
    } else {
        links_prefix(b, off, sp, k - 1) + link_pieces(
            b,
            cursor_after(off, sp, k - 1),
            off + sp[k - 1].0,
            off + sp[k - 1].1,
        )
    }
}

/// The pieces for the plain text `[start, end)` of `b`: each URL in it becomes a
/// link around a `Text`, and the stretches between them stay `Text`.
pub open spec fn linked_text(b: Seq<u8>, start: int, end: int) -> Seq<Piece> {
    linked_with(b, start, end, links_of(b.subrange(start, end)))
}

/// The pieces for the plain text `[start, end)` of `b` with the URL spans `sp`,
/// counted from `start`: each becomes a link around a `Text`, and the
/// stretches between them stay `Text`.
pub open spec fn linked_with(b: Seq<u8>, start: int, end: int, sp: Seq<(int, int)>) -> Seq<Piece> {
    links_prefix(b, start, sp, sp.len() as int) + text_if_any(
        cursor_after(start, sp, sp.len() as int),
        end,
    )
}

proof fn lemma_boundary_in_slice(b: Seq<u8>, s: int, e: int, x: int)
    requires
        valid_utf8(b),
        0 <= s <= e <= b.len(),
        is_char_boundary(b, s),
        is_char_boundary(b, e),
        valid_utf8(b.subrange(s, e)),
        0 <= x <= e - s,
    ensures
        is_char_boundary(b.subrange(s, e), x) <==> is_char_boundary(b, s + x),
{
    if x == e - s {
        vstd::utf8::is_char_boundary_start_end_of_seq(b.subrange(s, e));
    } else {
        vstd::utf8::is_char_boundary_iff_not_is_continuation_byte(b.subrange(s, e), x);
        vstd::utf8::is_char_boundary_iff_not_is_continuation_byte(b, s + x);
    }
}

/// The slice of `text` between two character boundaries.
fn slice_of(text: &str, start: usize, end: usize) -> (r: &str)
    requires
        start <= end <= text.spec_bytes().len(),
        is_char_boundary(text.spec_bytes(), start as int),
        is_char_boundary(text.spec_bytes(), end as int),
    ensures
        r.spec_bytes() == text.spec_bytes().subrange(start as int, end as int),
        valid_utf8(r.spec_bytes()),
{
    let ghost b = text.spec_bytes();
    let (_, rest) = text.split_at(start);
    proof {
        vstd::utf8::valid_utf8_split(b, start as int);
        lemma_boundary_in_slice(b, start as int, b.len() as int, (end - start) as int);
    }
    let (r, _) = rest.split_at(end - start);
    proof {
        assert(r.spec_bytes() =~= b.subrange(start as int, end as int));
    }
    r
}

/// Appends the events for the plain text `[start, end)` of `text`: a link
/// around each URL found there, `Text` for what lies between.
/// Appends the events for the plain text `[start, end)` of `text`, given the
/// URLs found in it: each as its span counted from `start` and its characters.
/// Each URL becomes a link around a `Text`; what lies between stays `Text`.
pub fn push_links(
    events: &mut Vec<(Range<usize>, MarkdownEvent)>,
    text: &str,
    start: usize,
    end: usize,
    links: &Vec<(usize, usize, String)>,
)
    requires
        start <= end <= text.spec_bytes().len(),
        is_char_boundary(text.spec_bytes(), start as int),
        is_char_boundary(text.spec_bytes(), end as int),
        spans_ok(text.spec_bytes().subrange(start as int, end as int), spans_of(links@)),
        forall|i: int|
            0 <= i < links@.len() ==> encode_utf8((#[trigger] links@[i]).2@) == text.spec_bytes().subrange(
                start + links@[i].0,
                start + links@[i].1,
            ),
    ensures
        extends(
            final(events)@,
            old(events)@,
            linked_with(text.spec_bytes(), start as int, end as int, spans_of(links@)),
        ),
{
    let ghost b = text.spec_bytes();
    let ghost old_events = events@;
    let ghost sb = b.subrange(start as int, end as int);
    let ghost sp = spans_of(links@);
    proof {
        vstd::utf8::encode_utf8_valid_utf8(text@);
        vstd::utf8::valid_utf8_split(b, start as int);
        lemma_boundary_in_slice(b, start as int, b.len() as int, (end - start) as int);
        let rest = b.subrange(start as int, b.len() as int);
        vstd::utf8::valid_utf8_split(rest, (end - start) as int);
        assert(rest.subrange(0, (end - start) as int) =~= sb);
        assert forall|i: int| 0 <= i < links@.len() implies encode_utf8((#[trigger] links@[i]).2@)
            == sb.subrange(links@[i].0 as int, links@[i].1 as int) by {
            assert(sp[i] == (links@[i].0 as int, links@[i].1 as int));
            assert(sb.subrange(links@[i].0 as int, links@[i].1 as int) =~= b.subrange(
                start + links@[i].0,
                start + links@[i].1,
            ));
        }
    }
    let mut cursor = start;
    let mut k: usize = 0;
    proof {
        lemma_extends_refl(old_events);
    }
    while k < links.len()
        invariant
            b == text.spec_bytes(),
            sb == b.subrange(start as int, end as int),
            valid_utf8(b),
            valid_utf8(sb),
            start <= end <= b.len(),
            is_char_boundary(b, start as int),
            is_char_boundary(b, end as int),
            sp == spans_of(links@),
            spans_ok(sb, sp),
            forall|i: int|
                0 <= i < links@.len() ==> encode_utf8((#[trigger] links@[i]).2@) == sb.subrange(
                    links@[i].0 as int,
                    links@[i].1 as int,
                ),
            k <= links@.len(),
            cursor == cursor_after(start as int, sp, k as int),
            start <= cursor <= end,
            extends(events@, old_events, links_prefix(b, start as int, sp, k as int)),
        decreases links@.len() - k,
    {
        let ghost before = events@;
        let link = &links[k];
        assert(sp[k as int] == (link.0 as int, link.1 as int));
        let s = start + link.0;
        let e = start + link.1;
        if s > cursor {
            events.push((cursor..s, MarkdownEvent::Text));
        }
        let ghost mid = events@;
        proof {
            if s > cursor {
                lemma_extends_push(before, (cursor..s, MarkdownEvent::Text), text_piece(cursor as int, s as int));
            } else {
                lemma_extends_refl(before);
            }
            assert(sb.subrange(link.0 as int, link.1 as int) =~= b.subrange(s as int, e as int));
        }
        let ev1 = (
            s..e,
            MarkdownEvent::Start(
                MarkdownTag::Link {
                    link_type: pulldown_cmark::LinkType::Autolink,
                    dest_url: link.2.clone(),
                    title: String::new(),
                    id: String::new(),
                },
            ),
        );
        events.push(ev1);
        events.push((s..e, MarkdownEvent::Text));
        events.push((s..e, MarkdownEvent::End(MarkdownTagEnd::Link)));
        proof {
            let p1 = piece(s as int, e as int, Emitted::Autolink(b.subrange(s as int, e as int)));
            let p2 = text_piece(s as int, e as int);
            let p3 = piece(s as int, e as int, Emitted::Event(MarkdownEvent::End(MarkdownTagEnd::Link)));
            let m1 = mid.push(ev1);
            let m2 = m1.push((s..e, MarkdownEvent::Text));
            lemma_extends_push(mid, ev1, p1);
            lemma_extends_push(m1, (s..e, MarkdownEvent::Text), p2);
            lemma_extends_push(m2, (s..e, MarkdownEvent::End(MarkdownTagEnd::Link)), p3);
            lemma_extends_trans(mid, m1, m2, seq![p1], seq![p2]);
            lemma_extends_trans(mid, m2, events@, seq![p1] + seq![p2], seq![p3]);
            lemma_extends_trans(before, mid, events@, text_if_any(cursor as int, s as int), seq![p1] + seq![p2] + seq![p3]);
            assert(text_if_any(cursor as int, s as int) + (seq![p1] + seq![p2] + seq![p3]) =~= link_pieces(b, cursor as int, s as int, e as int));
            lemma_extends_trans(old_events, before, events@, links_prefix(b, start as int, sp, k as int), link_pieces(b, cursor as int, s as int, e as int));
        }
        cursor = e;
        k += 1;
    }
    let ghost before = events@;
    if cursor < end {
        events.push((cursor..end, MarkdownEvent::Text));
    }
    proof {
        if cursor < end {
            lemma_extends_push(before, (cursor..end, MarkdownEvent::Text), text_piece(cursor as int, end as int));
        } else {
            lemma_extends_refl(before);
        }
        lemma_extends_trans(old_events, before, events@, links_prefix(b, start as int, sp, k as int), text_if_any(cursor as int, end as int));
    }
}

/// Appends the events for the plain text `[start, end)` of `text`: a link
/// around each URL found there, `Text` for what lies between.
pub fn push_linked_text(
    events: &mut Vec<(Range<usize>, MarkdownEvent)>,
    text: &str,
    start: usize,
    end: usize,
)
    requires
        start <= end <= text.spec_bytes().len(),
        is_char_boundary(text.spec_bytes(), start as int),
        is_char_boundary(text.spec_bytes(), end as int),
    ensures
        extends(final(events)@, old(events)@, linked_text(text.spec_bytes(), start as int, end as int)),
{
    let ghost b = text.spec_bytes();
    let slice = slice_of(text, start, end);
    let links = find_urls(slice);
    assert(links_of(slice.spec_bytes()) == spans_of(links@));
    proof {
        assert forall|i: int| 0 <= i < links@.len() implies encode_utf8((#[trigger] links@[i]).2@)
            == b.subrange(start + links@[i].0, start + links@[i].1) by {
            assert(spans_of(links@)[i] == (links@[i].0 as int, links@[i].1 as int));
            assert(slice.spec_bytes().subrange(links@[i].0 as int, links@[i].1 as int) =~= b.subrange(
                start + links@[i].0,
                start + links@[i].1,
            ));
        }
    }
    push_links(events, text, start, end, &links);
}

/// The events for `text` read as plain text with no markdown: a link around
/// each URL that the scanner finds, `Text` for the rest.
pub fn parse_links_only(text: &str) -> (r: Vec<(Range<usize>, MarkdownEvent)>)
    ensures
        extends(r@, Seq::empty(), linked_text(text.spec_bytes(), 0, text.spec_bytes().len() as int)),
        events_in(text.spec_bytes(), r@),
        text_ranges_ordered(r@),
        tiles(event_text_ranges(r@), 0, text.spec_bytes().len() as int),
        text.spec_bytes().len() == 0 ==> r@.len() == 0,
        link_triples(r@),
{
    let mut events: Vec<(Range<usize>, MarkdownEvent)> = Vec::new();
    proof {
        vstd::utf8::encode_utf8_valid_utf8(text@);
        vstd::utf8::is_char_boundary_start_end_of_seq(text.spec_bytes());
    }
    let n = text.as_bytes().len();
    push_linked_text(&mut events, text, 0, n);
    assert(events@.subrange(0, 0) == Seq::<(Range<usize>, MarkdownEvent)>::empty());
    proof {
        let ps = linked_text(text.spec_bytes(), 0, n as int);
        lemma_linked_text(text.spec_bytes(), 0, n as int);
        assert forall|i: int| 0 <= i < events@.len() implies emitted_as(#[trigger] events@[i], ps[i]) by {
            assert(events@[i] == events@[0 + i]);
        }
        lemma_events_from_pieces(text.spec_bytes(), events@, ps);
        assert(emitted_all(events@, ps));
        lemma_event_text_ranges(events@, ps);
        lemma_linked_text_tiles(text.spec_bytes(), 0, n as int);
        if n == 0 {
            lemma_linked_text_empty(text.spec_bytes(), 0);
        }
        lemma_linked_text_triples(text.spec_bytes(), 0, n as int);
        lemma_link_triples(events@, ps);
    }
    events
}

} // verus!
