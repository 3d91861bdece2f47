//! What holds of every output of the parser: ranges in bounds and on
//! character boundaries, stretches of text in order without overlap, no
//! autolinks inside explicit links, nothing from inside a metadata block.
use crate::autolink::{
    cursor_after, link_pieces, linked_text, links_of, links_prefix, spans_ok, text_if_any,
    text_piece, url_spans,
};
use crate::event::{emitted_all, emitted_as, end_matches, expected_end, extends, MarkdownTagEnd, piece, Emitted, MarkdownEvent, MarkdownTag, Piece};
use crate::normalize::{
    closes_link, emit, flushed, is_leaf, opens_link, norm_upto, normalized, step, token_ok, tokens_ok, Norm, SourceEvent,
};
use std::ops::Range;
use vstd::prelude::*;
use vstd::utf8::{encode_utf8, is_char_boundary, valid_utf8};

verus! {

broadcast use vstd::utf8::group_utf8_lib;

/// `p` lies in `b` and starts and ends on character boundaries.
pub open spec fn piece_in(b: Seq<u8>, p: Piece) -> bool {
    &&& 0 <= p.start <= p.end <= b.len()
    &&& is_char_boundary(b, p.start)
    &&& is_char_boundary(b, p.end)
}

pub open spec fn pieces_in(b: Seq<u8>, ps: Seq<Piece>) -> bool {
    forall|i: int| 0 <= i < ps.len() ==> piece_in(b, #[trigger] ps[i])
}

/// Events that stand for a stretch of the source.
pub open spec fn leaf_event(e: MarkdownEvent) -> bool {
    e is Text || e is SubstitutedText || e is Code || e is Html || e is InlineHtml
}

pub open spec fn leaf_piece(p: Piece) -> bool {
    match p.what {
        Emitted::Event(e) => leaf_event(e),
        Emitted::Substituted(_) => true,
        Emitted::Autolink(_) => false,
    }
}

/// The stretches of source among `ps` follow each other without overlap.
pub open spec fn leaves_ordered(ps: Seq<Piece>) -> bool {
    forall|i: int, j: int|
        0 <= i < j < ps.len() && leaf_piece(ps[i]) && leaf_piece(ps[j]) ==> (#[trigger] ps[i]).end
            <= (#[trigger] ps[j]).start
}

/// The stretches of source among `ps` lie between `lo` and `hi`.
pub open spec fn leaves_between(ps: Seq<Piece>, lo: int, hi: int) -> bool {
    forall|i: int| 0 <= i < ps.len() && leaf_piece(#[trigger] ps[i]) ==> lo <= ps[i].start && ps[i].end <= hi
}

proof fn lemma_concat(b: Seq<u8>, a: Seq<Piece>, c: Seq<Piece>, lo: int, x: int, hi: int)
    requires
        pieces_in(b, a),
        pieces_in(b, c),
        leaves_ordered(a),
        leaves_ordered(c),
        leaves_between(a, lo, x),
        leaves_between(c, x, hi),
        lo <= x <= hi,
    ensures
        pieces_in(b, a + c),
        leaves_ordered(a + c),
        leaves_between(a + c, lo, hi),
{
    let ac = a + c;
    assert forall|i: int| 0 <= i < ac.len() implies piece_in(b, #[trigger] ac[i]) by {
        if i < a.len() {
            assert(ac[i] == a[i]);
        } else {
            assert(ac[i] == c[i - a.len()]);
        }
    }
    assert forall|i: int, j: int|
        0 <= i < j < ac.len() && leaf_piece(ac[i]) && leaf_piece(ac[j]) implies (#[trigger] ac[i]).end
            <= (#[trigger] ac[j]).start by {
        if j < a.len() {
            assert(ac[i] == a[i] && ac[j] == a[j]);
        } else if i >= a.len() {
            assert(ac[i] == c[i - a.len()] && ac[j] == c[j - a.len()]);
        } else {
            assert(ac[i] == a[i] && ac[j] == c[j - a.len()]);
        }
    }
    assert forall|i: int| 0 <= i < ac.len() && leaf_piece(#[trigger] ac[i]) implies lo <= ac[i].start
        && ac[i].end <= hi by {
        if i < a.len() {
            assert(ac[i] == a[i]);
        } else {
            assert(ac[i] == c[i - a.len()]);
        }
    }
}

proof fn lemma_single(b: Seq<u8>, p: Piece)
    requires
        piece_in(b, p),
    ensures
        pieces_in(b, seq![p]),
        leaves_ordered(seq![p]),
        leaf_piece(p) ==> leaves_between(seq![p], p.start, p.end),
        !leaf_piece(p) ==> forall|lo: int, hi: int| leaves_between(seq![p], lo, hi),
{
}

proof fn lemma_text_if_any(b: Seq<u8>, s: int, e: int)
    requires
        0 <= s <= e <= b.len(),
        is_char_boundary(b, s),
        is_char_boundary(b, e),
    ensures
        pieces_in(b, text_if_any(s, e)),
        leaves_ordered(text_if_any(s, e)),
        leaves_between(text_if_any(s, e), s, e),
{
    if s < e {
        lemma_single(b, text_piece(s, e));
    }
}

proof fn lemma_sub_boundary(b: Seq<u8>, s: int, e: int, x: int)
    requires
        valid_utf8(b),
        0 <= s <= e <= b.len(),
        is_char_boundary(b, s),
        is_char_boundary(b, e),
        0 <= x <= e - s,
        is_char_boundary(b.subrange(s, e), x),
    ensures
        is_char_boundary(b, s + x),
{
    vstd::utf8::valid_utf8_split(b, s);
    let rest = b.subrange(s, b.len() as int);
    if e - s < rest.len() {
        vstd::utf8::is_char_boundary_iff_not_is_continuation_byte(rest, e - s);
    } else {
        vstd::utf8::is_char_boundary_start_end_of_seq(rest);
    }
    vstd::utf8::valid_utf8_split(rest, e - s);
    assert(rest.subrange(0, e - s) =~= b.subrange(s, e));
    let sub = b.subrange(s, e);
    if x == e - s {
    } else {
        vstd::utf8::is_char_boundary_iff_not_is_continuation_byte(sub, x);
        vstd::utf8::is_char_boundary_iff_not_is_continuation_byte(b, s + x);
    }
}

proof fn lemma_links_prefix(b: Seq<u8>, s: int, e: int, k: int)
    requires
        valid_utf8(b),
        0 <= s <= e <= b.len(),
        is_char_boundary(b, s),
        is_char_boundary(b, e),
        0 <= k <= links_of(b.subrange(s, e)).len(),
    ensures
        ({
            let sp = links_of(b.subrange(s, e));
            let c = cursor_after(s, sp, k);
            &&& pieces_in(b, links_prefix(b, s, sp, k))
            &&& leaves_ordered(links_prefix(b, s, sp, k))
            &&& leaves_between(links_prefix(b, s, sp, k), s, c)
            &&& s <= c <= e
            &&& is_char_boundary(b, c)
        }),
    decreases k,
{
    let sub = b.subrange(s, e);
    let sp = links_of(sub);
    assert(spans_ok(sub, sp));
    if k > 0 {
        lemma_links_prefix(b, s, e, k - 1);
        let c = cursor_after(s, sp, k - 1);
        let ls = s + sp[k - 1].0;
        let le = s + sp[k - 1].1;
        if k > 1 {
            assert(sp[k - 2].1 <= sp[k - 1].0);
        }
        lemma_sub_boundary(b, s, e, sp[k - 1].0);
        lemma_sub_boundary(b, s, e, sp[k - 1].1);
        lemma_text_if_any(b, c, ls);
        let p1 = piece(ls, le, Emitted::Autolink(b.subrange(ls, le)));
        let p2 = text_piece(ls, le);
        let p3 = piece(ls, le, Emitted::Event(MarkdownEvent::End(crate::event::MarkdownTagEnd::Link)));
        lemma_single(b, p1);
        lemma_single(b, p2);
        lemma_single(b, p3);
        lemma_concat(b, seq![p1], seq![p2], ls, ls, le);
        lemma_concat(b, seq![p1] + seq![p2], seq![p3], ls, le, le);
        assert(seq![p1, p2, p3] =~= seq![p1] + seq![p2] + seq![p3]);
        lemma_concat(b, text_if_any(c, ls), seq![p1, p2, p3], c, ls, le);
        assert(link_pieces(b, c, ls, le) == text_if_any(c, ls) + seq![p1, p2, p3]);
        lemma_concat(b, links_prefix(b, s, sp, k - 1), link_pieces(b, c, ls, le), s, c, le);
    }
}

/// The pieces for a stretch of plain text lie in it, on character boundaries,
/// with their stretches of text in order.
pub proof fn lemma_linked_text(b: Seq<u8>, s: int, e: int)
    requires
        valid_utf8(b),
        0 <= s <= e <= b.len(),
        is_char_boundary(b, s),
        is_char_boundary(b, e),
    ensures
        pieces_in(b, linked_text(b, s, e)),
        leaves_ordered(linked_text(b, s, e)),
        leaves_between(linked_text(b, s, e), s, e),
{
    let sp = links_of(b.subrange(s, e));
    lemma_links_prefix(b, s, e, sp.len() as int);
    let c = cursor_after(s, sp, sp.len() as int);
    lemma_text_if_any(b, c, e);
    lemma_concat(b, links_prefix(b, s, sp, sp.len() as int), text_if_any(c, e), s, c, e);
}

/// Where the last text, code or HTML token among the first `n` ends.
pub open spec fn frontier(toks: Seq<(Range<usize>, SourceEvent)>, n: int) -> int
    decreases n,
{
    if n <= 0 {
        0
    } else if is_leaf(toks[n - 1].1) {
        toks[n - 1].0.end as int
    } else {
        frontier(toks, n - 1)
    }
}

proof fn lemma_frontier(b: Seq<u8>, toks: Seq<(Range<usize>, SourceEvent)>, n: int)
    requires
        valid_utf8(b),
        tokens_ok(b, toks),
        0 <= n <= toks.len(),
    ensures
        0 <= frontier(toks, n) <= b.len(),
        is_char_boundary(b, frontier(toks, n)),
        forall|j: int| n <= j < toks.len() && is_leaf(toks[j].1) ==> frontier(toks, n) <= (
        #[trigger] toks[j]).0.start,
    decreases n,
{
    vstd::utf8::is_char_boundary_start_end_of_seq(b);
    if n > 0 {
        lemma_frontier(b, toks, n - 1);
        assert(token_ok(b, toks[n - 1]));
        if is_leaf(toks[n - 1].1) {
            assert forall|j: int| n <= j < toks.len() && is_leaf(toks[j].1) implies toks[n
                - 1].0.end <= (#[trigger] toks[j]).0.start by {
                assert(toks[n - 1].0.end <= toks[j].0.start);
            }
        }
    }
}

/// What holds after each token: the pieces so far lie in the source, their
/// stretches of text are in order and end before what may come next.
pub open spec fn pass_ok(b: Seq<u8>, toks: Seq<(Range<usize>, SourceEvent)>, n: int, m: Norm) -> bool {
    &&& pieces_in(b, m.out)
    &&& leaves_ordered(m.out)
    &&& m.meta ==> !m.pending
    &&& m.pending ==> {
        &&& leaves_between(m.out, 0, m.run_start)
        &&& 0 <= m.run_start <= m.run_end
        &&& m.run_end == frontier(toks, n)
        &&& is_char_boundary(b, m.run_start)
        &&& is_char_boundary(b, m.run_end)
    }
    &&& !m.pending ==> leaves_between(m.out, 0, frontier(toks, n))
}

proof fn lemma_flushed(b: Seq<u8>, toks: Seq<(Range<usize>, SourceEvent)>, n: int, m: Norm)
    requires
        valid_utf8(b),
        tokens_ok(b, toks),
        0 <= n <= toks.len(),
        pass_ok(b, toks, n, m),
    ensures
        pieces_in(b, flushed(m).out),
        leaves_ordered(flushed(m).out),
        leaves_between(flushed(m).out, 0, frontier(toks, n)),
        !flushed(m).pending,
        flushed(m).links == m.links,
        flushed(m).meta == m.meta,
        flushed(m).langs == m.langs,
{
    lemma_frontier(b, toks, n);
    if m.pending {
        let p = piece(m.run_start, m.run_end, Emitted::Substituted(m.run_text));
        lemma_single(b, p);
        lemma_concat(b, m.out, seq![p], 0, m.run_start, m.run_end);
        assert(flushed(m).out == m.out + seq![p]);
    }
}

proof fn lemma_emit(b: Seq<u8>, toks: Seq<(Range<usize>, SourceEvent)>, n: int, m: Norm, p: Piece)
    requires
        valid_utf8(b),
        tokens_ok(b, toks),
        0 <= n < toks.len(),
        pass_ok(b, toks, n, m),
        piece_in(b, p),
        leaf_piece(p) ==> frontier(toks, n) <= p.start && p.end <= frontier(toks, n + 1),
        !leaf_piece(p) ==> frontier(toks, n) <= frontier(toks, n + 1),
    ensures
        pass_ok(b, toks, n + 1, Norm { meta: false, ..emit(m, p) }),
{
    lemma_flushed(b, toks, n, m);
    lemma_frontier(b, toks, n);
    let f = flushed(m);
    lemma_single(b, p);
    if leaf_piece(p) {
        lemma_concat(b, f.out, seq![p], 0, p.start, p.end);
    } else {
        lemma_concat(b, f.out, seq![p], 0, frontier(toks, n), frontier(toks, n));
    }
    assert(emit(m, p).out == f.out + seq![p]);
}

proof fn lemma_step(b: Seq<u8>, toks: Seq<(Range<usize>, SourceEvent)>, n: int)
    requires
        valid_utf8(b),
        tokens_ok(b, toks),
        0 <= n < toks.len(),
        pass_ok(b, toks, n, norm_upto(b, toks, n)),
    ensures
        pass_ok(b, toks, n + 1, norm_upto(b, toks, n + 1)),
{
    let m = norm_upto(b, toks, n);
    let t = toks[n];
    let s = t.0.start as int;
    let e = t.0.end as int;
    assert(token_ok(b, t));
    lemma_frontier(b, toks, n);
    lemma_frontier(b, toks, n + 1);
    assert(norm_upto(b, toks, n + 1) == step(b, m, t));
    if is_leaf(t.1) {
        assert(frontier(toks, n) <= s);
        assert(frontier(toks, n + 1) == e);
    } else {
        assert(frontier(toks, n + 1) == frontier(toks, n));
    }
    if m.meta {
    } else {
        match t.1 {
            SourceEvent::Text { text: p, inlined } => {
                if !inlined && encode_utf8(p@) == b.subrange(s, e) {
                    lemma_flushed(b, toks, n, m);
                    let f = flushed(m);
                    if f.links > 0 {
                        lemma_text_if_any(b, s, e);
                        lemma_concat(b, f.out, text_if_any(s, e), 0, s, e);
                    } else {
                        lemma_linked_text(b, s, e);
                        lemma_concat(b, f.out, linked_text(b, s, e), 0, s, e);
                    }
                } else {
                }
            },
            SourceEvent::Start { tag, .. } => {
                match tag {
                    MarkdownTag::MetadataBlock(_) => {
                        lemma_flushed(b, toks, n, m);
                    },
                    _ => {
                        lemma_emit(b, toks, n, m, piece(s, e, Emitted::Event(MarkdownEvent::Start(tag))));
                    },
                }
            },
            SourceEvent::End(end) => {
                lemma_emit(b, toks, n, m, piece(s, e, Emitted::Event(MarkdownEvent::End(end))));
            },
            SourceEvent::Code => {
                lemma_emit(b, toks, n, m, piece(s + 1, e - 1, Emitted::Event(MarkdownEvent::Code)));
            },
            SourceEvent::Math => {
                lemma_flushed(b, toks, n, m);
            },
            SourceEvent::Html => {
                lemma_emit(b, toks, n, m, piece(s, e, Emitted::Event(MarkdownEvent::Html)));
            },
            SourceEvent::InlineHtml => {
                lemma_emit(b, toks, n, m, piece(s, e, Emitted::Event(MarkdownEvent::InlineHtml)));
            },
            SourceEvent::FootnoteReference => {
                lemma_emit(b, toks, n, m, piece(s, e, Emitted::Event(MarkdownEvent::FootnoteReference)));
            },
            SourceEvent::SoftBreak => {
                lemma_emit(b, toks, n, m, piece(s, e, Emitted::Event(MarkdownEvent::SoftBreak)));
            },
            SourceEvent::HardBreak => {
                lemma_emit(b, toks, n, m, piece(s, e, Emitted::Event(MarkdownEvent::HardBreak)));
            },
            SourceEvent::Rule => {
                lemma_emit(b, toks, n, m, piece(s, e, Emitted::Event(MarkdownEvent::Rule)));
            },
            SourceEvent::TaskListMarker(c) => {
                lemma_emit(b, toks, n, m, piece(s, e, Emitted::Event(MarkdownEvent::TaskListMarker(c))));
            },
        }
    }
}

proof fn lemma_pass(b: Seq<u8>, toks: Seq<(Range<usize>, SourceEvent)>, n: int)
    requires
        valid_utf8(b),
        tokens_ok(b, toks),
        0 <= n <= toks.len(),
    ensures
        pass_ok(b, toks, n, norm_upto(b, toks, n)),
    decreases n,
{
    if n > 0 {
        lemma_pass(b, toks, n - 1);
        lemma_step(b, toks, n - 1);
    }
}

/// Every output range lies in the source between character boundaries, and
/// the ranges of text, substituted text, code and HTML follow each other in
/// emission order without overlap.
pub proof fn lemma_output_ranges(b: Seq<u8>, toks: Seq<(Range<usize>, SourceEvent)>)
    requires
        valid_utf8(b),
        tokens_ok(b, toks),
    ensures
        pieces_in(b, normalized(b, toks).out),
        leaves_ordered(normalized(b, toks).out),
{
    lemma_pass(b, toks, toks.len() as int);
    lemma_flushed(b, toks, toks.len() as int, norm_upto(b, toks, toks.len() as int));
}

/// The range `r` lies in `b` between character boundaries.
pub open spec fn range_in(b: Seq<u8>, r: Range<usize>) -> bool {
    &&& r.start <= r.end <= b.len()
    &&& is_char_boundary(b, r.start as int)
    &&& is_char_boundary(b, r.end as int)
}

pub open spec fn events_in(b: Seq<u8>, evs: Seq<(Range<usize>, MarkdownEvent)>) -> bool {
    forall|i: int| 0 <= i < evs.len() ==> range_in(b, (#[trigger] evs[i]).0)
}

/// The ranges of text, substituted text, code and HTML follow each other in
/// order without overlap.
pub open spec fn text_ranges_ordered(evs: Seq<(Range<usize>, MarkdownEvent)>) -> bool {
    forall|i: int, j: int|
        0 <= i < j < evs.len() && leaf_event(evs[i].1) && leaf_event(evs[j].1) ==> (#[trigger] evs[i]).0.end
            <= (#[trigger] evs[j]).0.start
}

pub proof fn lemma_events_from_pieces(
    b: Seq<u8>,
    evs: Seq<(Range<usize>, MarkdownEvent)>,
    ps: Seq<Piece>,
)
    requires
        emitted_all(evs, ps),
        pieces_in(b, ps),
        leaves_ordered(ps),
    ensures
        events_in(b, evs),
        text_ranges_ordered(evs),
{
    assert forall|i: int| 0 <= i < evs.len() implies leaf_event(#[trigger] evs[i].1) == leaf_piece(ps[i]) by {
        assert(emitted_as(evs[i], ps[i]));
    }
    assert forall|i: int| 0 <= i < evs.len() implies range_in(b, (#[trigger] evs[i]).0) by {
        assert(emitted_as(evs[i], ps[i]));
        assert(piece_in(b, ps[i]));
    }
    assert forall|i: int, j: int|
        0 <= i < j < evs.len() && leaf_event(evs[i].1) && leaf_event(evs[j].1) implies (#[trigger] evs[i]).0.end
            <= (#[trigger] evs[j]).0.start by {
        assert(emitted_as(evs[i], ps[i]));
        assert(emitted_as(evs[j], ps[j]));
        assert(leaf_event(evs[i].1) == leaf_piece(ps[i]));
        assert(leaf_event(evs[j].1) == leaf_piece(ps[j]));
    }
}

pub open spec fn starts_metadata(e: SourceEvent) -> bool {
    e matches SourceEvent::Start { tag: MarkdownTag::MetadataBlock(_), .. }
}

pub open spec fn ends_metadata(e: SourceEvent) -> bool {
    e matches SourceEvent::End(crate::event::MarkdownTagEnd::MetadataBlock(_))
}

pub open spec fn starts_link(e: SourceEvent) -> bool {
    match e {
        SourceEvent::Start { tag, .. } => opens_link(tag),
        _ => false,
    }
}

pub open spec fn ends_link(e: SourceEvent) -> bool {
    match e {
        SourceEvent::End(end) => closes_link(end),
        _ => false,
    }
}

proof fn lemma_inside_metadata(b: Seq<u8>, toks: Seq<(Range<usize>, SourceEvent)>, k: int, n: int)
    requires
        0 <= k < n <= toks.len(),
        starts_metadata(toks[k].1),
        !norm_upto(b, toks, k).meta,
        forall|j: int| k < j < n ==> !ends_metadata(#[trigger] toks[j].1),
    ensures
        norm_upto(b, toks, n).meta,
        norm_upto(b, toks, n).out == flushed(norm_upto(b, toks, k)).out,
    decreases n,
{
    if n > k + 1 {
        lemma_inside_metadata(b, toks, k, n - 1);
        assert(!ends_metadata(toks[n - 1].1));
    }
}

/// A metadata block adds nothing to the output: from its start tag through the
/// first metadata end tag after it, the pass emits only the substituted text
/// that was pending before the block, and the end tag leaves the block.
pub proof fn lemma_metadata_suppressed(
    b: Seq<u8>,
    toks: Seq<(Range<usize>, SourceEvent)>,
    k: int,
    n: int,
)
    requires
        0 <= k < n < toks.len(),
        starts_metadata(toks[k].1),
        !norm_upto(b, toks, k).meta,
        forall|j: int| k < j < n ==> !ends_metadata(#[trigger] toks[j].1),
    ensures
        norm_upto(b, toks, n + 1).out == flushed(norm_upto(b, toks, k)).out,
        ends_metadata(toks[n].1) ==> !norm_upto(b, toks, n + 1).meta,
{
    lemma_inside_metadata(b, toks, k, n);
}

/// Link and image start tags minus link and image end tags among the tokens
/// `toks[from..to]`.
pub open spec fn link_net(toks: Seq<(Range<usize>, SourceEvent)>, from: int, to: int) -> int
    decreases to - from,
{
    if to <= from {
        0
    } else {
        link_net(toks, from, to - 1) + if starts_link(toks[to - 1].1) {
            1int
        } else if ends_link(toks[to - 1].1) {
            -1int
        } else {
            0int
        }
    }
}

proof fn lemma_link_stays_open(b: Seq<u8>, toks: Seq<(Range<usize>, SourceEvent)>, k: int, n: int)
    requires
        0 <= k < n <= toks.len(),
        starts_link(toks[k].1),
        !norm_upto(b, toks, k).meta,
        forall|j: int| k < j < n ==> !starts_metadata(#[trigger] toks[j].1),
        forall|j: int| k < j <= n ==> #[trigger] link_net(toks, k + 1, j) >= 0,
    ensures
        !norm_upto(b, toks, n).meta,
        norm_upto(b, toks, n).links == norm_upto(b, toks, k).links + 1 + link_net(toks, k + 1, n),
    decreases n,
{
    if n > k + 1 {
        lemma_link_stays_open(b, toks, k, n - 1);
        assert(!starts_metadata(toks[n - 1].1));
        assert(link_net(toks, k + 1, n - 1) >= 0);
    }
}

/// Text inside an explicit link or image is never scanned for URLs: after a
/// link or image start tag, as long as the link and image end tags after it
/// never outnumber the start tags after it, and no metadata block starts, a
/// token of source text adds one `Text` over its range and nothing else.
pub proof fn lemma_no_autolink_in_link(
    b: Seq<u8>,
    toks: Seq<(Range<usize>, SourceEvent)>,
    k: int,
    n: int,
)
    requires
        0 <= k < n < toks.len(),
        starts_link(toks[k].1),
        !norm_upto(b, toks, k).meta,
        forall|j: int| k < j < n ==> !starts_metadata(#[trigger] toks[j].1),
        forall|j: int| k < j <= n ==> #[trigger] link_net(toks, k + 1, j) >= 0,
        toks[n].1 matches SourceEvent::Text { text: p, inlined: false } && encode_utf8(p@) == b.subrange(
            toks[n].0.start as int,
            toks[n].0.end as int,
        ),
    ensures
        norm_upto(b, toks, n + 1).out == flushed(norm_upto(b, toks, n)).out + text_if_any(
            toks[n].0.start as int,
            toks[n].0.end as int,
        ),
{
    lemma_link_stays_open(b, toks, k, n);
    assert(link_net(toks, k + 1, n) >= 0);
}

/// Scanning the same text twice gives the same links: any two results that
/// `parse_links_only` may return for one text have the same events over the
/// same ranges.
pub proof fn lemma_links_only_deterministic(
    text: Seq<u8>,
    r1: Seq<(Range<usize>, MarkdownEvent)>,
    r2: Seq<(Range<usize>, MarkdownEvent)>,
)
    requires
        extends(r1, Seq::empty(), linked_text(text, 0, text.len() as int)),
        extends(r2, Seq::empty(), linked_text(text, 0, text.len() as int)),
    ensures
        r1.len() == r2.len(),
        forall|i: int| 0 <= i < r1.len() ==> (#[trigger] r1[i]).0 == r2[i].0,
        forall|i: int|
            0 <= i < r1.len() ==> same_kind((#[trigger] r1[i]).1, r2[i].1),
{
    let ps = linked_text(text, 0, text.len() as int);
    assert forall|i: int| 0 <= i < r1.len() implies (#[trigger] r1[i]).0 == r2[i].0 && same_kind(r1[i].1, r2[i].1) by {
        assert(emitted_as(r1[0 + i], ps[i]));
        assert(emitted_as(r2[0 + i], ps[i]));
        assert(r1[0 + i] == r1[i]);
        assert(r2[0 + i] == r2[i]);
        match (r1[i].1, r2[i].1) {
            (
                MarkdownEvent::Start(MarkdownTag::Link { dest_url: d1, title: t1, id: i1, .. }),
                MarkdownEvent::Start(MarkdownTag::Link { dest_url: d2, title: t2, id: i2, .. }),
            ) => {
                vstd::utf8::encode_utf8_decode_utf8(d1@);
                vstd::utf8::encode_utf8_decode_utf8(d2@);
                if ps[i].what is Autolink {
                    assert(t1@ =~= t2@);
                    assert(i1@ =~= i2@);
                }
            },
            _ => {},
        }
    }
}

/// The two events are equal, or are both the start of an autolink to the
/// same destination, or both substituted text with the same characters.
pub open spec fn same_kind(a: MarkdownEvent, c: MarkdownEvent) -> bool {
    a == c || match (a, c) {
        (
            MarkdownEvent::Start(MarkdownTag::Link { link_type: l1, dest_url: d1, title: t1, id: i1 }),
            MarkdownEvent::Start(MarkdownTag::Link { link_type: l2, dest_url: d2, title: t2, id: i2 }),
        ) => l1 == l2 && d1@ == d2@ && t1@ == t2@ && i1@ == i2@,
        (MarkdownEvent::SubstitutedText(s1), MarkdownEvent::SubstitutedText(s2)) => s1@ == s2@,
        _ => false,
    }
}

/// What an event means for the nesting of elements.
pub enum Mark {
    /// Opens an element that the given end tag closes.
    Open(MarkdownTagEnd),
    /// Closes an element.
    Close(MarkdownTagEnd),
    Other,
}

pub open spec fn event_mark(e: MarkdownEvent) -> Mark {
    match e {
        MarkdownEvent::Start(tag) => Mark::Open(expected_end(tag)),
        MarkdownEvent::End(end) => Mark::Close(end),
        _ => Mark::Other,
    }
}

pub open spec fn piece_mark(p: Piece) -> Mark {
    match p.what {
        Emitted::Event(e) => event_mark(e),
        Emitted::Autolink(_) => Mark::Open(MarkdownTagEnd::Link),
        Emitted::Substituted(_) => Mark::Other,
    }
}

pub open spec fn token_mark(e: SourceEvent) -> Mark {
    match e {
        SourceEvent::Start { tag, .. } => Mark::Open(expected_end(tag)),
        SourceEvent::End(end) => Mark::Close(end),
        _ => Mark::Other,
    }
}

/// The open elements after one more mark, or `None` once an end tag does not
/// close the innermost open element.
pub open spec fn push_mark(st: Option<Seq<MarkdownTagEnd>>, m: Mark) -> Option<Seq<MarkdownTagEnd>> {
    match st {
        None => None,
        Some(s) => match m {
            Mark::Open(x) => Some(s.push(x)),
            Mark::Close(end) => if s.len() > 0 && end_matches(s.last(), end) {
                Some(s.drop_last())
            } else {
                None
            },
            Mark::Other => Some(s),
        },
    }
}

/// The elements left open after the marks `ms`, innermost last.
pub open spec fn open_after(ms: Seq<Mark>) -> Option<Seq<MarkdownTagEnd>>
    decreases ms.len(),
{
    if ms.len() == 0 {
        Some(Seq::empty())
    } else {
        push_mark(open_after(ms.drop_last()), ms.last())
    }
}

/// Every end tag closes the innermost open element, and none is left open.
pub open spec fn balanced(ms: Seq<Mark>) -> bool {
    open_after(ms) == Some(Seq::<MarkdownTagEnd>::empty())
}

pub open spec fn piece_marks(ps: Seq<Piece>) -> Seq<Mark> {
    ps.map_values(|p: Piece| piece_mark(p))
}

pub open spec fn event_marks(evs: Seq<(Range<usize>, MarkdownEvent)>) -> Seq<Mark> {
    evs.map_values(|e: (Range<usize>, MarkdownEvent)| event_mark(e.1))
}

pub open spec fn token_marks(toks: Seq<(Range<usize>, SourceEvent)>) -> Seq<Mark> {
    toks.map_values(|t: (Range<usize>, SourceEvent)| token_mark(t.1))
}

/// Whether a metadata block is open after the first `n` tokens: a metadata
/// start tag opens one, a metadata end tag closes it.
pub open spec fn meta_open(toks: Seq<(Range<usize>, SourceEvent)>, n: int) -> bool
    decreases n,
{
    if n <= 0 {
        false
    } else if starts_metadata(toks[n - 1].1) {
        true
    } else if ends_metadata(toks[n - 1].1) {
        false
    } else {
        meta_open(toks, n - 1)
    }
}

/// No metadata block starts while another one is open.
pub open spec fn metadata_flat(toks: Seq<(Range<usize>, SourceEvent)>) -> bool {
    forall|n: int| 0 <= n < toks.len() && starts_metadata(#[trigger] toks[n].1) ==> !meta_open(toks, n)
}

/// The pass is inside a metadata block exactly when one is open.
pub proof fn lemma_meta_flag(b: Seq<u8>, toks: Seq<(Range<usize>, SourceEvent)>, n: int)
    requires
        0 <= n <= toks.len(),
    ensures
        norm_upto(b, toks, n).meta == meta_open(toks, n),
    decreases n,
{
    if n > 0 {
        lemma_meta_flag(b, toks, n - 1);
    }
}

proof fn lemma_marks_push(ps: Seq<Piece>, p: Piece)
    ensures
        piece_marks(ps.push(p)) == piece_marks(ps).push(piece_mark(p)),
        open_after(piece_marks(ps.push(p))) == push_mark(open_after(piece_marks(ps)), piece_mark(p)),
{
    assert(piece_marks(ps.push(p)) =~= piece_marks(ps).push(piece_mark(p)));
    assert(piece_marks(ps).push(piece_mark(p)).drop_last() =~= piece_marks(ps));
}

proof fn lemma_open_other(ps: Seq<Piece>, qs: Seq<Piece>)
    requires
        forall|i: int| 0 <= i < qs.len() ==> piece_mark(#[trigger] qs[i]) is Other,
    ensures
        open_after(piece_marks(ps + qs)) == open_after(piece_marks(ps)),
    decreases qs.len(),
{
    if qs.len() > 0 {
        let init = qs.drop_last();
        assert forall|i: int| 0 <= i < init.len() implies piece_mark(#[trigger] init[i]) is Other by {
            assert(init[i] == qs[i]);
        }
        lemma_open_other(ps, init);
        assert(ps + qs =~= (ps + init).push(qs.last()));
        lemma_marks_push(ps + init, qs.last());
        match open_after(piece_marks(ps + init)) {
            Some(_) => {},
            None => {},
        }
    } else {
        assert(ps + qs =~= ps);
    }
}

proof fn lemma_open_link_prefix(b: Seq<u8>, out: Seq<Piece>, s: int, sp: Seq<(int, int)>, k: int)
    requires
        0 <= k <= sp.len(),
        open_after(piece_marks(out)) is Some,
    ensures
        open_after(piece_marks(out + links_prefix(b, s, sp, k))) == open_after(piece_marks(out)),
    decreases k,
{
    if k == 0 {
        assert(out + links_prefix(b, s, sp, k) =~= out);
    } else {
        lemma_open_link_prefix(b, out, s, sp, k - 1);
        let c = cursor_after(s, sp, k - 1);
        let ls = s + sp[k - 1].0;
        let le = s + sp[k - 1].1;
        let a = out + links_prefix(b, s, sp, k - 1);
        let p1 = piece(ls, le, Emitted::Autolink(b.subrange(ls, le)));
        let p2 = text_piece(ls, le);
        let p3 = piece(ls, le, Emitted::Event(MarkdownEvent::End(MarkdownTagEnd::Link)));
        let t = text_if_any(c, ls);
        lemma_open_other(a, t);
        lemma_marks_push(a + t, p1);
        lemma_marks_push((a + t).push(p1), p2);
        lemma_marks_push((a + t).push(p1).push(p2), p3);
        let st = open_after(piece_marks(a))->0;
        assert(st.push(MarkdownTagEnd::Link).drop_last() =~= st);
        assert(out + links_prefix(b, s, sp, k) =~= (a + t).push(p1).push(p2).push(p3));
    }
}

proof fn lemma_open_linked_text(b: Seq<u8>, out: Seq<Piece>, s: int, e: int)
    requires
        open_after(piece_marks(out)) is Some,
    ensures
        open_after(piece_marks(out + linked_text(b, s, e))) == open_after(piece_marks(out)),
{
    let sp = links_of(b.subrange(s, e));
    lemma_open_link_prefix(b, out, s, sp, sp.len() as int);
    let a = out + links_prefix(b, s, sp, sp.len() as int);
    let t = text_if_any(cursor_after(s, sp, sp.len() as int), e);
    lemma_open_other(a, t);
    assert(out + linked_text(b, s, e) =~= a + t);
}

proof fn lemma_open_prefix_some(ms: Seq<Mark>, k: int)
    requires
        0 <= k <= ms.len(),
        open_after(ms) is Some,
    ensures
        open_after(ms.take(k)) is Some,
    decreases ms.len() - k,
{
    if k < ms.len() {
        assert(ms.drop_last() =~= ms.take(ms.len() - 1));
        if k == ms.len() - 1 {
        } else {
            lemma_open_prefix_some(ms.drop_last(), k);
            assert(ms.drop_last().take(k) =~= ms.take(k));
        }
    } else {
        assert(ms.take(k) =~= ms);
    }
}

/// The nesting of the output so far against that of the tokens so far: equal
/// outside a metadata block; inside one, the tokens' stack is the output's
/// with the block and what is open inside it on top.
pub open spec fn nesting_ok(t: Seq<MarkdownTagEnd>, o: Seq<MarkdownTagEnd>, meta: bool) -> bool {
    if meta {
        &&& t.len() > o.len()
        &&& t.take(o.len() as int) == o
        &&& t[o.len() as int] is MetadataBlock
        &&& forall|j: int| o.len() < j < t.len() ==> !(#[trigger] t[j] is MetadataBlock)
    } else {
        t == o
    }
}

proof fn lemma_token_push(toks: Seq<(Range<usize>, SourceEvent)>, n: int)
    requires
        0 <= n < toks.len(),
    ensures
        open_after(token_marks(toks).take(n + 1)) == push_mark(
            open_after(token_marks(toks).take(n)),
            token_mark(toks[n].1),
        ),
{
    assert(token_marks(toks).take(n + 1).drop_last() =~= token_marks(toks).take(n));
}

proof fn lemma_nesting_step(b: Seq<u8>, toks: Seq<(Range<usize>, SourceEvent)>, n: int)
    requires
        0 <= n < toks.len(),
        balanced(token_marks(toks)),
        metadata_flat(toks),
        open_after(piece_marks(norm_upto(b, toks, n).out)) is Some,
        open_after(token_marks(toks).take(n)) is Some,
        nesting_ok(
            open_after(token_marks(toks).take(n))->0,
            open_after(piece_marks(norm_upto(b, toks, n).out))->0,
            norm_upto(b, toks, n).meta,
        ),
        norm_upto(b, toks, n).meta ==> !norm_upto(b, toks, n).pending,
    ensures
        open_after(piece_marks(norm_upto(b, toks, n + 1).out)) is Some,
        open_after(token_marks(toks).take(n + 1)) is Some,
        nesting_ok(
            open_after(token_marks(toks).take(n + 1))->0,
            open_after(piece_marks(norm_upto(b, toks, n + 1).out))->0,
            norm_upto(b, toks, n + 1).meta,
        ),
        norm_upto(b, toks, n + 1).meta ==> !norm_upto(b, toks, n + 1).pending,
{
    let m = norm_upto(b, toks, n);
    let tk = toks[n];
    let s = tk.0.start as int;
    let e = tk.0.end as int;
    let ts = open_after(token_marks(toks).take(n))->0;
    let os = open_after(piece_marks(m.out))->0;
    assert(norm_upto(b, toks, n + 1) == step(b, m, tk));
    lemma_token_push(toks, n);
    lemma_open_prefix_some(token_marks(toks), n + 1);
    assert(token_marks(toks)[n] == token_mark(tk.1));
    let f = flushed(m);
    if m.pending {
        let p = piece(m.run_start, m.run_end, Emitted::Substituted(m.run_text));
        lemma_marks_push(m.out, p);
    }
    assert(open_after(piece_marks(f.out)) == open_after(piece_marks(m.out)));
    if m.meta {
        match tk.1 {
            SourceEvent::Start { tag, .. } => {
                lemma_meta_flag(b, toks, n);
                assert(!starts_metadata(tk.1));
                assert(!(expected_end(tag) is MetadataBlock));
                let t2 = ts.push(expected_end(tag));
                assert(t2.take(os.len() as int) =~= ts.take(os.len() as int));
                assert forall|j: int| os.len() < j < t2.len() implies !(#[trigger] t2[j] is MetadataBlock) by {
                    if j < ts.len() {
                        assert(t2[j] == ts[j]);
                    }
                }
            },
            SourceEvent::End(end) => {
                let t2 = ts.drop_last();
                if ends_metadata(tk.1) {
                    assert(ts.last() is MetadataBlock);
                    assert(ts.len() == os.len() + 1);
                    assert(t2 =~= ts.take(os.len() as int));
                } else {
                    assert(!(ts.last() is MetadataBlock));
                    assert(t2.take(os.len() as int) =~= ts.take(os.len() as int));
                }
            },
            _ => {},
        }
    } else {
        match tk.1 {
            SourceEvent::Text { text: p, inlined } => {
                if !inlined && encode_utf8(p@) == b.subrange(s, e) {
                    if f.links > 0 {
                        lemma_open_other(f.out, text_if_any(s, e));
                    } else {
                        lemma_open_linked_text(b, f.out, s, e);
                    }
                }
            },
            SourceEvent::Start { tag, .. } => {
                match tag {
                    MarkdownTag::MetadataBlock(_) => {
                        let t2 = ts.push(expected_end(tag));
                        assert(t2.take(os.len() as int) =~= ts);
                    },
                    _ => {
                        lemma_marks_push(f.out, piece(s, e, Emitted::Event(MarkdownEvent::Start(tag))));
                    },
                }
            },
            SourceEvent::End(end) => {
                lemma_marks_push(f.out, piece(s, e, Emitted::Event(MarkdownEvent::End(end))));
            },
            SourceEvent::Code => {
                lemma_marks_push(f.out, piece(s + 1, e - 1, Emitted::Event(MarkdownEvent::Code)));
            },
            SourceEvent::Math => {},
            SourceEvent::Html => {
                lemma_marks_push(f.out, piece(s, e, Emitted::Event(MarkdownEvent::Html)));
            },
            SourceEvent::InlineHtml => {
                lemma_marks_push(f.out, piece(s, e, Emitted::Event(MarkdownEvent::InlineHtml)));
            },
            SourceEvent::FootnoteReference => {
                lemma_marks_push(f.out, piece(s, e, Emitted::Event(MarkdownEvent::FootnoteReference)));
            },
            SourceEvent::SoftBreak => {
                lemma_marks_push(f.out, piece(s, e, Emitted::Event(MarkdownEvent::SoftBreak)));
            },
            SourceEvent::HardBreak => {
                lemma_marks_push(f.out, piece(s, e, Emitted::Event(MarkdownEvent::HardBreak)));
            },
            SourceEvent::Rule => {
                lemma_marks_push(f.out, piece(s, e, Emitted::Event(MarkdownEvent::Rule)));
            },
            SourceEvent::TaskListMarker(c) => {
                lemma_marks_push(f.out, piece(s, e, Emitted::Event(MarkdownEvent::TaskListMarker(c))));
            },
        }
    }
}

proof fn lemma_nesting(b: Seq<u8>, toks: Seq<(Range<usize>, SourceEvent)>, n: int)
    requires
        0 <= n <= toks.len(),
        balanced(token_marks(toks)),
        metadata_flat(toks),
    ensures
        open_after(piece_marks(norm_upto(b, toks, n).out)) is Some,
        open_after(token_marks(toks).take(n)) is Some,
        nesting_ok(
            open_after(token_marks(toks).take(n))->0,
            open_after(piece_marks(norm_upto(b, toks, n).out))->0,
            norm_upto(b, toks, n).meta,
        ),
        norm_upto(b, toks, n).meta ==> !norm_upto(b, toks, n).pending,
    decreases n,
{
    if n == 0 {
        assert(piece_marks(Seq::<Piece>::empty()) =~= Seq::<Mark>::empty());
        assert(token_marks(toks).take(0) =~= Seq::<Mark>::empty());
    } else {
        lemma_nesting(b, toks, n - 1);
        lemma_nesting_step(b, toks, n - 1);
    }
}

/// When the tokenizer's start and end tags are balanced and its metadata
/// blocks do not nest, so are the output's: each end tag closes the innermost
/// open element, and none is left open.
pub proof fn lemma_output_balanced(b: Seq<u8>, toks: Seq<(Range<usize>, SourceEvent)>)
    requires
        balanced(token_marks(toks)),
        metadata_flat(toks),
    ensures
        balanced(piece_marks(normalized(b, toks).out)),
{
    let n = toks.len() as int;
    lemma_nesting(b, toks, n);
    let m = norm_upto(b, toks, n);
    assert(token_marks(toks).take(n) =~= token_marks(toks));
    if m.pending {
        let p = piece(m.run_start, m.run_end, Emitted::Substituted(m.run_text));
        lemma_marks_push(m.out, p);
    }
}

/// The events `evs` stand for the pieces `ps`, so they nest alike.
pub proof fn lemma_event_marks(evs: Seq<(Range<usize>, MarkdownEvent)>, ps: Seq<Piece>)
    requires
        emitted_all(evs, ps),
    ensures
        event_marks(evs) == piece_marks(ps),
{
    assert forall|i: int| 0 <= i < evs.len() implies event_mark(#[trigger] evs[i].1) == piece_mark(ps[i]) by {
        assert(emitted_as(evs[i], ps[i]));
    }
    assert(event_marks(evs) =~= piece_marks(ps));
}

/// The ranges of the `Text` pieces among `ps`, in order.
pub open spec fn text_ranges(ps: Seq<Piece>) -> Seq<(int, int)>
    decreases ps.len(),
{
    if ps.len() == 0 {
        Seq::empty()
    } else {
        text_ranges(ps.drop_last()) + if ps.last().what == Emitted::Event(MarkdownEvent::Text) {
            seq![(ps.last().start, ps.last().end)]
        } else {
            Seq::empty()
        }
    }
}

/// The ranges of the `Text` events among `evs`, in order.
pub open spec fn event_text_ranges(evs: Seq<(Range<usize>, MarkdownEvent)>) -> Seq<(int, int)>
    decreases evs.len(),
{
    if evs.len() == 0 {
        Seq::empty()
    } else {
        event_text_ranges(evs.drop_last()) + if evs.last().1 == MarkdownEvent::Text {
            seq![(evs.last().0.start as int, evs.last().0.end as int)]
        } else {
            Seq::empty()
        }
    }
}

/// The ranges `rs` cover `[s, e)` one after the other, with no gap, no
/// overlap and no empty range.
pub open spec fn tiles(rs: Seq<(int, int)>, s: int, e: int) -> bool {
    if rs.len() == 0 {
        s == e
    } else {
        &&& rs[0].0 == s
        &&& rs.last().1 == e
        &&& forall|i: int| 0 <= i < rs.len() ==> (#[trigger] rs[i]).0 < rs[i].1
        &&& forall|i: int| 0 <= i < rs.len() - 1 ==> (#[trigger] rs[i]).1 == rs[i + 1].0
    }
}

proof fn lemma_tiles_concat(r1: Seq<(int, int)>, r2: Seq<(int, int)>, s: int, x: int, e: int)
    requires
        tiles(r1, s, x),
        tiles(r2, x, e),
    ensures
        tiles(r1 + r2, s, e),
{
    let r = r1 + r2;
    if r1.len() == 0 {
        assert(r =~= r2);
    } else if r2.len() == 0 {
        assert(r =~= r1);
    } else {
        assert(r[0] == r1[0]);
        assert(r.last() == r2.last());
        assert forall|i: int| 0 <= i < r.len() implies (#[trigger] r[i]).0 < r[i].1 by {
            if i < r1.len() {
                assert(r[i] == r1[i]);
            } else {
                assert(r[i] == r2[i - r1.len()]);
            }
        }
        assert forall|i: int| 0 <= i < r.len() - 1 implies (#[trigger] r[i]).1 == r[i + 1].0 by {
            if i < r1.len() - 1 {
                assert(r[i] == r1[i] && r[i + 1] == r1[i + 1]);
            } else if i == r1.len() - 1 {
                assert(r[i] == r1.last() && r[i + 1] == r2[0]);
            } else {
                assert(r[i] == r2[i - r1.len()] && r[i + 1] == r2[i + 1 - r1.len()]);
            }
        }
    }
}

proof fn lemma_text_ranges_concat(a: Seq<Piece>, c: Seq<Piece>)
    ensures
        text_ranges(a + c) == text_ranges(a) + text_ranges(c),
    decreases c.len(),
{
    if c.len() == 0 {
        assert(a + c =~= a);
        assert(text_ranges(a) + text_ranges(c) =~= text_ranges(a));
    } else {
        lemma_text_ranges_concat(a, c.drop_last());
        assert((a + c).drop_last() =~= a + c.drop_last());
        assert((a + c).last() == c.last());
        let tail = if c.last().what == Emitted::Event(MarkdownEvent::Text) {
            seq![(c.last().start, c.last().end)]
        } else {
            Seq::<(int, int)>::empty()
        };
        assert(text_ranges(a) + text_ranges(c.drop_last()) + tail =~= text_ranges(a) + (
        text_ranges(c.drop_last()) + tail));
    }
}

proof fn lemma_text_ranges_one(p: Piece)
    ensures
        text_ranges(seq![p]) == if p.what == Emitted::Event(MarkdownEvent::Text) {
            seq![(p.start, p.end)]
        } else {
            Seq::<(int, int)>::empty()
        },
{
    let e = Seq::<Piece>::empty();
    assert(seq![p].drop_last() =~= e);
    assert(text_ranges(e) == Seq::<(int, int)>::empty());
    assert(seq![p].last() == p);
    assert(Seq::<(int, int)>::empty() + seq![(p.start, p.end)] =~= seq![(p.start, p.end)]);
    assert(Seq::<(int, int)>::empty() + Seq::<(int, int)>::empty() =~= Seq::<(int, int)>::empty());
}

proof fn lemma_text_if_any_tiles(s: int, e: int)
    requires
        s <= e,
    ensures
        tiles(text_ranges(text_if_any(s, e)), s, e),
{
    if s < e {
        lemma_text_ranges_one(text_piece(s, e));
    } else {
        assert(text_ranges(Seq::<Piece>::empty()) =~= Seq::<(int, int)>::empty());
    }
}

proof fn lemma_link_pieces_tiles(b: Seq<u8>, c: int, ls: int, le: int)
    requires
        c <= ls < le,
    ensures
        tiles(text_ranges(link_pieces(b, c, ls, le)), c, le),
{
    let p1 = piece(ls, le, Emitted::Autolink(b.subrange(ls, le)));
    let p2 = text_piece(ls, le);
    let p3 = piece(ls, le, Emitted::Event(MarkdownEvent::End(MarkdownTagEnd::Link)));
    lemma_text_if_any_tiles(c, ls);
    lemma_text_ranges_one(p1);
    lemma_text_ranges_one(p2);
    lemma_text_ranges_one(p3);
    assert(seq![p1, p2, p3] =~= seq![p1] + seq![p2] + seq![p3]);
    lemma_text_ranges_concat(seq![p1], seq![p2]);
    lemma_text_ranges_concat(seq![p1] + seq![p2], seq![p3]);
    assert(text_ranges(seq![p1, p2, p3]) =~= seq![(ls, le)]);
    lemma_text_ranges_concat(text_if_any(c, ls), seq![p1, p2, p3]);
    lemma_tiles_concat(text_ranges(text_if_any(c, ls)), seq![(ls, le)], c, ls, le);
    assert(link_pieces(b, c, ls, le) == text_if_any(c, ls) + seq![p1, p2, p3]);
}

proof fn lemma_prefix_tiles(b: Seq<u8>, s: int, e: int, k: int)
    requires
        0 <= s <= e <= b.len(),
        0 <= k <= links_of(b.subrange(s, e)).len(),
    ensures
        ({
            let sp = links_of(b.subrange(s, e));
            &&& tiles(text_ranges(links_prefix(b, s, sp, k)), s, cursor_after(s, sp, k))
            &&& s <= cursor_after(s, sp, k) <= e
        }),
    decreases k,
{
    let sub = b.subrange(s, e);
    let sp = links_of(sub);
    assert(spans_ok(sub, sp));
    if k == 0 {
        assert(text_ranges(Seq::<Piece>::empty()) =~= Seq::<(int, int)>::empty());
    } else {
        lemma_prefix_tiles(b, s, e, k - 1);
        let c = cursor_after(s, sp, k - 1);
        let ls = s + sp[k - 1].0;
        let le = s + sp[k - 1].1;
        if k > 1 {
            assert(sp[k - 2].1 <= sp[k - 1].0);
        }
        lemma_link_pieces_tiles(b, c, ls, le);
        lemma_text_ranges_concat(links_prefix(b, s, sp, k - 1), link_pieces(b, c, ls, le));
        lemma_tiles_concat(
            text_ranges(links_prefix(b, s, sp, k - 1)),
            text_ranges(link_pieces(b, c, ls, le)),
            s,
            c,
            le,
        );
    }
}

/// The `Text` pieces for a stretch `[s, e)` of plain text cover it, one after
/// the other, with no gap, no overlap and no empty range.
pub proof fn lemma_linked_text_tiles(b: Seq<u8>, s: int, e: int)
    requires
        0 <= s <= e <= b.len(),
    ensures
        tiles(text_ranges(linked_text(b, s, e)), s, e),
{
    let sp = links_of(b.subrange(s, e));
    lemma_prefix_tiles(b, s, e, sp.len() as int);
    let c = cursor_after(s, sp, sp.len() as int);
    lemma_text_if_any_tiles(c, e);
    lemma_text_ranges_concat(links_prefix(b, s, sp, sp.len() as int), text_if_any(c, e));
    lemma_tiles_concat(
        text_ranges(links_prefix(b, s, sp, sp.len() as int)),
        text_ranges(text_if_any(c, e)),
        s,
        c,
        e,
    );
}

/// Empty text has no URLs, so its pieces are none.
pub proof fn lemma_linked_text_empty(b: Seq<u8>, s: int)
    requires
        0 <= s <= b.len(),
    ensures
        linked_text(b, s, s).len() == 0,
{
    let sp = links_of(b.subrange(s, s));
    if sp.len() > 0 {
        assert(spans_ok(b.subrange(s, s), sp));
        assert(0 <= sp[0].0 < sp[0].1 <= 0);
    }
    assert(links_prefix(b, s, sp, 0) =~= Seq::<Piece>::empty());
}

/// The events `evs` stand for the pieces `ps`, so their `Text` ranges agree.
pub proof fn lemma_event_text_ranges(evs: Seq<(Range<usize>, MarkdownEvent)>, ps: Seq<Piece>)
    requires
        emitted_all(evs, ps),
    ensures
        event_text_ranges(evs) == text_ranges(ps),
    decreases evs.len(),
{
    if evs.len() > 0 {
        let ev0 = evs.drop_last();
        let ps0 = ps.drop_last();
        assert forall|i: int| 0 <= i < ev0.len() implies emitted_as(#[trigger] ev0[i], ps0[i]) by {
            assert(ev0[i] == evs[i] && ps0[i] == ps[i]);
        }
        lemma_event_text_ranges(ev0, ps0);
        assert(emitted_as(evs[evs.len() - 1], ps[ps.len() - 1]));
        assert((evs.last().1 == MarkdownEvent::Text) == (ps.last().what == Emitted::Event(MarkdownEvent::Text)));
    }
}

pub open spec fn link_end_piece(s: int, e: int) -> Piece {
    piece(s, e, Emitted::Event(MarkdownEvent::End(MarkdownTagEnd::Link)))
}

/// Every opening among `ps` is an autolink followed by one `Text` and the end
/// of the link over the same range, and every closing ends such a triple.
pub open spec fn triples_ok(ps: Seq<Piece>) -> bool {
    &&& forall|i: int|
        0 <= i < ps.len() && (#[trigger] piece_mark(ps[i])) is Open ==> {
            &&& ps[i].what is Autolink
            &&& i + 2 < ps.len()
            &&& ps[i + 1] == text_piece(ps[i].start, ps[i].end)
            &&& ps[i + 2] == link_end_piece(ps[i].start, ps[i].end)
        }
    &&& forall|j: int|
        0 <= j < ps.len() && (#[trigger] piece_mark(ps[j])) is Close ==> {
            &&& j >= 2
            &&& ps[j - 2].what is Autolink
            &&& ps[j - 2].start == ps[j].start
            &&& ps[j - 2].end == ps[j].end
            &&& ps[j - 1] == text_piece(ps[j].start, ps[j].end)
            &&& ps[j] == link_end_piece(ps[j].start, ps[j].end)
        }
}

proof fn lemma_triples_concat(a: Seq<Piece>, c: Seq<Piece>)
    requires
        triples_ok(a),
        triples_ok(c),
    ensures
        triples_ok(a + c),
{
    let ac = a + c;
    assert forall|i: int| 0 <= i < ac.len() && (#[trigger] piece_mark(ac[i])) is Open implies {
        &&& ac[i].what is Autolink
        &&& i + 2 < ac.len()
        &&& ac[i + 1] == text_piece(ac[i].start, ac[i].end)
        &&& ac[i + 2] == link_end_piece(ac[i].start, ac[i].end)
    } by {
        if i < a.len() {
            assert(ac[i] == a[i] && piece_mark(a[i]) is Open);
            assert(ac[i + 1] == a[i + 1] && ac[i + 2] == a[i + 2]);
        } else {
            let k = i - a.len();
            assert(ac[i] == c[k] && piece_mark(c[k]) is Open);
            assert(ac[i + 1] == c[k + 1] && ac[i + 2] == c[k + 2]);
        }
    }
    assert forall|j: int| 0 <= j < ac.len() && (#[trigger] piece_mark(ac[j])) is Close implies {
        &&& j >= 2
        &&& ac[j - 2].what is Autolink
        &&& ac[j - 2].start == ac[j].start
        &&& ac[j - 2].end == ac[j].end
        &&& ac[j - 1] == text_piece(ac[j].start, ac[j].end)
        &&& ac[j] == link_end_piece(ac[j].start, ac[j].end)
    } by {
        if j < a.len() {
            assert(ac[j] == a[j] && piece_mark(a[j]) is Close);
            assert(ac[j - 1] == a[j - 1] && ac[j - 2] == a[j - 2]);
        } else {
            let k = j - a.len();
            assert(ac[j] == c[k] && piece_mark(c[k]) is Close);
            assert(ac[j - 1] == c[k - 1] && ac[j - 2] == c[k - 2]);
        }
    }
}

proof fn lemma_text_if_any_triples(s: int, e: int)
    ensures
        triples_ok(text_if_any(s, e)),
{
}

proof fn lemma_link_pieces_triples(b: Seq<u8>, c: int, ls: int, le: int)
    ensures
        triples_ok(link_pieces(b, c, ls, le)),
{
    let p1 = piece(ls, le, Emitted::Autolink(b.subrange(ls, le)));
    let block = seq![p1, text_piece(ls, le), link_end_piece(ls, le)];
    assert(triples_ok(block)) by {
        assert(piece_mark(block[1]) is Other);
        assert(piece_mark(block[0]) is Open);
        assert(piece_mark(block[2]) is Close);
    }
    lemma_text_if_any_triples(c, ls);
    lemma_triples_concat(text_if_any(c, ls), block);
    assert(link_pieces(b, c, ls, le) =~= text_if_any(c, ls) + block);
}

proof fn lemma_prefix_triples(b: Seq<u8>, off: int, sp: Seq<(int, int)>, k: int)
    requires
        0 <= k <= sp.len(),
    ensures
        triples_ok(links_prefix(b, off, sp, k)),
    decreases k,
{
    if k > 0 {
        lemma_prefix_triples(b, off, sp, k - 1);
        let c = cursor_after(off, sp, k - 1);
        lemma_link_pieces_triples(b, c, off + sp[k - 1].0, off + sp[k - 1].1);
        lemma_triples_concat(
            links_prefix(b, off, sp, k - 1),
            link_pieces(b, c, off + sp[k - 1].0, off + sp[k - 1].1),
        );
    }
}

/// In the pieces for a stretch of plain text, the only tags are autolinks,
/// each a start, one `Text` and an end over the URL's range.
pub proof fn lemma_linked_text_triples(b: Seq<u8>, s: int, e: int)
    ensures
        triples_ok(linked_text(b, s, e)),
{
    let sp = links_of(b.subrange(s, e));
    lemma_prefix_triples(b, s, sp, sp.len() as int);
    lemma_text_if_any_triples(cursor_after(s, sp, sp.len() as int), e);
    lemma_triples_concat(
        links_prefix(b, s, sp, sp.len() as int),
        text_if_any(cursor_after(s, sp, sp.len() as int), e),
    );
}

/// Every start among `evs` is a link followed by a `Text` and the end of the
/// link over the same range, and every end closes such a triple.
pub open spec fn link_triples(evs: Seq<(Range<usize>, MarkdownEvent)>) -> bool {
    &&& forall|i: int|
        0 <= i < evs.len() && (#[trigger] evs[i]).1 is Start ==> {
            &&& evs[i].1 matches MarkdownEvent::Start(MarkdownTag::Link { .. })
            &&& i + 2 < evs.len()
            &&& evs[i + 1] == (evs[i].0, MarkdownEvent::Text)
            &&& evs[i + 2] == (evs[i].0, MarkdownEvent::End(MarkdownTagEnd::Link))
        }
    &&& forall|j: int|
        0 <= j < evs.len() && (#[trigger] evs[j]).1 is End ==> {
            &&& j >= 2
            &&& evs[j - 2].1 matches MarkdownEvent::Start(MarkdownTag::Link { .. })
            &&& evs[j - 2].0 == evs[j].0
            &&& evs[j - 1] == (evs[j].0, MarkdownEvent::Text)
            &&& evs[j].1 == MarkdownEvent::End(MarkdownTagEnd::Link)
        }
}

pub proof fn lemma_link_triples(evs: Seq<(Range<usize>, MarkdownEvent)>, ps: Seq<Piece>)
    requires
        emitted_all(evs, ps),
        triples_ok(ps),
    ensures
        link_triples(evs),
{
    assert forall|i: int| 0 <= i < evs.len() && (#[trigger] evs[i]).1 is Start implies {
        &&& evs[i].1 matches MarkdownEvent::Start(MarkdownTag::Link { .. })
        &&& i + 2 < evs.len()
        &&& evs[i + 1] == (evs[i].0, MarkdownEvent::Text)
        &&& evs[i + 2] == (evs[i].0, MarkdownEvent::End(MarkdownTagEnd::Link))
    } by {
        assert(emitted_as(evs[i], ps[i]));
        assert(piece_mark(ps[i]) is Open);
        assert(emitted_as(evs[i + 1], ps[i + 1]));
        assert(emitted_as(evs[i + 2], ps[i + 2]));
    }
    assert forall|j: int| 0 <= j < evs.len() && (#[trigger] evs[j]).1 is End implies {
        &&& j >= 2
        &&& evs[j - 2].1 matches MarkdownEvent::Start(MarkdownTag::Link { .. })
        &&& evs[j - 2].0 == evs[j].0
        &&& evs[j - 1] == (evs[j].0, MarkdownEvent::Text)
        &&& evs[j].1 == MarkdownEvent::End(MarkdownTagEnd::Link)
    } by {
        assert(emitted_as(evs[j], ps[j]));
        assert(piece_mark(ps[j]) is Close);
        assert(emitted_as(evs[j - 1], ps[j - 1]));
        assert(emitted_as(evs[j - 2], ps[j - 2]));
    }
}

/// The mark opens or closes a metadata block.
pub open spec fn meta_mark(m: Mark) -> bool {
    match m {
        Mark::Open(x) => x is MetadataBlock,
        Mark::Close(x) => x is MetadataBlock,
        Mark::Other => false,
    }
}

pub open spec fn no_meta_marks(ms: Seq<Mark>) -> bool {
    forall|i: int| 0 <= i < ms.len() ==> !meta_mark(#[trigger] ms[i])
}

proof fn lemma_stack_no_meta(ms: Seq<Mark>)
    requires
        no_meta_marks(ms),
        open_after(ms) is Some,
    ensures
        forall|j: int| 0 <= j < open_after(ms)->0.len() ==> !((#[trigger] open_after(ms)->0[j]) is MetadataBlock),
    decreases ms.len(),
{
    if ms.len() > 0 {
        let init = ms.drop_last();
        assert forall|i: int| 0 <= i < init.len() implies !meta_mark(#[trigger] init[i]) by {
            assert(init[i] == ms[i]);
        }
        assert(!meta_mark(ms[ms.len() - 1]));
        match open_after(init) {
            Some(st) => {
                lemma_stack_no_meta(init);
            },
            None => {},
        }
    }
}

proof fn lemma_marks_concat(a: Seq<Piece>, c: Seq<Piece>)
    ensures
        piece_marks(a + c) == piece_marks(a) + piece_marks(c),
{
    assert(piece_marks(a + c) =~= piece_marks(a) + piece_marks(c));
}

proof fn lemma_no_meta_concat(a: Seq<Piece>, c: Seq<Piece>)
    requires
        no_meta_marks(piece_marks(a)),
        no_meta_marks(piece_marks(c)),
    ensures
        no_meta_marks(piece_marks(a + c)),
{
    lemma_marks_concat(a, c);
    let ms = piece_marks(a) + piece_marks(c);
    assert forall|i: int| 0 <= i < ms.len() implies !meta_mark(#[trigger] ms[i]) by {
        if i < piece_marks(a).len() {
            assert(ms[i] == piece_marks(a)[i]);
        } else {
            assert(ms[i] == piece_marks(c)[i - piece_marks(a).len()]);
        }
    }
}

proof fn lemma_no_meta_linked(b: Seq<u8>, s: int, e: int)
    ensures
        no_meta_marks(piece_marks(linked_text(b, s, e))),
{
    lemma_linked_text_triples(b, s, e);
    let ps = linked_text(b, s, e);
    assert forall|i: int| 0 <= i < piece_marks(ps).len() implies !meta_mark(#[trigger] piece_marks(ps)[i]) by {
        assert(piece_marks(ps)[i] == piece_mark(ps[i]));
    }
}

proof fn lemma_no_meta_step(b: Seq<u8>, toks: Seq<(Range<usize>, SourceEvent)>, n: int)
    requires
        0 <= n < toks.len(),
        balanced(token_marks(toks)),
        metadata_flat(toks),
        no_meta_marks(piece_marks(norm_upto(b, toks, n).out)),
    ensures
        no_meta_marks(piece_marks(norm_upto(b, toks, n + 1).out)),
{
    let m = norm_upto(b, toks, n);
    let tk = toks[n];
    let s = tk.0.start as int;
    let e = tk.0.end as int;
    assert(norm_upto(b, toks, n + 1) == step(b, m, tk));
    lemma_nesting(b, toks, n);
    lemma_nesting(b, toks, n + 1);
    lemma_token_push(toks, n);
    assert(token_marks(toks)[n] == token_mark(tk.1));
    let f = flushed(m);
    if m.pending {
        let p = piece(m.run_start, m.run_end, Emitted::Substituted(m.run_text));
        assert(no_meta_marks(piece_marks(seq![p])));
        lemma_no_meta_concat(m.out, seq![p]);
        assert(f.out == m.out + seq![p]);
    }
    if !m.meta {
        match tk.1 {
            SourceEvent::Text { text: p, inlined } => {
                if !inlined && encode_utf8(p@) == b.subrange(s, e) {
                    if f.links > 0 {
                        assert(no_meta_marks(piece_marks(text_if_any(s, e))));
                        lemma_no_meta_concat(f.out, text_if_any(s, e));
                    } else {
                        lemma_no_meta_linked(b, s, e);
                        lemma_no_meta_concat(f.out, linked_text(b, s, e));
                    }
                }
            },
            SourceEvent::End(end) => {
                let ts = open_after(token_marks(toks).take(n))->0;
                lemma_stack_no_meta(piece_marks(m.out));
                if end is MetadataBlock {
                    assert(ts.len() > 0 && end_matches(ts.last(), end));
                    assert(ts.last() is MetadataBlock);
                    assert(ts[ts.len() - 1] is MetadataBlock);
                }
                let p = piece(s, e, Emitted::Event(MarkdownEvent::End(end)));
                assert(no_meta_marks(piece_marks(seq![p])));
                lemma_no_meta_concat(f.out, seq![p]);
                assert(emit(m, p).out == f.out + seq![p]);
            },
            SourceEvent::Start { tag, .. } => {
                match tag {
                    MarkdownTag::MetadataBlock(_) => {},
                    _ => {
                        let p = piece(s, e, Emitted::Event(MarkdownEvent::Start(tag)));
                        assert(no_meta_marks(piece_marks(seq![p])));
                        lemma_no_meta_concat(f.out, seq![p]);
                        assert(emit(m, p).out == f.out + seq![p]);
                    },
                }
            },
            SourceEvent::Math => {},
            _ => {
                let ev = match tk.1 {
                    SourceEvent::Code => MarkdownEvent::Code,
                    SourceEvent::Html => MarkdownEvent::Html,
                    SourceEvent::InlineHtml => MarkdownEvent::InlineHtml,
                    SourceEvent::FootnoteReference => MarkdownEvent::FootnoteReference,
                    SourceEvent::SoftBreak => MarkdownEvent::SoftBreak,
                    SourceEvent::HardBreak => MarkdownEvent::HardBreak,
                    SourceEvent::Rule => MarkdownEvent::Rule,
                    SourceEvent::TaskListMarker(c) => MarkdownEvent::TaskListMarker(c),
                    _ => MarkdownEvent::Rule,
                };
                let (ps, pe) = if tk.1 is Code {
                    (s + 1, e - 1)
                } else {
                    (s, e)
                };
                let p = piece(ps, pe, Emitted::Event(ev));
                assert(no_meta_marks(piece_marks(seq![p])));
                lemma_no_meta_concat(f.out, seq![p]);
                assert(emit(m, p).out == f.out + seq![p]);
            },
        }
    }
}

/// When the tokenizer's tags are balanced and its metadata blocks do not
/// nest, no metadata start or end tag reaches the output.
pub proof fn lemma_no_metadata_tags(b: Seq<u8>, toks: Seq<(Range<usize>, SourceEvent)>, n: int)
    requires
        0 <= n <= toks.len(),
        balanced(token_marks(toks)),
        metadata_flat(toks),
    ensures
        no_meta_marks(piece_marks(norm_upto(b, toks, n).out)),
        no_meta_marks(piece_marks(flushed(norm_upto(b, toks, n)).out)),
    decreases n,
{
    if n == 0 {
        assert(piece_marks(Seq::<Piece>::empty()) =~= Seq::<Mark>::empty());
    } else {
        lemma_no_metadata_tags(b, toks, n - 1);
        lemma_no_meta_step(b, toks, n - 1);
    }
    let m = norm_upto(b, toks, n);
    if m.pending {
        let p = piece(m.run_start, m.run_end, Emitted::Substituted(m.run_text));
        assert(no_meta_marks(piece_marks(seq![p])));
        lemma_no_meta_concat(m.out, seq![p]);
        assert(flushed(m).out == m.out + seq![p]);
    }
}

/// No event among `evs` is the start or the end of a metadata block.
pub open spec fn no_metadata_tags(evs: Seq<(Range<usize>, MarkdownEvent)>) -> bool {
    forall|i: int|
        0 <= i < evs.len() ==> !((#[trigger] evs[i]).1 matches MarkdownEvent::Start(
            MarkdownTag::MetadataBlock(_),
        )) && !(evs[i].1 matches MarkdownEvent::End(MarkdownTagEnd::MetadataBlock(_)))
}

pub proof fn lemma_no_metadata_events(evs: Seq<(Range<usize>, MarkdownEvent)>)
    requires
        no_meta_marks(event_marks(evs)),
    ensures
        no_metadata_tags(evs),
{
    assert forall|i: int| 0 <= i < evs.len() implies !((#[trigger] evs[i]).1 matches MarkdownEvent::Start(
        MarkdownTag::MetadataBlock(_),
    )) && !(evs[i].1 matches MarkdownEvent::End(MarkdownTagEnd::MetadataBlock(_))) by {
        assert(event_marks(evs)[i] == event_mark(evs[i].1));
        assert(!meta_mark(event_marks(evs)[i]));
    }
}

} // verus!
