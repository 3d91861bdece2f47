//! The single pass that turns the tokenizer's events into the output events:
//! it drops metadata blocks, merges runs of substituted text, trims code
//! spans and marks bare URLs in plain text as links.
use crate::autolink::{linked_text, push_linked_text, text_if_any};
use crate::event::{
    emitted_all, extends, lemma_extends_push, lemma_extends_refl, lemma_extends_trans, piece,
    CodeBlockKind, Emitted, MarkdownEvent, MarkdownTag, MarkdownTagEnd, Piece,
};
use crate::guarantees::{
    balanced, event_marks, events_in, lemma_event_marks, lemma_events_from_pieces,
    lemma_no_metadata_events, lemma_no_metadata_tags, lemma_output_balanced, lemma_output_ranges,
    metadata_flat, no_metadata_tags, text_ranges_ordered, token_marks,
};
use std::ops::Range;
use vstd::prelude::*;
use vstd::string::{StringExecFns, StringSliceAdditionalSpecFns};
use vstd::utf8::{encode_utf8, is_char_boundary};

verus! {

/// One event of the underlying tokenizer, the text of a text node included.
#[derive(Clone, Debug, PartialEq)]
pub enum SourceEvent {
    /// The start of an element; `inlined` is set when the tokenizer built one
    /// of the tag's strings itself rather than keeping a slice or an owned copy.
    Start { tag: MarkdownTag, inlined: bool },
    End(MarkdownTagEnd),
    /// A text node. It is the source slice of its range unless the tokenizer
    /// substituted it; text that the tokenizer built itself (`inlined`: a
    /// synthesized character or a decoded character reference) is never a
    /// slice of the source.
    Text { text: String, inlined: bool },
    /// An inline code span; its range includes the delimiters.
    Code,
    /// Inline or display math.
    Math,
    Html,
    InlineHtml,
    FootnoteReference,
    SoftBreak,
    HardBreak,
    Rule,
    TaskListMarker(bool),
}

/// Text, code and HTML: the events that stand for stretches of the source.
pub open spec fn is_leaf(e: SourceEvent) -> bool {
    e is Text || e is Code || e is Html || e is InlineHtml
}

/// The range of `t` lies in `b` between character boundaries; a code span
/// has a delimiter byte at each end.
pub open spec fn token_ok(b: Seq<u8>, t: (Range<usize>, SourceEvent)) -> bool {
    &&& t.0.start <= t.0.end <= b.len()
    &&& is_char_boundary(b, t.0.start as int)
    &&& is_char_boundary(b, t.0.end as int)
    &&& t.1 is Code ==> {
        &&& t.0.start + 2 <= t.0.end
        &&& is_char_boundary(b, t.0.start + 1)
        &&& is_char_boundary(b, t.0.end - 1)
    }
}

/// Every token is well formed, and the ranges of text, code and HTML tokens
/// follow each other without overlap.
pub open spec fn tokens_ok(b: Seq<u8>, toks: Seq<(Range<usize>, SourceEvent)>) -> bool {
    &&& forall|i: int| 0 <= i < toks.len() ==> token_ok(b, #[trigger] toks[i])
    &&& forall|i: int, j: int|
        0 <= i < j < toks.len() && is_leaf(toks[i].1) && is_leaf(toks[j].1) ==> (#[trigger] toks[i]).0.end
            <= (#[trigger] toks[j]).0.start
}

/// The state of the pass, over plain values.
pub struct Norm {
    /// How many explicit links and images are open.
    pub links: nat,
    /// Inside a metadata block.
    pub meta: bool,
    /// A run of substituted text is open.
    pub pending: bool,
    pub run_start: int,
    pub run_end: int,
    /// The replacement text of the open run.
    pub run_text: Seq<char>,
    pub out: Seq<Piece>,
    /// The languages of the fenced code blocks so far, each once.
    pub langs: Seq<Seq<char>>,
}

pub open spec fn initial() -> Norm {
    Norm {
        links: 0,
        meta: false,
        pending: false,
        run_start: 0,
        run_end: 0,
        run_text: Seq::empty(),
        out: Seq::empty(),
        langs: Seq::empty(),
    }
}

/// Closes the open run of substituted text, if any, as one piece.
pub open spec fn flushed(m: Norm) -> Norm {
    if m.pending {
        Norm {
            pending: false,
            run_text: Seq::empty(),
            out: m.out.push(piece(m.run_start, m.run_end, Emitted::Substituted(m.run_text))),
            ..m
        }
    } else {
        m
    }
}

/// The languages with `l` added, unless it is there already.
pub open spec fn with_lang(langs: Seq<Seq<char>>, l: Seq<char>) -> Seq<Seq<char>> {
    if langs.contains(l) {
        langs
    } else {
        langs.push(l)
    }
}

/// The languages after a start tag: a fenced code block adds its own.
pub open spec fn langs_after(langs: Seq<Seq<char>>, tag: MarkdownTag) -> Seq<Seq<char>> {
    match tag {
        MarkdownTag::CodeBlock(CodeBlockKind::Fenced(l)) => with_lang(langs, l@),
        _ => langs,
    }
}

/// Flushes, then emits `p`.
pub open spec fn emit(m: Norm, p: Piece) -> Norm {
    Norm { out: flushed(m).out.push(p), ..flushed(m) }
}

/// An explicit link or image: the text inside it is not scanned for URLs.
pub open spec fn opens_link(tag: MarkdownTag) -> bool {
    tag is Link || tag is Image
}

/// The end of an explicit link or image.
pub open spec fn closes_link(end: MarkdownTagEnd) -> bool {
    end is Link || end is Image
}

/// The pass after one more token `t` of the source `b`.
pub open spec fn step(b: Seq<u8>, m: Norm, t: (Range<usize>, SourceEvent)) -> Norm {
    let s = t.0.start as int;
    let e = t.0.end as int;
    if m.meta {
        Norm { meta: !(t.1 matches SourceEvent::End(MarkdownTagEnd::MetadataBlock(_))), ..m }
    } else {
        match t.1 {
            SourceEvent::Text { text: p, inlined } => if !inlined && encode_utf8(p@) == b.subrange(
                s,
                e,
            ) {
                let f = flushed(m);
                Norm {
                    out: f.out + if f.links > 0 {
                        text_if_any(s, e)
                    } else {
                        linked_text(b, s, e)
                    },
                    ..f
                }
            } else {
                Norm {
                    pending: true,
                    run_start: if m.pending {
                        m.run_start
                    } else {
                        s
                    },
                    run_end: e,
                    run_text: m.run_text + p@,
                    ..m
                }
            },
            SourceEvent::Start { tag, .. } => match tag {
                MarkdownTag::MetadataBlock(_) => Norm { meta: true, ..flushed(m) },
                _ => {
                    let f = emit(m, piece(s, e, Emitted::Event(MarkdownEvent::Start(tag))));
                    Norm {
                        links: if opens_link(tag) {
                            f.links + 1
                        } else {
                            f.links
                        },
                        langs: langs_after(f.langs, tag),
                        ..f
                    }
                },
            },
            SourceEvent::End(end) => {
                let f = emit(m, piece(s, e, Emitted::Event(MarkdownEvent::End(end))));
                Norm {
                    links: if closes_link(end) && f.links > 0 {
                        (f.links - 1) as nat
                    } else {
                        f.links
                    },
                    ..f
                }
            },
            SourceEvent::Code => emit(m, piece(s + 1, e - 1, Emitted::Event(MarkdownEvent::Code))),
            SourceEvent::Math => flushed(m),
            SourceEvent::Html => emit(m, piece(s, e, Emitted::Event(MarkdownEvent::Html))),
            SourceEvent::InlineHtml => emit(m, piece(s, e, Emitted::Event(MarkdownEvent::InlineHtml))),
            SourceEvent::FootnoteReference => emit(
                m,
                piece(s, e, Emitted::Event(MarkdownEvent::FootnoteReference)),
            ),
            SourceEvent::SoftBreak => emit(m, piece(s, e, Emitted::Event(MarkdownEvent::SoftBreak))),
            SourceEvent::HardBreak => emit(m, piece(s, e, Emitted::Event(MarkdownEvent::HardBreak))),
            SourceEvent::Rule => emit(m, piece(s, e, Emitted::Event(MarkdownEvent::Rule))),
            SourceEvent::TaskListMarker(c) => emit(
                m,
                piece(s, e, Emitted::Event(MarkdownEvent::TaskListMarker(c))),
            ),
        }
    }
}

/// The pass after the first `n` tokens.
pub open spec fn norm_upto(b: Seq<u8>, toks: Seq<(Range<usize>, SourceEvent)>, n: int) -> Norm
    decreases n,
{
    if n <= 0 {
        initial()
    } else {
        step(b, norm_upto(b, toks, n - 1), toks[n - 1])
    }
}

proof fn lemma_links_bound(b: Seq<u8>, toks: Seq<(Range<usize>, SourceEvent)>, n: int)
    requires
        0 <= n <= toks.len(),
    ensures
        norm_upto(b, toks, n).links <= n,
    decreases n,
{
    if n > 0 {
        lemma_links_bound(b, toks, n - 1);
    }
}

/// The pass over all tokens, with the last run of substituted text closed.
pub open spec fn normalized(b: Seq<u8>, toks: Seq<(Range<usize>, SourceEvent)>) -> Norm {
    flushed(norm_upto(b, toks, toks.len() as int))
}

/// The characters of each string.
pub open spec fn views(v: Seq<String>) -> Seq<Seq<char>> {
    v.map_values(|s: String| s@)
}

/// Events that are the pieces `po`, followed by events that are the pieces
/// `ps`, are the pieces `po + ps`.
pub proof fn lemma_emitted_extend(
    old: Seq<(Range<usize>, MarkdownEvent)>,
    new: Seq<(Range<usize>, MarkdownEvent)>,
    po: Seq<Piece>,
    ps: Seq<Piece>,
)
    requires
        emitted_all(old, po),
        extends(new, old, ps),
    ensures
        emitted_all(new, po + ps),
{
    assert forall|i: int| 0 <= i < new.len() implies crate::event::emitted_as(#[trigger] new[i], (po + ps)[i]) by {
        if i < old.len() {
            assert(new[i] == new.subrange(0, old.len() as int)[i]);
        } else {
            assert(new[i] == new[old.len() + (i - old.len())]);
        }
    }
}

/// The state of the pass as the executable code holds it.
struct Normalizer {
    events: Vec<(Range<usize>, MarkdownEvent)>,
    languages: Vec<String>,
    link_depth: usize,
    within_metadata: bool,
    pending: bool,
    run_start: usize,
    run_end: usize,
    run_text: String,
}

impl Normalizer {
    /// The executable state is the state `m` of the pass.
    spec fn agrees(&self, m: Norm) -> bool {
        &&& self.link_depth == m.links
        &&& self.within_metadata == m.meta
        &&& self.pending == m.pending
        &&& self.run_start == m.run_start
        &&& self.run_end == m.run_end
        &&& self.run_text@ == m.run_text
        &&& emitted_all(self.events@, m.out)
        &&& views(self.languages@) == m.langs
    }

    fn flush(&mut self, Ghost(m): Ghost<Norm>)
        requires
            old(self).agrees(m),
        ensures
            final(self).agrees(flushed(m)),
    {
        if self.pending {
            let ghost before = self.events@;
            let mut run = String::new();
            std::mem::swap(&mut run, &mut self.run_text);
            let ev = (self.run_start..self.run_end, MarkdownEvent::SubstitutedText(run));
            self.events.push(ev);
            self.pending = false;
            proof {
                let p = piece(m.run_start, m.run_end, Emitted::Substituted(m.run_text));
                lemma_extends_push(before, ev, p);
                lemma_emitted_extend(before, self.events@, m.out, seq![p]);
            }
        }
    }

    fn push_piece(&mut self, ev: (Range<usize>, MarkdownEvent), Ghost(m): Ghost<Norm>, Ghost(p): Ghost<Piece>)
        requires
            old(self).agrees(m),
            crate::event::emitted_as(ev, p),
        ensures
            final(self).agrees(Norm { out: m.out.push(p), ..m }),
    {
        let ghost before = self.events@;
        self.events.push(ev);
        proof {
            lemma_extends_push(before, ev, p);
            lemma_emitted_extend(before, self.events@, m.out, seq![p]);
        }
    }
    /// Flushes, then emits `ev` over `range`.
    fn emit(&mut self, range: Range<usize>, ev: MarkdownEvent, Ghost(m): Ghost<Norm>)
        requires
            old(self).agrees(m),
        ensures
            final(self).agrees(emit(m, piece(range.start as int, range.end as int, Emitted::Event(ev)))),
    {
        self.flush(Ghost(m));
        self.push_piece(
            (range, ev),
            Ghost(flushed(m)),
            Ghost(piece(range.start as int, range.end as int, Emitted::Event(ev))),
        );
    }

    fn add_language(&mut self, l: &String, Ghost(m): Ghost<Norm>)
        requires
            old(self).agrees(m),
        ensures
            final(self).agrees(Norm { langs: with_lang(m.langs, l@), ..m }),
    {
        let mut found = false;
        let mut i: usize = 0;
        while i < self.languages.len()
            invariant
                i <= self.languages@.len(),
                found <==> exists|j: int| 0 <= j < i && (#[trigger] self.languages@[j])@ == l@,
            decreases self.languages@.len() - i,
        {
            if self.languages[i] == *l {
                found = true;
            }
            i += 1;
        }
        proof {
            let v = views(self.languages@);
            if found {
                let j = choose|j: int| 0 <= j < i && (#[trigger] self.languages@[j])@ == l@;
                assert(v[j] == l@);
            } else {
                assert forall|j: int| 0 <= j < v.len() implies v[j] != l@ by {
                    assert(v[j] == self.languages@[j]@);
                }
            }
        }
        if !found {
            let ghost before = self.languages@;
            self.languages.push(l.clone());
            assert(views(self.languages@) =~= views(before).push(l@));
        }
    }

    fn step(&mut self, text: &str, range: Range<usize>, event: SourceEvent, Ghost(m): Ghost<Norm>)
        requires
            old(self).agrees(m),
            token_ok(text.spec_bytes(), (range, event)),
            m.links < usize::MAX,
        ensures
            final(self).agrees(step(text.spec_bytes(), m, (range, event))),
    {
        let ghost b = text.spec_bytes();
        let start = range.start;
        let end = range.end;
        if self.within_metadata {
            if let SourceEvent::End(MarkdownTagEnd::MetadataBlock(_)) = event {
                self.within_metadata = false;
            }
            return ;
        }
        let ghost f = flushed(m);
        match event {
            SourceEvent::Text { text: p, inlined } => {
                if !inlined && same_bytes(text, start, end, &p) {
                    self.flush(Ghost(m));
                    if self.link_depth > 0 {
                        if start < end {
                            self.push_piece(
                                (start..end, MarkdownEvent::Text),
                                Ghost(f),
                                Ghost(crate::autolink::text_piece(start as int, end as int)),
                            );
                        } else {
                            assert(f.out + text_if_any(start as int, end as int) =~= f.out);
                        }
                    } else {
                        let ghost before = self.events@;
                        push_linked_text(&mut self.events, text, start, end);
                        proof {
                            lemma_emitted_extend(
                                before,
                                self.events@,
                                f.out,
                                linked_text(b, start as int, end as int),
                            );
                        }
                    }
                } else {
                    if !self.pending {
                        self.run_start = start;
                    }
                    self.pending = true;
                    self.run_end = end;
                    self.run_text.append(p.as_str());
                }
            },
            SourceEvent::Start { tag, .. } => {
                self.flush(Ghost(m));
                if let MarkdownTag::MetadataBlock(_) = tag {
                    self.within_metadata = true;
                    return ;
                }
                let ghost g = Norm { langs: langs_after(f.langs, tag), ..f };
                if let MarkdownTag::CodeBlock(CodeBlockKind::Fenced(l)) = &tag {
                    self.add_language(l, Ghost(f));
                }
                match tag {
                    MarkdownTag::Link { .. } | MarkdownTag::Image { .. } => {
                        self.link_depth = self.link_depth + 1;
                    },
                    _ => {},
                }
                let ghost h = Norm { links: if opens_link(tag) {
                            f.links + 1
                        } else {
                            f.links
                        }, ..g };
                self.push_piece(
                    (start..end, MarkdownEvent::Start(tag)),
                    Ghost(h),
                    Ghost(piece(start as int, end as int, Emitted::Event(MarkdownEvent::Start(tag)))),
                );
            },
            SourceEvent::End(kind) => {
                self.flush(Ghost(m));
                match kind {
                    MarkdownTagEnd::Link | MarkdownTagEnd::Image => {
                        if self.link_depth > 0 {
                            self.link_depth = self.link_depth - 1;
                        }
                    },
                    _ => {},
                }
                let ghost h = Norm {
                    links: if closes_link(kind) && f.links > 0 {
                        (f.links - 1) as nat
                    } else {
                        f.links
                    },
                    ..f
                };
                self.push_piece(
                    (start..end, MarkdownEvent::End(kind)),
                    Ghost(h),
                    Ghost(piece(start as int, end as int, Emitted::Event(MarkdownEvent::End(kind)))),
                );
            },
            SourceEvent::Math => {
                self.flush(Ghost(m));
            },
            SourceEvent::Code => {
                self.emit((start + 1)..(end - 1), MarkdownEvent::Code, Ghost(m));
            },
            SourceEvent::Html => {
                self.emit(start..end, MarkdownEvent::Html, Ghost(m));
            },
            SourceEvent::InlineHtml => {
                self.emit(start..end, MarkdownEvent::InlineHtml, Ghost(m));
            },
            SourceEvent::FootnoteReference => {
                self.emit(start..end, MarkdownEvent::FootnoteReference, Ghost(m));
            },
            SourceEvent::SoftBreak => {
                self.emit(start..end, MarkdownEvent::SoftBreak, Ghost(m));
            },
            SourceEvent::HardBreak => {
                self.emit(start..end, MarkdownEvent::HardBreak, Ghost(m));
            },
            SourceEvent::Rule => {
                self.emit(start..end, MarkdownEvent::Rule, Ghost(m));
            },
            SourceEvent::TaskListMarker(c) => {
                self.emit(start..end, MarkdownEvent::TaskListMarker(c), Ghost(m));
            },
        }
    }
}

/// Whether `p` is, byte for byte, the slice `[start, end)` of `text`.
fn same_bytes(text: &str, start: usize, end: usize, p: &String) -> (r: bool)
    requires
        start <= end <= text.spec_bytes().len(),
    ensures
        r == (encode_utf8(p@) == text.spec_bytes().subrange(start as int, end as int)),
{
    let a = p.as_str().as_bytes();
    let b = text.as_bytes();
    if a.len() != end - start {
        return false;
    }
    let mut i: usize = 0;
    while i < a.len()
        invariant
            a@ == encode_utf8(p@),
            b@ == text.spec_bytes(),
            a@.len() == end - start,
            start <= end <= b@.len(),
            i <= a@.len(),
            forall|j: int| 0 <= j < i ==> a@[j] == b@[start + j],
        decreases a@.len() - i,
    {
        if a[i] != b[start + i] {
            assert(b@.subrange(start as int, end as int)[i as int] == b@[start + i]);
            return false;
        }
        i += 1;
    }
    assert(a@ =~= b@.subrange(start as int, end as int));
    true
}

/// `v` in reverse order.
pub(crate) fn reversed<T>(v: Vec<T>) -> (r: Vec<T>)
    ensures
        r@.len() == v@.len(),
        forall|j: int| 0 <= j < v@.len() ==> r@[j] == v@[v@.len() - 1 - j],
{
    let mut v = v;
    let ghost orig = v@;
    let mut r: Vec<T> = Vec::new();
    while v.len() > 0
        invariant
            v@ == orig.subrange(0, v@.len() as int),
            r@.len() + v@.len() == orig.len(),
            forall|j: int| 0 <= j < r@.len() ==> r@[j] == orig[orig.len() - 1 - j],
        decreases v@.len(),
    {
        let x = v.pop().unwrap();
        r.push(x);
    }
    r
}

/// The output events of the token stream `tokens` of `text`, and the
/// languages of its fenced code blocks in order of first appearance.
pub fn normalize_events(text: &str, tokens: Vec<(Range<usize>, SourceEvent)>) -> (r: (
    Vec<(Range<usize>, MarkdownEvent)>,
    Vec<String>,
))
    requires
        tokens_ok(text.spec_bytes(), tokens@),
    ensures
        emitted_all(r.0@, normalized(text.spec_bytes(), tokens@).out),
        views(r.1@) == normalized(text.spec_bytes(), tokens@).langs,
        events_in(text.spec_bytes(), r.0@),
        text_ranges_ordered(r.0@),
        balanced(token_marks(tokens@)) && metadata_flat(tokens@) ==> balanced(event_marks(r.0@))
            && no_metadata_tags(r.0@),
{
    let ghost b = text.spec_bytes();
    let ghost toks = tokens@;
    let n = tokens.len();
    let mut rest = reversed(tokens);
    let mut st = Normalizer {
        events: Vec::new(),
        languages: Vec::new(),
        link_depth: 0,
        within_metadata: false,
        pending: false,
        run_start: 0,
        run_end: 0,
        run_text: String::new(),
    };
    assert(views(st.languages@) =~= Seq::<Seq<char>>::empty());
    let mut i: usize = 0;
    while i < n
        invariant
            n == toks.len(),
            i <= n,
            tokens_ok(b, toks),
            b == text.spec_bytes(),
            rest@.len() == n - i,
            forall|j: int| 0 <= j < n - i ==> rest@[j] == toks[n - 1 - j],
            st.agrees(norm_upto(b, toks, i as int)),
        decreases n - i,
    {
        let (range, event) = rest.pop().unwrap();
        assert((range, event) == toks[i as int]);
        proof {
            lemma_links_bound(b, toks, i as int);
        }
        st.step(text, range, event, Ghost(norm_upto(b, toks, i as int)));
        i += 1;
    }
    st.flush(Ghost(norm_upto(b, toks, n as int)));
    proof {
        vstd::utf8::encode_utf8_valid_utf8(text@);
        lemma_output_ranges(b, toks);
        lemma_events_from_pieces(b, st.events@, normalized(b, toks).out);
        lemma_event_marks(st.events@, normalized(b, toks).out);
        if balanced(token_marks(toks)) && metadata_flat(toks) {
            lemma_output_balanced(b, toks);
            lemma_no_metadata_tags(b, toks, n as int);
            lemma_no_metadata_events(st.events@);
        }
    }
    (st.events, st.languages)
}

/// A replacement from the tokenizer longer than this many bytes is not one of
/// the entity or punctuation substitutions the pass expects.
pub const EXPECTED_SUBSTITUTION_LEN: usize = 4;

/// `t` is text that the tokenizer substituted with a replacement longer than
/// the substitutions it is expected to make.
pub open spec fn long_substitution(b: Seq<u8>, t: (Range<usize>, SourceEvent)) -> bool {
    match t.1 {
        SourceEvent::Text { text, inlined } => {
            &&& inlined || encode_utf8(text@) != b.subrange(t.0.start as int, t.0.end as int)
            &&& encode_utf8(text@).len() > EXPECTED_SUBSTITUTION_LEN
        },
        _ => false,
    }
}

/// The long substitutions among the first `n` tokens, each with its range and
/// its replacement, in order.
pub open spec fn long_substitutions_upto(
    b: Seq<u8>,
    toks: Seq<(Range<usize>, SourceEvent)>,
    n: int,
) -> Seq<(Range<usize>, Seq<char>)>
    decreases n,
{
    if n <= 0 {
        Seq::empty()
    } else {
        let prev = long_substitutions_upto(b, toks, n - 1);
        if long_substitution(b, toks[n - 1]) {
            match toks[n - 1].1 {
                SourceEvent::Text { text, .. } => prev.push((toks[n - 1].0, text@)),
                _ => prev,
            }
        } else {
            prev
        }
    }
}

/// The substituted texts of `tokens` whose replacement is longer than
/// expected, with their ranges, for a caller to report: a sign that the
/// tokenizer substitutes more than entities and punctuation.
pub fn long_substitutions(text: &str, tokens: &Vec<(Range<usize>, SourceEvent)>) -> (r: Vec<
    (Range<usize>, String),
>)
    requires
        tokens_ok(text.spec_bytes(), tokens@),
    ensures
        r@.len() == long_substitutions_upto(text.spec_bytes(), tokens@, tokens@.len() as int).len(),
        forall|i: int|
            0 <= i < r@.len() ==> (#[trigger] r@[i]).0 == long_substitutions_upto(
                text.spec_bytes(),
                tokens@,
                tokens@.len() as int,
            )[i].0 && r@[i].1@ == long_substitutions_upto(
                text.spec_bytes(),
                tokens@,
                tokens@.len() as int,
            )[i].1,
{
    let ghost b = text.spec_bytes();
    let mut r: Vec<(Range<usize>, String)> = Vec::new();
    let mut i: usize = 0;
    while i < tokens.len()
        invariant
            b == text.spec_bytes(),
            tokens_ok(b, tokens@),
            i <= tokens@.len(),
            r@.len() == long_substitutions_upto(b, tokens@, i as int).len(),
            forall|j: int|
                0 <= j < r@.len() ==> (#[trigger] r@[j]).0 == long_substitutions_upto(
                    b,
                    tokens@,
                    i as int,
                )[j].0 && r@[j].1@ == long_substitutions_upto(b, tokens@, i as int)[j].1,
        decreases tokens@.len() - i,
    {
        let (range, event) = &tokens[i];
        assert(token_ok(b, tokens@[i as int]));
        if let SourceEvent::Text { text: p, inlined } = event {
            let n = p.as_str().as_bytes().len();
            if (*inlined || !same_bytes(text, range.start, range.end, p)) && n
                > EXPECTED_SUBSTITUTION_LEN {
                r.push((range.start..range.end, p.clone()));
            }
        }
        i += 1;
    }
    r
}

} // verus!
