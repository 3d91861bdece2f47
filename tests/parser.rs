use pulldown_cmark::LinkType;
use zed_markdown::autolink::{parse_links_only, push_links};
use zed_markdown::event::MarkdownEvent::{
    self, Code, End, Html, InlineHtml, Start, SubstitutedText, Text,
};
use zed_markdown::event::MarkdownTag::{self, Heading, Link, Paragraph};
use zed_markdown::event::{CodeBlockKind, MarkdownTagEnd};
use zed_markdown::normalize::{long_substitutions, normalize_events, SourceEvent};
use zed_markdown::parser::{parse_markdown, tokenize};

fn autolink(url: &str) -> MarkdownEvent {
    Start(Link {
        link_type: LinkType::Autolink,
        dest_url: url.into(),
        title: "".into(),
        id: "".into(),
    })
}

#[test]
fn test_plain_urls_and_escaped_text() {
    assert_eq!(
        parse_markdown("&nbsp;&nbsp; https://some.url some \\`&#9658;\\` text"),
        (
            vec![
                (0..51, Start(Paragraph)),
                (0..12, SubstitutedText("\u{a0}\u{a0}".into())),
                (12..13, Text),
                (
                    13..29,
                    Start(Link {
                        link_type: LinkType::Autolink,
                        dest_url: "https://some.url".into(),
                        title: "".into(),
                        id: "".into(),
                    })
                ),
                (13..29, Text),
                (13..29, End(MarkdownTagEnd::Link)),
                (29..35, Text),
                (36..37, Text), // Escaped backtick
                (37..44, SubstitutedText("►".into())),
                (45..46, Text), // Escaped backtick
                (46..51, Text),
                (0..51, End(MarkdownTagEnd::Paragraph))
            ],
            Vec::<String>::new()
        )
    );
}

#[test]
fn test_smart_punctuation() {
    assert_eq!(
        parse_markdown("-- --- ... \"double quoted\" 'single quoted'"),
        (
            vec![
                (0..42, Start(Paragraph)),
                (0..2, SubstitutedText("–".into())),
                (2..3, Text),
                (3..6, SubstitutedText("—".into())),
                (6..7, Text),
                (7..10, SubstitutedText("…".into())),
                (10..11, Text),
                (11..12, SubstitutedText("“".into())),
                (12..25, Text),
                (25..26, SubstitutedText("”".into())),
                (26..27, Text),
                (27..28, SubstitutedText("‘".into())),
                (28..41, Text),
                (41..42, SubstitutedText("’".into())),
                (0..42, End(MarkdownTagEnd::Paragraph))
            ],
            Vec::<String>::new()
        )
    )
}

#[test]
fn links_only_splits_around_url() {
    assert_eq!(
        parse_links_only("plain http://a.bc text"),
        vec![
            (0..6, Text),
            (6..17, autolink("http://a.bc")),
            (6..17, Text),
            (6..17, End(MarkdownTagEnd::Link)),
            (17..22, Text),
        ]
    );
}

#[test]
fn markdown_splits_around_url_in_paragraph() {
    let (events, languages) = parse_markdown("plain http://a.bc text");
    assert_eq!(
        events,
        vec![
            (0..22, Start(Paragraph)),
            (0..6, Text),
            (6..17, autolink("http://a.bc")),
            (6..17, Text),
            (6..17, End(MarkdownTagEnd::Link)),
            (17..22, Text),
            (0..22, End(MarkdownTagEnd::Paragraph)),
        ]
    );
    assert!(languages.is_empty());
}

#[test]
fn code_span_range_drops_delimiters() {
    let (events, _) = parse_markdown("`code`");
    assert_eq!(
        events,
        vec![
            (0..6, Start(Paragraph)),
            (1..5, Code),
            (0..6, End(MarkdownTagEnd::Paragraph)),
        ]
    );
}

#[test]
fn dash_pair_is_substituted() {
    let (events, _) = parse_markdown("--");
    assert_eq!(
        events,
        vec![
            (0..2, Start(Paragraph)),
            (0..2, SubstitutedText("–".into())),
            (0..2, End(MarkdownTagEnd::Paragraph)),
        ]
    );
}

#[test]
fn fenced_language_is_collected() {
    let (events, languages) = parse_markdown("```rust\nfn main() {}\n```\n");
    assert_eq!(languages, vec!["rust".to_string()]);
    assert_eq!(
        events[0].1,
        Start(MarkdownTag::CodeBlock(CodeBlockKind::Fenced("rust".into())))
    );
}

#[test]
fn languages_are_kept_once() {
    let (_, languages) =
        parse_markdown("```rust\na\n```\n\n```\nb\n```\n\n```rust\nc\n```\n\n```toml\nd\n```\n");
    assert_eq!(
        languages,
        vec!["rust".to_string(), "".to_string(), "toml".to_string()]
    );
}

#[test]
fn empty_input_gives_nothing() {
    assert_eq!(parse_markdown(""), (vec![], Vec::<String>::new()));
    assert_eq!(parse_links_only(""), vec![]);
}

#[test]
fn one_letter_top_level_domain_is_not_a_url() {
    assert_eq!(parse_links_only("plain https://a.b text"), vec![(0..22, Text)]);
}

#[test]
fn links_only_without_url_is_one_text() {
    assert_eq!(parse_links_only("no links here"), vec![(0..13, Text)]);
}

#[test]
fn explicit_link_text_is_not_autolinked() {
    let (events, _) = parse_markdown("[https://ab.cd](https://c.d)");
    assert_eq!(
        events,
        vec![
            (0..28, Start(Paragraph)),
            (
                0..28,
                Start(Link {
                    link_type: LinkType::Inline,
                    dest_url: "https://c.d".into(),
                    title: "".into(),
                    id: "".into(),
                })
            ),
            (1..14, Text),
            (0..28, End(MarkdownTagEnd::Link)),
            (0..28, End(MarkdownTagEnd::Paragraph)),
        ]
    );
}

#[test]
fn metadata_block_is_dropped() {
    let text = "+++\ntitle = \"https://ab.cd\"\n+++\n\nhello\n";
    let (events, _) = parse_markdown(text);
    assert_eq!(
        events,
        vec![
            (33..39, Start(Paragraph)),
            (33..38, Text),
            (33..39, End(MarkdownTagEnd::Paragraph)),
        ]
    );
}

#[test]
fn scanning_twice_gives_the_same_links() {
    let text = "see https://x.org and http://y.net/z.";
    assert_eq!(parse_links_only(text), parse_links_only(text));
    let first = parse_links_only(text);
    assert_eq!(first[1], (4..17, autolink("https://x.org")));
}

#[test]
fn heading_attributes_are_copied() {
    let (events, _) = parse_markdown("# Title {#top .big key=value}");
    match &events[0].1 {
        Start(Heading { id, classes, attrs, .. }) => {
            assert_eq!(id.as_deref(), Some("top"));
            assert_eq!(classes, &vec!["big".to_string()]);
            assert_eq!(attrs, &vec![("key".to_string(), Some("value".to_string()))]);
        }
        other => panic!("unexpected event {:?}", other),
    }
}

#[test]
fn ranges_are_ordered_and_in_bounds() {
    let text = "Some *emphasis*, `code`, <b>html</b> &amp; https://e.com — ok\n\n> quote\n";
    let (events, _) = parse_markdown(text);
    let mut last_end = 0;
    for (range, event) in &events {
        assert!(range.start <= range.end && range.end <= text.len());
        assert!(text.is_char_boundary(range.start) && text.is_char_boundary(range.end));
        if matches!(
            event,
            Text | SubstitutedText(_) | Code | Html | InlineHtml
        ) {
            assert!(range.start >= last_end);
            last_end = range.end;
        }
    }
}

#[test]
fn normalizer_merges_substituted_runs() {
    let text = "a&amp;&lt;b";
    let tokens = vec![
        (0..11, SourceEvent::Start {
            tag: Paragraph,
            inlined: false,
        }),
        (0..1, SourceEvent::Text {
            text: "a".to_string(),
            inlined: false,
        }),
        (1..6, SourceEvent::Text {
            text: "&".to_string(),
            inlined: false,
        }),
        (6..10, SourceEvent::Text {
            text: "<".to_string(),
            inlined: false,
        }),
        (10..11, SourceEvent::Text {
            text: "b".to_string(),
            inlined: false,
        }),
        (0..11, SourceEvent::End(MarkdownTagEnd::Paragraph)),
    ];
    let (events, languages) = normalize_events(text, tokens);
    assert_eq!(
        events,
        vec![
            (0..11, Start(Paragraph)),
            (0..1, Text),
            (1..10, SubstitutedText("&<".into())),
            (10..11, Text),
            (0..11, End(MarkdownTagEnd::Paragraph)),
        ]
    );
    assert!(languages.is_empty());
}

#[test]
fn normalizer_drops_math_and_flushes_at_end() {
    let text = "$x$&amp;";
    let tokens = vec![
        (0..3, SourceEvent::Math),
        (3..8, SourceEvent::Text {
            text: "&".to_string(),
            inlined: false,
        }),
    ];
    let (events, _) = normalize_events(text, tokens);
    assert_eq!(events, vec![(3..8, SubstitutedText("&".into()))]);
}

#[test]
fn start_and_end_tags_nest() {
    let text = "# Head\n\n> quote with *emph* and [link](https://x.org)\n\n- a\n- **b** https://ab.cd\n\n| a | b |\n|---|---|\n| c | d |\n";
    let (events, _) = parse_markdown(text);
    let mut stack: Vec<MarkdownTag> = Vec::new();
    for (_, event) in events {
        match event {
            Start(tag) => stack.push(tag),
            End(end) => {
                let open = stack.pop().expect("end without start");
                let expected = match open {
                    Paragraph => MarkdownTagEnd::Paragraph,
                    Heading { level, .. } => MarkdownTagEnd::Heading(level),
                    MarkdownTag::BlockQuote => MarkdownTagEnd::BlockQuote(None),
                    MarkdownTag::List(n) => MarkdownTagEnd::List(n.is_some()),
                    MarkdownTag::Item => MarkdownTagEnd::Item,
                    MarkdownTag::Emphasis => MarkdownTagEnd::Emphasis,
                    MarkdownTag::Strong => MarkdownTagEnd::Strong,
                    Link { .. } => MarkdownTagEnd::Link,
                    MarkdownTag::Table(_) => MarkdownTagEnd::Table,
                    MarkdownTag::TableHead => MarkdownTagEnd::TableHead,
                    MarkdownTag::TableRow => MarkdownTagEnd::TableRow,
                    MarkdownTag::TableCell => MarkdownTagEnd::TableCell,
                    other => panic!("unexpected tag {:?}", other),
                };
                match end {
                    MarkdownTagEnd::BlockQuote(_) => {
                        assert_eq!(expected, MarkdownTagEnd::BlockQuote(None))
                    }
                    _ => assert_eq!(expected, end),
                }
            }
            _ => {}
        }
    }
    assert!(stack.is_empty());
}

#[test]
fn image_alt_text_is_not_autolinked() {
    let (events, _) = parse_markdown("![https://ab.cd](img.png)");
    assert_eq!(
        events,
        vec![
            (0..25, Start(Paragraph)),
            (
                0..25,
                Start(MarkdownTag::Image {
                    link_type: LinkType::Inline,
                    dest_url: "img.png".into(),
                    title: "".into(),
                    id: "".into(),
                })
            ),
            (2..15, Text),
            (0..25, End(MarkdownTagEnd::Image)),
            (0..25, End(MarkdownTagEnd::Paragraph)),
        ]
    );
}

#[test]
fn text_after_image_inside_link_is_not_autolinked() {
    let (events, _) = parse_markdown("[![a](i.png) https://ab.cd](https://c.d)");
    for (_, event) in &events {
        if let Start(Link { link_type, .. }) = event {
            assert_ne!(*link_type, LinkType::Autolink);
        }
    }
    assert!(events.contains(&(12..26, Text)));
}

#[test]
fn links_only_text_ranges_tile_the_input() {
    let text = "a http://ab.cd and https://x.org/y.";
    let events = parse_links_only(text);
    let texts: Vec<_> = events
        .iter()
        .filter(|(_, e)| *e == Text)
        .map(|(r, _)| r.clone())
        .collect();
    assert_eq!(texts.first().unwrap().start, 0);
    assert_eq!(texts.last().unwrap().end, text.len());
    for w in texts.windows(2) {
        assert_eq!(w[0].end, w[1].start);
    }
    assert!(texts.iter().all(|r| r.start < r.end));
}

#[test]
fn normalizer_treats_inlined_text_as_substituted() {
    let text = "a!";
    let tokens = vec![
        (
            0..1,
            SourceEvent::Text {
                text: "a".to_string(),
                inlined: false,
            },
        ),
        (
            1..2,
            SourceEvent::Text {
                text: "!".to_string(),
                inlined: true,
            },
        ),
    ];
    let (events, _) = normalize_events(text, tokens);
    assert_eq!(
        events,
        vec![(0..1, Text), (1..2, SubstitutedText("!".into()))]
    );
}

#[test]
fn long_substitutions_are_reported() {
    let text = "x&ab;!";
    let tokens = vec![
        (
            0..1,
            SourceEvent::Text {
                text: "x".to_string(),
                inlined: false,
            },
        ),
        (
            1..5,
            SourceEvent::Text {
                text: "longer".to_string(),
                inlined: false,
            },
        ),
        (
            5..6,
            SourceEvent::Text {
                text: "!".to_string(),
                inlined: true,
            },
        ),
    ];
    assert_eq!(
        long_substitutions(text, &tokens),
        vec![(1..5, "longer".to_string())]
    );
    assert!(long_substitutions("&amp;", &tokenize("&amp;")).is_empty());
}

#[test]
fn links_from_given_spans() {
    let text = "see http://ab.cd now";
    let mut events = Vec::new();
    push_links(
        &mut events,
        text,
        0,
        text.len(),
        &vec![(4, 16, "http://ab.cd".to_string())],
    );
    assert_eq!(
        events,
        vec![
            (0..4, Text),
            (4..16, autolink("http://ab.cd")),
            (4..16, Text),
            (4..16, End(MarkdownTagEnd::Link)),
            (16..20, Text),
        ]
    );
    let mut none = Vec::new();
    push_links(&mut none, text, 4, 16, &vec![]);
    assert_eq!(none, vec![(4..16, Text)]);
}

#[test]
fn metadata_block_alone_gives_no_events() {
    assert_eq!(
        parse_markdown("+++\ntitle = 1\n+++\n"),
        (vec![], Vec::<String>::new())
    );
}
