use onedoc::error::FixError;
use onedoc::event::{CodeBlockKind, Event, LinkType, Tag};
use onedoc::fix::{code_blocks, doc_links, headings, rel_links, summary};
use onedoc::links::{link_identifier, link_ref, LinkConfig, LinkTable};
use onedoc::render::{append_footer, fix_all, fix_document, module_comment, replace, table_of_contents, Kind};

fn s(x: &str) -> String {
    x.to_string()
}

fn text(x: &str) -> Event {
    Event::Text(s(x))
}

fn code(x: &str) -> Event {
    Event::Code(s(x))
}

fn heading(level: u8) -> Tag {
    Tag::Heading(level, Some(s("id")), vec![s("c")])
}

fn fenced(info: &str) -> Tag {
    Tag::CodeBlock(CodeBlockKind::Fenced(s(info)))
}

fn config(pairs: &[(&str, &str)]) -> LinkConfig {
    LinkConfig {
        pairs: pairs.iter().map(|(k, v)| (s(k), s(v))).collect(),
    }
}

fn reference(id: &str, t: &str) -> Vec<Event> {
    vec![
        Event::Start(Tag::Link(LinkType::Reference, s(id), s(""))),
        code(t),
        Event::End(Tag::Link(LinkType::Reference, s(id), s(""))),
    ]
}

#[test]
fn headings_move_one_level_down() {
    for level in 1..=5u8 {
        let events = vec![Event::Start(heading(level)), text("Title"), Event::End(heading(level))];
        let fixed = headings::fix(events).unwrap();
        assert_eq!(
            fixed,
            vec![Event::Start(heading(level + 1)), text("Title"), Event::End(heading(level + 1))]
        );
    }
}

#[test]
fn heading_of_level_six_is_an_error() {
    let events = vec![Event::Start(heading(6)), text("Deep"), Event::End(heading(6))];
    assert_eq!(headings::fix(events), Err(FixError::HeadingLevelOverflow));
}

#[test]
fn headings_leave_other_events() {
    let events = vec![Event::Start(Tag::Paragraph), text("x"), Event::End(Tag::Paragraph), Event::Rule];
    assert_eq!(
        headings::fix(events).unwrap(),
        vec![Event::Start(Tag::Paragraph), text("x"), Event::End(Tag::Paragraph), Event::Rule]
    );
}

#[test]
fn empty_fence_gets_language_and_hidden_lines_go() {
    let events = vec![Event::Start(fenced("")), text("# hidden\nvisible\n"), Event::End(fenced(""))];
    assert_eq!(
        code_blocks::fix(events).unwrap(),
        vec![Event::Start(fenced("rust")), text("visible\n"), Event::End(fenced("rust"))]
    );
}

#[test]
fn other_language_is_never_filtered() {
    let body = "# comment\n#\nprint(1)";
    let events = vec![Event::Start(fenced("python")), text(body), Event::End(fenced("python"))];
    assert_eq!(
        code_blocks::fix(events).unwrap(),
        vec![Event::Start(fenced("python")), text(body), Event::End(fenced("python"))]
    );
}

#[test]
fn indented_block_is_filtered() {
    let kind = Tag::CodeBlock(CodeBlockKind::Indented);
    let events = vec![Event::Start(kind), text("# use x;\nx();\n"), Event::End(Tag::CodeBlock(CodeBlockKind::Indented))];
    assert_eq!(
        code_blocks::fix(events).unwrap(),
        vec![
            Event::Start(Tag::CodeBlock(CodeBlockKind::Indented)),
            text("x();\n"),
            Event::End(Tag::CodeBlock(CodeBlockKind::Indented))
        ]
    );
}

#[test]
fn code_body_lines_are_normalised() {
    assert_eq!(code_blocks::fix_code_block(&s("a\r\n#\n  # b\nc")), s("a\nc\n"));
    assert_eq!(code_blocks::fix_code_block(&s("#x\n# \n#[derive]\n")), s("#x\n#[derive]\n"));
    assert_eq!(code_blocks::fix_code_block(&s(" #\n\t#\t\nkeep #\n")), s("keep #\n"));
    assert_eq!(code_blocks::fix_code_block(&s("#\tx\n  #  y  \n")), s("#\tx\n"));
    assert_eq!(code_blocks::fix_code_block(&s("")), s(""));
    assert_eq!(code_blocks::fix_code_block(&s("\n\n")), s("\n\n"));
}

#[test]
fn normalising_twice_changes_nothing() {
    let events = vec![
        Event::Start(fenced("")),
        text("# setup\nlet x = 1;\n  #hidden? no\n"),
        Event::End(fenced("")),
        Event::Start(fenced("toml")),
        text("# comment\n"),
        Event::End(fenced("toml")),
    ];
    let once = code_blocks::fix(events).unwrap();
    let again = code_blocks::fix(once.clone()).unwrap();
    assert_eq!(again, once);
}

#[test]
fn carriage_return_before_line_feed_goes_once_per_pass() {
    let once = code_blocks::fix_code_block(&s("a\r\r\n"));
    assert_eq!(once, s("a\r\n"));
    assert_eq!(code_blocks::fix_code_block(&once), s("a\n"));
}

#[test]
fn unclosed_code_block_is_malformed() {
    let events = vec![Event::Start(fenced("rust")), text("x")];
    assert_eq!(code_blocks::fix(events), Err(FixError::MalformedStream));
    let events = vec![Event::Start(fenced("")), Event::Rule, Event::End(fenced(""))];
    assert_eq!(code_blocks::fix(events), Err(FixError::MalformedStream));
}

#[test]
fn reference_names_are_normalised() {
    assert_eq!(link_ref("Foo Bar<T>"), s("foo-bar"));
    assert_eq!(link_ref("a.b::C_d-e"), s("abc_d-e"));
    assert_eq!(link_ref("<T>"), s(""));
}

#[test]
fn identifiers_carry_the_index() {
    assert_eq!(link_identifier(&s("foo"), 0), s("foo"));
    assert_eq!(link_identifier(&s("foo"), 1), s("foo-1"));
    assert_eq!(link_identifier(&s("foo"), 12), s("foo-12"));
}

#[test]
fn table_numbers_destinations_per_name() {
    let mut table = LinkTable::new();
    assert!(table.is_empty());
    assert_eq!(table.register(s("foo"), s("https://x/a")), 0);
    assert_eq!(table.register(s("foo"), s("https://x/b")), 1);
    assert_eq!(table.register(s("foo"), s("https://x/a")), 0);
    assert_eq!(table.register(s("bar"), s("https://x/a")), 0);
    assert_eq!(table.len(), 2);
    assert_eq!(table.name(0), s("bar"));
    assert_eq!(table.urls(0), vec![s("https://x/a")]);
    assert_eq!(table.name(1), s("foo"));
    assert_eq!(table.urls(1), vec![s("https://x/a"), s("https://x/b")]);
}

#[test]
fn same_destination_under_two_names() {
    let cfg = config(&[("Foo", "https://x/a"), ("Bar", "https://x/a")]);
    let mut table = LinkTable::new();
    let events = vec![text("["), code("Foo"), text("]"), text(" and "), text("["), code("Bar"), text("]")];
    let (out, missed) = doc_links::fix(&cfg, &mut table, events);
    let mut expected = reference("foo", "Foo");
    expected.push(text(" and "));
    expected.extend(reference("bar", "Bar"));
    assert_eq!(out, expected);
    assert!(missed.is_empty());
    assert_eq!(table.name(0), s("bar"));
    assert_eq!(table.urls(0), vec![s("https://x/a")]);
    assert_eq!(table.name(1), s("foo"));
    assert_eq!(table.urls(1), vec![s("https://x/a")]);
}

#[test]
fn second_destination_of_a_name_gets_index_one() {
    let cfg = config(&[("Foo", "https://x/a"), ("foo", "https://x/b")]);
    let mut table = LinkTable::new();
    let events = vec![
        text("["), code("Foo"), text("]"),
        text("["), code("foo"), text("]"),
        text(" "),
        text("["), code("foo"), text("]"),
        text(" "),
        text("["), code("Foo"), text("]"),
    ];
    let (out, _) = doc_links::fix(&cfg, &mut table, events);
    // The second group follows the first right away and is discarded.
    let mut expected = reference("foo", "Foo");
    expected.push(text(" "));
    expected.extend(reference("foo-1", "foo"));
    expected.push(text(" "));
    expected.extend(reference("foo", "Foo"));
    assert_eq!(out, expected);
    assert_eq!(table.urls(0), vec![s("https://x/a"), s("https://x/b")]);
}

#[test]
fn unknown_link_stays_literal() {
    let cfg = config(&[("Foo", "https://x/a")]);
    let mut table = LinkTable::new();
    let events = vec![text("["), code("Unknown"), text("]")];
    let (out, missed) = doc_links::fix(&cfg, &mut table, events);
    assert_eq!(out, vec![text("["), code("Unknown"), text("]")]);
    assert_eq!(missed, vec![s("Unknown")]);
    assert!(table.is_empty());
}

#[test]
fn bracketed_prose_stays_literal() {
    let cfg = config(&[("Foo", "https://x/a")]);
    let mut table = LinkTable::new();
    let events = vec![text("["), Event::Start(Tag::Emphasis), text("a"), Event::End(Tag::Emphasis), text("]"), text("[")];
    let (out, missed) = doc_links::fix(&cfg, &mut table, events);
    assert_eq!(
        out,
        vec![text("["), Event::Start(Tag::Emphasis), text("a"), Event::End(Tag::Emphasis), text("]"), text("[")]
    );
    assert!(missed.is_empty());
}

#[test]
fn shortcut_suffix_is_discarded() {
    let cfg = config(&[("Foo", "https://x/a")]);
    let mut table = LinkTable::new();
    let events = vec![text("["), code("Foo"), text("]"), text("["), text("]"), text("!")];
    let (out, _) = doc_links::fix(&cfg, &mut table, events);
    let mut expected = reference("foo", "Foo");
    expected.push(text("!"));
    assert_eq!(out, expected);
}

fn inline(dst: &str) -> Tag {
    Tag::Link(LinkType::Inline, s(dst), s("t"))
}

#[test]
fn local_links_are_remapped_with_fragment() {
    let cfg = config(&[("docs/a.md", "https://x/a")]);
    let events = vec![Event::Start(inline("docs/a.md#sec")), text("A"), Event::End(inline("docs/a.md#sec"))];
    let (out, missed) = rel_links::fix(&cfg, events);
    assert_eq!(
        out,
        vec![Event::Start(inline("https://x/a#sec")), text("A"), Event::End(inline("https://x/a#sec"))]
    );
    assert!(missed.is_empty());
}

#[test]
fn absolute_and_fragment_links_stay() {
    let cfg = config(&[("#top", "x"), ("https://y", "x"), ("//y", "x")]);
    for dst in ["#top", "https://y", "//y", "git+ssh://y"] {
        let events = vec![Event::Start(inline(dst)), text("A"), Event::End(inline(dst))];
        let (out, missed) = rel_links::fix(&cfg, events);
        assert_eq!(out, vec![Event::Start(inline(dst)), text("A"), Event::End(inline(dst))]);
        assert!(missed.is_empty());
    }
}

#[test]
fn unknown_local_link_is_reported() {
    let cfg = config(&[]);
    let events = vec![Event::Start(inline("b.md#x")), text("B"), Event::Code(s("c")), Event::End(inline("b.md#x"))];
    let (out, missed) = rel_links::fix(&cfg, events);
    assert_eq!(
        out,
        vec![Event::Start(inline("b.md#x")), text("B"), Event::Code(s("c")), Event::End(inline("b.md#x"))]
    );
    assert_eq!(missed, vec![s("b.md")]);
}

#[test]
fn summary_is_the_first_paragraph() {
    let events = vec![
        Event::Start(Tag::Paragraph),
        text("First para."),
        Event::End(Tag::Paragraph),
        Event::Start(Tag::Paragraph),
        text("Second para."),
        Event::End(Tag::Paragraph),
    ];
    let (left, right) = summary::fix(events);
    assert_eq!(left, vec![Event::Start(Tag::Paragraph), text("First para."), Event::End(Tag::Paragraph)]);
    assert_eq!(right, vec![Event::Start(Tag::Paragraph), text("Second para."), Event::End(Tag::Paragraph)]);
}

#[test]
fn summary_without_paragraph_takes_everything() {
    let events = vec![Event::Rule, text("x")];
    let (left, right) = summary::fix(events);
    assert_eq!(left, vec![Event::Rule, text("x")]);
    assert!(right.is_empty());
}

#[test]
fn footer_defines_each_identifier() {
    let mut table = LinkTable::new();
    table.register(s("foo"), s("https://x/a"));
    table.register(s("foo"), s("https://x/b"));
    let out = append_footer(s("see [`Foo`](foo) and [`foo`](foo-1)"), &table);
    assert_eq!(
        out,
        s("see [`Foo`][foo] and [`foo`][foo-1]\n\n[foo]: https://x/a\n[foo-1]: https://x/b\n")
    );
    assert_eq!(append_footer(s("plain"), &LinkTable::new()), s("plain"));
}

#[test]
fn footer_leaves_prose_in_parentheses() {
    let mut table = LinkTable::new();
    table.register(s("foo"), s("https://x/a"));
    let out = append_footer(s("a (foo) b [`Foo`](foo)"), &table);
    assert_eq!(out, s("a (foo) b [`Foo`][foo]\n\n[foo]: https://x/a\n"));
}

#[test]
fn second_destination_across_documents() {
    let cfg = config(&[("Foo", "https://x/a"), ("foo", "https://x/b")]);
    let mut table = LinkTable::new();
    let first = vec![text("["), code("Foo"), text("]")];
    let second = vec![text("["), code("foo"), text("]")];
    let (a, _) = fix_document(Kind::RustDoc, &cfg, &mut table, first).unwrap();
    let (b, _) = fix_document(Kind::RustDoc, &cfg, &mut table, second).unwrap();
    assert_eq!(a, reference("foo", "Foo"));
    assert_eq!(b, reference("foo-1", "foo"));
    let out = append_footer(s("[`Foo`](foo) [`foo`](foo-1)"), &table);
    assert!(out.ends_with("\n\n[foo]: https://x/a\n[foo-1]: https://x/b\n"));
}

#[test]
fn other_language_block_stays_in_place() {
    let events = vec![
        Event::Start(fenced("")),
        text("# a\nb\n"),
        Event::End(fenced("")),
        Event::Start(fenced("sh")),
        text("# run\n#\necho\n"),
        Event::End(fenced("sh")),
        text("after"),
    ];
    let out = code_blocks::fix(events).unwrap();
    assert_eq!(out.len(), 7);
    assert_eq!(
        out[3..6].to_vec(),
        vec![Event::Start(fenced("sh")), text("# run\n#\necho\n"), Event::End(fenced("sh"))]
    );
}

#[test]
fn footer_lists_names_in_order() {
    let mut table = LinkTable::new();
    table.register(s("zeta"), s("https://z"));
    table.register(s("alpha"), s("https://a"));
    table.register(s("alphabet"), s("https://b"));
    table.register(s("Beta"), s("https://B"));
    let out = append_footer(s("x"), &table);
    assert_eq!(
        out,
        s("x\n\n[Beta]: https://B\n[alpha]: https://a\n[alphabet]: https://b\n[zeta]: https://z\n")
    );
}

#[test]
fn replace_is_left_to_right() {
    let p: Vec<char> = "aa".chars().collect();
    let q: Vec<char> = "b".chars().collect();
    assert_eq!(replace(&s("aaa aa"), &p, &q), s("ba b"));
}

#[test]
fn module_comment_keeps_leading_doc_lines() {
    let src = "//! Hello\n//!\n//! World\r\n//!//!x\nfn main() {}\n//! late\n";
    assert_eq!(module_comment(src), s("Hello\n\nWorld\nx"));
    assert_eq!(module_comment("fn f() {}"), s(""));
}

#[test]
fn file_kinds_by_extension() {
    assert_eq!(Kind::from_extension("rs"), Some(Kind::RustDoc));
    assert_eq!(Kind::from_extension("md"), Some(Kind::Markdown));
    assert_eq!(Kind::from_extension("txt"), None);
}

#[test]
fn document_pipeline_by_kind() {
    let cfg = config(&[("Foo", "https://x/a"), ("a.md", "https://x/md")]);
    let mut table = LinkTable::new();
    let events = vec![
        Event::Start(heading(1)),
        text("T"),
        Event::End(heading(1)),
        Event::Start(fenced("")),
        text("# h\nv\n"),
        Event::End(fenced("")),
        text("["),
        code("Foo"),
        text("]"),
    ];
    let (out, missed) = fix_document(Kind::RustDoc, &cfg, &mut table, events).unwrap();
    let mut expected = vec![
        Event::Start(heading(2)),
        text("T"),
        Event::End(heading(2)),
        Event::Start(fenced("rust")),
        text("v\n"),
        Event::End(fenced("rust")),
    ];
    expected.extend(reference("foo", "Foo"));
    assert_eq!(out, expected);
    assert!(missed.is_empty());

    let events = vec![Event::Start(inline("a.md")), text("A"), Event::End(inline("a.md"))];
    let (out, _) = fix_document(Kind::Markdown, &cfg, &mut table, events).unwrap();
    assert_eq!(out, vec![Event::Start(inline("https://x/md")), text("A"), Event::End(inline("https://x/md"))]);

    let events = vec![Event::Start(heading(6)), Event::End(heading(6))];
    assert_eq!(fix_document(Kind::Markdown, &cfg, &mut table, events), Err(FixError::HeadingLevelOverflow));
}

#[test]
fn table_of_contents_lists_levels_two_to_six() {
    let text = "# Title\n\n## Usage\n\n### Details\n\n## License\n";
    assert_eq!(
        table_of_contents(text),
        s("- [Usage](#usage)\n  - [Details](#details)\n- [License](#license)\n")
    );
    assert_eq!(table_of_contents("# Only a title\n"), s(""));
}

#[test]
fn run_threads_one_table_through_documents() {
    let cfg = config(&[("Foo", "https://x/a"), ("foo", "https://x/b")]);
    let mut table = LinkTable::new();
    let docs = vec![
        (Kind::RustDoc, vec![text("["), code("Foo"), text("]")]),
        (Kind::RustDoc, vec![text("["), code("foo"), text("]"), text(" "), text("["), code("Bar"), text("]")]),
    ];
    let (out, missed) = fix_all(&docs, &cfg, &mut table).unwrap();
    let mut expected = reference("foo", "Foo");
    expected.extend(reference("foo-1", "foo"));
    expected.extend(vec![text(" "), text("["), code("Bar"), text("]")]);
    assert_eq!(out, expected);
    assert_eq!(missed, vec![s("Bar")]);
    let footer = append_footer(s("[`Foo`](foo) [`foo`](foo-1)"), &table);
    assert!(footer.ends_with("\n\n[foo]: https://x/a\n[foo-1]: https://x/b\n"));
}

#[test]
fn run_stops_at_the_first_failing_document() {
    let cfg = config(&[]);
    let mut table = LinkTable::new();
    let docs = vec![
        (Kind::Markdown, vec![text("ok")]),
        (Kind::RustDoc, vec![Event::Start(fenced("")), text("x")]),
        (Kind::Markdown, vec![Event::Start(heading(6)), Event::End(heading(6))]),
    ];
    assert_eq!(fix_all(&docs, &cfg, &mut table), Err(FixError::MalformedStream));
}
