use vstd::prelude::*;

verus! {

/// The kind of a code block: indented, or fenced with an info string.
#[derive(Debug, Clone, PartialEq, Eq)]
pub enum CodeBlockKind {
    Indented,
    Fenced(String),
}

/// How a link or image was written in the source.
#[derive(Debug, Clone, Copy, PartialEq, Eq, Structural)]
pub enum LinkType {
    Inline,
    Reference,
    ReferenceUnknown,
    Collapsed,
    CollapsedUnknown,
    Shortcut,
    ShortcutUnknown,
    Autolink,
    Email,
}

/// The alignment of a table column.
#[derive(Debug, Clone, Copy, PartialEq, Eq, Structural)]
pub enum Alignment {
    Unset,
    Left,
    Center,
    Right,
}

/// A container element of a Markdown document; it opens with `Event::Start`
/// and closes with `Event::End`.
#[derive(Debug, Clone, PartialEq, Eq)]
pub enum Tag {
    Paragraph,
    /// A heading of level 1 to 6, with an optional id and its classes.
    Heading(u8, Option<String>, Vec<String>),
    BlockQuote,
    CodeBlock(CodeBlockKind),
    /// A list, with the number of its first item when it is ordered.
    List(Option<u64>),
    Item,
    FootnoteDefinition(String),
    Table(Vec<Alignment>),
    TableHead,
    TableRow,
    TableCell,
    Emphasis,
    Strong,
    Strikethrough,
    /// A link: its type, destination and title.
    Link(LinkType, String, String),
    /// An image: its type, destination and title.
    Image(LinkType, String, String),
}

/// One token of a parsed Markdown document.
#[derive(Debug, Clone, PartialEq, Eq)]
pub enum Event {
    Start(Tag),
    End(Tag),
    Text(String),
    Code(String),
    Html(String),
    FootnoteReference(String),
    SoftBreak,
    HardBreak,
    Rule,
    TaskListMarker(bool),
}

/// The mathematical value of a `CodeBlockKind`.
pub enum CodeBlockKindV {
    Indented,
    Fenced(Seq<char>),
}

/// The mathematical value of a `Tag`: strings become character sequences.
pub enum TagV {
    Paragraph,
    Heading(u8, Option<Seq<char>>, Seq<Seq<char>>),
    BlockQuote,
    CodeBlock(CodeBlockKindV),
    List(Option<u64>),
    Item,
    FootnoteDefinition(Seq<char>),
    Table(Seq<Alignment>),
    TableHead,
    TableRow,
    TableCell,
    Emphasis,
    Strong,
    Strikethrough,
    Link(LinkType, Seq<char>, Seq<char>),
    Image(LinkType, Seq<char>, Seq<char>),
}

/// The mathematical value of an `Event`.
pub enum EventV {
    Start(TagV),
    End(TagV),
    Text(Seq<char>),
    Code(Seq<char>),
    Html(Seq<char>),
    FootnoteReference(Seq<char>),
    SoftBreak,
    HardBreak,
    Rule,
    TaskListMarker(bool),
}

/// The character sequences of a sequence of strings.
pub open spec fn strings_view(v: Seq<String>) -> Seq<Seq<char>> {
    v.map_values(|s: String| s@)
}

/// The values of a sequence of events.
pub open spec fn events_view(v: Seq<Event>) -> Seq<EventV> {
    v.map_values(|e: Event| e@)
}

/// The values of a sequence of events grow by one value when one event is pushed.
pub proof fn lemma_events_view_push(s: Seq<Event>, e: Event)
    ensures
        events_view(s.push(e)) == events_view(s).push(e@),
{
    assert(events_view(s.push(e)) =~= events_view(s).push(e@));
}

impl View for CodeBlockKind {
    type V = CodeBlockKindV;

    open spec fn view(&self) -> CodeBlockKindV {
        match self {
            CodeBlockKind::Indented => CodeBlockKindV::Indented,
            CodeBlockKind::Fenced(s) => CodeBlockKindV::Fenced(s@),
        }
    }
}

impl View for Tag {
    type V = TagV;

    open spec fn view(&self) -> TagV {
        match self {
            Tag::Paragraph => TagV::Paragraph,
            Tag::Heading(level, id, classes) => TagV::Heading(
                *level,
                match id {
                    Some(s) => Some(s@),
                    None => None,
                },
                strings_view(classes@),
            ),
            Tag::BlockQuote => TagV::BlockQuote,
            Tag::CodeBlock(kind) => TagV::CodeBlock(kind@),
            Tag::List(start) => TagV::List(*start),
            Tag::Item => TagV::Item,
            Tag::FootnoteDefinition(s) => TagV::FootnoteDefinition(s@),
            Tag::Table(cols) => TagV::Table(cols@),
            Tag::TableHead => TagV::TableHead,
            Tag::TableRow => TagV::TableRow,
            Tag::TableCell => TagV::TableCell,
            Tag::Emphasis => TagV::Emphasis,
            Tag::Strong => TagV::Strong,
            Tag::Strikethrough => TagV::Strikethrough,
            Tag::Link(t, d, ti) => TagV::Link(*t, d@, ti@),
            Tag::Image(t, d, ti) => TagV::Image(*t, d@, ti@),
        }
    }
}

impl View for Event {
    type V = EventV;

    open spec fn view(&self) -> EventV {
        match self {
            Event::Start(t) => EventV::Start(t@),
            Event::End(t) => EventV::End(t@),
            Event::Text(s) => EventV::Text(s@),
            Event::Code(s) => EventV::Code(s@),
            Event::Html(s) => EventV::Html(s@),
            Event::FootnoteReference(s) => EventV::FootnoteReference(s@),
            Event::SoftBreak => EventV::SoftBreak,
            Event::HardBreak => EventV::HardBreak,
            Event::Rule => EventV::Rule,
            Event::TaskListMarker(b) => EventV::TaskListMarker(*b),
        }
    }
}

/// Whether `e` is a text event whose text is `s`.
pub open spec fn is_text(e: EventV, s: Seq<char>) -> bool {
    match e {
        EventV::Text(t) => t == s,
        _ => false,
    }
}

/// Whether `e` is the text event `[`.
pub open spec fn is_open_bracket(e: EventV) -> bool {
    is_text(e, seq!['['])
}

/// Whether `e` is the text event `]`.
pub open spec fn is_close_bracket(e: EventV) -> bool {
    is_text(e, seq![']'])
}

/// Returns an equal copy of a string.
pub fn copy_string(s: &String) -> (r: String)
    ensures
        r == *s,
{
    s.clone()
}

/// Returns an equal copy of a vector of strings.
pub fn copy_strings(v: &Vec<String>) -> (r: Vec<String>)
    ensures
        r@ == v@,
{
    let mut r: Vec<String> = Vec::new();
    let mut i: usize = 0;
    while i < v.len()
        invariant
            i <= v.len(),
            r@ == v@.subrange(0, i as int),
        decreases v.len() - i,
    {
        r.push(copy_string(&v[i]));
        i = i + 1;
    }
    assert(r@ =~= v@);
    r
}

/// Returns an equal copy of a vector of column alignments.
pub fn copy_alignments(v: &Vec<Alignment>) -> (r: Vec<Alignment>)
    ensures
        r@ == v@,
{
    let mut r: Vec<Alignment> = Vec::new();
    let mut i: usize = 0;
    while i < v.len()
        invariant
            i <= v.len(),
            r@ == v@.subrange(0, i as int),
        decreases v.len() - i,
    {
        r.push(v[i]);
        i = i + 1;
    }
    assert(r@ =~= v@);
    r
}

impl CodeBlockKind {
    /// Returns an equal copy of this kind.
    pub fn copy(&self) -> (r: CodeBlockKind)
        ensures
            r@ == self@,
    {
        match self {
            CodeBlockKind::Indented => CodeBlockKind::Indented,
            CodeBlockKind::Fenced(s) => CodeBlockKind::Fenced(copy_string(s)),
        }
    }
}

impl Tag {
    /// Returns an equal copy of this tag.
    pub fn copy(&self) -> (r: Tag)
        ensures
            r@ == self@,
    {
        match self {
            Tag::Paragraph => Tag::Paragraph,
            Tag::Heading(level, id, classes) => {
                let id2 = match id {
                    Some(s) => Some(copy_string(s)),
                    None => None,
                };
                let classes2 = copy_strings(classes);
                assert(strings_view(classes2@) == strings_view(classes@));
                Tag::Heading(*level, id2, classes2)
            },
            Tag::BlockQuote => Tag::BlockQuote,
            Tag::CodeBlock(kind) => Tag::CodeBlock(kind.copy()),
            Tag::List(start) => Tag::List(*start),
            Tag::Item => Tag::Item,
            Tag::FootnoteDefinition(s) => Tag::FootnoteDefinition(copy_string(s)),
            Tag::Table(cols) => {
                let cols2 = copy_alignments(cols);
                Tag::Table(cols2)
            },
            Tag::TableHead => Tag::TableHead,
            Tag::TableRow => Tag::TableRow,
            Tag::TableCell => Tag::TableCell,
            Tag::Emphasis => Tag::Emphasis,
            Tag::Strong => Tag::Strong,
            Tag::Strikethrough => Tag::Strikethrough,
            Tag::Link(t, d, ti) => Tag::Link(*t, copy_string(d), copy_string(ti)),
            Tag::Image(t, d, ti) => Tag::Image(*t, copy_string(d), copy_string(ti)),
        }
    }
}

impl Event {
    /// Returns an equal copy of this event.
    pub fn copy(&self) -> (r: Event)
        ensures
            r@ == self@,
    {
        match self {
            Event::Start(t) => Event::Start(t.copy()),
            Event::End(t) => Event::End(t.copy()),
            Event::Text(s) => Event::Text(copy_string(s)),
            Event::Code(s) => Event::Code(copy_string(s)),
            Event::Html(s) => Event::Html(copy_string(s)),
            Event::FootnoteReference(s) => Event::FootnoteReference(copy_string(s)),
            Event::SoftBreak => Event::SoftBreak,
            Event::HardBreak => Event::HardBreak,
            Event::Rule => Event::Rule,
            Event::TaskListMarker(b) => Event::TaskListMarker(*b),
        }
    }

    /// Whether this is the text event holding exactly the character `c`.
    pub fn is_text_char(&self, c: char) -> (r: bool)
        ensures
            r == is_text(self@, seq![c]),
    {
        match self {
            Event::Text(t) => {
                let s: &str = t.as_str();
                if s.unicode_len() == 1 {
                    let d = s.get_char(0);
                    assert(t@ =~= seq![c] <==> d == c);
                    d == c
                } else {
                    false
                }
            },
            _ => false,
        }
    }
}

} // verus!
