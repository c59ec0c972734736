use vstd::prelude::*;

use crate::event::{
    events_view, is_close_bracket, is_open_bracket, lemma_events_view_push, Event, EventV,
    LinkType, Tag, TagV,
};
use crate::links::{
    identifier, index_of, lemma_second_destination, link_identifier, link_ref, ref_name, register,
    urls_for, LinkConfig, LinkTable,
};
use crate::text::chars_of;

verus! {

/// The value of a link table: each name with its destinations.
pub type TableV = Seq<(Seq<char>, Seq<Seq<char>>)>;

/// The index of the first `]` text event of `s` at or after `j`, or the
/// length of `s`.
pub open spec fn close_from(s: Seq<EventV>, j: int) -> int
    decreases s.len() - j,
{
    if j < 0 || j >= s.len() {
        s.len() as int
    } else if is_close_bracket(s[j]) {
        j
    } else {
        close_from(s, j + 1)
    }
}

/// Whether a bracket group opens at `i` of `s` and closes at `c`.
pub open spec fn group_at(s: Seq<EventV>, i: int, c: int) -> bool {
    0 <= i < s.len() && is_open_bracket(s[i]) && c == close_from(s, i + 1) && i < c < s.len()
}

/// Where scanning resumes after a group that closed just before `j`: past a
/// second group that opens at `j`, which is discarded, or at `j`.
pub open spec fn after_suffix(s: Seq<EventV>, j: int) -> int {
    if group_at(s, j, close_from(s, j + 1)) {
        close_from(s, j + 1) + 1
    } else {
        j
    }
}

/// The text of `g` when it is a single inline code span.
pub open spec fn single_code(g: Seq<EventV>) -> Option<Seq<char>> {
    if g.len() == 1 {
        match g[0] {
            EventV::Code(t) => Some(t),
            _ => None,
        }
    } else {
        None
    }
}

/// The reference link around the code span `text` with identifier `id`.
pub open spec fn reference_link(id: Seq<char>, text: Seq<char>) -> Seq<EventV> {
    let tag = TagV::Link(LinkType::Reference, id, Seq::empty());
    seq![EventV::Start(tag), EventV::Code(text), EventV::End(tag)]
}

/// The group with interior `g` written back literally, brackets included.
pub open spec fn literal_group(g: Seq<EventV>) -> Seq<EventV> {
    seq![EventV::Text(seq!['['])] + g + seq![EventV::Text(seq![']'])]
}

/// What the bracket group with interior `g` becomes given the table `t`, the
/// table after it, and the link texts it failed to resolve.
pub open spec fn group_output(cfg: LinkConfig, t: TableV, g: Seq<EventV>) -> (
    Seq<EventV>,
    TableV,
    Seq<Seq<char>>,
) {
    match single_code(g) {
        Some(text) => match cfg.lookup(text) {
            Some(d) => {
                let name = ref_name(text);
                let id = identifier(name, index_of(urls_for(t, name), d));
                (reference_link(id, text), register(t, name, d), Seq::empty())
            },
            None => (literal_group(g), t, seq![text]),
        },
        None => (literal_group(g), t, Seq::empty()),
    }
}

/// The stream from position `i` of `s` on with its links resolved, starting
/// from the table `t`; with the table after it and the unresolved link texts.
pub open spec fn resolved_from(cfg: LinkConfig, t: TableV, s: Seq<EventV>, i: int) -> (
    Seq<EventV>,
    TableV,
    Seq<Seq<char>>,
)
    decreases s.len() - i,
{
    if i < 0 || i >= s.len() {
        (Seq::empty(), t, Seq::empty())
    } else if group_at(s, i, close_from(s, i + 1)) {
        let c = close_from(s, i + 1);
        let g = group_output(cfg, t, s.subrange(i + 1, c));
        let rest = resolved_from(cfg, g.1, s, after_suffix(s, c + 1));
        (g.0 + rest.0, rest.1, g.2 + rest.2)
    } else {
        let rest = resolved_from(cfg, t, s, i + 1);
        (seq![s[i]] + rest.0, rest.1, rest.2)
    }
}

proof fn lemma_code_group(s: Seq<EventV>, i: int, text: Seq<char>)
    requires
        0 <= i,
        i + 2 < s.len(),
        is_open_bracket(s[i]),
        s[i + 1] == EventV::Code(text),
        is_close_bracket(s[i + 2]),
        i + 3 == s.len() || !is_open_bracket(s[i + 3]),
    ensures
        close_from(s, i + 1) == i + 2,
        group_at(s, i, i + 2),
        single_code(s.subrange(i + 1, i + 2)) == Some(text),
        literal_group(s.subrange(i + 1, i + 2)) == s.subrange(i, i + 3),
        after_suffix(s, i + 3) == i + 3,
{
    assert(close_from(s, i + 2) == i + 2);
    let g = s.subrange(i + 1, i + 2);
    assert(g =~= seq![EventV::Code(text)]);
    assert(s[i] == EventV::Text(seq!['[']));
    assert(s[i + 2] == EventV::Text(seq![']']));
    assert(literal_group(g) =~= s.subrange(i, i + 3));
}

/// A code link that the configuration does not know stays as it was
/// written, brackets included, leaves the table alone, and is reported.
pub proof fn lemma_unknown_link_literal(
    cfg: LinkConfig,
    t: TableV,
    s: Seq<EventV>,
    i: int,
    text: Seq<char>,
)
    requires
        0 <= i,
        i + 2 < s.len(),
        is_open_bracket(s[i]),
        s[i + 1] == EventV::Code(text),
        is_close_bracket(s[i + 2]),
        i + 3 == s.len() || !is_open_bracket(s[i + 3]),
        cfg.lookup(text) is None,
    ensures
        ({
            let rest = resolved_from(cfg, t, s, i + 3);
            resolved_from(cfg, t, s, i) == (s.subrange(i, i + 3) + rest.0, rest.1, seq![text]
                + rest.2)
        }),
{
    lemma_code_group(s, i, text);
}

/// A code link whose reference name already holds one destination, and
/// whose configured destination differs from it, becomes a reference link
/// with identifier `name-1`, and its destination is registered under the
/// name.
pub proof fn lemma_second_destination_link(
    cfg: LinkConfig,
    t: TableV,
    s: Seq<EventV>,
    i: int,
    text: Seq<char>,
    d1: Seq<char>,
    d2: Seq<char>,
)
    requires
        0 <= i,
        i + 2 < s.len(),
        is_open_bracket(s[i]),
        s[i + 1] == EventV::Code(text),
        is_close_bracket(s[i + 2]),
        i + 3 == s.len() || !is_open_bracket(s[i + 3]),
        cfg.lookup(text) == Some(d2),
        urls_for(t, ref_name(text)) == seq![d1],
        d1 != d2,
    ensures
        ({
            let name = ref_name(text);
            let rest = resolved_from(cfg, register(t, name, d2), s, i + 3);
            resolved_from(cfg, t, s, i) == (
                reference_link(name + seq!['-', '1'], text) + rest.0,
                rest.1,
                rest.2,
            )
        }),
{
    lemma_code_group(s, i, text);
    lemma_second_destination(ref_name(text), d1, d2);
    assert(Seq::<Seq<char>>::empty() + resolved_from(cfg, register(t, ref_name(text), d2), s, i + 3).2
        =~= resolved_from(cfg, register(t, ref_name(text), d2), s, i + 3).2);
}

/// Finds where the bracket group whose interior starts at `j` closes.
fn find_close(events: &Vec<Event>, j: usize) -> (r: usize)
    requires
        j <= events@.len(),
    ensures
        r == close_from(events_view(events@), j as int),
        j <= r <= events@.len(),
{
    let ghost s = events_view(events@);
    let mut k: usize = j;
    while k < events.len() && !events[k].is_text_char(']')
        invariant
            j <= k <= events@.len(),
            s == events_view(events@),
            close_from(s, j as int) == close_from(s, k as int),
        decreases events.len() - k,
    {
        k = k + 1;
    }
    k
}

/// Appends copies of `events[from..to]` to `out`.
fn push_copies(out: &mut Vec<Event>, events: &Vec<Event>, from: usize, to: usize)
    requires
        from <= to <= events@.len(),
    ensures
        events_view(final(out)@) == events_view(old(out)@) + events_view(events@).subrange(
            from as int,
            to as int,
        ),
{
    let mut i: usize = from;
    while i < to
        invariant
            from <= i <= to <= events@.len(),
            events_view(out@) == events_view(old(out)@) + events_view(events@).subrange(
                from as int,
                i as int,
            ),
        decreases to - i,
    {
        let e = events[i].copy();
        proof {
            lemma_events_view_push(out@, e);
        }
        out.push(e);
        i = i + 1;
        assert(events_view(out@) =~= events_view(old(out)@) + events_view(events@).subrange(
            from as int,
            i as int,
        ));
    }
}

/// Resolves intra-document links: a `[`, one inline code span and a `]`
/// whose text the configuration maps to a destination become a reference
/// link, and the destination is registered in `table`. Other bracket
/// groups are written back literally. A bracket group that follows right
/// after one is discarded.
///
/// Returns the new stream and the code texts that the configuration does
/// not know, in order.
pub fn fix(config: &LinkConfig, table: &mut LinkTable, events: Vec<Event>) -> (r: (
    Vec<Event>,
    Vec<String>,
))
    requires
        old(table).wf(),
    ensures
        final(table).wf(),
        resolved_from(*config, old(table).view(), events_view(events@), 0) == (
            events_view(r.0@),
            final(table).view(),
            r.1@.map_values(|w: String| w@),
        ),
{
    let ghost s = events_view(events@);
    let ghost t0 = table.view();
    let n = events.len();
    let mut out: Vec<Event> = Vec::new();
    let mut missed: Vec<String> = Vec::new();
    let mut i: usize = 0;
    while i < n
        invariant
            i <= n == events@.len(),
            s == events_view(events@),
            table.wf(),
            ({
                let rest = resolved_from(*config, table.view(), s, i as int);
                resolved_from(*config, t0, s, 0) == (
                    events_view(out@) + rest.0,
                    rest.1,
                    missed@.map_values(|w: String| w@) + rest.2,
                )
            }),
        decreases n - i,
    {
        let ghost t = table.view();
        let ghost p = events_view(out@);
        let ghost m = missed@.map_values(|w: String| w@);
        let c: usize = if events[i].is_text_char('[') {
            find_close(&events, i + 1)
        } else {
            n
        };
        if c < n {
            assert(group_at(s, i as int, c as int));
            let ghost g = s.subrange(i + 1, c as int);
            let mut handled = false;
            if c == i + 2 {
                assert(g =~= seq![s[i + 1]]);
                match &events[i + 1] {
                    Event::Code(text) => {
                        let key = chars_of(text.as_str());
                        match config.get(&key) {
                            Some(dest) => {
                                let name = link_ref(text.as_str());
                                let idx = table.register(name.clone(), dest);
                                let id = link_identifier(&name, idx);
                                let tag1 = Tag::Link(LinkType::Reference, id.clone(), String::new());
                                let tag2 = Tag::Link(LinkType::Reference, id, String::new());
                                let e1 = Event::Start(tag1);
                                let e2 = Event::Code(text.clone());
                                let e3 = Event::End(tag2);
                                proof {
                                    lemma_events_view_push(out@, e1);
                                    lemma_events_view_push(out@.push(e1), e2);
                                    lemma_events_view_push(out@.push(e1).push(e2), e3);
                                }
                                out.push(e1);
                                out.push(e2);
                                out.push(e3);
                                assert(events_view(out@) =~= p + group_output(*config, t, g).0);
                                assert(m + Seq::<Seq<char>>::empty() =~= m);
                                handled = true;
                            },
                            None => {
                                missed.push(text.clone());
                                assert(missed@.map_values(|w: String| w@) =~= m + seq![text@]);
                            },
                        }
                    },
                    _ => {},
                }
            }
            if !handled {
                let open = Event::Text(String::from_str("["));
                proof {
                    reveal_strlit("[");
                    reveal_strlit("]");
                    assert("["@ =~= seq!['[']);
                    assert("]"@ =~= seq![']']);
                    lemma_events_view_push(out@, open);
                }
                out.push(open);
                push_copies(&mut out, &events, i + 1, c);
                let close = Event::Text(String::from_str("]"));
                proof {
                    lemma_events_view_push(out@, close);
                }
                out.push(close);
                assert(events_view(out@) =~= p + literal_group(g));
            }
            // Discard a bracket group that follows right away.
            let mut next: usize = c + 1;
            if next < n && events[next].is_text_char('[') {
                let c2 = find_close(&events, next + 1);
                if c2 < n {
                    next = c2 + 1;
                }
            }
            assert(next == after_suffix(s, c + 1));
            i = next;
        } else {
            assert(!group_at(s, i as int, close_from(s, i + 1)));
            let e = events[i].copy();
            proof {
                lemma_events_view_push(out@, e);
            }
            out.push(e);
            i = i + 1;
            assert(p + (seq![s[i - 1]] + resolved_from(*config, t, s, i as int).0) =~= events_view(
                out@,
            ) + resolved_from(*config, t, s, i as int).0);
        }
    }
    assert(events_view(out@) + Seq::<EventV>::empty() =~= events_view(out@));
    assert(missed@.map_values(|w: String| w@) + Seq::<Seq<char>>::empty() =~= missed@.map_values(
        |w: String| w@,
    ));
    (out, missed)
}

} // verus!
