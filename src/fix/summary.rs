use vstd::prelude::*;

use crate::event::{events_view, lemma_events_view_push, Event, EventV, Tag, TagV};

verus! {

/// How many paragraphs the first `n` events of `s` open.
pub open spec fn opened(s: Seq<EventV>, n: int) -> nat
    decreases n,
{
    if n <= 0 {
        0
    } else {
        opened(s, n - 1) + if s[n - 1] == EventV::Start(TagV::Paragraph) {
            1nat
        } else {
            0nat
        }
    }
}

/// How many paragraphs the first `n` events of `s` close.
pub open spec fn closed(s: Seq<EventV>, n: int) -> nat
    decreases n,
{
    if n <= 0 {
        0
    } else {
        closed(s, n - 1) + if s[n - 1] == EventV::End(TagV::Paragraph) {
            1nat
        } else {
            0nat
        }
    }
}

/// Whether the summary may end after the first `n` events of `s`: the last
/// of them closes a paragraph, and every paragraph opened so far is closed.
pub open spec fn closes_summary(s: Seq<EventV>, n: int) -> bool {
    0 < n <= s.len() && s[n - 1] == EventV::End(TagV::Paragraph) && opened(s, n) == closed(s, n)
}

/// Where `s` splits into summary and remainder: the first point at which the
/// summary may end, or the end of `s` if there is none.
pub open spec fn split_point(s: Seq<EventV>, n: int) -> bool {
    0 <= n <= s.len() && (closes_summary(s, n) || n == s.len()) && forall|m: int|
        0 < m < n ==> !#[trigger] closes_summary(s, m)
}

/// Splits a stream into its summary, everything up to and including the end
/// of the first top-level paragraph, and the remainder.
pub fn fix(events: Vec<Event>) -> (r: (Vec<Event>, Vec<Event>))
    ensures
        split_point(events_view(events@), r.0@.len() as int),
        events_view(r.0@) + events_view(r.1@) == events_view(events@),
{
    let ghost src = events_view(events@);
    let mut left: Vec<Event> = Vec::new();
    let mut opens: usize = 0;
    let mut closes: usize = 0;
    let mut i: usize = 0;
    let mut done = false;
    while i < events.len() && !done
        invariant
            i <= events.len(),
            src == events_view(events@),
            opens == opened(src, i as int),
            closes == closed(src, i as int),
            opens <= i && closes <= i,
            events_view(left@) == src.subrange(0, i as int),
            done ==> closes_summary(src, i as int),
            forall|m: int| 0 < m < i ==> !#[trigger] closes_summary(src, m),
            !done ==> !closes_summary(src, i as int),
        decreases events.len() - i,
    {
        let e = events[i].copy();
        assert(i > 0 ==> !closes_summary(src, i as int));
        match &e {
            Event::Start(Tag::Paragraph) => {
                opens = opens + 1;
            },
            Event::End(Tag::Paragraph) => {
                closes = closes + 1;
                if opens == closes {
                    done = true;
                }
            },
            _ => {},
        }
        proof {
            lemma_events_view_push(left@, e);
        }
        left.push(e);
        assert(src.subrange(0, i + 1) =~= src.subrange(0, i as int).push(src[i as int]));
        i = i + 1;
        assert(events_view(left@) =~= src.subrange(0, i as int));
    }
    let mut right: Vec<Event> = Vec::new();
    let split = i;
    while i < events.len()
        invariant
            split <= i <= events.len(),
            src == events_view(events@),
            events_view(right@) == src.subrange(split as int, i as int),
        decreases events.len() - i,
    {
        let e = events[i].copy();
        proof {
            lemma_events_view_push(right@, e);
        }
        right.push(e);
        assert(src.subrange(split as int, i + 1) =~= src.subrange(split as int, i as int).push(
            src[i as int],
        ));
        i = i + 1;
        assert(events_view(right@) =~= src.subrange(split as int, i as int));
    }
    assert(events_view(left@) + events_view(right@) =~= src);
    (left, right)
}

} // verus!
