use vstd::prelude::*;

use crate::error::FixError;
use crate::event::{events_view, Event, EventV, Tag, TagV};

verus! {

/// The deepest heading level.
pub const MAX_LEVEL: u8 = 6;

/// Whether `e` opens or closes a heading at the deepest level or below it,
/// which cannot move one level down.
pub open spec fn overflows(e: EventV) -> bool {
    match e {
        EventV::Start(TagV::Heading(level, _, _)) => level >= MAX_LEVEL,
        EventV::End(TagV::Heading(level, _, _)) => level >= MAX_LEVEL,
        _ => false,
    }
}

/// `e` with its heading level, if it has one, one greater.
pub open spec fn shifted(e: EventV) -> EventV {
    match e {
        EventV::Start(TagV::Heading(level, id, classes)) => EventV::Start(
            TagV::Heading((level + 1) as u8, id, classes),
        ),
        EventV::End(TagV::Heading(level, id, classes)) => EventV::End(
            TagV::Heading((level + 1) as u8, id, classes),
        ),
        _ => e,
    }
}

/// Whether some event of `s` overflows.
pub open spec fn any_overflows(s: Seq<EventV>) -> bool {
    exists|i: int| 0 <= i < s.len() && overflows(#[trigger] s[i])
}

/// A heading of level 1 to 5 moves exactly one level down, at its start and
/// its end; a heading of level 6 cannot move.
pub proof fn lemma_shift_level(level: u8, id: Option<Seq<char>>, classes: Seq<Seq<char>>)
    requires
        1 <= level <= MAX_LEVEL,
    ensures
        level < MAX_LEVEL ==> !overflows(EventV::Start(TagV::Heading(level, id, classes)))
            && shifted(EventV::Start(TagV::Heading(level, id, classes))) == EventV::Start(
            TagV::Heading((level + 1) as u8, id, classes),
        ) && shifted(EventV::End(TagV::Heading(level, id, classes))) == EventV::End(
            TagV::Heading((level + 1) as u8, id, classes),
        ),
        level == MAX_LEVEL ==> overflows(EventV::Start(TagV::Heading(level, id, classes)))
            && overflows(EventV::End(TagV::Heading(level, id, classes))),
{
}

/// Moves one tag one heading level down.
fn shift_tag(t: &Tag) -> (r: Result<Tag, FixError>)
    ensures
        match r {
            Ok(u) => !overflows(EventV::Start(t@)) && EventV::Start(u@) == shifted(
                EventV::Start(t@),
            ),
            Err(e) => overflows(EventV::Start(t@)) && e == FixError::HeadingLevelOverflow,
        },
{
    match t {
        Tag::Heading(level, _, _) => {
            if *level >= MAX_LEVEL {
                return Err(FixError::HeadingLevelOverflow);
            }
            let t2 = t.copy();
            match t2 {
                Tag::Heading(l, id, classes) => Ok(Tag::Heading(l + 1, id, classes)),
                _ => Ok(t2),
            }
        },
        _ => Ok(t.copy()),
    }
}

/// Increases the level of each heading by one.
///
/// Fails with `HeadingLevelOverflow` exactly when the stream holds a heading
/// of the deepest level; every other event passes through unchanged.
pub fn fix(events: Vec<Event>) -> (r: Result<Vec<Event>, FixError>)
    ensures
        r.is_ok() <==> !any_overflows(events_view(events@)),
        match r {
            Ok(v) => events_view(v@) == events_view(events@).map_values(|e: EventV| shifted(e)),
            Err(e) => e == FixError::HeadingLevelOverflow,
        },
{
    let ghost src = events_view(events@);
    let mut out: Vec<Event> = Vec::new();
    let mut i: usize = 0;
    while i < events.len()
        invariant
            i <= events.len(),
            src == events_view(events@),
            forall|j: int| 0 <= j < i ==> !overflows(#[trigger] src[j]),
            events_view(out@) == src.subrange(0, i as int).map_values(|e: EventV| shifted(e)),
        decreases events.len() - i,
    {
        let e: Event = match &events[i] {
            Event::Start(t) => match shift_tag(t) {
                Ok(u) => Event::Start(u),
                Err(err) => {
                    assert(overflows(src[i as int]));
                    return Err(err);
                },
            },
            Event::End(t) => match shift_tag(t) {
                Ok(u) => Event::End(u),
                Err(err) => {
                    assert(overflows(src[i as int]));
                    return Err(err);
                },
            },
            other => other.copy(),
        };
        assert(!overflows(src[i as int]) && e@ == shifted(src[i as int]));
        let ghost before = out@;
        out.push(e);
        assert(events_view(out@) =~= events_view(before).push(e@));
        assert(src.subrange(0, i + 1) =~= src.subrange(0, i as int).push(src[i as int]));
        i = i + 1;
        assert(events_view(out@) =~= src.subrange(0, i as int).map_values(
            |e: EventV| shifted(e),
        ));
    }
    assert(src.subrange(0, i as int) =~= src);
    Ok(out)
}

} // verus!
