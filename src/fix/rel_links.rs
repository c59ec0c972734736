use vstd::prelude::*;

use crate::event::{events_view, lemma_events_view_push, Event, EventV, LinkType, Tag, TagV};
use crate::links::{find_from, LinkConfig};
use crate::text::{chars_of, push_chars, string_of};

verus! {

/// Whether `c` may stand in a URL scheme.
pub open spec fn in_scheme(c: char) -> bool {
    ('a' <= c <= 'z') || c == '+'
}

/// The end of the run of scheme characters of `x` that starts at `j`.
pub open spec fn scheme_end(x: Seq<char>, j: int) -> int
    decreases x.len() - j,
{
    if j < 0 || j >= x.len() {
        x.len() as int
    } else if in_scheme(x[j]) {
        scheme_end(x, j + 1)
    } else {
        j
    }
}

/// Whether a destination points into the same page (`#...`) or is absolute
/// (`//...` or `scheme://...`).
pub open spec fn is_absolute(x: Seq<char>) -> bool {
    let k = scheme_end(x, 0);
    (x.len() > 0 && x[0] == '#') || (k == 0 && x.len() >= 2 && x[0] == '/' && x[1] == '/') || (0
        < k && k + 2 < x.len() && x[k] == ':' && x[k + 1] == '/' && x[k + 2] == '/')
}

/// The path part of a destination: what comes before the first `#`.
pub open spec fn path_part(x: Seq<char>) -> Seq<char> {
    x.subrange(0, find_from(x, '#', 0))
}

/// The fragment of a destination: from the first `#` on, or empty.
pub open spec fn fragment(x: Seq<char>) -> Seq<char> {
    x.subrange(find_from(x, '#', 0), x.len() as int)
}

/// The stream from position `i` of `s` on with its local links remapped, and
/// the paths that the configuration does not know. `pending` holds the new
/// destination and title of a remapped link that is still open.
pub open spec fn remapped_from(
    cfg: LinkConfig,
    s: Seq<EventV>,
    i: int,
    pending: Option<(Seq<char>, Seq<char>)>,
) -> (Seq<EventV>, Seq<Seq<char>>)
    decreases s.len() - i,
{
    if i < 0 || i >= s.len() {
        (Seq::empty(), Seq::empty())
    } else {
        match pending {
            Some((d, title)) => match s[i] {
                EventV::End(TagV::Link(LinkType::Inline, _, _)) => {
                    let rest = remapped_from(cfg, s, i + 1, None);
                    (seq![EventV::End(TagV::Link(LinkType::Inline, d, title))] + rest.0, rest.1)
                },
                _ => {
                    let rest = remapped_from(cfg, s, i + 1, pending);
                    (seq![s[i]] + rest.0, rest.1)
                },
            },
            None => match s[i] {
                EventV::Start(TagV::Link(LinkType::Inline, dst, title)) => if is_absolute(dst) {
                    let rest = remapped_from(cfg, s, i + 1, None);
                    (seq![s[i]] + rest.0, rest.1)
                } else {
                    match cfg.lookup(path_part(dst)) {
                        Some(nd) => {
                            let d = nd + fragment(dst);
                            let rest = remapped_from(cfg, s, i + 1, Some((d, title)));
                            (
                                seq![EventV::Start(TagV::Link(LinkType::Inline, d, title))]
                                    + rest.0,
                                rest.1,
                            )
                        },
                        None => {
                            let rest = remapped_from(cfg, s, i + 1, None);
                            (seq![s[i]] + rest.0, seq![path_part(dst)] + rest.1)
                        },
                    }
                },
                _ => {
                    let rest = remapped_from(cfg, s, i + 1, None);
                    (seq![s[i]] + rest.0, rest.1)
                },
            },
        }
    }
}

/// Whether a destination is absolute or points into the same page.
pub fn is_absolute_link(dst: &Vec<char>) -> (r: bool)
    ensures
        r == is_absolute(dst@),
{
    let n = dst.len();
    if n > 0 && dst[0] == '#' {
        return true;
    }
    let mut k: usize = 0;
    while k < n && (('a' <= dst[k] && dst[k] <= 'z') || dst[k] == '+')
        invariant
            k <= n == dst@.len(),
            scheme_end(dst@, 0) == scheme_end(dst@, k as int),
        decreases n - k,
    {
        k = k + 1;
    }
    if k == 0 {
        n >= 2 && dst[0] == '/' && dst[1] == '/'
    } else {
        k < n && n - k > 2 && dst[k] == ':' && dst[k + 1] == '/' && dst[k + 2] == '/'
    }
}

/// The value of a pending destination and title.
pub open spec fn pending_view(p: Option<(String, String)>) -> Option<(Seq<char>, Seq<char>)> {
    match p {
        Some((d, t)) => Some((d@, t@)),
        None => None,
    }
}

/// Remaps local file links through the configuration: an inline link whose
/// destination is neither absolute nor into the same page, and whose path
/// part the configuration maps, gets the mapped path followed by its
/// fragment, on its start and on its end. Everything else passes
/// through unchanged.
///
/// Returns the new stream and the paths that the configuration does not
/// know, in order.
pub fn fix(config: &LinkConfig, events: Vec<Event>) -> (r: (Vec<Event>, Vec<String>))
    ensures
        remapped_from(*config, events_view(events@), 0, None) == (
            events_view(r.0@),
            r.1@.map_values(|w: String| w@),
        ),
{
    let ghost s = events_view(events@);
    let n = events.len();
    let mut out: Vec<Event> = Vec::new();
    let mut missed: Vec<String> = Vec::new();
    let mut pending: Option<(String, String)> = None;
    let mut i: usize = 0;
    while i < n
        invariant
            i <= n == events@.len(),
            s == events_view(events@),
            ({
                let rest = remapped_from(*config, s, i as int, pending_view(pending));
                remapped_from(*config, s, 0, None) == (
                    events_view(out@) + rest.0,
                    missed@.map_values(|w: String| w@) + rest.1,
                )
            }),
        decreases n - i,
    {
        let ghost p = events_view(out@);
        let ghost m = missed@.map_values(|w: String| w@);
        let mut e: Event = events[i].copy();
        let mut next_pending: Option<(String, String)> = None;
        match &pending {
            Some((d, title)) => {
                match &events[i] {
                    Event::End(Tag::Link(LinkType::Inline, _, _)) => {
                        e = Event::End(Tag::Link(LinkType::Inline, d.clone(), title.clone()));
                    },
                    _ => {
                        next_pending = Some((d.clone(), title.clone()));
                    },
                }
            },
            None => {
                match &events[i] {
                    Event::Start(Tag::Link(LinkType::Inline, dst, title)) => {
                        let cs = chars_of(dst.as_str());
                        if !is_absolute_link(&cs) {
                            let mut h: usize = 0;
                            while h < cs.len() && cs[h] != '#'
                                invariant
                                    h <= cs@.len(),
                                    cs@ == dst@,
                                    find_from(dst@, '#', 0) == find_from(dst@, '#', h as int),
                                decreases cs.len() - h,
                            {
                                h = h + 1;
                            }
                            let path = string_of(&cs, 0, h);
                            let key = chars_of(path.as_str());
                            match config.get(&key) {
                                Some(nd) => {
                                    let mut d = nd;
                                    push_chars(&mut d, &cs, h, cs.len());
                                    e = Event::Start(Tag::Link(LinkType::Inline, d.clone(), title.clone()));
                                    next_pending = Some((d, title.clone()));
                                },
                                None => {
                                    missed.push(path);
                                    assert(missed@.map_values(|w: String| w@) =~= m + seq![
                                        path_part(dst@),
                                    ]);
                                },
                            }
                        }
                    },
                    _ => {},
                }
            },
        }
        proof {
            lemma_events_view_push(out@, e);
        }
        out.push(e);
        pending = next_pending;
        i = i + 1;
        let ghost r1 = remapped_from(*config, s, i as int, pending_view(pending));
        assert(p + (seq![e@] + r1.0) =~= events_view(out@) + r1.0);
    }
    assert(events_view(out@) + Seq::<EventV>::empty() =~= events_view(out@));
    assert(missed@.map_values(|w: String| w@) + Seq::<Seq<char>>::empty() =~= missed@.map_values(
        |w: String| w@,
    ));
    (out, missed)
}

} // verus!
