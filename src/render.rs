//! The per-document pipeline, the module comment of a source file, and the
//! footer of reference definitions.
use vstd::prelude::*;

use crate::error::FixError;
use crate::event::{events_view, Event, EventV};
use crate::fix::code_blocks::{first_line, nl_from};
use crate::fix::{code_blocks, doc_links, headings, rel_links};
use crate::links::{identifier, link_identifier, LinkConfig, LinkTable};
use crate::text::{chars_of, push_char, push_chars};

verus! {

/// What an input file holds.
#[derive(Debug, Clone, Copy, PartialEq, Eq, Structural)]
pub enum Kind {
    /// A Rust source file whose leading `//!` comment is the document.
    RustDoc,
    /// A Markdown file.
    Markdown,
}

/// The kind of an input file with extension `ext`: `rs` or `md`.
pub open spec fn kind_for(ext: Seq<char>) -> Option<Kind> {
    if ext == seq!['r', 's'] {
        Some(Kind::RustDoc)
    } else if ext == seq!['m', 'd'] {
        Some(Kind::Markdown)
    } else {
        None
    }
}

impl Kind {
    /// The kind of an input file with extension `ext`; `None` for any
    /// extension other than `rs` and `md`.
    pub fn from_extension(ext: &str) -> (r: Option<Kind>)
        ensures
            r == kind_for(ext@),
    {
        let cs = chars_of(ext);
        proof {
            reveal_strlit("rs");
            reveal_strlit("md");
        }
        assert("rs"@ =~= seq!['r', 's']);
        assert("md"@ =~= seq!['m', 'd']);
        if crate::text::same_chars(&cs, "rs") {
            Some(Kind::RustDoc)
        } else if crate::text::same_chars(&cs, "md") {
            Some(Kind::Markdown)
        } else {
            None
        }
    }
}

/// The fixups of one document: headings move one level down; then a Rust
/// document gets its code blocks normalised and its links resolved against
/// `table`, and a Markdown document gets its local links remapped.
///
/// Returns the stream and the link texts or paths the configuration does
/// not know.
pub fn fix_document(kind: Kind, config: &LinkConfig, table: &mut LinkTable, events: Vec<Event>) -> (r:
    Result<(Vec<Event>, Vec<String>), FixError>)
    requires
        old(table).wf(),
    ensures
        final(table).wf(),
        r is Err ==> final(table).view() == old(table).view(),
        r is Ok <==> !headings::any_overflows(events_view(events@)) && (kind == Kind::Markdown
            || code_blocks::normalized(
            events_view(events@).map_values(|e: EventV| headings::shifted(e)),
        ) is Some),
        match r {
            Ok((v, missed)) => {
                let shifted = events_view(events@).map_values(|e: EventV| headings::shifted(e));
                match kind {
                    Kind::RustDoc => {
                        let normalized = code_blocks::normalized(shifted)->Some_0;
                        doc_links::resolved_from(*config, old(table).view(), normalized, 0) == (
                            events_view(v@),
                            final(table).view(),
                            missed@.map_values(|w: String| w@),
                        )
                    },
                    Kind::Markdown => {
                        final(table).view() == old(table).view() && rel_links::remapped_from(
                            *config,
                            shifted,
                            0,
                            None,
                        ) == (events_view(v@), missed@.map_values(|w: String| w@))
                    },
                }
            },
            Err(e) => if headings::any_overflows(events_view(events@)) {
                e == FixError::HeadingLevelOverflow
            } else {
                kind == Kind::RustDoc && e == FixError::MalformedStream
            },
        },
{
    let es = match headings::fix(events) {
        Ok(v) => v,
        Err(e) => return Err(e),
    };
    match kind {
        Kind::RustDoc => {
            let es = match code_blocks::fix(es) {
                Ok(v) => v,
                Err(e) => return Err(e),
            };
            Ok(doc_links::fix(config, table, es))
        },
        Kind::Markdown => Ok(rel_links::fix(config, es)),
    }
}

/// What the fixups make of one document `s` of kind `kind`, starting from
/// the table `t`: the stream, the table after it and the unknown link texts
/// or paths; or the error that stops it.
pub open spec fn document_result(kind: Kind, cfg: LinkConfig, t: doc_links::TableV, s: Seq<EventV>) -> Result<
    (Seq<EventV>, doc_links::TableV, Seq<Seq<char>>),
    FixError,
> {
    if headings::any_overflows(s) {
        Err(FixError::HeadingLevelOverflow)
    } else {
        let shifted = s.map_values(|e: EventV| headings::shifted(e));
        match kind {
            Kind::RustDoc => match code_blocks::normalized(shifted) {
                Some(n) => Ok(doc_links::resolved_from(cfg, t, n, 0)),
                None => Err(FixError::MalformedStream),
            },
            Kind::Markdown => {
                let r = rel_links::remapped_from(cfg, shifted, 0, None);
                Ok((r.0, t, r.1))
            },
        }
    }
}

/// The documents of `docs` from index `j` on, run in order from the table
/// `t`: their streams and unknown texts joined, and the final table; or the
/// first error, which stops the run.
pub open spec fn run_from(
    docs: Seq<(Kind, Seq<EventV>)>,
    cfg: LinkConfig,
    t: doc_links::TableV,
    j: int,
) -> Result<(Seq<EventV>, doc_links::TableV, Seq<Seq<char>>), FixError>
    decreases docs.len() - j,
{
    if j < 0 || j >= docs.len() {
        Ok((Seq::empty(), t, Seq::empty()))
    } else {
        match document_result(docs[j].0, cfg, t, docs[j].1) {
            Err(e) => Err(e),
            Ok((v, t2, m)) => match run_from(docs, cfg, t2, j + 1) {
                Ok((v2, t3, m2)) => Ok((v + v2, t3, m + m2)),
                Err(e) => Err(e),
            },
        }
    }
}

/// The kinds and event values of a list of documents.
pub open spec fn docs_view(docs: Seq<(Kind, Vec<Event>)>) -> Seq<(Kind, Seq<EventV>)> {
    docs.map_values(|d: (Kind, Vec<Event>)| (d.0, events_view(d.1@)))
}

/// `v` and `m` in front of what the rest of a run gives.
pub open spec fn prepend_run(
    v: Seq<EventV>,
    m: Seq<Seq<char>>,
    r: Result<(Seq<EventV>, doc_links::TableV, Seq<Seq<char>>), FixError>,
) -> Result<(Seq<EventV>, doc_links::TableV, Seq<Seq<char>>), FixError> {
    match r {
        Ok((v2, t, m2)) => Ok((v + v2, t, m + m2)),
        Err(e) => Err(e),
    }
}

/// Returns an equal copy of a stream.
fn copy_events(v: &Vec<Event>) -> (r: Vec<Event>)
    ensures
        events_view(r@) == events_view(v@),
{
    let mut r: Vec<Event> = Vec::new();
    let mut i: usize = 0;
    while i < v.len()
        invariant
            i <= v@.len(),
            events_view(r@) == events_view(v@).subrange(0, i as int),
        decreases v.len() - i,
    {
        let e = v[i].copy();
        proof {
            crate::event::lemma_events_view_push(r@, e);
        }
        r.push(e);
        i = i + 1;
        assert(events_view(r@) =~= events_view(v@).subrange(0, i as int));
    }
    assert(events_view(v@).subrange(0, i as int) =~= events_view(v@));
    r
}

/// Runs the fixups over the documents of one rendering run, in order, with
/// one link table threaded through them all. Returns the documents' streams
/// joined and their unknown link texts or paths; the first document that
/// fails stops the run with its error.
pub fn fix_all(docs: &Vec<(Kind, Vec<Event>)>, config: &LinkConfig, table: &mut LinkTable) -> (r:
    Result<(Vec<Event>, Vec<String>), FixError>)
    requires
        old(table).wf(),
    ensures
        final(table).wf(),
        r matches Ok((vs, ms)) ==> run_from(docs_view(docs@), *config, old(table).view(), 0)
            == Ok::<(Seq<EventV>, doc_links::TableV, Seq<Seq<char>>), FixError>(
            (events_view(vs@), final(table).view(), ms@.map_values(|w: String| w@)),
        ),
        r matches Err(err) ==> run_from(docs_view(docs@), *config, old(table).view(), 0) == Err::<
            (Seq<EventV>, doc_links::TableV, Seq<Seq<char>>),
            FixError,
        >(err),
{
    let ghost d = docs_view(docs@);
    let ghost t0 = table.view();
    let mut out: Vec<Event> = Vec::new();
    let mut missed: Vec<String> = Vec::new();
    let mut j: usize = 0;
    while j < docs.len()
        invariant
            j <= docs@.len(),
            d == docs_view(docs@),
            t0 == old(table).view(),
            table.wf(),
            run_from(d, *config, t0, 0) == prepend_run(
                events_view(out@),
                missed@.map_values(|w: String| w@),
                run_from(d, *config, table.view(), j as int),
            ),
        decreases docs.len() - j,
    {
        let ghost t = table.view();
        let ghost pv = events_view(out@);
        let ghost pm = missed@.map_values(|w: String| w@);
        let kind = docs[j].0;
        let events = copy_events(&docs[j].1);
        assert(d[j as int] == (kind, events_view(events@)));
        match fix_document(kind, config, table, events) {
            Ok((v, m)) => {
                let ghost vv = events_view(v@);
                let ghost mv = m@.map_values(|w: String| w@);
                assert(document_result(kind, *config, t, d[j as int].1) == Ok::<
                    (Seq<EventV>, doc_links::TableV, Seq<Seq<char>>),
                    FixError,
                >((vv, table.view(), mv)));
                let mut k: usize = 0;
                while k < v.len()
                    invariant
                        k <= v@.len(),
                        events_view(out@) == pv + vv.subrange(0, k as int),
                        vv == events_view(v@),
                    decreases v.len() - k,
                {
                    let e = v[k].copy();
                    proof {
                        crate::event::lemma_events_view_push(out@, e);
                    }
                    out.push(e);
                    k = k + 1;
                    assert(events_view(out@) =~= pv + vv.subrange(0, k as int));
                }
                assert(vv.subrange(0, k as int) =~= vv);
                let mut k: usize = 0;
                while k < m.len()
                    invariant
                        k <= m@.len(),
                        missed@.map_values(|w: String| w@) == pm + mv.subrange(0, k as int),
                        mv == m@.map_values(|w: String| w@),
                    decreases m.len() - k,
                {
                    let w = crate::event::copy_string(&m[k]);
                    let ghost before = missed@;
                    missed.push(w);
                    assert(missed@.map_values(|w: String| w@) =~= before.map_values(|w: String| w@).push(w@));
                    k = k + 1;
                    assert(missed@.map_values(|w: String| w@) =~= pm + mv.subrange(0, k as int));
                }
                assert(mv.subrange(0, k as int) =~= mv);
                proof {
                    let rest = run_from(d, *config, table.view(), j + 1);
                    if let Ok((v2, t3, m2)) = rest {
                        assert(pv + (vv + v2) =~= (pv + vv) + v2);
                        assert(pm + (mv + m2) =~= (pm + mv) + m2);
                    }
                }
            },
            Err(e) => {
                assert(document_result(kind, *config, t, d[j as int].1) == Err::<
                    (Seq<EventV>, doc_links::TableV, Seq<Seq<char>>),
                    FixError,
                >(e));
                return Err(e);
            },
        }
        j = j + 1;
    }
    assert(events_view(out@) + Seq::<EventV>::empty() =~= events_view(out@));
    assert(missed@.map_values(|w: String| w@) + Seq::<Seq<char>>::empty() =~= missed@.map_values(
        |w: String| w@,
    ));
    Ok((out, missed))
}

/// Whether `x` starts with `p`.
pub open spec fn starts_with(x: Seq<char>, p: Seq<char>) -> bool {
    p.len() <= x.len() && x.subrange(0, p.len() as int) == p
}

/// `x` with every occurrence of `p` replaced by `q`, left to right and
/// without overlaps.
pub open spec fn replace_all(x: Seq<char>, p: Seq<char>, q: Seq<char>) -> Seq<char>
    decreases x.len(),
{
    if x.len() == 0 || p.len() == 0 {
        x
    } else if starts_with(x, p) {
        q + replace_all(x.subrange(p.len() as int, x.len() as int), p, q)
    } else {
        seq![x[0]] + replace_all(x.drop_first(), p, q)
    }
}

/// Whether `p` occurs in `cs[..to]` at `i`.
fn occurs_at(cs: &Vec<char>, p: &Vec<char>, i: usize, to: usize) -> (r: bool)
    requires
        i <= to <= cs@.len(),
    ensures
        r == starts_with(cs@.subrange(i as int, to as int), p@),
{
    let ghost x = cs@.subrange(i as int, to as int);
    if p.len() > to - i {
        return false;
    }
    let mut k: usize = 0;
    while k < p.len()
        invariant
            i <= to <= cs@.len(),
            k <= p@.len() <= x.len(),
            x == cs@.subrange(i as int, to as int),
            x.subrange(0, k as int) == p@.subrange(0, k as int),
        decreases p.len() - k,
    {
        if cs[i + k] != p[k] {
            assert(x.subrange(0, p@.len() as int)[k as int] != p@[k as int]);
            return false;
        }
        k = k + 1;
        assert(x.subrange(0, k as int) =~= p@.subrange(0, k as int));
    }
    assert(p@.subrange(0, k as int) =~= p@);
    true
}

/// Replaces every occurrence of `p` in `s` by `q`.
pub fn replace(s: &String, p: &Vec<char>, q: &Vec<char>) -> (r: String)
    ensures
        r@ == replace_all(s@, p@, q@),
{
    if p.len() == 0 {
        return s.clone();
    }
    let cs = chars_of(s.as_str());
    let n = cs.len();
    let mut out = String::new();
    let mut i: usize = 0;
    assert(cs@.subrange(0, n as int) =~= cs@);
    while i < n
        invariant
            i <= n == cs@.len(),
            cs@ == s@,
            p@.len() > 0,
            replace_all(s@, p@, q@) == out@ + replace_all(
                cs@.subrange(i as int, n as int),
                p@,
                q@,
            ),
        decreases n - i,
    {
        let ghost x = cs@.subrange(i as int, n as int);
        if occurs_at(&cs, p, i, n) {
            push_chars(&mut out, q, 0, q.len());
            assert(q@.subrange(0, q@.len() as int) =~= q@);
            assert(x.subrange(p@.len() as int, x.len() as int) =~= cs@.subrange(
                i + p@.len(),
                n as int,
            ));
            i = i + p.len();
        } else {
            push_char(&mut out, cs[i]);
            assert(x.drop_first() =~= cs@.subrange(i + 1, n as int));
            i = i + 1;
        }
        assert(out@ + replace_all(cs@.subrange(i as int, n as int), p@, q@) == replace_all(
            s@,
            p@,
            q@,
        )) by {
            assert(forall|a: Seq<char>, b: Seq<char>, c: Seq<char>| (a + b) + c =~= a + (b + c));
        }
    }
    assert(out@ + replace_all(cs@.subrange(n as int, n as int), p@, q@) =~= out@);
    out
}

/// `id` between two delimiters.
pub open spec fn wrapped(open: char, id: Seq<char>, close: char) -> Seq<char> {
    seq![open] + id + seq![close]
}

/// One definition of the footer: each link closing `](id)` that uses it
/// becomes the reference closing `][id]`, and the line `[id]: url` is
/// appended.
pub open spec fn with_definition(x: Seq<char>, id: Seq<char>, url: Seq<char>) -> Seq<char> {
    replace_all(x, seq![']'] + wrapped('(', id, ')'), seq![']'] + wrapped('[', id, ']'))
        + wrapped('[', id, ']') + seq![
        ':',
        ' ',
    ] + url + seq!['\n']
}

/// The definitions of the destinations of `name` from index `i` on, applied to `x`.
pub open spec fn with_entry(x: Seq<char>, name: Seq<char>, us: Seq<Seq<char>>, i: int) -> Seq<char>
    decreases us.len() - i,
{
    if i < 0 || i >= us.len() {
        x
    } else {
        with_entry(with_definition(x, identifier(name, i as nat), us[i]), name, us, i + 1)
    }
}

/// The definitions of the entries of `t` from index `j` on, applied to `x`.
pub open spec fn with_entries(x: Seq<char>, t: Seq<(Seq<char>, Seq<Seq<char>>)>, j: int) -> Seq<
    char,
>
    decreases t.len() - j,
{
    if j < 0 || j >= t.len() {
        x
    } else {
        with_entries(with_entry(x, t[j].0, t[j].1, 0), t, j + 1)
    }
}

/// The rendered document followed by the footer of reference definitions:
/// unchanged when the table is empty, else two line feeds and then each
/// definition in table order.
pub open spec fn with_footer(x: Seq<char>, t: Seq<(Seq<char>, Seq<Seq<char>>)>) -> Seq<char> {
    if t.len() == 0 {
        x
    } else {
        with_entries(x + seq!['\n', '\n'], t, 0)
    }
}

/// The characters `open`, `id`, `close`.
fn wrap(open: char, id: &String, close: char) -> (r: Vec<char>)
    ensures
        r@ == wrapped(open, id@, close),
{
    let cs = chars_of(id.as_str());
    let mut r: Vec<char> = Vec::new();
    r.push(open);
    let mut i: usize = 0;
    while i < cs.len()
        invariant
            i <= cs@.len(),
            r@ == seq![open] + cs@.subrange(0, i as int),
        decreases cs.len() - i,
    {
        r.push(cs[i]);
        i = i + 1;
        assert(r@ =~= seq![open] + cs@.subrange(0, i as int));
    }
    r.push(close);
    assert(r@ =~= wrapped(open, id@, close));
    r
}

/// Appends the footer of reference definitions for `table` to `rendered`,
/// turning each link closing `](id)` of a defined identifier into `][id]`.
pub fn append_footer(rendered: String, table: &LinkTable) -> (r: String)
    ensures
        r@ == with_footer(rendered@, table.view()),
{
    if table.is_empty() {
        return rendered;
    }
    let ghost t = table.view();
    let mut out = rendered;
    push_char(&mut out, '\n');
    push_char(&mut out, '\n');
    assert(out@ =~= rendered@ + seq!['\n', '\n']);
    let mut j: usize = 0;
    while j < table.len()
        invariant
            j <= t.len(),
            t == table.view(),
            t.len() > 0,
            with_footer(rendered@, t) == with_entries(out@, t, j as int),
        decreases t.len() - j,
    {
        let name = table.name(j);
        let urls = table.urls(j);
        assert(crate::event::strings_view(urls@) == t[j as int].1);
        let ghost before = out@;
        let mut i: usize = 0;
        while i < urls.len()
            invariant
                j < t.len(),
                i <= urls@.len(),
                urls@.len() == t[j as int].1.len(),
                forall|k: int| 0 <= k < urls@.len() ==> (#[trigger] urls@[k])@ == t[j as int].1[k],
                name@ == t[j as int].0,
                with_entry(before, name@, t[j as int].1, 0) == with_entry(
                    out@,
                    name@,
                    t[j as int].1,
                    i as int,
                ),
            decreases urls.len() - i,
        {
            let id = link_identifier(&name, i);
            let mut closing = vec![']'];
            closing.append(&mut wrap('(', &id, ')'));
            let bracket = wrap('[', &id, ']');
            let mut reference = vec![']'];
            reference.append(&mut bracket.clone());
            assert(closing@ =~= seq![']'] + wrapped('(', id@, ')'));
            assert(reference@ =~= seq![']'] + wrapped('[', id@, ']'));
            let mut next = replace(&out, &closing, &reference);
            push_chars(&mut next, &bracket, 0, bracket.len());
            push_char(&mut next, ':');
            push_char(&mut next, ' ');
            let u = chars_of(urls[i].as_str());
            push_chars(&mut next, &u, 0, u.len());
            push_char(&mut next, '\n');
            assert(bracket@.subrange(0, bracket@.len() as int) =~= bracket@);
            assert(u@.subrange(0, u@.len() as int) =~= u@);
            assert(next@ =~= with_definition(out@, id@, urls@[i as int]@));
            out = next;
            i = i + 1;
        }
        assert(with_entry(before, name@, t[j as int].1, 0) == out@);
        j = j + 1;
    }
    out
}

/// Whether `l` starts with `//!`.
pub open spec fn is_doc_line(l: Seq<char>) -> bool {
    starts_with(l, seq!['/', '/', '!'])
}

/// `l` with every leading repetition of `p` removed.
pub open spec fn trim_start_all(l: Seq<char>, p: Seq<char>) -> Seq<char>
    decreases l.len(),
{
    if p.len() > 0 && starts_with(l, p) {
        trim_start_all(l.subrange(p.len() as int, l.len() as int), p)
    } else {
        l
    }
}

/// The text of a comment line: its `//! ` markers, then its `//!` markers,
/// removed from the front.
pub open spec fn comment_text(l: Seq<char>) -> Seq<char> {
    trim_start_all(trim_start_all(l, seq!['/', '/', '!', ' ']), seq!['/', '/', '!'])
}

/// Removes every leading repetition of `p` from `cs[from..to]` and returns
/// where what is left starts.
fn skip_all(cs: &Vec<char>, from: usize, to: usize, p: &Vec<char>) -> (r: usize)
    requires
        from <= to <= cs@.len(),
        p@.len() > 0,
    ensures
        from <= r <= to,
        cs@.subrange(r as int, to as int) == trim_start_all(cs@.subrange(from as int, to as int), p@),
{
    let mut i: usize = from;
    while i < to
        invariant
            from <= i <= to <= cs@.len(),
            p@.len() > 0,
            trim_start_all(cs@.subrange(from as int, to as int), p@) == trim_start_all(
                cs@.subrange(i as int, to as int),
                p@,
            ),
        decreases to - i,
    {
        let ghost x = cs@.subrange(i as int, to as int);
        if !occurs_at(cs, p, i, to) {
            return i;
        }
        assert(x.subrange(p@.len() as int, x.len() as int) =~= cs@.subrange(
            i + p@.len(),
            to as int,
        ));
        i = i + p.len();
    }
    i
}

/// The comment text of the leading `//!` lines of `x`, joined by line
/// feeds; `first` says whether nothing has been written yet.
pub open spec fn comment_from(x: Seq<char>, first: bool) -> Seq<char>
    decreases x.len(),
{
    if x.len() == 0 {
        Seq::empty()
    } else {
        let k = nl_from(x, 0);
        let l = first_line(x, k);
        if !is_doc_line(l) {
            Seq::empty()
        } else {
            let sep = if first {
                Seq::<char>::empty()
            } else {
                seq!['\n']
            };
            if 0 <= k < x.len() {
                sep + comment_text(l) + comment_from(x.subrange(k + 1, x.len() as int), false)
            } else {
                sep + comment_text(l)
            }
        }
    }
}

/// The module comment of a Rust source: its leading lines that start with
/// `//!`, without those markers, joined by line feeds.
pub fn module_comment(contents: &str) -> (r: String)
    ensures
        r@ == comment_from(contents@, true),
{
    let cs = chars_of(contents);
    let n = cs.len();
    let marker: Vec<char> = vec!['/', '/', '!'];
    let spaced: Vec<char> = vec!['/', '/', '!', ' '];
    assert(marker@ =~= seq!['/', '/', '!']);
    assert(spaced@ =~= seq!['/', '/', '!', ' ']);
    let mut out = String::new();
    let mut first = true;
    let mut start: usize = 0;
    assert(cs@.subrange(0, n as int) =~= cs@);
    while start < n
        invariant
            start <= n == cs@.len(),
            cs@ == contents@,
            marker@ == seq!['/', '/', '!'],
            spaced@ == seq!['/', '/', '!', ' '],
            first ==> out@.len() == 0,
            comment_from(contents@, true) == out@ + comment_from(
                cs@.subrange(start as int, n as int),
                first,
            ),
        decreases n - start,
    {
        let ghost x = cs@.subrange(start as int, n as int);
        let mut j: usize = start;
        while j < n && cs[j] != '\n'
            invariant
                start <= j <= n == cs@.len(),
                x == cs@.subrange(start as int, n as int),
                nl_from(x, 0) == nl_from(x, j - start),
            decreases n - j,
        {
            j = j + 1;
        }
        let k: usize = j - start;
        assert(nl_from(x, k as int) == k);
        let lend: usize = if j < n && j > start && cs[j - 1] == '\r' {
            j - 1
        } else {
            j
        };
        assert(cs@.subrange(start as int, lend as int) =~= first_line(x, k as int));
        if !occurs_at(&cs, &marker, start, lend) {
            assert(out@ + Seq::<char>::empty() =~= out@);
            return out;
        }
        let a = skip_all(&cs, start, lend, &spaced);
        let b = skip_all(&cs, a, lend, &marker);
        let ghost before = out@;
        if !first {
            push_char(&mut out, '\n');
        }
        push_chars(&mut out, &cs, b, lend);
        let ghost sep = if first {
            Seq::<char>::empty()
        } else {
            seq!['\n']
        };
        assert(out@ =~= before + sep + comment_text(first_line(x, k as int)));
        first = false;
        if j < n {
            assert(x.subrange(k + 1, x.len() as int) =~= cs@.subrange(j + 1, n as int));
            start = j + 1;
        } else {
            assert(cs@.subrange(n as int, n as int) =~= Seq::<char>::empty());
            start = n;
        }
        assert(comment_from(contents@, true) == out@ + comment_from(
            cs@.subrange(start as int, n as int),
            first,
        )) by {
            assert(forall|a: Seq<char>, b: Seq<char>, c: Seq<char>| (a + b) + c =~= a + (b + c));
        }
    }
    assert(out@ + comment_from(Seq::<char>::empty(), first) =~= out@);
    out
}

/// The table of contents that pulldown-cmark-toc renders for `text`: one
/// link per heading of a level from `min` to `max`, nested by level.
pub uninterp spec fn toc_of(text: Seq<char>, min: nat, max: nat) -> Seq<char>;

/// Relies on pulldown_cmark_toc's `TableOfContents::new` and
/// `to_cmark_with_options`: the list of heading links of `text` for the
/// levels `min` to `max`, which depends on the text and the levels alone.
#[verifier::external_body]
fn toc_list(text: &str, min: u8, max: u8) -> (r: String)
    requires
        1 <= min <= max <= 6,
    ensures
        r@ == toc_of(text@, min as nat, max as nat),
{
    let first = pulldown_cmark_toc::HeadingLevel::try_from(min as usize).unwrap();
    let last = pulldown_cmark_toc::HeadingLevel::try_from(max as usize).unwrap();
    let options = pulldown_cmark_toc::Options::default().levels(first..=last);
    pulldown_cmark_toc::TableOfContents::new(text).to_cmark_with_options(options)
}

/// The shallowest heading level the table of contents lists.
pub const TOC_MIN_LEVEL: u8 = 2;

/// The deepest heading level the table of contents lists.
pub const TOC_MAX_LEVEL: u8 = 6;

/// The table of contents of a rendered document: its headings of levels 2
/// to 6 as a nested list of links.
pub fn table_of_contents(rendered: &str) -> (r: String)
    ensures
        r@ == toc_of(rendered@, TOC_MIN_LEVEL as nat, TOC_MAX_LEVEL as nat),
{
    toc_list(rendered, TOC_MIN_LEVEL, TOC_MAX_LEVEL)
}

} // verus!
