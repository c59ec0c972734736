use vstd::prelude::*;

use crate::error::FixError;
use crate::event::{
    events_view, lemma_events_view_push, CodeBlockKind, CodeBlockKindV, Event, EventV, Tag, TagV,
};
use crate::text::{chars_of, push_char, push_chars};

verus! {

/// The language of the blocks whose hidden lines are removed.
pub open spec fn language() -> Seq<char> {
    seq!['r', 'u', 's', 't']
}

/// Whether a block of this kind holds code of the primary language: it is
/// indented, or fenced with an empty info string or with the language name.
pub open spec fn is_primary(k: CodeBlockKindV) -> bool {
    match k {
        CodeBlockKindV::Indented => true,
        CodeBlockKindV::Fenced(info) => info.len() == 0 || info == language(),
    }
}

/// The kind with an empty info string replaced by the language name.
pub open spec fn normalized_kind(k: CodeBlockKindV) -> CodeBlockKindV {
    match k {
        CodeBlockKindV::Fenced(info) => if info.len() == 0 {
            CodeBlockKindV::Fenced(language())
        } else {
            k
        },
        _ => k,
    }
}

/// Whether `c` is a Unicode white-space character.
pub open spec fn is_ws(c: char) -> bool {
    let u = c as u32;
    (9 <= u <= 13) || u == 32 || u == 0x85 || u == 0xa0 || u == 0x1680 || (0x2000 <= u
        <= 0x200a) || u == 0x2028 || u == 0x2029 || u == 0x202f || u == 0x205f || u == 0x3000
}

/// Whether `l`, without its leading white space, starts at `a` with the
/// marker `# ` followed later by something other than white space.
pub open spec fn marker_at(l: Seq<char>, a: int) -> bool {
    0 <= a && a + 1 < l.len() && l[a] == '#' && l[a + 1] == ' ' && (forall|j: int|
        0 <= j < a ==> is_ws(#[trigger] l[j])) && (exists|j: int|
        a + 1 < j < l.len() && !is_ws(#[trigger] l[j]))
}

/// Whether `l`, trimmed of white space on both sides, is the bare marker
/// `#`, found at `a`.
pub open spec fn bare_at(l: Seq<char>, a: int) -> bool {
    0 <= a < l.len() && l[a] == '#' && (forall|j: int| 0 <= j < a ==> is_ws(#[trigger] l[j]))
        && (forall|j: int| a < j < l.len() ==> is_ws(#[trigger] l[j]))
}

/// Whether the trimmed text of `l` is the bare marker or starts with `# `,
/// the marker found at `a`.
pub open spec fn hidden_at(l: Seq<char>, a: int) -> bool {
    bare_at(l, a) || marker_at(l, a)
}

/// Whether a code line is hidden from the reader: trimmed of white space,
/// it is the bare marker `#` or starts with `# `.
pub open spec fn hidden(l: Seq<char>) -> bool {
    exists|a: int| #[trigger] hidden_at(l, a)
}

/// The index of the first line feed in `x` at or after `j`, or the length of `x`.
pub open spec fn nl_from(x: Seq<char>, j: int) -> int
    decreases x.len() - j,
{
    if j < 0 || j >= x.len() {
        x.len() as int
    } else if x[j] == '\n' {
        j
    } else {
        nl_from(x, j + 1)
    }
}

/// The first line of `x`, which ends at `k`; a carriage return before a
/// line feed is not part of it.
pub open spec fn first_line(x: Seq<char>, k: int) -> Seq<char> {
    let raw = x.subrange(0, k);
    if k < x.len() && raw.len() > 0 && raw.last() == '\r' {
        raw.drop_last()
    } else {
        raw
    }
}

/// The body `x` with its hidden lines removed and each line ended by a
/// single line feed.
pub open spec fn filtered(x: Seq<char>) -> Seq<char>
    decreases x.len(),
{
    if x.len() == 0 {
        Seq::empty()
    } else {
        let k = nl_from(x, 0);
        let line = first_line(x, k);
        let kept = if hidden(line) {
            Seq::<char>::empty()
        } else {
            line.push('\n')
        };
        if 0 <= k < x.len() {
            kept + filtered(x.subrange(k + 1, x.len() as int))
        } else {
            kept
        }
    }
}

/// `e` in front of the stream `r`, if there is one.
pub open spec fn cons(e: EventV, r: Option<Seq<EventV>>) -> Option<Seq<EventV>> {
    match r {
        Some(t) => Some(seq![e] + t),
        None => None,
    }
}

/// The stream from position `i` of `s` on, normalised; `open` is the kind of
/// the primary-language block that is open there. `None` when a block is
/// not properly closed.
pub open spec fn normalized_from(s: Seq<EventV>, i: int, open: Option<CodeBlockKindV>) -> Option<
    Seq<EventV>,
>
    decreases s.len() - i,
{
    if i < 0 || i >= s.len() {
        if open is Some {
            None
        } else {
            Some(Seq::empty())
        }
    } else {
        match open {
            None => match s[i] {
                EventV::Start(TagV::CodeBlock(k)) => if is_primary(k) {
                    cons(
                        EventV::Start(TagV::CodeBlock(normalized_kind(k))),
                        normalized_from(s, i + 1, Some(normalized_kind(k))),
                    )
                } else {
                    cons(s[i], normalized_from(s, i + 1, None))
                },
                _ => cons(s[i], normalized_from(s, i + 1, None)),
            },
            Some(k) => match s[i] {
                EventV::Text(t) => cons(EventV::Text(filtered(t)), normalized_from(s, i + 1, open)),
                EventV::End(TagV::CodeBlock(_)) => cons(
                    EventV::End(TagV::CodeBlock(k)),
                    normalized_from(s, i + 1, None),
                ),
                _ => None,
            },
        }
    }
}

/// The stream `s` with its code blocks normalised, or `None` when a block
/// is not properly closed.
pub open spec fn normalized(s: Seq<EventV>) -> Option<Seq<EventV>> {
    normalized_from(s, 0, None)
}

/// The value of the kind of the open block, if one is open.
pub open spec fn open_view(o: Option<CodeBlockKind>) -> Option<CodeBlockKindV> {
    match o {
        Some(k) => Some(k@),
        None => None,
    }
}

/// `p` in front of the stream `r`, if there is one.
pub open spec fn glue(p: Seq<EventV>, r: Option<Seq<EventV>>) -> Option<Seq<EventV>> {
    match r {
        Some(t) => Some(p + t),
        None => None,
    }
}

proof fn lemma_glue_cons(p: Seq<EventV>, e: EventV, r: Option<Seq<EventV>>)
    ensures
        glue(p, cons(e, r)) == glue(p.push(e), r),
{
    if let Some(t) = r {
        assert(p + (seq![e] + t) =~= p.push(e) + t);
    }
}

/// A code block of another language passes through verbatim: from its start
/// up to its end, text lines starting with `#` included, the normalised
/// Whether `e` opens a code block.
pub open spec fn starts_code_block(e: EventV) -> bool {
    e matches EventV::Start(TagV::CodeBlock(_))
}

/// A code block of another language, met outside any block, passes through
/// verbatim from its start to its end, whatever its body holds, and the
/// scan goes on outside any block after it. Nothing is assumed of the rest
/// of the stream.
pub proof fn lemma_other_language_block(s: Seq<EventV>, i: int, c: int)
    requires
        0 <= i < c < s.len(),
        s[i] matches EventV::Start(TagV::CodeBlock(k)) && !is_primary(k),
        forall|j: int| i < j < c ==> !starts_code_block(#[trigger] s[j]),
        s[c] matches EventV::End(TagV::CodeBlock(_)),
    ensures
        normalized_from(s, i, None) == glue(
            s.subrange(i, c + 1),
            normalized_from(s, c + 1, None),
        ),
{
    assert(!starts_code_block(s[c]));
    lemma_other_language_verbatim(s, i, c + 1);
}

/// stream repeats the input.
pub proof fn lemma_other_language_verbatim(s: Seq<EventV>, i: int, c: int)
    requires
        0 <= i < c <= s.len(),
        s[i] matches EventV::Start(TagV::CodeBlock(k)) && !is_primary(k),
        forall|j: int| i < j < c ==> !starts_code_block(#[trigger] s[j]),
    ensures
        normalized_from(s, i, None) == glue(s.subrange(i, c), normalized_from(s, c, None)),
    decreases c - i,
{
    if i + 1 < c {
        lemma_text_run_verbatim(s, i + 1, c);
    } else {
        assert(s.subrange(c, c) =~= Seq::<EventV>::empty());
        lemma_glue_cons(Seq::empty(), s[i], normalized_from(s, c, None));
    }
    lemma_glue_cons(Seq::empty(), s[i], glue(s.subrange(i + 1, c), normalized_from(s, c, None)));
    if let Some(t) = normalized_from(s, c, None) {
        assert(seq![s[i]] + (s.subrange(i + 1, c) + t) =~= s.subrange(i, c) + t);
    }
}

/// The event that position `i` of `s` becomes in state `st`, and the state after it.
spec fn step(s: Seq<EventV>, i: int, st: Option<CodeBlockKindV>) -> (EventV, Option<CodeBlockKindV>) {
    match st {
        None => match s[i] {
            EventV::Start(TagV::CodeBlock(k)) => if is_primary(k) {
                (EventV::Start(TagV::CodeBlock(normalized_kind(k))), Some(normalized_kind(k)))
            } else {
                (s[i], None)
            },
            _ => (s[i], None),
        },
        Some(k) => match s[i] {
            EventV::Text(t) => (EventV::Text(filtered(t)), st),
            _ => (EventV::End(TagV::CodeBlock(k)), None),
        },
    }
}

proof fn lemma_step(s: Seq<EventV>, i: int, st: Option<CodeBlockKindV>)
    requires
        0 <= i < s.len(),
        normalized_from(s, i, st) is Some,
    ensures
        normalized_from(s, i, st) == cons(step(s, i, st).0, normalized_from(s, i + 1, step(s, i, st).1)),
        normalized_from(s, i + 1, step(s, i, st).1) is Some,
{
}

proof fn lemma_normalized_len(s: Seq<EventV>, j: int, st: Option<CodeBlockKindV>)
    requires
        0 <= j <= s.len(),
        normalized_from(s, j, st) is Some,
    ensures
        normalized_from(s, j, st)->Some_0.len() == s.len() - j,
    decreases s.len() - j,
{
    if j < s.len() {
        lemma_step(s, j, st);
        lemma_normalized_len(s, j + 1, step(s, j, st).1);
    }
}

proof fn lemma_block_from(s: Seq<EventV>, j: int, st: Option<CodeBlockKindV>, i: int, c: int)
    requires
        0 <= j <= i < c < s.len(),
        s[i] matches EventV::Start(TagV::CodeBlock(k)) && !is_primary(k),
        forall|m: int| i < m < c ==> (#[trigger] s[m]) is Text,
        s[c] matches EventV::End(TagV::CodeBlock(_)),
        normalized_from(s, j, st) is Some,
    ensures
        normalized_from(s, j, st)->Some_0.subrange(i - j, c + 1 - j) == s.subrange(i, c + 1),
    decreases i - j,
{
    let u = normalized_from(s, j, st)->Some_0;
    if j < i {
        lemma_step(s, j, st);
        let st2 = step(s, j, st).1;
        lemma_block_from(s, j + 1, st2, i, c);
        lemma_normalized_len(s, j + 1, st2);
        let u2 = normalized_from(s, j + 1, st2)->Some_0;
        assert(u == seq![step(s, j, st).0] + u2);
        assert(u.subrange(i - j, c + 1 - j) =~= u2.subrange(i - (j + 1), c + 1 - (j + 1)));
    } else {
        assert(st is None);
        assert forall|m: int| i < m < c implies !starts_code_block(#[trigger] s[m]) by {
            assert(s[m] is Text);
        }
        lemma_other_language_verbatim(s, i, c);
        let t = normalized_from(s, c, None);
        assert(t == cons(s[c], normalized_from(s, c + 1, None)));
        let t0 = t->Some_0;
        assert(u == s.subrange(i, c) + t0);
        assert(u.subrange(0, c + 1 - i) =~= s.subrange(i, c + 1));
    }
}

/// In a stream whose code blocks normalise, a block of another language
/// comes out verbatim and in place: its start with the info string, its
/// text, `#` lines included, and its end.
pub proof fn lemma_other_language_in_stream(s: Seq<EventV>, i: int, c: int)
    requires
        0 <= i < c < s.len(),
        s[i] matches EventV::Start(TagV::CodeBlock(k)) && !is_primary(k),
        forall|m: int| i < m < c ==> (#[trigger] s[m]) is Text,
        s[c] matches EventV::End(TagV::CodeBlock(_)),
        normalized(s) is Some,
    ensures
        normalized(s)->Some_0.len() == s.len(),
        normalized(s)->Some_0.subrange(i, c + 1) == s.subrange(i, c + 1),
{
    lemma_normalized_len(s, 0, None);
    lemma_block_from(s, 0, None, i, c);
}

proof fn lemma_text_run_verbatim(s: Seq<EventV>, i: int, c: int)
    requires
        0 <= i < c <= s.len(),
        forall|j: int| i <= j < c ==> !starts_code_block(#[trigger] s[j]),
    ensures
        normalized_from(s, i, None) == glue(s.subrange(i, c), normalized_from(s, c, None)),
    decreases c - i,
{
    if i + 1 < c {
        lemma_text_run_verbatim(s, i + 1, c);
    } else {
        assert(s.subrange(c, c) =~= Seq::<EventV>::empty());
    }
    assert(!starts_code_block(s[i]));
    if let Some(t) = normalized_from(s, c, None) {
        assert(seq![s[i]] + (s.subrange(i + 1, c) + t) =~= s.subrange(i, c) + t);
    }
}

proof fn lemma_nl_from_before(x: Seq<char>, j: int, m: int)
    requires
        0 <= j <= m < nl_from(x, j),
    ensures
        x[m] != '\n',
    decreases m - j,
{
    if j < m {
        lemma_nl_from_before(x, j + 1, m);
    }
}

proof fn lemma_nl_from_line(l: Seq<char>, r: Seq<char>, j: int)
    requires
        0 <= j <= l.len(),
        forall|m: int| 0 <= m < l.len() ==> l[m] != '\n',
    ensures
        nl_from(l.push('\n') + r, j) == l.len(),
    decreases l.len() - j,
{
    let x = l.push('\n') + r;
    if j < l.len() {
        assert(x[j] == l[j]);
        lemma_nl_from_line(l, r, j + 1);
    } else {
        assert(x[j] == '\n');
    }
}

proof fn lemma_filtered_kept_line(l: Seq<char>, r: Seq<char>)
    requires
        forall|m: int| 0 <= m < l.len() ==> l[m] != '\n' && l[m] != '\r',
        !hidden(l),
    ensures
        filtered(l.push('\n') + r) == l.push('\n') + filtered(r),
{
    let x = l.push('\n') + r;
    lemma_nl_from_line(l, r, 0);
    let k = l.len() as int;
    assert(x.subrange(0, k) =~= l);
    if l.len() > 0 {
        assert(l.last() != '\r');
    }
    assert(first_line(x, k) == l);
    assert(x.subrange(k + 1, x.len() as int) =~= r);
}

/// Removing hidden lines twice removes no more than removing them once, for
/// a body without carriage returns: every line left is shown.
pub proof fn lemma_filtered_idempotent(x: Seq<char>)
    requires
        forall|m: int| 0 <= m < x.len() ==> x[m] != '\r',
    ensures
        filtered(filtered(x)) == filtered(x),
    decreases x.len(),
{
    if x.len() > 0 {
        let k = nl_from(x, 0);
        let line = first_line(x, k);
        let rest = x.subrange(k + 1, x.len() as int);
        assert(0 <= k <= x.len()) by {
            lemma_nl_bounds(x, 0);
        }
        assert(line =~= x.subrange(0, k));
        assert forall|m: int| 0 <= m < line.len() implies line[m] != '\n' && line[m] != '\r' by {
            lemma_nl_from_before(x, 0, m);
        }
        if 0 <= k < x.len() {
            assert forall|m: int| 0 <= m < rest.len() implies rest[m] != '\r' by {
                assert(rest[m] == x[k + 1 + m]);
            }
            lemma_filtered_idempotent(rest);
            if !hidden(line) {
                lemma_filtered_kept_line(line, filtered(rest));
            }
        } else if !hidden(line) {
            lemma_filtered_kept_line(line, Seq::empty());
            assert(line.push('\n') + Seq::<char>::empty() =~= line.push('\n'));
            assert(filtered(Seq::<char>::empty()) =~= Seq::<char>::empty());
        }
    }
}

proof fn lemma_nl_bounds(x: Seq<char>, j: int)
    requires
        0 <= j <= x.len(),
    ensures
        j <= nl_from(x, j) <= x.len(),
    decreases x.len() - j,
{
    if j < x.len() {
        lemma_nl_bounds(x, j + 1);
    }
}

/// Whether `t` holds no carriage return.
pub open spec fn no_cr(t: Seq<char>) -> bool {
    forall|m: int| 0 <= m < t.len() ==> t[m] != '\r'
}

/// Whether no text event of `s` holds a carriage return.
pub open spec fn texts_without_cr(s: Seq<EventV>) -> bool {
    forall|j: int| 0 <= j < s.len() && (#[trigger] s[j]) is Text ==> no_cr(s[j]->Text_0)
}

proof fn lemma_normalized_shift(x: EventV, v: Seq<EventV>, j: int, st: Option<CodeBlockKindV>)
    requires
        0 <= j,
    ensures
        normalized_from(seq![x] + v, j + 1, st) == normalized_from(v, j, st),
    decreases v.len() - j,
{
    let w = seq![x] + v;
    if j < v.len() {
        assert(w[j + 1] == v[j]);
        lemma_normalized_shift(x, v, j + 1, None);
        match st {
            Some(k) => {
                lemma_normalized_shift(x, v, j + 1, st);
            },
            None => {
                if let EventV::Start(TagV::CodeBlock(k)) = v[j] {
                    lemma_normalized_shift(x, v, j + 1, Some(normalized_kind(k)));
                }
            },
        }
    }
}

proof fn lemma_normalized_from_fixed(s: Seq<EventV>, i: int, st: Option<CodeBlockKindV>)
    requires
        0 <= i <= s.len(),
        texts_without_cr(s),
        normalized_from(s, i, st) is Some,
        st matches Some(k) ==> is_primary(k) && normalized_kind(k) == k,
    ensures
        normalized_from(normalized_from(s, i, st)->Some_0, 0, st) == normalized_from(s, i, st),
    decreases s.len() - i,
{
    if i < s.len() {
        let u = normalized_from(s, i, st)->Some_0;
        let (x, st2) = match st {
            None => match s[i] {
                EventV::Start(TagV::CodeBlock(k)) => if is_primary(k) {
                    (
                        EventV::Start(TagV::CodeBlock(normalized_kind(k))),
                        Some(normalized_kind(k)),
                    )
                } else {
                    (s[i], None)
                },
                _ => (s[i], None),
            },
            Some(k) => match s[i] {
                EventV::Text(t) => (EventV::Text(filtered(t)), st),
                _ => (EventV::End(TagV::CodeBlock(k)), None),
            },
        };
        let v = normalized_from(s, i + 1, st2)->Some_0;
        assert(normalized_from(s, i, st) == cons(x, normalized_from(s, i + 1, st2)));
        assert(u == seq![x] + v);
        lemma_normalized_from_fixed(s, i + 1, st2);
        lemma_normalized_shift(x, v, 0, st2);
        assert(u[0] == x);
        if let Some(k) = st {
            if let EventV::Text(t) = s[i] {
                assert(s[i] is Text);
                lemma_filtered_idempotent(t);
            }
        }
        assert(normalized_from(u, 0, st) == cons(x, normalized_from(u, 1, st2)));
    } else {
        assert(normalized_from(s, i, st)->Some_0 =~= Seq::<EventV>::empty());
    }
}

/// Normalising code blocks a second time changes nothing, for a stream whose
/// texts hold no carriage return.
pub proof fn lemma_normalized_idempotent(s: Seq<EventV>)
    requires
        normalized(s) is Some,
        texts_without_cr(s),
    ensures
        normalized(normalized(s)->Some_0) == normalized(s),
{
    lemma_normalized_from_fixed(s, 0, None);
}

fn is_ws_char(c: char) -> (r: bool)
    ensures
        r == is_ws(c),
{
    let u = c as u32;
    (9 <= u && u <= 13) || u == 32 || u == 0x85 || u == 0xa0 || u == 0x1680 || (0x2000 <= u && u
        <= 0x200a) || u == 0x2028 || u == 0x2029 || u == 0x202f || u == 0x205f || u == 0x3000
}

/// Whether the line `l` is hidden from the reader.
pub fn is_hidden(l: &Vec<char>) -> (r: bool)
    ensures
        r == hidden(l@),
{
    let n = l.len();
    let mut a: usize = 0;
    while a < n && is_ws_char(l[a])
        invariant
            a <= n == l@.len(),
            forall|j: int| 0 <= j < a ==> is_ws(#[trigger] l@[j]),
        decreases n - a,
    {
        a = a + 1;
    }
    assert(forall|b: int| #[trigger] hidden_at(l@, b) ==> b == a) by {
        assert forall|b: int| #[trigger] hidden_at(l@, b) implies b == a by {
            if b < a {
                assert(is_ws(l@[b]));
            } else if b > a {
                assert(is_ws(l@[a as int]));
            }
        }
    }
    if a < n && l[a] == '#' {
        let mut j: usize = a + 1;
        while j < n && is_ws_char(l[j])
            invariant
                a + 1 <= j <= n == l@.len(),
                forall|m: int| a < m < j ==> is_ws(#[trigger] l@[m]),
            decreases n - j,
        {
            j = j + 1;
        }
        if j == n {
            assert(hidden_at(l@, a as int));
            true
        } else if l[a + 1] == ' ' {
            assert(j > a + 1);
            assert(marker_at(l@, a as int));
            assert(hidden_at(l@, a as int));
            true
        } else {
            assert(!bare_at(l@, a as int)) by {
                assert(!is_ws(l@[j as int]));
            }
            assert(!hidden_at(l@, a as int));
            false
        }
    } else {
        assert(!hidden_at(l@, a as int));
        false
    }
}

/// The characters `cs[from..to]` as a vector of their own.
fn slice_chars(cs: &Vec<char>, from: usize, to: usize) -> (r: Vec<char>)
    requires
        from <= to <= cs@.len(),
    ensures
        r@ == cs@.subrange(from as int, to as int),
{
    let mut r: Vec<char> = Vec::new();
    let mut i: usize = from;
    while i < to
        invariant
            from <= i <= to <= cs@.len(),
            r@ == cs@.subrange(from as int, i as int),
        decreases to - i,
    {
        r.push(cs[i]);
        i = i + 1;
        assert(r@ =~= cs@.subrange(from as int, i as int));
    }
    r
}

/// Removes the hidden lines of a code body and ends each remaining line with
/// a single line feed.
pub fn fix_code_block(code: &String) -> (r: String)
    ensures
        r@ == filtered(code@),
{
    let cs = chars_of(code.as_str());
    let n = cs.len();
    let mut out = String::new();
    let mut start: usize = 0;
    assert(cs@.subrange(0, n as int) =~= cs@);
    while start < n
        invariant
            start <= n == cs@.len(),
            cs@ == code@,
            filtered(cs@) == out@ + filtered(cs@.subrange(start as int, n as int)),
        decreases n - start,
    {
        let ghost x = cs@.subrange(start as int, n as int);
        let mut j: usize = start;
        while j < n && cs[j] != '\n'
            invariant
                start <= j <= n == cs@.len(),
                x == cs@.subrange(start as int, n as int),
                nl_from(x, 0) == nl_from(x, j - start),
            decreases n - j,
        {
            j = j + 1;
        }
        let k: usize = j - start;
        assert(nl_from(x, k as int) == k);
        let lend: usize = if j < n && j > start && cs[j - 1] == '\r' {
            j - 1
        } else {
            j
        };
        let line = slice_chars(&cs, start, lend);
        assert(line@ =~= first_line(x, k as int));
        let ghost before = out@;
        if !is_hidden(&line) {
            push_chars(&mut out, &cs, start, lend);
            push_char(&mut out, '\n');
        }
        let ghost kept = if hidden(line@) {
            Seq::<char>::empty()
        } else {
            line@.push('\n')
        };
        assert(out@ =~= before + kept);
        if j < n {
            assert(x.subrange(k + 1, x.len() as int) =~= cs@.subrange(j + 1, n as int));
            start = j + 1;
        } else {
            assert(cs@.subrange(n as int, n as int) =~= Seq::<char>::empty());
            start = n;
        }
        assert(filtered(cs@) == out@ + filtered(cs@.subrange(start as int, n as int)));
    }
    assert(out@ =~= out@ + filtered(Seq::<char>::empty()));
    out
}

/// Whether a block of this kind holds code of the primary language.
pub fn is_rust(kind: &CodeBlockKind) -> (r: bool)
    ensures
        r == is_primary(kind@),
{
    match kind {
        CodeBlockKind::Indented => true,
        CodeBlockKind::Fenced(info) => {
            let cs = chars_of(info.as_str());
            proof {
                reveal_strlit("rust");
            }
            assert("rust"@ =~= language());
            cs.len() == 0 || crate::text::same_chars(&cs, "rust")
        },
    }
}

/// Gives a fenced block with an empty info string the language name.
pub fn fix_code_block_kind(kind: &CodeBlockKind) -> (r: CodeBlockKind)
    ensures
        r@ == normalized_kind(kind@),
{
    match kind {
        CodeBlockKind::Fenced(info) => {
            if info.as_str().unicode_len() == 0 {
                proof {
                    reveal_strlit("rust");
                }
                assert("rust"@ =~= language());
                let r = CodeBlockKind::Fenced(String::from_str("rust"));
                assert(r@ == normalized_kind(kind@));
                r
            } else {
                kind.copy()
            }
        },
        CodeBlockKind::Indented => CodeBlockKind::Indented,
    }
}

/// Normalises the code blocks of the primary language: an empty info string
/// becomes the language name and hidden lines leave the body. Blocks of other
/// languages pass through as they are.
///
/// Fails with `MalformedStream` exactly when such a block holds something
/// other than text before its end, or has no end.
pub fn fix(events: Vec<Event>) -> (r: Result<Vec<Event>, FixError>)
    ensures
        r.is_ok() <==> normalized(events_view(events@)) is Some,
        match r {
            Ok(v) => normalized(events_view(events@)) == Some(events_view(v@)),
            Err(e) => e == FixError::MalformedStream,
        },
{
    let ghost s = events_view(events@);
    let mut out: Vec<Event> = Vec::new();
    let mut open: Option<CodeBlockKind> = None;
    let mut i: usize = 0;
    while i < events.len()
        invariant
            i <= events.len(),
            s == events_view(events@),
            normalized(s) == glue(
                events_view(out@),
                normalized_from(s, i as int, open_view(open)),
            ),
        decreases events.len() - i,
    {
        let ghost st = open_view(open);
        let ghost p = events_view(out@);
        let e: Event;
        match &open {
            None => {
                match &events[i] {
                    Event::Start(Tag::CodeBlock(kind)) => {
                        if is_rust(kind) {
                            let k2 = fix_code_block_kind(kind);
                            e = Event::Start(Tag::CodeBlock(k2.copy()));
                            open = Some(k2);
                        } else {
                            e = events[i].copy();
                        }
                    },
                    other => {
                        e = other.copy();
                    },
                }
            },
            Some(k) => {
                match &events[i] {
                    Event::Text(code) => {
                        e = Event::Text(fix_code_block(code));
                    },
                    Event::End(Tag::CodeBlock(_)) => {
                        e = Event::End(Tag::CodeBlock(k.copy()));
                        open = None;
                    },
                    _ => {
                        assert(normalized_from(s, i as int, st) is None);
                        return Err(FixError::MalformedStream);
                    },
                }
            },
        }
        proof {
            lemma_glue_cons(p, e@, normalized_from(s, i + 1, open_view(open)));
            lemma_events_view_push(out@, e);
        }
        out.push(e);
        i = i + 1;
    }
    if open.is_some() {
        return Err(FixError::MalformedStream);
    }
    assert(events_view(out@) + Seq::<EventV>::empty() =~= events_view(out@));
    Ok(out)
}

} // verus!
