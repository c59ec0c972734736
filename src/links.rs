//! Link configuration, reference names, and the table of reference links.
use vstd::prelude::*;

use crate::event::{copy_string, strings_view};
use crate::text::{chars_of, push_char, push_chars, same_chars};

verus! {

/// The index of the first `c` in `x` at or after `j`, or the length of `x`.
pub open spec fn find_from(x: Seq<char>, c: char, j: int) -> int
    decreases x.len() - j,
{
    if j < 0 || j >= x.len() {
        x.len() as int
    } else if x[j] == c {
        j
    } else {
        find_from(x, c, j + 1)
    }
}

/// What a character of a link's text becomes in its reference name: ASCII
/// letters are lowered, a space becomes a hyphen, digits, `_` and `-` stay,
/// and everything else is dropped.
pub open spec fn name_part(c: char) -> Seq<char> {
    if 'A' <= c <= 'Z' {
        seq![((c as u32) + 32) as char]
    } else if ('a' <= c <= 'z') || ('0' <= c <= '9') || c == '_' || c == '-' {
        seq![c]
    } else if c == ' ' {
        seq!['-']
    } else {
        Seq::empty()
    }
}

/// The name parts of all the characters of `t`, in order.
pub open spec fn name_parts(t: Seq<char>) -> Seq<char>
    decreases t.len(),
{
    if t.len() == 0 {
        Seq::empty()
    } else {
        name_parts(t.drop_last()) + name_part(t.last())
    }
}

/// The reference name of a link's text: what comes before the first `<`,
/// normalised character by character.
pub open spec fn ref_name(t: Seq<char>) -> Seq<char> {
    name_parts(t.subrange(0, find_from(t, '<', 0)))
}

/// The decimal digit for `d`.
pub open spec fn digit(d: nat) -> char {
    if d == 0 {
        '0'
    } else if d == 1 {
        '1'
    } else if d == 2 {
        '2'
    } else if d == 3 {
        '3'
    } else if d == 4 {
        '4'
    } else if d == 5 {
        '5'
    } else if d == 6 {
        '6'
    } else if d == 7 {
        '7'
    } else if d == 8 {
        '8'
    } else {
        '9'
    }
}

/// The decimal numeral of `n`.
pub open spec fn decimal(n: nat) -> Seq<char>
    decreases n,
{
    if n < 10 {
        seq![digit(n)]
    } else {
        decimal(n / 10).push(digit(n % 10))
    }
}

/// The identifier emitted for the destination at index `i` under `name`:
/// the bare name for index 0, `name-i` after that.
pub open spec fn identifier(name: Seq<char>, i: nat) -> Seq<char> {
    if i == 0 {
        name
    } else {
        name.push('-') + decimal(i)
    }
}

/// The index of the first `d` in `us`, or the length of `us`.
pub open spec fn index_of(us: Seq<Seq<char>>, d: Seq<char>) -> nat
    decreases us.len(),
{
    if us.len() == 0 {
        0
    } else if us[0] == d {
        0
    } else {
        1 + index_of(us.drop_first(), d)
    }
}

/// The destinations of a name after `d` is registered under it: `d` is
/// appended unless it is there already.
pub open spec fn registered(us: Seq<Seq<char>>, d: Seq<char>) -> Seq<Seq<char>> {
    if index_of(us, d) < us.len() {
        us
    } else {
        us.push(d)
    }
}

/// The destinations in a table's value `t` under `name`; empty if there is none.
pub open spec fn urls_for(t: Seq<(Seq<char>, Seq<Seq<char>>)>, name: Seq<char>) -> Seq<Seq<char>>
    decreases t.len(),
{
    if t.len() == 0 {
        Seq::empty()
    } else if t.last().0 == name {
        t.last().1
    } else {
        urls_for(t.drop_last(), name)
    }
}

/// Whether `a` comes before `b` in code-point order, given that they agree
/// before index `i`.
pub open spec fn lt_from(a: Seq<char>, b: Seq<char>, i: int) -> bool
    decreases a.len() - i,
{
    if i < 0 || i >= a.len() {
        i < b.len()
    } else if i >= b.len() {
        false
    } else if a[i] != b[i] {
        (a[i] as u32) < (b[i] as u32)
    } else {
        lt_from(a, b, i + 1)
    }
}

/// Whether `a` comes before `b` in code-point order.
pub open spec fn name_lt(a: Seq<char>, b: Seq<char>) -> bool {
    lt_from(a, b, 0)
}

proof fn lemma_lt_irreflexive(a: Seq<char>, i: int)
    requires
        0 <= i,
    ensures
        !lt_from(a, a, i),
    decreases a.len() - i,
{
    if i < a.len() {
        lemma_lt_irreflexive(a, i + 1);
    }
}

proof fn lemma_lt_total(a: Seq<char>, b: Seq<char>, i: int)
    requires
        0 <= i <= a.len(),
        i <= b.len(),
        a.subrange(0, i) == b.subrange(0, i),
        a != b,
    ensures
        lt_from(a, b, i) || lt_from(b, a, i),
    decreases a.len() - i,
{
    if i == a.len() && i == b.len() {
        assert(a =~= a.subrange(0, i));
        assert(b =~= b.subrange(0, i));
    } else if i < a.len() && i < b.len() && a[i] == b[i] {
        assert(a.subrange(0, i + 1) =~= b.subrange(0, i + 1)) by {
            assert(a.subrange(0, i + 1) =~= a.subrange(0, i).push(a[i]));
            assert(b.subrange(0, i + 1) =~= b.subrange(0, i).push(b[i]));
        }
        lemma_lt_total(a, b, i + 1);
    } else if i < a.len() && i < b.len() {
        vstd::utf8::char_u32_cast(a[i], a[i] as u32);
        vstd::utf8::char_u32_cast(b[i], b[i] as u32);
        assert((a[i] as u32) != (b[i] as u32));
    }
}

proof fn lemma_lt_transitive(a: Seq<char>, b: Seq<char>, c: Seq<char>, i: int)
    requires
        0 <= i,
        lt_from(a, b, i),
        lt_from(b, c, i),
    ensures
        lt_from(a, c, i),
    decreases a.len() - i,
{
    if i < a.len() && i < b.len() && i < c.len() && a[i] == b[i] && b[i] == c[i] {
        lemma_lt_transitive(a, b, c, i + 1);
    }
}

/// The first index of `t` from `j` on whose name comes after `name`, or the
/// length of `t`.
pub open spec fn pos_from(t: Seq<(Seq<char>, Seq<Seq<char>>)>, name: Seq<char>, j: int) -> int
    decreases t.len() - j,
{
    if j < 0 || j >= t.len() {
        t.len() as int
    } else if name_lt(name, t[j].0) {
        j
    } else {
        pos_from(t, name, j + 1)
    }
}

proof fn lemma_pos_bounds(t: Seq<(Seq<char>, Seq<Seq<char>>)>, name: Seq<char>, j: int)
    requires
        0 <= j <= t.len(),
    ensures
        j <= pos_from(t, name, j) <= t.len(),
    decreases t.len() - j,
{
    if j < t.len() {
        lemma_pos_bounds(t, name, j + 1);
    }
}

/// Whether the names of `t` are unique.
pub open spec fn unique_names(t: Seq<(Seq<char>, Seq<Seq<char>>)>) -> bool {
    forall|a: int, b: int| 0 <= a < b < t.len() ==> t[a].0 != t[b].0
}

/// Whether the names of `t` come in code-point order.
pub open spec fn sorted_names(t: Seq<(Seq<char>, Seq<Seq<char>>)>) -> bool {
    forall|a: int, b: int| 0 <= a < b < t.len() ==> name_lt(t[a].0, t[b].0)
}

/// Whether `name` has an entry in the table's value `t`.
pub open spec fn has_name(t: Seq<(Seq<char>, Seq<Seq<char>>)>, name: Seq<char>) -> bool {
    exists|j: int| 0 <= j < t.len() && (#[trigger] t[j]).0 == name
}

/// Registering `d` under `name` in the table's value `t`: the entry of the
/// name is updated in place, or a new one is inserted before the first
/// name that comes after it.
pub open spec fn register(t: Seq<(Seq<char>, Seq<Seq<char>>)>, name: Seq<char>, d: Seq<char>) -> Seq<
    (Seq<char>, Seq<Seq<char>>),
> {
    if has_name(t, name) {
        t.map_values(
            |e: (Seq<char>, Seq<Seq<char>>)|
                if e.0 == name {
                    (e.0, registered(e.1, d))
                } else {
                    e
                },
        )
    } else {
        t.insert(pos_from(t, name, 0), (name, seq![d]))
    }
}

/// Destinations are numbered per reference name in first-seen order: the
/// first destination of a name gets index 0 and the bare name, a second,
/// different one gets index 1 and `name-1`, and the first keeps index 0.
pub proof fn lemma_second_destination(name: Seq<char>, d1: Seq<char>, d2: Seq<char>)
    requires
        d1 != d2,
    ensures
        index_of(Seq::empty(), d1) == 0,
        registered(Seq::empty(), d1) == seq![d1],
        identifier(name, 0) == name,
        index_of(seq![d1], d2) == 1,
        registered(seq![d1], d2) == seq![d1, d2],
        identifier(name, 1) == name + seq!['-', '1'],
        index_of(seq![d1, d2], d1) == 0,
        index_of(seq![d1, d2], d2) == 1,
        registered(seq![d1, d2], d1) == seq![d1, d2],
{
    assert(seq![d1].drop_first() =~= Seq::<Seq<char>>::empty());
    assert(seq![d1, d2].drop_first() =~= seq![d2]);
    assert(seq![d2].drop_first() =~= Seq::<Seq<char>>::empty());
    assert(index_of(Seq::empty(), d2) == 0);
    assert(index_of(seq![d1], d2) == 1 + index_of(Seq::empty(), d2));
    assert(index_of(seq![d2], d2) == 0);
    assert(index_of(seq![d1, d2], d2) == 1 + index_of(seq![d2], d2));
    assert(Seq::<Seq<char>>::empty().push(d1) =~= seq![d1]);
    assert(seq![d1].push(d2) =~= seq![d1, d2]);
    assert(decimal(1) == seq!['1']);
    assert(name.push('-') + seq!['1'] =~= name + seq!['-', '1']);
}

/// Registering under one name leaves the destinations of every other name
/// as they were: tables are keyed by name, not by destination.
pub proof fn lemma_register_other_name(
    t: Seq<(Seq<char>, Seq<Seq<char>>)>,
    name: Seq<char>,
    other: Seq<char>,
    d: Seq<char>,
)
    requires
        name != other,
        unique_names(t),
    ensures
        urls_for(register(t, name, d), other) == urls_for(t, other),
{
    let m = register(t, name, d);
    if has_name(t, name) {
        assert(m.len() == t.len());
        assert forall|j: int| 0 <= j < t.len() implies (#[trigger] m[j]).0 == t[j].0 && (t[j].0
            != name ==> m[j] == t[j]) by {}
        if has_name(t, other) {
            let k = choose|k: int| 0 <= k < t.len() && (#[trigger] t[k]).0 == other;
            lemma_urls_for(t, other, k);
            lemma_urls_for(m, other, k);
        } else {
            assert(!has_name(m, other)) by {
                if has_name(m, other) {
                    let k = choose|k: int| 0 <= k < m.len() && (#[trigger] m[k]).0 == other;
                    assert(t[k].0 == other);
                }
            }
            lemma_urls_for_absent(t, other);
            lemma_urls_for_absent(m, other);
        }
    } else {
        let p = pos_from(t, name, 0);
        lemma_pos_bounds(t, name, 0);
        let e = (name, seq![d]);
        assert(m == t.insert(p, e));
        assert(forall|j: int| 0 <= j < p ==> #[trigger] m[j] == t[j]);
        assert(forall|j: int| p < j <= t.len() ==> #[trigger] m[j] == t[j - 1]);
        assert(unique_names(m)) by {
            assert forall|x: int, y: int| 0 <= x < y < m.len() implies m[x].0 != m[y].0 by {
                if x == p {
                    assert(t[y - 1].0 != name);
                } else if y == p {
                    assert(t[x].0 != name);
                } else {
                    let x2 = if x < p { x } else { x - 1 };
                    let y2 = if y < p { y } else { y - 1 };
                    assert(m[x] == t[x2] && m[y] == t[y2]);
                }
            }
        }
        if has_name(t, other) {
            let k = choose|k: int| 0 <= k < t.len() && (#[trigger] t[k]).0 == other;
            lemma_urls_for(t, other, k);
            let k2 = if k < p { k } else { k + 1 };
            assert(m[k2] == t[k]);
            lemma_urls_for(m, other, k2);
        } else {
            assert(!has_name(m, other)) by {
                if has_name(m, other) {
                    let k = choose|k: int| 0 <= k < m.len() && (#[trigger] m[k]).0 == other;
                    if k < p {
                        assert(t[k].0 == other);
                    } else if k > p {
                        assert(t[k - 1].0 == other);
                    }
                }
            }
            lemma_urls_for_absent(t, other);
            lemma_urls_for_absent(m, other);
        }
    }
}

/// A global map from a link name, or a local path, to its destination.
/// When a key occurs twice its first pair counts.
pub struct LinkConfig {
    pub pairs: Vec<(String, String)>,
}

/// The destination of `key` among the pairs `s`, the first pair with that
/// key counting.
pub open spec fn lookup_in(s: Seq<(String, String)>, key: Seq<char>) -> Option<Seq<char>>
    decreases s.len(),
{
    if s.len() == 0 {
        None
    } else if s[0].0@ == key {
        Some(s[0].1@)
    } else {
        lookup_in(s.drop_first(), key)
    }
}

impl LinkConfig {
    /// The destination configured for `key`, if any.
    pub open spec fn lookup(&self, key: Seq<char>) -> Option<Seq<char>> {
        lookup_in(self.pairs@, key)
    }

    /// Looks up the destination configured for `key`.
    pub fn get(&self, key: &Vec<char>) -> (r: Option<String>)
        ensures
            match r {
                Some(d) => self.lookup(key@) == Some(d@),
                None => self.lookup(key@) is None,
            },
    {
        let mut i: usize = 0;
        assert(self.pairs@.subrange(0, self.pairs@.len() as int) =~= self.pairs@);
        while i < self.pairs.len()
            invariant
                i <= self.pairs@.len(),
                self.lookup(key@) == lookup_in(self.pairs@.subrange(i as int, self.pairs@.len() as int), key@),
            decreases self.pairs.len() - i,
        {
            let ghost rest = self.pairs@.subrange(i as int, self.pairs@.len() as int);
            assert(rest.drop_first() =~= self.pairs@.subrange(i + 1, self.pairs@.len() as int));
            if same_chars(key, self.pairs[i].0.as_str()) {
                return Some(self.pairs[i].1.clone());
            }
            i = i + 1;
        }
        None
    }
}

/// One name of the link table with its destinations in first-seen order.
pub struct LinkEntry {
    pub name: String,
    pub urls: Vec<String>,
}

/// The reference links met in one rendering run: each reference name with
/// the distinct destinations requested under it, in first-seen order.
pub struct LinkTable {
    entries: Vec<LinkEntry>,
}

/// The value of a table entry.
pub open spec fn entry_view(e: LinkEntry) -> (Seq<char>, Seq<Seq<char>>) {
    (e.name@, strings_view(e.urls@))
}

/// Whether a sequence of destinations holds each one once.
pub open spec fn distinct(us: Seq<Seq<char>>) -> bool {
    forall|a: int, b: int| 0 <= a < b < us.len() ==> us[a] != us[b]
}

proof fn lemma_index_of(us: Seq<Seq<char>>, d: Seq<char>, k: int)
    requires
        0 <= k <= us.len(),
        forall|j: int| 0 <= j < k ==> us[j] != d,
        k == us.len() || us[k] == d,
    ensures
        index_of(us, d) == k,
    decreases us.len(),
{
    if us.len() > 0 && k > 0 {
        lemma_index_of(us.drop_first(), d, k - 1);
    }
}

proof fn lemma_urls_for(t: Seq<(Seq<char>, Seq<Seq<char>>)>, name: Seq<char>, k: int)
    requires
        0 <= k < t.len(),
        t[k].0 == name,
        forall|a: int, b: int| 0 <= a < b < t.len() ==> t[a].0 != t[b].0,
    ensures
        urls_for(t, name) == t[k].1,
    decreases t.len(),
{
    if k < t.len() - 1 {
        lemma_urls_for(t.drop_last(), name, k);
    }
}

proof fn lemma_urls_for_absent(t: Seq<(Seq<char>, Seq<Seq<char>>)>, name: Seq<char>)
    requires
        !has_name(t, name),
    ensures
        urls_for(t, name) == Seq::<Seq<char>>::empty(),
    decreases t.len(),
{
    if t.len() > 0 {
        assert(t.last() == t[t.len() - 1]);
        assert(!has_name(t.drop_last(), name)) by {
            if has_name(t.drop_last(), name) {
                let j = choose|j: int| 0 <= j < t.drop_last().len() && (#[trigger] t.drop_last()[j]).0 == name;
                assert(t[j] == t.drop_last()[j]);
            }
        }
        lemma_urls_for_absent(t.drop_last(), name);
    }
}

/// The index of the first string of `v` equal to `c`, or the length of `v`.
fn position(v: &Vec<String>, c: &Vec<char>) -> (r: usize)
    ensures
        r <= v@.len(),
        forall|j: int| 0 <= j < r ==> (#[trigger] v@[j])@ != c@,
        r < v@.len() ==> v@[r as int]@ == c@,
{
    let mut i: usize = 0;
    while i < v.len()
        invariant
            i <= v@.len(),
            forall|j: int| 0 <= j < i ==> (#[trigger] v@[j])@ != c@,
        decreases v.len() - i,
    {
        if same_chars(c, v[i].as_str()) {
            return i;
        }
        i = i + 1;
    }
    i
}

/// Whether `a` comes before `b` in code-point order.
fn chars_before(a: &Vec<char>, b: &str) -> (r: bool)
    ensures
        r == name_lt(a@, b@),
{
    let n = b.unicode_len();
    let mut i: usize = 0;
    while i < a.len() && i < n
        invariant
            i <= a@.len(),
            n == b@.len(),
            i <= n,
            name_lt(a@, b@) == lt_from(a@, b@, i as int),
        decreases a.len() - i,
    {
        let x = a[i];
        let y = b.get_char(i);
        if x != y {
            return (x as u32) < (y as u32);
        }
        i = i + 1;
    }
    i < n
}

impl LinkTable {
    /// The index of the entry named `c`, or the number of entries.
    fn position(&self, c: &Vec<char>) -> (r: usize)
        ensures
            r <= self.view().len(),
            forall|j: int| 0 <= j < r ==> (#[trigger] self.view()[j]).0 != c@,
            r < self.view().len() ==> self.view()[r as int].0 == c@,
    {
        let mut i: usize = 0;
        while i < self.entries.len()
            invariant
                i <= self.entries@.len(),
                forall|j: int| 0 <= j < i ==> (#[trigger] self.view()[j]).0 != c@,
            decreases self.entries.len() - i,
        {
            assert(self.view()[i as int] == entry_view(self.entries@[i as int]));
            if same_chars(c, self.entries[i].name.as_str()) {
                return i;
            }
            i = i + 1;
        }
        i
    }

    /// Where a name that the table lacks goes: before the first name that
    /// comes after it.
    fn insert_point(&self, c: &Vec<char>) -> (r: usize)
        requires
            sorted_names(self.view()),
            !has_name(self.view(), c@),
        ensures
            r == pos_from(self.view(), c@, 0),
            r <= self.view().len(),
            forall|j: int| 0 <= j < r ==> !name_lt(c@, #[trigger] self.view()[j].0),
            r < self.view().len() ==> name_lt(c@, self.view()[r as int].0),
    {
        let mut p: usize = 0;
        while p < self.entries.len()
            invariant
                p <= self.entries@.len(),
                pos_from(self.view(), c@, 0) == pos_from(self.view(), c@, p as int),
                forall|j: int| 0 <= j < p ==> !name_lt(c@, #[trigger] self.view()[j].0),
            decreases self.entries.len() - p,
        {
            assert(self.view()[p as int] == entry_view(self.entries@[p as int]));
            if chars_before(c, self.entries[p].name.as_str()) {
                return p;
            }
            p = p + 1;
        }
        p
    }

    /// The table's value: each name with its destinations, in the order the
    /// names were first registered.
    pub closed spec fn view(&self) -> Seq<(Seq<char>, Seq<Seq<char>>)> {
        self.entries@.map_values(|e: LinkEntry| entry_view(e))
    }

    /// Names are unique and in code-point order, and no name holds a
    /// destination twice.
    pub open spec fn wf(&self) -> bool {
        unique_names(self.view()) && sorted_names(self.view()) && (forall|a: int|
            0 <= a < self.view().len() ==> distinct(#[trigger] self.view()[a].1))
    }

    /// An empty table.
    pub fn new() -> (r: LinkTable)
        ensures
            r.wf(),
            r.view() == Seq::<(Seq<char>, Seq<Seq<char>>)>::empty(),
    {
        let r = LinkTable { entries: Vec::new() };
        assert(r.view() =~= Seq::<(Seq<char>, Seq<Seq<char>>)>::empty());
        r
    }

    /// Whether the table has no entry.
    pub fn is_empty(&self) -> (r: bool)
        ensures
            r == (self.view().len() == 0),
    {
        self.entries.len() == 0
    }

    /// The number of names in the table.
    pub fn len(&self) -> (r: usize)
        ensures
            r == self.view().len(),
    {
        self.entries.len()
    }

    /// The name of entry `i`.
    pub fn name(&self, i: usize) -> (r: String)
        requires
            i < self.view().len(),
        ensures
            r@ == self.view()[i as int].0,
    {
        self.entries[i].name.clone()
    }

    /// The destinations of entry `i`, in first-seen order.
    pub fn urls(&self, i: usize) -> (r: Vec<String>)
        requires
            i < self.view().len(),
        ensures
            strings_view(r@) == self.view()[i as int].1,
    {
        let v = &self.entries[i].urls;
        let mut r: Vec<String> = Vec::new();
        let mut k: usize = 0;
        while k < v.len()
            invariant
                k <= v@.len(),
                i < self.entries@.len(),
                v == self.entries@[i as int].urls,
                strings_view(r@) == strings_view(v@.subrange(0, k as int)),
            decreases v.len() - k,
        {
            let u = copy_string(&v[k]);
            let ghost before = r@;
            r.push(u);
            assert(r@ == before.push(u));
            assert(strings_view(r@) =~= strings_view(before).push(u@));
            assert(v@.subrange(0, k + 1) =~= v@.subrange(0, k as int).push(v@[k as int]));
            k = k + 1;
            assert(strings_view(r@) =~= strings_view(v@.subrange(0, k as int)));
        }
        assert(v@.subrange(0, k as int) =~= v@);
        r
    }

    /// The destinations registered under `name`.
    pub open spec fn urls_of(&self, name: Seq<char>) -> Seq<Seq<char>> {
        urls_for(self.view(), name)
    }

    /// Registers `dest` under `name` and returns its index among the name's
    /// destinations: the index it already had, or the next one when it is new.
    pub fn register(&mut self, name: String, dest: String) -> (r: usize)
        requires
            old(self).wf(),
        ensures
            final(self).wf(),
            final(self).view() == register(old(self).view(), name@, dest@),
            r == index_of(old(self).urls_of(name@), dest@),
            final(self).urls_of(name@) == registered(old(self).urls_of(name@), dest@),
            final(self).urls_of(name@)[r as int] == dest@,
    {
        let ghost t = self.view();
        let nc = chars_of(name.as_str());
        let i = self.position(&nc);
        if i == self.entries.len() {
            assert(!has_name(t, name@));
            proof {
                lemma_urls_for_absent(t, name@);
            }
            let ghost dv = dest@;
            let ghost nv = name@;
            let mut urls: Vec<String> = Vec::new();
            urls.push(dest);
            let e = LinkEntry { name, urls };
            assert(entry_view(e).1 =~= seq![dv]);
            assert(entry_view(e) == (nv, seq![dv]));
            let p = self.insert_point(&nc);
            self.entries.insert(p, e);
            assert(self.view() =~= t.insert(p as int, entry_view(e)));
            let ghost m = self.view();
            assert(forall|j: int| 0 <= j < p ==> #[trigger] m[j] == t[j]);
            assert(forall|j: int| p < j < m.len() ==> #[trigger] m[j] == t[j - 1]);
            assert forall|j: int| 0 <= j < p implies name_lt(#[trigger] t[j].0, nv) by {
                assert(t[j].0 != nv);
                assert(t[j].0.subrange(0, 0) =~= nv.subrange(0, 0));
                lemma_lt_total(t[j].0, nv, 0);
            }
            assert(unique_names(m) && sorted_names(m)) by {
                assert forall|x: int, y: int| 0 <= x < y < m.len() implies m[x].0 != m[y].0
                    && name_lt(m[x].0, m[y].0) by {
                    if x == p {
                        assert(t[y - 1].0 != nv);
                        if y - 1 > p {
                            assert(name_lt(t[p as int].0, t[y - 1].0));
                            lemma_lt_transitive(nv, t[p as int].0, t[y - 1].0, 0);
                        }
                    } else if y == p {
                        assert(t[x].0 != nv);
                    } else {
                        let x2 = if x < p { x } else { x - 1 };
                        let y2 = if y < p { y } else { y - 1 };
                        assert(m[x] == t[x2] && m[y] == t[y2]);
                        if x < p && y > p {
                            assert(name_lt(t[x2].0, nv));
                            if y2 > p {
                                assert(name_lt(t[p as int].0, t[y2].0));
                                lemma_lt_transitive(nv, t[p as int].0, t[y2].0, 0);
                            }
                            lemma_lt_transitive(t[x2].0, nv, t[y2].0, 0);
                        }
                    }
                }
            }
            assert(self.wf()) by {
                assert forall|a: int| 0 <= a < m.len() implies distinct(#[trigger] m[a].1) by {
                    if a < p {
                        assert(m[a] == t[a]);
                    } else if a > p {
                        assert(m[a] == t[a - 1]);
                    } else {
                        assert(m[a].1 == seq![dv]);
                    }
                }
            }
            proof {
                lemma_urls_for(m, nv, p as int);
            }
            assert(index_of(Seq::<Seq<char>>::empty(), dest@) == 0);
            assert(seq![dv] =~= Seq::<Seq<char>>::empty().push(dv));
            return 0;
        }
        assert(t[i as int].0 == name@);
        assert(has_name(t, name@));
        proof {
            lemma_urls_for(t, name@, i as int);
        }
        let ghost us = t[i as int].1;
        // Look for the destination among the name's destinations.
        let dc = chars_of(dest.as_str());
        let k = position(&self.entries[i].urls, &dc);
        let n = self.entries[i].urls.len();
        assert(strings_view(self.entries@[i as int].urls@) == us);
        assert forall|j: int| 0 <= j < k implies us[j] != dest@ by {
            assert(us[j] == self.entries@[i as int].urls@[j]@);
        }
        assert(k < n ==> us[k as int] == self.entries@[i as int].urls@[k as int]@);
        proof {
            lemma_index_of(us, dest@, k as int);
        }
        if k < n {
            assert(register(t, name@, dest@) =~= t) by {
                assert forall|j: int| 0 <= j < t.len() implies #[trigger] register(
                    t,
                    name@,
                    dest@,
                )[j] == t[j] by {
                    if t[j].0 == name@ {
                        assert(j == i);
                    }
                }
            }
            return k;
        }
        let mut entry = self.entries.remove(i);
        assert(entry_view(entry) == t[i as int]);
        entry.urls.push(dest);
        let ghost nv = entry_view(entry);
        assert(nv.1 =~= us.push(dest@));
        self.entries.insert(i, entry);
        assert(self.view() =~= t.update(i as int, nv));
        assert(register(t, name@, dest@) =~= t.update(i as int, nv)) by {
            assert forall|j: int| 0 <= j < t.len() implies #[trigger] register(
                t,
                name@,
                dest@,
            )[j] == t.update(i as int, nv)[j] by {
                if t[j].0 == name@ {
                    assert(j == i);
                }
            }
        }
        assert(distinct(nv.1)) by {
            assert forall|a: int, b: int| 0 <= a < b < nv.1.len() implies nv.1[a] != nv.1[b] by {
                if b == us.len() {
                    assert(us[a] != dest@);
                } else {
                    assert(distinct(t[i as int].1));
                }
            }
        }
        assert(self.wf()) by {
            assert forall|a: int| 0 <= a < self.view().len() implies distinct(
                #[trigger] self.view()[a].1,
            ) by {
                if a != i {
                    assert(self.view()[a] == t[a]);
                }
            }
        }
        proof {
            lemma_urls_for(self.view(), name@, i as int);
        }
        k
    }
}

/// Appends the decimal numeral of `n` to `s`.
fn push_decimal(s: &mut String, n: usize)
    ensures
        final(s)@ == old(s)@ + decimal(n as nat),
    decreases n,
{
    if n >= 10 {
        push_decimal(s, n / 10);
    }
    let d = n % 10;
    let c = if d == 0 {
        '0'
    } else if d == 1 {
        '1'
    } else if d == 2 {
        '2'
    } else if d == 3 {
        '3'
    } else if d == 4 {
        '4'
    } else if d == 5 {
        '5'
    } else if d == 6 {
        '6'
    } else if d == 7 {
        '7'
    } else if d == 8 {
        '8'
    } else {
        '9'
    };
    push_char(s, c);
    if n >= 10 {
        assert(s@ =~= old(s)@ + decimal(n as nat));
    } else {
        assert(s@ =~= old(s)@ + decimal(n as nat));
    }
}

/// The identifier for the destination at index `i` under `name`.
pub fn link_identifier(name: &String, i: usize) -> (r: String)
    ensures
        r@ == identifier(name@, i as nat),
{
    let mut r = name.clone();
    if i > 0 {
        push_char(&mut r, '-');
        push_decimal(&mut r, i);
    }
    r
}

/// The reference name of a link's text.
pub fn link_ref(text: &str) -> (r: String)
    ensures
        r@ == ref_name(text@),
{
    let cs = chars_of(text);
    let mut end: usize = 0;
    while end < cs.len() && cs[end] != '<'
        invariant
            end <= cs@.len(),
            cs@ == text@,
            find_from(text@, '<', 0) == find_from(text@, '<', end as int),
        decreases cs.len() - end,
    {
        end = end + 1;
    }
    let ghost t = text@.subrange(0, end as int);
    let mut r = String::new();
    let mut i: usize = 0;
    while i < end
        invariant
            i <= end <= cs@.len(),
            cs@ == text@,
            t == text@.subrange(0, end as int),
            r@ == name_parts(t.subrange(0, i as int)),
        decreases end - i,
    {
        let c = cs[i];
        let ghost before = r@;
        if 'A' <= c && c <= 'Z' {
            let lower = ((c as u8) + 32) as char;
            assert(lower == ((c as u32) + 32) as char);
            push_char(&mut r, lower);
        } else if ('a' <= c && c <= 'z') || ('0' <= c && c <= '9') || c == '_' || c == '-' {
            push_char(&mut r, c);
        } else if c == ' ' {
            push_char(&mut r, '-');
        }
        assert(r@ =~= before + name_part(c));
        assert(t.subrange(0, i + 1).drop_last() =~= t.subrange(0, i as int));
        i = i + 1;
    }
    assert(t.subrange(0, end as int) =~= t);
    r
}

} // verus!
