//! A table of header fields, keyed by lower-cased name.

use vstd::prelude::*;
use vstd::utf8::encode_utf8;
use crate::request::ParseError;
use crate::text::{lower_of, lowercase, text_from_bytes, text_of};
use crate::wire::{
    all_tchars, append_range, ascii_chars, byte_from, find_byte, find_crlf, first_byte,
    first_crlf, is_crlf_at, is_tchar, lemma_first_crlf, lemma_line_end, space_before,
    space_len, space_len_end, trim_start, tchars_between, trim, trim_bounds,
};

verus! {

/// The map that a list of (name, value) entries denotes; a later entry of a
/// name wins over an earlier one.
pub open spec fn entries_map(s: Seq<(Seq<char>, Seq<char>)>) -> Map<Seq<char>, Seq<char>>
    decreases s.len(),
{
    if s.len() == 0 {
        Map::empty()
    } else {
        entries_map(s.drop_last()).insert(s.last().0, s.last().1)
    }
}

/// The position of the last entry named `k`.
pub open spec fn key_pos(s: Seq<(Seq<char>, Seq<char>)>, k: Seq<char>) -> Option<nat>
    decreases s.len(),
{
    if s.len() == 0 {
        None
    } else if s.last().0 == k {
        Some((s.len() - 1) as nat)
    } else {
        key_pos(s.drop_last(), k)
    }
}

pub open spec fn names_unique(s: Seq<(Seq<char>, Seq<char>)>) -> bool {
    forall|i: int, j: int| 0 <= i < j < s.len() ==> s[i].0 != s[j].0
}

/// The entries with `k` set to `v`: in place if `k` is there, else at the end.
pub open spec fn put_entry(s: Seq<(Seq<char>, Seq<char>)>, k: Seq<char>, v: Seq<char>) -> Seq<
    (Seq<char>, Seq<char>),
> {
    match key_pos(s, k) {
        Some(i) => s.update(i as int, (k, v)),
        None => s.push((k, v)),
    }
}

/// A repeated field's value: the earlier value, a comma and a space, the later one.
pub open spec fn joined(earlier: Seq<char>, later: Seq<char>) -> Seq<char> {
    earlier + seq![',', ' '] + later
}

/// The entries with `v` added under `k`: joined to the value there, or as a new entry.
pub open spec fn merge_entry(s: Seq<(Seq<char>, Seq<char>)>, k: Seq<char>, v: Seq<char>) -> Seq<
    (Seq<char>, Seq<char>),
> {
    match key_pos(s, k) {
        Some(i) => s.update(i as int, (k, joined(s[i as int].1, v))),
        None => s.push((k, v)),
    }
}

/// The map after a value `v` arrives for `k`.
pub open spec fn merged(m: Map<Seq<char>, Seq<char>>, k: Seq<char>, v: Seq<char>) -> Map<
    Seq<char>,
    Seq<char>,
> {
    if m.contains_key(k) {
        m.insert(k, joined(m[k], v))
    } else {
        m.insert(k, v)
    }
}

pub proof fn lemma_key_pos(s: Seq<(Seq<char>, Seq<char>)>, k: Seq<char>)
    ensures
        match key_pos(s, k) {
            Some(i) => i < s.len() && s[i as int].0 == k && entries_map(s).contains_key(k)
                && entries_map(s)[k] == s[i as int].1 && forall|j: int|
                i < j < s.len() ==> s[j].0 != k,
            None => !entries_map(s).contains_key(k) && forall|j: int|
                0 <= j < s.len() ==> s[j].0 != k,
        },
    decreases s.len(),
{
    if s.len() > 0 && s.last().0 != k {
        lemma_key_pos(s.drop_last(), k);
        let p = s.drop_last();
        assert forall|j: int| 0 <= j < p.len() implies s[j] == p[j] by {}
    }
}

proof fn lemma_map_update(s: Seq<(Seq<char>, Seq<char>)>, i: int, v: Seq<char>)
    requires
        0 <= i < s.len(),
        forall|j: int| i < j < s.len() ==> s[j].0 != s[i].0,
    ensures
        entries_map(s.update(i, (s[i].0, v))) == entries_map(s).insert(s[i].0, v),
    decreases s.len(),
{
    let k = s[i].0;
    let t = s.update(i, (k, v));
    if i == s.len() - 1 {
        assert(t.drop_last() =~= s.drop_last());
        assert(entries_map(t) =~= entries_map(s).insert(k, v));
    } else {
        let p = s.drop_last();
        assert(t.drop_last() =~= p.update(i, (k, v)));
        lemma_map_update(p, i, v);
        assert(entries_map(t) =~= entries_map(s).insert(k, v));
    }
}

proof fn lemma_put_entry(s: Seq<(Seq<char>, Seq<char>)>, k: Seq<char>, v: Seq<char>)
    ensures
        entries_map(put_entry(s, k, v)) == entries_map(s).insert(k, v),
        names_unique(s) ==> names_unique(put_entry(s, k, v)),
{
    lemma_key_pos(s, k);
    match key_pos(s, k) {
        Some(i) => {
            lemma_map_update(s, i as int, v);
        },
        None => {
            assert(put_entry(s, k, v).drop_last() =~= s);
        },
    }
}

pub proof fn lemma_merge_entry(s: Seq<(Seq<char>, Seq<char>)>, k: Seq<char>, v: Seq<char>)
    ensures
        entries_map(merge_entry(s, k, v)) == merged(entries_map(s), k, v),
        names_unique(s) ==> names_unique(merge_entry(s, k, v)),
{
    lemma_key_pos(s, k);
    match key_pos(s, k) {
        Some(i) => {
            lemma_map_update(s, i as int, joined(s[i as int].1, v));
        },
        None => {
            assert(merge_entry(s, k, v).drop_last() =~= s);
        },
    }
}

proof fn lemma_map_remove(s: Seq<(Seq<char>, Seq<char>)>, i: int)
    requires
        names_unique(s),
        0 <= i < s.len(),
    ensures
        entries_map(s.remove(i)) == entries_map(s).remove(s[i].0),
        names_unique(s.remove(i)),
    decreases s.len(),
{
    let k = s[i].0;
    let t = s.remove(i);
    let p = s.drop_last();
    assert(names_unique(p));
    lemma_key_pos(p, s.last().0);
    if key_pos(p, s.last().0) is Some {
        let j = key_pos(p, s.last().0)->0;
        assert(s[j as int].0 == s[s.len() - 1].0);
    }
    if i == s.len() - 1 {
        assert(t =~= p);
        assert(entries_map(t) =~= entries_map(s).remove(k));
    } else {
        assert(t.drop_last() =~= p.remove(i));
        assert(t.last() == s.last());
        lemma_map_remove(p, i);
        assert(s.last().0 != k);
        assert(entries_map(t) =~= entries_map(s).remove(k));
    }
    assert forall|a: int, b: int| 0 <= a < b < t.len() implies t[a].0 != t[b].0 by {
        let a2 = if a < i { a } else { a + 1 };
        let b2 = if b < i { b } else { b + 1 };
        assert(t[a] == s[a2] && t[b] == s[b2]);
    }
}

proof fn lemma_unique_len(s: Seq<(Seq<char>, Seq<char>)>)
    requires
        names_unique(s),
    ensures
        entries_map(s).dom().finite(),
        entries_map(s).dom().len() == s.len(),
    decreases s.len(),
{
    if s.len() > 0 {
        let p = s.drop_last();
        assert(names_unique(p));
        lemma_unique_len(p);
        lemma_key_pos(p, s.last().0);
        if key_pos(p, s.last().0) is Some {
            let i = key_pos(p, s.last().0)->0;
            assert(s[i as int].0 == s[s.len() - 1].0);
        }
    }
}

pub open spec fn no_colon_msg() -> Seq<char> {
    "no colon found"@
}

pub open spec fn space_before_colon_msg() -> Seq<char> {
    "found space between field name and colon"@
}

pub open spec fn invalid_name_msg() -> Seq<char> {
    "found invalid chars within field name"@
}

/// What one header line (without its CR LF) holds: the lower-cased name and
/// the trimmed value, or why the line is refused.
pub open spec fn field_line(line: Seq<u8>) -> Result<(Seq<char>, Seq<char>), Seq<char>> {
    match first_byte(line, 58u8) {
        None => Err(no_colon_msg()),
        Some(c) => {
            let name = line.take(c as int);
            if space_len_end(name) > 0 {
                Err(space_before_colon_msg())
            } else if trim(name).len() == 0 || !all_tchars(trim(name)) {
                Err(invalid_name_msg())
            } else {
                Ok((lower_of(ascii_chars(trim(name))), text_of(trim(line.skip(c + 1int)))))
            }
        },
    }
}

/// One step of header parsing on `data`: the entries after it, the bytes
/// consumed, and whether the blank line that ends the block was reached.
pub open spec fn header_step(s: Seq<(Seq<char>, Seq<char>)>, data: Seq<u8>) -> Result<
    (Seq<(Seq<char>, Seq<char>)>, nat, bool),
    Seq<char>,
> {
    match first_crlf(data) {
        None => Ok((s, 0, false)),
        Some(n) => if n == 0 {
            Ok((s, 2, true))
        } else {
            match field_line(data.take(n as int)) {
                Ok(kv) => Ok((merge_entry(s, kv.0, kv.1), n + 2, false)),
                Err(m) => Err(m),
            }
        },
    }
}

/// One field on the wire: `name: value`.
pub open spec fn field_bytes(e: (Seq<char>, Seq<char>)) -> Seq<u8> {
    encode_utf8(e.0) + seq![58u8, 32u8] + encode_utf8(e.1)
}

/// The fields on the wire, one per line, lines joined by CR LF.
pub open spec fn block_bytes(s: Seq<(Seq<char>, Seq<char>)>) -> Seq<u8>
    decreases s.len(),
{
    if s.len() == 0 {
        Seq::empty()
    } else if s.len() == 1 {
        field_bytes(s[0])
    } else {
        block_bytes(s.drop_last()) + seq![13u8, 10u8] + field_bytes(s.last())
    }
}

/// A header line whose name is already in the table joins its value to the
/// one there, after a comma and a space; a new name starts a new entry. The
/// line and its CR LF are consumed, and what follows is left alone.
pub proof fn lemma_header_coalescing(
    s: Seq<(Seq<char>, Seq<char>)>,
    line: Seq<u8>,
    rest: Seq<u8>,
)
    requires
        names_unique(s),
        forall|j: int| !is_crlf_at(line, j),
        field_line(line) is Ok,
    ensures
        ({
            let (k, v) = field_line(line)->Ok_0;
            &&& header_step(s, line + seq![13u8, 10u8] + rest) == Ok::<
                (Seq<(Seq<char>, Seq<char>)>, nat, bool),
                Seq<char>,
            >((merge_entry(s, k, v), line.len() + 2, false))
            &&& names_unique(merge_entry(s, k, v))
            &&& entries_map(merge_entry(s, k, v)) == merged(entries_map(s), k, v)
        }),
{
    lemma_line_end(line, rest);
    let (k, v) = field_line(line)->Ok_0;
    lemma_merge_entry(s, k, v);
    assert(line.len() > 0);
}

/// The same field twice, in two lines, yields one entry whose value is the
/// two values in arrival order, joined by a comma and a space.
pub proof fn lemma_repeated_field(line1: Seq<u8>, line2: Seq<u8>)
    requires
        forall|j: int| !is_crlf_at(line1, j),
        forall|j: int| !is_crlf_at(line2, j),
        field_line(line1) is Ok,
        field_line(line2) is Ok,
        field_line(line1)->Ok_0.0 == field_line(line2)->Ok_0.0,
    ensures
        ({
            let (k, v1) = field_line(line1)->Ok_0;
            let v2 = field_line(line2)->Ok_0.1;
            let crlf = seq![13u8, 10u8];
            let s1 = header_step(Seq::empty(), line1 + crlf + line2 + crlf)->Ok_0.0;
            let s2 = header_step(s1, line2 + crlf + Seq::empty())->Ok_0.0;
            &&& entries_map(s2).contains_key(k)
            &&& entries_map(s2)[k] == joined(v1, v2)
            &&& entries_map(s2).dom().len() == 1
        }),
{
    let (k, v1) = field_line(line1)->Ok_0;
    let v2 = field_line(line2)->Ok_0.1;
    let crlf = seq![13u8, 10u8];
    let e = Seq::<(Seq<char>, Seq<char>)>::empty();
    assert(line1 + crlf + line2 + crlf =~= line1 + crlf + (line2 + crlf));
    lemma_header_coalescing(e, line1, line2 + crlf);
    let s1 = merge_entry(e, k, v1);
    assert(entries_map(e) =~= Map::<Seq<char>, Seq<char>>::empty());
    lemma_header_coalescing(s1, line2, Seq::empty());
    let s2 = merge_entry(s1, k, v2);
    assert(entries_map(s1) =~= map![k => v1]);
    assert(entries_map(s2) =~= map![k => joined(v1, v2)]);
    assert(map![k => joined(v1, v2)].dom() =~= set![k]);
}

/// In `name: rest` with a colon-free name, the first colon follows the name.
proof fn lemma_colon_after_name(name: Seq<u8>, rest: Seq<u8>)
    requires
        forall|i: int| 0 <= i < name.len() ==> name[i] != 58u8,
    ensures
        first_byte(name + seq![58u8] + rest, 58u8) == Some(name.len()),
        (name + seq![58u8] + rest).take(name.len() as int) == name,
        (name + seq![58u8] + rest).skip(name.len() + 1int) == rest,
{
    let l = name + seq![58u8] + rest;
    lemma_first_colon_in_prefix(l, name.len() + 1);
    let c = first_byte(l, 58u8)->0;
    if c < name.len() {
        assert(l[c as int] == name[c as int]);
    }
    assert(l.take(name.len() as int) =~= name);
    assert(l.skip(name.len() + 1int) =~= rest);
}

/// A field line `name: value`, with a token name and a value without
/// surrounding whitespace, holds the lower-cased name and the value's text.
pub proof fn lemma_token_field(name: Seq<u8>, value: Seq<u8>)
    requires
        name.len() > 0,
        all_tchars(name),
        trim(value) == value,
    ensures
        field_line(name + seq![58u8, 32u8] + value) == Ok::<(Seq<char>, Seq<char>), Seq<char>>(
            (lower_of(ascii_chars(name)), text_of(value)),
        ),
{
    let rest = seq![32u8] + value;
    assert(name + seq![58u8, 32u8] + value =~= name + seq![58u8] + rest);
    assert forall|i: int| 0 <= i < name.len() implies name[i] != 58u8 by {
        assert(is_tchar(name[i]));
    }
    lemma_colon_after_name(name, rest);
    assert(is_tchar(name[0]) && is_tchar(name[name.len() - 1]));
    assert(space_len(name) == 0);
    assert(space_len_end(name) == 0);
    assert(trim_start(name) == name);
    assert(trim(name) == name);
    assert(space_len(rest) == 1);
    assert(rest.skip(1) =~= value);
    assert(trim_start(rest) == trim_start(value));
}

/// A line `name: value` whose value holds no CR LF holds none itself.
proof fn lemma_token_line_no_crlf(name: Seq<u8>, value: Seq<u8>)
    requires
        all_tchars(name),
        forall|j: int| !is_crlf_at(value, j),
    ensures
        forall|j: int| !is_crlf_at(name + seq![58u8, 32u8] + value, j),
{
    let l = name + seq![58u8, 32u8] + value;
    assert forall|j: int| !is_crlf_at(l, j) by {
        if is_crlf_at(l, j) {
            if j < name.len() {
                assert(is_tchar(name[j]));
            } else if j >= name.len() + 2 {
                assert(l[j] == value[j - name.len() - 2] && l[j + 1] == value[j + 1 - name.len() - 2]);
                assert(is_crlf_at(value, j - name.len() - 2));
            }
        }
    }
}

/// Two field lines `name1: a` and `name2: b`, with token names whose
/// lower-case forms agree (the same name, or the same name in another case)
/// and values without surrounding whitespace or CR LF, parsed one after the
/// other into an empty table, consume their lines and leave one entry: the
/// lower-cased name, with the values' texts in arrival order, joined by a
/// comma and a space.
pub proof fn lemma_fields_coalesce(name1: Seq<u8>, name2: Seq<u8>, a: Seq<u8>, b: Seq<u8>)
    requires
        name1.len() > 0 && all_tchars(name1),
        name2.len() > 0 && all_tchars(name2),
        lower_of(ascii_chars(name1)) == lower_of(ascii_chars(name2)),
        trim(a) == a && trim(b) == b,
        forall|j: int| !is_crlf_at(a, j),
        forall|j: int| !is_crlf_at(b, j),
    ensures
        ({
            let crlf = seq![13u8, 10u8];
            let sep = seq![58u8, 32u8];
            let first = header_step(Seq::empty(), name1 + sep + a + crlf);
            let second = header_step(first->Ok_0.0, name2 + sep + b + crlf);
            &&& first is Ok && first->Ok_0.1 == name1.len() + a.len() + 4 && !first->Ok_0.2
            &&& second is Ok && second->Ok_0.1 == name2.len() + b.len() + 4 && !second->Ok_0.2
            &&& entries_map(second->Ok_0.0) == map![lower_of(ascii_chars(name1)) => joined(
                text_of(a),
                text_of(b),
            )]
        }),
{
    let crlf = seq![13u8, 10u8];
    let sep = seq![58u8, 32u8];
    let l1 = name1 + sep + a;
    let l2 = name2 + sep + b;
    lemma_token_field(name1, a);
    lemma_token_field(name2, b);
    lemma_token_line_no_crlf(name1, a);
    lemma_token_line_no_crlf(name2, b);
    let k = lower_of(ascii_chars(name1));
    let e = Seq::<(Seq<char>, Seq<char>)>::empty();
    assert(l1 + crlf =~= l1 + crlf + Seq::<u8>::empty());
    assert(l2 + crlf =~= l2 + crlf + Seq::<u8>::empty());
    lemma_header_coalescing(e, l1, Seq::empty());
    let s1 = merge_entry(e, k, text_of(a));
    assert(entries_map(e) =~= Map::<Seq<char>, Seq<char>>::empty());
    assert(entries_map(s1) =~= map![k => text_of(a)]);
    lemma_header_coalescing(s1, l2, Seq::empty());
    assert(entries_map(merge_entry(s1, k, text_of(b))) =~= map![k => joined(text_of(a), text_of(b))]);
}

/// The first colon of a line whose first `k` bytes end in a colon is found
/// among those `k` bytes.
proof fn lemma_first_colon_in_prefix(l: Seq<u8>, k: nat)
    requires
        0 < k <= l.len(),
        l[k - 1] == 58u8,
    ensures
        first_byte(l, 58u8) == first_byte(l.take(k as int), 58u8),
        first_byte(l, 58u8) is Some,
        first_byte(l, 58u8)->0 < k,
        l[first_byte(l, 58u8)->0 as int] == 58u8,
{
    lemma_byte_from_prefix(l, k, 0);
}

proof fn lemma_byte_from_prefix(l: Seq<u8>, k: nat, i: nat)
    requires
        0 < k <= l.len(),
        l[k - 1] == 58u8,
        i < k,
    ensures
        byte_from(l, 58u8, i) == byte_from(l.take(k as int), 58u8, i),
        byte_from(l, 58u8, i) is Some,
        byte_from(l, 58u8, i)->0 < k,
        l[byte_from(l, 58u8, i)->0 as int] == 58u8,
    decreases k - i,
{
    if l[i as int] != 58u8 {
        lemma_byte_from_prefix(l, k, i + 1);
    }
}

/// Header fields, each name at most once, kept in the order of first arrival.
pub struct Headers {
    entries: Vec<(String, String)>,
}

impl View for Headers {
    type V = Map<Seq<char>, Seq<char>>;

    open spec fn view(&self) -> Map<Seq<char>, Seq<char>> {
        entries_map(self.entries())
    }
}

impl Headers {
    /// The fields in order of first arrival.
    pub closed spec fn entries(&self) -> Seq<(Seq<char>, Seq<char>)> {
        self.entries@.map_values(|e: (String, String)| (e.0@, e.1@))
    }

    /// No name occurs twice.
    pub open spec fn wf(&self) -> bool {
        names_unique(self.entries())
    }

    pub fn new() -> (r: Headers)
        ensures
            r.wf(),
            r.entries() == Seq::<(Seq<char>, Seq<char>)>::empty(),
            r@ == Map::<Seq<char>, Seq<char>>::empty(),
    {
        let r = Headers { entries: Vec::new() };
        assert(r.entries() =~= Seq::<(Seq<char>, Seq<char>)>::empty());
        r
    }

    /// Where the entry named exactly `k` stands.
    fn position(&self, k: &String) -> (r: Option<usize>)
        ensures
            match r {
                Some(i) => i < self.entries@.len() && key_pos(self.entries(), k@) == Some(i as nat),
                None => key_pos(self.entries(), k@) is None,
            },
    {
        let mut i: usize = self.entries.len();
        assert(self.entries().take(i as int) =~= self.entries());
        while i > 0
            invariant
                i <= self.entries@.len(),
                key_pos(self.entries(), k@) == key_pos(self.entries().take(i as int), k@),
            decreases i,
        {
            let ghost t = self.entries().take(i as int);
            assert(t.last() == self.entries()[i - 1]);
            if self.entries[i - 1].0 == *k {
                return Some(i - 1);
            }
            assert(t.drop_last() =~= self.entries().take(i - 1));
            i = i - 1;
        }
        None
    }

    /// Sets `key`, lower-cased, to `value`, replacing any earlier value.
    pub fn insert(&mut self, key: String, value: String)
        requires
            old(self).wf(),
        ensures
            final(self).wf(),
            final(self).entries() == put_entry(old(self).entries(), lower_of(key@), value@),
            final(self)@ == old(self)@.insert(lower_of(key@), value@),
    {
        let k = lowercase(key.as_str());
        let ghost kv = k@;
        let ghost vv = value@;
        match self.position(&k) {
            Some(i) => {
                self.entries.set(i, (k, value));
                assert(self.entries() =~= old(self).entries().update(i as int, (kv, vv)));
            },
            None => {
                self.entries.push((k, value));
                assert(self.entries() =~= old(self).entries().push((kv, vv)));
            },
        }
        proof {
            lemma_put_entry(old(self).entries(), kv, vv);
        }
    }

    /// The value of the field named `key`, in any case: the one stored under
    /// its lower-case form.
    pub fn get(&self, key: &str) -> (r: Option<&String>)
        ensures
            match r {
                Some(v) => self@.contains_key(lower_of(key@)) && v@ == self@[lower_of(
                    key@,
                )],
                None => !self@.contains_key(lower_of(key@)),
            },
    {
        let k = lowercase(key);
        proof {
            lemma_key_pos(self.entries(), k@);
        }
        match self.position(&k) {
            Some(i) => Some(&self.entries[i].1),
            None => None,
        }
    }

    /// How many distinct names the table holds.
    pub fn len(&self) -> (r: usize)
        requires
            self.wf(),
        ensures
            r == self@.dom().len(),
    {
        proof {
            lemma_unique_len(self.entries());
        }
        self.entries.len()
    }

    pub fn is_empty(&self) -> (r: bool)
        requires
            self.wf(),
        ensures
            r == (self@.dom().len() == 0),
    {
        proof {
            lemma_unique_len(self.entries());
        }
        self.entries.len() == 0
    }

    /// Adds `v` under the exact name `k`, joined to any value already there.
    fn merge(&mut self, k: String, v: String)
        requires
            old(self).wf(),
        ensures
            final(self).wf(),
            final(self).entries() == merge_entry(old(self).entries(), k@, v@),
    {
        let ghost kv = k@;
        let ghost vv = v@;
        match self.position(&k) {
            Some(i) => {
                let mut nv = self.entries[i].1.clone();
                nv.append(", ");
                nv.append(v.as_str());
                proof {
                    reveal_strlit(", ");
                }
                assert(nv@ =~= joined(old(self).entries()[i as int].1, vv));
                self.entries.set(i, (k, nv));
                assert(self.entries() =~= merge_entry(old(self).entries(), kv, vv));
            },
            None => {
                self.entries.push((k, v));
                assert(self.entries() =~= old(self).entries().push((kv, vv)));
            },
        }
        proof {
            lemma_merge_entry(old(self).entries(), kv, vv);
        }
    }

    /// Parses one header line from the start of `data`. Returns the bytes
    /// consumed (0 while no complete line is there) and whether that line was
    /// the blank one that ends the header block. A repeated name keeps one
    /// entry, its values joined by `", "` in arrival order.
    pub fn parse(&mut self, data: &[u8]) -> (r: Result<(usize, bool), ParseError>)
        requires
            old(self).wf(),
        ensures
            final(self).wf(),
            match r {
                Ok((n, done)) => header_step(old(self).entries(), data@) == Ok::<
                    (Seq<(Seq<char>, Seq<char>)>, nat, bool),
                    Seq<char>,
                >((final(self).entries(), n as nat, done)),
                Err(e) => header_step(old(self).entries(), data@) is Err && e.is_invalid_format(
                    header_step(old(self).entries(), data@)->Err_0,
                ) && final(self).entries() == old(self).entries(),
            },
    {
        proof {
            lemma_first_crlf(data@);
        }
        let n = match find_crlf(data) {
            None => {
                return Ok((0, false));
            },
            Some(n) => n,
        };
        if n == 0 {
            return Ok((2, true));
        }
        let ghost line = data@.take(n as int);
        let c = match find_byte(data, 0, n, 58u8) {
            None => {
                return Err(ParseError::InvalidFormat(String::from_str("no colon found")));
            },
            Some(c) => c,
        };
        assert(line.take(c as int) =~= data@.subrange(0, c as int));
        if space_before(data, 0, c) > 0 {
            return Err(
                ParseError::InvalidFormat(
                    String::from_str("found space between field name and colon"),
                ),
            );
        }
        let (a, b) = trim_bounds(data, 0, c);
        if a == b || !tchars_between(data, a, b) {
            return Err(
                ParseError::InvalidFormat(String::from_str("found invalid chars within field name")),
            );
        }
        let name = text_from_bytes(&data[a..b]);
        let key = lowercase(name.as_str());
        let (va, vb) = trim_bounds(data, c + 1, n);
        assert(line.skip(c + 1) =~= data@.subrange(c + 1, n as int));
        let value = text_from_bytes(&data[va..vb]);
        self.merge(key, value);
        assert(is_crlf_at(data@, n as int));
        assert(n + 2 <= data.len());
        Ok((n + 2, false))
    }

    /// Appends the fields as wire text to `out`, lines joined by CR LF.
    pub fn write_block(&self, out: &mut Vec<u8>)
        ensures
            final(out)@ == old(out)@ + block_bytes(self.entries()),
    {
        let mut i: usize = 0;
        while i < self.entries.len()
            invariant
                i <= self.entries@.len(),
                out@ == old(out)@ + block_bytes(self.entries().take(i as int)),
            decreases self.entries@.len() - i,
        {
            let ghost before = out@;
            if i > 0 {
                out.push(13u8);
                out.push(10u8);
            }
            let name = self.entries[i].0.as_str().as_bytes();
            append_range(out, name, 0, name.len());
            out.push(58u8);
            out.push(32u8);
            let value = self.entries[i].1.as_str().as_bytes();
            append_range(out, value, 0, value.len());
            proof {
                let t = self.entries().take(i + 1);
                assert(t.drop_last() =~= self.entries().take(i as int));
                assert(name@.subrange(0, name@.len() as int) =~= name@);
                assert(value@.subrange(0, value@.len() as int) =~= value@);
                if i > 0 {
                    assert(out@ =~= before + seq![13u8, 10u8] + field_bytes(t.last()));
                } else {
                    assert(out@ =~= before + field_bytes(t.last()));
                    assert(t =~= seq![t.last()]);
                }
            }
            i = i + 1;
        }
        assert(self.entries().take(i as int) =~= self.entries());
    }

    /// Takes out the field named `key`, in any case, and returns its value.
    pub fn remove(&mut self, key: &str) -> (r: Option<String>)
        requires
            old(self).wf(),
        ensures
            final(self).wf(),
            final(self)@ == old(self)@.remove(lower_of(key@)),
            match r {
                Some(v) => old(self)@.contains_key(lower_of(key@)) && v@ == old(self)@[lower_of(
                    key@,
                )],
                None => !old(self)@.contains_key(lower_of(key@)),
            },
    {
        let k = lowercase(key);
        proof {
            lemma_key_pos(self.entries(), k@);
        }
        match self.position(&k) {
            Some(i) => {
                let ghost before = self.entries();
                let (_name, value) = self.entries.remove(i);
                assert(self.entries() =~= before.remove(i as int));
                proof {
                    lemma_map_remove(before, i as int);
                }
                Some(value)
            },
            None => {
                assert(old(self)@.remove(k@) =~= old(self)@);
                None
            },
        }
    }
}

} // verus!
