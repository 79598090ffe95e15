//! Byte-level vocabulary shared by the request parser and the response writer.

use vstd::prelude::*;

verus! {

/// True when `s` holds a CR LF pair starting at `i`.
pub open spec fn is_crlf_at(s: Seq<u8>, i: int) -> bool {
    0 <= i && i + 1 < s.len() && s[i] == 13u8 && s[i + 1int] == 10u8
}

/// The first CR LF pair in `s` at or after `i`.
pub open spec fn crlf_from(s: Seq<u8>, i: nat) -> Option<nat>
    decreases s.len() - i,
{
    if i + 1 >= s.len() {
        None
    } else if s[i as int] == 13u8 && s[i + 1int] == 10u8 {
        Some(i)
    } else {
        crlf_from(s, i + 1)
    }
}

/// Where the first line of `s` ends, if `s` holds a complete line.
pub open spec fn first_crlf(s: Seq<u8>) -> Option<nat> {
    crlf_from(s, 0)
}

pub proof fn lemma_crlf_from(s: Seq<u8>, i: nat)
    ensures
        match crlf_from(s, i) {
            Some(k) => i <= k && is_crlf_at(s, k as int) && forall|j: int|
                i <= j < k ==> !is_crlf_at(s, j),
            None => forall|j: int| i <= j ==> !is_crlf_at(s, j),
        },
    decreases s.len() - i,
{
    if i + 1 < s.len() && !(s[i as int] == 13u8 && s[i + 1int] == 10u8) {
        lemma_crlf_from(s, i + 1);
    }
}

/// The first CR LF is the one with none before it.
pub proof fn lemma_first_crlf(s: Seq<u8>)
    ensures
        match first_crlf(s) {
            Some(k) => is_crlf_at(s, k as int) && forall|j: int| 0 <= j < k ==> !is_crlf_at(s, j),
            None => forall|j: int| !is_crlf_at(s, j),
        },
{
    lemma_crlf_from(s, 0);
}

/// A line that ends in `x` ends at the same place however `x` continues.
pub proof fn lemma_first_crlf_extend(x: Seq<u8>, y: Seq<u8>)
    requires
        first_crlf(x) is Some,
    ensures
        first_crlf(x + y) == first_crlf(x),
{
    lemma_first_crlf(x);
    lemma_first_crlf(x + y);
    let k = first_crlf(x)->0;
    assert(is_crlf_at(x + y, k as int));
    assert forall|j: int| 0 <= j < k implies !is_crlf_at(x + y, j) by {
        assert(!is_crlf_at(x, j));
    }
    match first_crlf(x + y) {
        Some(k2) => {
            if k2 < k {
                assert(is_crlf_at(x, k2 as int));
            }
        },
        None => {},
    }
}

/// A line without CR LF inside, followed by CR LF, ends where the line does.
pub proof fn lemma_line_end(line: Seq<u8>, rest: Seq<u8>)
    requires
        forall|j: int| !is_crlf_at(line, j),
    ensures
        first_crlf(line + seq![13u8, 10u8] + rest) == Some(line.len()),
        (line + seq![13u8, 10u8] + rest).take(line.len() as int) == line,
        (line + seq![13u8, 10u8] + rest).skip(line.len() + 2int) == rest,
{
    let data = line + seq![13u8, 10u8] + rest;
    lemma_first_crlf(data);
    assert(is_crlf_at(data, line.len() as int));
    match first_crlf(data) {
        Some(k) => {
            if k < line.len() {
                if k + 1 < line.len() {
                    assert(is_crlf_at(line, k as int));
                } else {
                    assert(data[k + 1int] == 13u8);
                }
            }
        },
        None => {},
    }
    assert(data.take(line.len() as int) =~= line);
    assert(data.skip(line.len() + 2int) =~= rest);
}

pub fn find_crlf(data: &[u8]) -> (r: Option<usize>)
    ensures
        match r {
            Some(i) => first_crlf(data@) == Some(i as nat),
            None => first_crlf(data@) is None,
        },
{
    let mut i: usize = 0;
    while data.len() - i >= 2
        invariant
            i <= data@.len(),
            crlf_from(data@, i as nat) == first_crlf(data@),
        decreases data@.len() - i,
    {
        if data[i] == 13u8 && data[i + 1] == 10u8 {
            return Some(i);
        }
        i = i + 1;
    }
    None
}

/// The ASCII characters with the Unicode White_Space property: tab, line
/// feed, vertical tab, form feed, carriage return and space.
pub open spec fn is_ascii_space(b: u8) -> bool {
    b == 32u8 || (9u8 <= b && b <= 13u8)
}

/// The three-byte UTF-8 encodings of White_Space characters: U+1680,
/// U+2000 to U+200A, U+2028, U+2029, U+202F, U+205F and U+3000.
pub open spec fn is_wide_space(a: u8, b: u8, c: u8) -> bool {
    (a == 0xE1u8 && b == 0x9Au8 && c == 0x80u8) || (a == 0xE2u8 && b == 0x80u8 && ((0x80u8 <= c
        && c <= 0x8Au8) || c == 0xA8u8 || c == 0xA9u8 || c == 0xAFu8)) || (a == 0xE2u8 && b
        == 0x81u8 && c == 0x9Fu8) || (a == 0xE3u8 && b == 0x80u8 && c == 0x80u8)
}

/// The two-byte UTF-8 encodings of White_Space characters: U+0085, U+00A0.
pub open spec fn is_narrow_space(a: u8, b: u8) -> bool {
    a == 0xC2u8 && (b == 0x85u8 || b == 0xA0u8)
}

/// The length of the White_Space character whose UTF-8 encoding starts
/// `s`, or 0 when none does. A character's encoding starts with a byte that
/// no other encoding continues with, so this finds exactly the whitespace
/// that decoding the bytes as text would find.
pub open spec fn space_len(s: Seq<u8>) -> nat {
    if s.len() >= 1 && is_ascii_space(s[0]) {
        1
    } else if s.len() >= 2 && is_narrow_space(s[0], s[1]) {
        2
    } else if s.len() >= 3 && is_wide_space(s[0], s[1], s[2]) {
        3
    } else {
        0
    }
}

/// The length of the White_Space character whose UTF-8 encoding ends `s`,
/// or 0 when none does.
pub open spec fn space_len_end(s: Seq<u8>) -> nat {
    let n = s.len() as int;
    if n >= 1 && is_ascii_space(s[n - 1]) {
        1
    } else if n >= 2 && is_narrow_space(s[n - 2], s[n - 1]) {
        2
    } else if n >= 3 && is_wide_space(s[n - 3], s[n - 2], s[n - 1]) {
        3
    } else {
        0
    }
}

pub open spec fn trim_start(s: Seq<u8>) -> Seq<u8>
    decreases s.len(),
{
    if space_len(s) > 0 {
        trim_start(s.skip(space_len(s) as int))
    } else {
        s
    }
}

pub open spec fn trim_end(s: Seq<u8>) -> Seq<u8>
    decreases s.len(),
{
    if space_len_end(s) > 0 {
        trim_end(s.take(s.len() - space_len_end(s)))
    } else {
        s
    }
}

/// `s` without leading and trailing whitespace.
pub open spec fn trim(s: Seq<u8>) -> Seq<u8> {
    trim_end(trim_start(s))
}

/// The length of the whitespace character that starts `data[i..hi]`, or 0.
pub fn space_at(data: &[u8], i: usize, hi: usize) -> (r: usize)
    requires
        i <= hi <= data@.len(),
    ensures
        r == space_len(data@.subrange(i as int, hi as int)),
{
    let ghost s = data@.subrange(i as int, hi as int);
    let n = hi - i;
    if n >= 1 && (data[i] == 32u8 || (9u8 <= data[i] && data[i] <= 13u8)) {
        return 1;
    }
    if n >= 2 && data[i] == 0xC2u8 && (data[i + 1] == 0x85u8 || data[i + 1] == 0xA0u8) {
        assert(s[0] == data@[i as int] && s[1] == data@[i + 1]);
        return 2;
    }
    if n >= 3 {
        let (a, b, c) = (data[i], data[i + 1], data[i + 2]);
        assert(s[0] == a && s[1] == b && s[2] == c);
        if (a == 0xE1u8 && b == 0x9Au8 && c == 0x80u8) || (a == 0xE2u8 && b == 0x80u8 && ((0x80u8
            <= c && c <= 0x8Au8) || c == 0xA8u8 || c == 0xA9u8 || c == 0xAFu8)) || (a == 0xE2u8
            && b == 0x81u8 && c == 0x9Fu8) || (a == 0xE3u8 && b == 0x80u8 && c == 0x80u8) {
            return 3;
        }
    }
    if n >= 2 {
        assert(s[0] == data@[i as int] && s[1] == data@[i + 1]);
    }
    0
}

/// The length of the whitespace character that ends `data[lo..j]`, or 0.
pub fn space_before(data: &[u8], lo: usize, j: usize) -> (r: usize)
    requires
        lo <= j <= data@.len(),
    ensures
        r == space_len_end(data@.subrange(lo as int, j as int)),
{
    let ghost s = data@.subrange(lo as int, j as int);
    let n = j - lo;
    if n >= 1 && (data[j - 1] == 32u8 || (9u8 <= data[j - 1] && data[j - 1] <= 13u8)) {
        return 1;
    }
    if n >= 2 && data[j - 2] == 0xC2u8 && (data[j - 1] == 0x85u8 || data[j - 1] == 0xA0u8) {
        assert(s[n - 2] == data@[j - 2] && s[n - 1] == data@[j - 1]);
        return 2;
    }
    if n >= 3 {
        let (a, b, c) = (data[j - 3], data[j - 2], data[j - 1]);
        assert(s[n - 3] == a && s[n - 2] == b && s[n - 1] == c);
        if (a == 0xE1u8 && b == 0x9Au8 && c == 0x80u8) || (a == 0xE2u8 && b == 0x80u8 && ((0x80u8
            <= c && c <= 0x8Au8) || c == 0xA8u8 || c == 0xA9u8 || c == 0xAFu8)) || (a == 0xE2u8
            && b == 0x81u8 && c == 0x9Fu8) || (a == 0xE3u8 && b == 0x80u8 && c == 0x80u8) {
            return 3;
        }
    }
    if n >= 2 {
        assert(s[n - 2] == data@[j - 2] && s[n - 1] == data@[j - 1]);
    }
    0
}

/// Bounds of the trimmed part of `data[lo..hi]`.
pub fn trim_bounds(data: &[u8], lo: usize, hi: usize) -> (r: (usize, usize))
    requires
        lo <= hi <= data@.len(),
    ensures
        lo <= r.0 <= r.1 <= hi,
        data@.subrange(r.0 as int, r.1 as int) == trim(data@.subrange(lo as int, hi as int)),
{
    let mut a: usize = lo;
    while a < hi && space_at(data, a, hi) > 0
        invariant
            lo <= a <= hi <= data@.len(),
            trim_start(data@.subrange(lo as int, hi as int)) == trim_start(
                data@.subrange(a as int, hi as int),
            ),
        decreases hi - a,
    {
        let w = space_at(data, a, hi);
        assert(data@.subrange(a as int, hi as int).skip(w as int) =~= data@.subrange(
            a + w,
            hi as int,
        ));
        a = a + w;
    }
    if a < hi {
        assert(trim_start(data@.subrange(a as int, hi as int)) == data@.subrange(a as int, hi as int));
    } else {
        assert(data@.subrange(a as int, hi as int).len() == 0);
    }
    let mut b: usize = hi;
    while b > a && space_before(data, a, b) > 0
        invariant
            lo <= a <= b <= hi <= data@.len(),
            trim(data@.subrange(lo as int, hi as int)) == trim_end(
                data@.subrange(a as int, b as int),
            ),
        decreases b - a,
    {
        let w = space_before(data, a, b);
        assert(data@.subrange(a as int, b as int).take(b - a - w) =~= data@.subrange(
            a as int,
            b - w,
        ));
        b = b - w;
    }
    if b == a {
        assert(data@.subrange(a as int, b as int).len() == 0);
    }
    (a, b)
}

/// The characters allowed in a header field name.
pub open spec fn is_tchar(b: u8) -> bool {
    (65u8 <= b && b <= 90u8) || (97u8 <= b && b <= 122u8) || (48u8 <= b && b <= 57u8) || b == 33u8
        || b == 35u8 || b == 36u8 || b == 37u8 || b == 38u8 || b == 39u8 || b == 42u8 || b == 43u8
        || b == 45u8 || b == 46u8 || b == 94u8 || b == 95u8 || b == 96u8 || b == 124u8 || b
        == 126u8
}

pub fn is_tchar_byte(b: u8) -> (r: bool)
    ensures
        r == is_tchar(b),
{
    match b {
        65u8..=90u8 | 97u8..=122u8 | 48u8..=57u8 => true,
        33u8 | 35u8 | 36u8 | 37u8 | 38u8 | 39u8 | 42u8 | 43u8 | 45u8 | 46u8 | 94u8 | 95u8 | 96u8
        | 124u8 | 126u8 => true,
        _ => false,
    }
}

pub open spec fn is_alpha(b: u8) -> bool {
    (65u8 <= b && b <= 90u8) || (97u8 <= b && b <= 122u8)
}

pub open spec fn is_ascii_bytes(s: Seq<u8>) -> bool {
    forall|i: int| 0 <= i < s.len() ==> s[i] < 128u8
}

/// ASCII bytes read as characters.
pub open spec fn ascii_chars(s: Seq<u8>) -> Seq<char> {
    s.map_values(|b: u8| b as char)
}

/// The first `b` in `s` at or after `i`.
pub open spec fn byte_from(s: Seq<u8>, b: u8, i: nat) -> Option<nat>
    decreases s.len() - i,
{
    if i >= s.len() {
        None
    } else if s[i as int] == b {
        Some(i)
    } else {
        byte_from(s, b, i + 1)
    }
}

pub open spec fn first_byte(s: Seq<u8>, b: u8) -> Option<nat> {
    byte_from(s, b, 0)
}

/// The first `b` in `data[lo..hi]`, counted from `lo`.
pub fn find_byte(data: &[u8], lo: usize, hi: usize, b: u8) -> (r: Option<usize>)
    requires
        lo <= hi <= data@.len(),
    ensures
        match r {
            Some(i) => i < hi - lo && first_byte(data@.subrange(lo as int, hi as int), b) == Some(
                i as nat,
            ),
            None => first_byte(data@.subrange(lo as int, hi as int), b) is None,
        },
{
    let ghost s = data@.subrange(lo as int, hi as int);
    let mut i: usize = 0;
    while i < hi - lo
        invariant
            lo <= hi <= data@.len(),
            i <= hi - lo,
            s == data@.subrange(lo as int, hi as int),
            byte_from(s, b, i as nat) == first_byte(s, b),
        decreases hi - lo - i,
    {
        if data[lo + i] == b {
            return Some(i);
        }
        i = i + 1;
    }
    None
}

pub open spec fn all_tchars(s: Seq<u8>) -> bool {
    forall|i: int| 0 <= i < s.len() ==> is_tchar(s[i])
}

pub fn tchars_between(data: &[u8], lo: usize, hi: usize) -> (r: bool)
    requires
        lo <= hi <= data@.len(),
    ensures
        r == all_tchars(data@.subrange(lo as int, hi as int)),
{
    let mut i: usize = lo;
    while i < hi
        invariant
            lo <= i <= hi <= data@.len(),
            forall|k: int| lo <= k < i ==> is_tchar(data@[k]),
        decreases hi - i,
    {
        if !is_tchar_byte(data[i]) {
            assert(!is_tchar(data@.subrange(lo as int, hi as int)[i - lo]));
            return false;
        }
        i = i + 1;
    }
    true
}

/// `cur` as a finished word: nothing if it is empty.
pub open spec fn flush_word(cur: Seq<u8>) -> Seq<Seq<u8>> {
    if cur.len() > 0 {
        seq![cur]
    } else {
        Seq::empty()
    }
}

/// The whitespace-separated words of `s`, after the word `cur` in progress.
pub open spec fn words_after(s: Seq<u8>, cur: Seq<u8>) -> Seq<Seq<u8>>
    decreases s.len(),
{
    if s.len() == 0 {
        flush_word(cur)
    } else if space_len(s) > 0 {
        flush_word(cur) + words_after(s.skip(space_len(s) as int), Seq::empty())
    } else {
        words_after(s.drop_first(), cur.push(s[0]))
    }
}

/// The whitespace-separated words of `s`.
pub open spec fn words(s: Seq<u8>) -> Seq<Seq<u8>> {
    words_after(s, Seq::empty())
}

/// The bounds of each word of `data[lo..hi]`.
pub fn word_spans(data: &[u8], lo: usize, hi: usize) -> (r: Vec<(usize, usize)>)
    requires
        lo <= hi <= data@.len(),
    ensures
        r@.len() == words(data@.subrange(lo as int, hi as int)).len(),
        forall|k: int|
            0 <= k < r@.len() ==> r@[k].0 <= r@[k].1 && r@[k].1 <= data@.len() && data@.subrange(
                r@[k].0 as int,
                r@[k].1 as int,
            ) == #[trigger] words(data@.subrange(lo as int, hi as int))[k],
{
    let ghost whole = words(data@.subrange(lo as int, hi as int));
    let ghost mut done: Seq<Seq<u8>> = Seq::empty();
    let mut spans: Vec<(usize, usize)> = Vec::new();
    let mut start: usize = lo;
    let mut i: usize = lo;
    assert(data@.subrange(lo as int, lo as int) =~= Seq::<u8>::empty());
    while i < hi
        invariant
            lo <= start <= i <= hi <= data@.len(),
            whole == done + words_after(
                data@.subrange(i as int, hi as int),
                data@.subrange(start as int, i as int),
            ),
            spans@.len() == done.len(),
            forall|k: int|
                0 <= k < spans@.len() ==> (#[trigger] spans@[k]).0 <= spans@[k].1 && spans@[k].1
                    <= i,
            forall|k: int|
                0 <= k < spans@.len() ==> data@.subrange(
                    (#[trigger] spans@[k]).0 as int,
                    spans@[k].1 as int,
                ) == done[k],
        decreases hi - i,
    {
        let ghost rest = data@.subrange(i as int, hi as int);
        let ghost cur = data@.subrange(start as int, i as int);
        let w = space_at(data, i, hi);
        if w > 0 {
            assert(rest.skip(w as int) =~= data@.subrange(i + w, hi as int));
            if start < i {
                let ghost prev = spans@;
                let ghost pdone = done;
                spans.push((start, i));
                proof {
                    done = done.push(cur);
                }
                assert forall|k: int| 0 <= k < spans@.len() implies (#[trigger] spans@[k]).0
                    <= spans@[k].1 && spans@[k].1 <= i + w && data@.subrange(
                    spans@[k].0 as int,
                    spans@[k].1 as int,
                ) == done[k] by {
                    if k < prev.len() {
                        assert(spans@[k] == prev[k]);
                        assert(done[k] == pdone[k]);
                    }
                }
                assert(flush_word(cur) =~= seq![cur]);
            } else {
                assert(flush_word(cur) =~= Seq::<Seq<u8>>::empty());
            }
            start = i + w;
            assert(data@.subrange(start as int, i + w) =~= Seq::<u8>::empty());
            i = i + w;
        } else {
            assert(rest.drop_first() =~= data@.subrange(i + 1, hi as int));
            assert(cur.push(data@[i as int]) =~= data@.subrange(start as int, i + 1));
            i = i + 1;
        }
    }
    let ghost cur = data@.subrange(start as int, i as int);
    if start < i {
        let ghost prev = spans@;
        let ghost pdone = done;
        spans.push((start, i));
        proof {
            done = done.push(cur);
        }
        assert forall|k: int| 0 <= k < spans@.len() implies (#[trigger] spans@[k]).0
            <= spans@[k].1 && spans@[k].1 <= i && data@.subrange(
            spans@[k].0 as int,
            spans@[k].1 as int,
        ) == done[k] by {
            if k < prev.len() {
                assert(spans@[k] == prev[k]);
                assert(done[k] == pdone[k]);
            }
        }
        assert(whole =~= done);
    } else {
        assert(whole =~= done);
    }
    assert forall|k: int| 0 <= k < spans@.len() implies spans@[k].0 <= spans@[k].1
        <= data@.len() && data@.subrange(spans@[k].0 as int, spans@[k].1 as int)
        == #[trigger] words(data@.subrange(lo as int, hi as int))[k] by {
        assert(whole[k] == done[k]);
    }
    spans
}

pub open spec fn all_alpha(s: Seq<u8>) -> bool {
    forall|i: int| 0 <= i < s.len() ==> is_alpha(s[i])
}

pub fn alpha_between(data: &[u8], lo: usize, hi: usize) -> (r: bool)
    requires
        lo <= hi <= data@.len(),
    ensures
        r == all_alpha(data@.subrange(lo as int, hi as int)),
{
    let mut i: usize = lo;
    while i < hi
        invariant
            lo <= i <= hi <= data@.len(),
            forall|k: int| lo <= k < i ==> is_alpha(data@[k]),
        decreases hi - i,
    {
        let c = data[i];
        if !((65u8 <= c && c <= 90u8) || (97u8 <= c && c <= 122u8)) {
            assert(!is_alpha(data@.subrange(lo as int, hi as int)[i - lo]));
            return false;
        }
        i = i + 1;
    }
    true
}

/// Appends `data[lo..hi]` to `out`.
pub fn append_range(out: &mut Vec<u8>, data: &[u8], lo: usize, hi: usize)
    requires
        lo <= hi <= data@.len(),
    ensures
        final(out)@ == old(out)@ + data@.subrange(lo as int, hi as int),
{
    let mut i: usize = lo;
    while i < hi
        invariant
            lo <= i <= hi <= data@.len(),
            out@ == old(out)@ + data@.subrange(lo as int, i as int),
        decreases hi - i,
    {
        out.push(data[i]);
        assert(out@ =~= old(out)@ + data@.subrange(lo as int, i + 1));
        i = i + 1;
    }
}

/// The pieces joined, in order.
pub open spec fn concat_all(pieces: Seq<Seq<u8>>) -> Seq<u8>
    decreases pieces.len(),
{
    if pieces.len() == 0 {
        Seq::empty()
    } else {
        pieces[0] + concat_all(pieces.drop_first())
    }
}

} // verus!
