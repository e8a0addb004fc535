//! Text as sequences of characters: conversion, decimal numbers, search and replacement.

use vstd::prelude::*;
use vstd::utf8::*;

verus! {

/// `String::push` appends one character to the end of the string.
pub assume_specification[ String::push ](s: &mut String, c: char)
    ensures
        final(s)@ == old(s)@.push(c),
;

/// The characters of a string, in order.
pub fn chars_of(s: &str) -> (r: Vec<char>)
    ensures
        r@ == s@,
{
    let mut out: Vec<char> = Vec::new();
    for c in it: s.chars()
        invariant
            it.seq() == s@,
            out@ == s@.take(it.index()),
    {
        assert(s@.take(it.index() + 1) == s@.take(it.index()).push(c));
        out.push(c);
    }
    assert(s@.take(s@.len() as int) == s@);
    out
}

/// The string made of the given characters.
pub fn text_of(v: &Vec<char>) -> (r: String)
    ensures
        r@ == v@,
{
    let mut out = String::new();
    for i in 0..v.len()
        invariant
            out@ == v@.take(i as int),
    {
        assert(v@.take(i + 1) == v@.take(i as int).push(v@[i as int]));
        out.push(v[i]);
    }
    assert(v@.take(v@.len() as int) == v@);
    out
}

/// The character of a decimal digit.
pub open spec fn digit_char(d: nat) -> char {
    ('0' as u32 + d) as char
}

/// The decimal digits of a number, most significant first, without leading zeros.
pub open spec fn decimal(n: nat) -> Seq<char>
    decreases n,
{
    if n < 10 {
        seq![digit_char(n)]
    } else {
        decimal(n / 10).push(digit_char(n % 10))
    }
}

/// A decimal notation is made of digits, at least one.
pub proof fn lemma_decimal_digits(n: nat)
    ensures
        decimal(n).len() > 0,
        forall|i: int| 0 <= i < decimal(n).len() ==> '0' <= #[trigger] decimal(n)[i] <= '9',
    decreases n,
{
    if n >= 10 {
        lemma_decimal_digits(n / 10);
    }
}

/// Different numbers have different decimal notations.
pub proof fn decimal_is_injective(a: nat, b: nat)
    requires
        decimal(a) == decimal(b),
    ensures
        a == b,
{
    lemma_digits_of_decimal(a);
    lemma_digits_of_decimal(b);
}

/// Appends the decimal notation of a number.
pub fn push_decimal(out: &mut String, n: u64)
    ensures
        final(out)@ == old(out)@ + decimal(n as nat),
    decreases n,
{
    if n >= 10 {
        push_decimal(out, n / 10);
    }
    let d: u8 = (n % 10) as u8;
    out.push((48u8 + d) as char);
    assert(final(out)@ =~= old(out)@ + decimal(n as nat));
}

/// The decimal notation of a number.
pub fn decimal_text(n: u64) -> (r: String)
    ensures
        r@ == decimal(n as nat),
{
    let mut out = String::new();
    push_decimal(&mut out, n);
    assert(out@ =~= decimal(n as nat));
    out
}

/// Whether `n` stands in `h` at position `i`.
pub open spec fn occurs_at(h: Seq<char>, n: Seq<char>, i: int) -> bool {
    0 <= i && i + n.len() <= h.len() && h.subrange(i, i + n.len()) == n
}

/// Whether `n` stands anywhere in `h`.
pub open spec fn contains_text(h: Seq<char>, n: Seq<char>) -> bool {
    exists|i: int| occurs_at(h, n, i)
}

/// Whether `i` is the first position of `n` in `h`.
pub open spec fn first_at(h: Seq<char>, n: Seq<char>, i: int) -> bool {
    occurs_at(h, n, i) && forall|j: int| 0 <= j < i ==> !occurs_at(h, n, j)
}

/// Tests whether `n` stands in `h` at position `i`.
pub fn matches_at(h: &Vec<char>, n: &Vec<char>, i: usize) -> (r: bool)
    ensures
        r == occurs_at(h@, n@, i as int),
{
    if n.len() > h.len() || i > h.len() - n.len() {
        return false;
    }
    for k in 0..n.len()
        invariant
            i + n.len() <= h.len(),
            forall|j: int| 0 <= j < k ==> h@[i + j] == n@[j],
    {
        if h[i + k] != n[k] {
            assert(h@.subrange(i as int, i + n@.len())[k as int] != n@[k as int]);
            return false;
        }
    }
    assert(h@.subrange(i as int, i + n@.len()) =~= n@);
    true
}

/// The first position of `n` in `h` at or after `from`.
pub fn find_from(h: &Vec<char>, n: &Vec<char>, from: usize) -> (r: Option<usize>)
    ensures
        match r {
            Some(i) => from <= i && occurs_at(h@, n@, i as int) && forall|j: int|
                from <= j < i ==> !occurs_at(h@, n@, j),
            None => forall|j: int| from <= j ==> !occurs_at(h@, n@, j),
        },
{
    if from > h.len() {
        return None;
    }
    let mut i: usize = from;
    while i <= h.len()
        invariant
            from <= i <= h@.len() + 1,
            forall|j: int| from <= j < i ==> !occurs_at(h@, n@, j),
        decreases h@.len() + 1 - i,
    {
        if matches_at(h, n, i) {
            return Some(i);
        }
        if i == h.len() {
            return None;
        }
        i = i + 1;
    }
    None
}

/// The first position of `n` in `h`.
pub fn find_text(h: &Vec<char>, n: &Vec<char>) -> (r: Option<usize>)
    ensures
        match r {
            Some(i) => first_at(h@, n@, i as int),
            None => !contains_text(h@, n@),
        },
{
    find_from(h, n, 0)
}

/// Tests whether `n` stands anywhere in `h`.
pub fn contains(h: &str, n: &str) -> (r: bool)
    ensures
        r == contains_text(h@, n@),
{
    let hc = chars_of(h);
    let nc = chars_of(n);
    match find_text(&hc, &nc) {
        Some(i) => {
            assert(occurs_at(h@, n@, i as int));
            true
        },
        None => false,
    }
}

/// Whether `h` begins with `n`.
pub open spec fn begins_with(h: Seq<char>, n: Seq<char>) -> bool {
    n.len() <= h.len() && h.subrange(0, n.len() as int) == n
}

/// Whether `h` ends with `n`.
pub open spec fn ends_in(h: Seq<char>, n: Seq<char>) -> bool {
    n.len() <= h.len() && h.subrange(h.len() - n.len(), h.len() as int) == n
}

/// Tests whether `h` begins with `n`.
pub fn starts_with(h: &str, n: &str) -> (r: bool)
    ensures
        r == begins_with(h@, n@),
{
    matches_at(&chars_of(h), &chars_of(n), 0)
}

/// Tests whether `h` ends with `n`.
pub fn ends_with(h: &str, n: &str) -> (r: bool)
    ensures
        r == ends_in(h@, n@),
{
    let hc = chars_of(h);
    let nc = chars_of(n);
    if nc.len() > hc.len() {
        return false;
    }
    matches_at(&hc, &nc, hc.len() - nc.len())
}

/// Tests whether two strings hold the same characters.
pub fn same_text(a: &str, b: &str) -> (r: bool)
    ensures
        r == (a@ == b@),
{
    let ab = a.as_bytes();
    let bb = b.as_bytes();
    if ab.len() != bb.len() {
        return false;
    }
    for i in 0..ab.len()
        invariant
            ab@.len() == bb@.len(),
            ab@ == encode_utf8(a@),
            bb@ == encode_utf8(b@),
            forall|k: int| 0 <= k < i ==> ab@[k] == bb@[k],
    {
        if ab[i] != bb[i] {
            return false;
        }
    }
    proof {
        assert(ab@ =~= bb@);
        encode_utf8_decode_utf8(a@);
        encode_utf8_decode_utf8(b@);
    }
    true
}

/// `h` without `n` at its end, or `h` where it does not end with `n`.
pub open spec fn without_suffix(h: Seq<char>, n: Seq<char>) -> Seq<char> {
    if ends_in(h, n) {
        h.take(h.len() - n.len())
    } else {
        h
    }
}

/// Drops `n` from the end of `h`, where it stands there.
pub fn drop_suffix(h: &str, n: &str) -> (r: String)
    ensures
        r@ == without_suffix(h@, n@),
{
    if ends_with(h, n) {
        let all = h.unicode_len();
        let cut = n.unicode_len();
        let kept = h.substring_char(0, all - cut);
        assert(kept@ == h@.take(h@.len() - n@.len()));
        kept.to_owned()
    } else {
        h.to_owned()
    }
}

/// `s` with every `a` replaced by `b`.
pub open spec fn replaced(s: Seq<char>, a: char, b: char) -> Seq<char> {
    s.map_values(|c: char| if c == a { b } else { c })
}

/// Replaces every `a` by `b`.
pub fn replace_char(s: &str, a: char, b: char) -> (r: String)
    ensures
        r@ == replaced(s@, a, b),
{
    let sc = chars_of(s);
    let mut out = String::new();
    for i in 0..sc.len()
        invariant
            sc@ == s@,
            out@.len() == i,
            forall|k: int| 0 <= k < i ==> out@[k] == replaced(s@, a, b)[k],
    {
        if sc[i] == a {
            out.push(b);
        } else {
            out.push(sc[i]);
        }
    }
    assert(out@ =~= replaced(s@, a, b));
    out
}

/// The character sequences of a list of strings.
pub open spec fn texts(v: Seq<String>) -> Seq<Seq<char>> {
    v.map_values(|s: String| s@)
}

pub proof fn lemma_texts_push(v: Seq<String>, s: String)
    ensures
        texts(v.push(s)) == texts(v).push(s@),
{
    assert(texts(v.push(s)) =~= texts(v).push(s@));
}

/// Tests whether a list holds a string.
pub fn list_contains(v: &Vec<String>, s: &str) -> (r: bool)
    ensures
        r == texts(v@).contains(s@),
{
    for i in 0..v.len()
        invariant
            forall|k: int| 0 <= k < i ==> texts(v@)[k] != s@,
    {
        if same_text(v[i].as_str(), s) {
            assert(texts(v@)[i as int] == s@);
            return true;
        }
    }
    false
}

/// `s` written `n` times.
pub open spec fn repeated(s: Seq<char>, n: nat) -> Seq<char>
    decreases n,
{
    if n == 0 {
        seq![]
    } else {
        repeated(s, (n - 1) as nat) + s
    }
}

/// Writes `s` `n` times.
pub fn repeat_text(s: &str, n: usize) -> (r: String)
    ensures
        r@ == repeated(s@, n as nat),
{
    let mut out = String::new();
    for i in 0..n
        invariant
            out@ == repeated(s@, i as nat),
    {
        out.append(s);
    }
    out
}

/// The parts in order, with `sep` between each two.
pub open spec fn joined(parts: Seq<Seq<char>>, sep: Seq<char>) -> Seq<char>
    decreases parts.len(),
{
    if parts.len() == 0 {
        seq![]
    } else if parts.len() == 1 {
        parts[0]
    } else {
        joined(parts.drop_last(), sep) + sep + parts.last()
    }
}

/// Joins the parts with `sep` between each two.
pub fn join(parts: &Vec<String>, sep: &str) -> (r: String)
    ensures
        r@ == joined(texts(parts@), sep@),
{
    let mut out = String::new();
    for i in 0..parts.len()
        invariant
            out@ == joined(texts(parts@).take(i as int), sep@),
    {
        let ghost next = texts(parts@).take(i + 1);
        assert(next.drop_last() == texts(parts@).take(i as int));
        if i > 0 {
            out.append(sep);
        }
        out.append(parts[i].as_str());
        assert(next.last() == parts@[i as int]@);
        assert(out@ =~= joined(next, sep@));
    }
    assert(texts(parts@).take(parts@.len() as int) == texts(parts@));
    out
}

/// What `str::to_lowercase` makes of a text: Unicode's lowercase of every character.
pub uninterp spec fn lowercased(s: Seq<char>) -> Seq<char>;

/// Calls `str::to_lowercase`, whose result depends on the text alone.
#[verifier::external_body]
pub(crate) fn to_lower(s: &str) -> (r: String)
    ensures
        r@ == lowercased(s@),
{
    s.to_lowercase()
}

/// Whether a character has Unicode's `White_Space` property.
pub open spec fn white_space(c: char) -> bool {
    let n = c as int;
    0x9 <= n <= 0xd || n == 0x20 || n == 0x85 || n == 0xa0 || n == 0x1680 || 0x2000 <= n <= 0x200a
        || n == 0x2028 || n == 0x2029 || n == 0x202f || n == 0x205f || n == 0x3000
}

/// Tests whether a character has Unicode's `White_Space` property.
fn is_white_space(c: char) -> (r: bool)
    ensures
        r == white_space(c),
{
    let n: u32 = c as u32;
    (0x9 <= n && n <= 0xd) || n == 0x20 || n == 0x85 || n == 0xa0 || n == 0x1680 || (0x2000 <= n
        && n <= 0x200a) || n == 0x2028 || n == 0x2029 || n == 0x202f || n == 0x205f || n == 0x3000
}

/// A text without the white space at its beginning.
pub open spec fn trimmed_start(s: Seq<char>) -> Seq<char>
    decreases s.len(),
{
    if s.len() > 0 && white_space(s[0]) {
        trimmed_start(s.skip(1))
    } else {
        s
    }
}

/// A text without the white space at its end.
pub open spec fn trimmed_end(s: Seq<char>) -> Seq<char>
    decreases s.len(),
{
    if s.len() > 0 && white_space(s.last()) {
        trimmed_end(s.drop_last())
    } else {
        s
    }
}

/// A text without the white space at either end.
pub open spec fn trimmed(s: Seq<char>) -> Seq<char> {
    trimmed_end(trimmed_start(s))
}

fn skip_white(c: &Vec<char>) -> (from: usize)
    ensures
        from <= c@.len(),
        trimmed_start(c@) == c@.skip(from as int),
{
    let mut from: usize = 0;
    assert(c@.skip(0) =~= c@);
    while from < c.len() && is_white_space(c[from])
        invariant
            from <= c@.len(),
            trimmed_start(c@) == trimmed_start(c@.skip(from as int)),
        decreases c@.len() - from,
    {
        assert(c@.skip(from as int).skip(1) =~= c@.skip(from + 1));
        from = from + 1;
    }
    from
}

/// Drops the white space at the start.
pub fn trim_start(s: &str) -> (r: String)
    ensures
        r@ == trimmed_start(s@),
{
    let c = chars_of(s);
    let from: usize = skip_white(&c);
    assert(c@.subrange(from as int, c@.len() as int) =~= c@.skip(from as int));
    slice_text(&c, from, c.len())
}

/// Drops the white space at either end.
pub fn trim(s: &str) -> (r: String)
    ensures
        r@ == trimmed(s@),
{
    let c = chars_of(s);
    let from: usize = skip_white(&c);
    let ghost rest = c@.skip(from as int);
    let mut to: usize = c.len();
    assert(c@.subrange(from as int, to as int) =~= rest);
    while to > from && is_white_space(c[to - 1])
        invariant
            from <= to <= c@.len(),
            trimmed_end(rest) == trimmed_end(c@.subrange(from as int, to as int)),
        decreases to,
    {
        assert(c@.subrange(from as int, to as int).drop_last() =~= c@.subrange(
            from as int,
            to - 1,
        ));
        to = to - 1;
    }
    slice_text(&c, from, to)
}

/// The text of the characters from `from` up to `to`.
pub fn slice_text(c: &Vec<char>, from: usize, to: usize) -> (r: String)
    requires
        from <= to <= c@.len(),
    ensures
        r@ == c@.subrange(from as int, to as int),
{
    let mut out = String::new();
    let mut k: usize = from;
    while k < to
        invariant
            from <= k <= to <= c@.len(),
            out@ == c@.subrange(from as int, k as int),
        decreases to - k,
    {
        out.push(c[k]);
        assert(out@ =~= c@.subrange(from as int, k + 1));
        k = k + 1;
    }
    out
}

/// Whether every character is a decimal digit.
pub open spec fn all_digits(s: Seq<char>) -> bool {
    forall|i: int| 0 <= i < s.len() ==> '0' <= #[trigger] s[i] <= '9'
}

/// The number that digits stand for.
pub open spec fn digits_value(s: Seq<char>) -> nat
    decreases s.len(),
{
    if s.len() == 0 {
        0
    } else {
        (10 * digits_value(s.drop_last()) + (s.last() as u32 - 48)) as nat
    }
}

/// A decimal notation without an optional plus sign before it.
pub open spec fn unsigned_part(s: Seq<char>) -> Seq<char> {
    if s.len() > 0 && s[0] == '+' {
        s.skip(1)
    } else {
        s
    }
}

/// The number that a text is the decimal notation of, where it is one of at most `max`.
pub open spec fn number_in(s: Seq<char>, max: nat) -> Option<nat> {
    let d = unsigned_part(s);
    if d.len() > 0 && all_digits(d) && digits_value(d) <= max {
        Some(digits_value(d))
    } else {
        None
    }
}

proof fn lemma_digits_value_grows(s: Seq<char>, k: int)
    requires
        0 <= k <= s.len(),
        all_digits(s),
    ensures
        digits_value(s.take(k)) <= digits_value(s),
    decreases s.len() - k,
{
    if k == s.len() {
        assert(s.take(k) =~= s);
    } else {
        lemma_digits_value_grows(s, k + 1);
        assert(s.take(k + 1).drop_last() =~= s.take(k));
        assert('0' <= s[k] <= '9');
    }
}

/// Reads a decimal number of at most `max`.
pub fn parse_number(s: &str, max: u64) -> (r: Option<u64>)
    ensures
        match r {
            Some(v) => number_in(s@, max as nat) == Some(v as nat),
            None => number_in(s@, max as nat) is None,
        },
{
    let c = chars_of(s);
    let from: usize = if c.len() > 0 && c[0] == '+' {
        1
    } else {
        0
    };
    let ghost d = unsigned_part(s@);
    assert(d =~= c@.skip(from as int));
    if from == c.len() {
        return None;
    }
    let mut value: u128 = 0;
    let mut i: usize = from;
    while i < c.len()
        invariant
            c@ == s@,
            d == c@.skip(from as int),
            from <= i <= c@.len(),
            forall|k: int| from <= k < i ==> '0' <= #[trigger] c@[k] <= '9',
            value == digits_value(d.take(i - from)),
            value <= max,
            d == unsigned_part(s@),
            from < c@.len(),
        decreases c@.len() - i,
    {
        let ch = c[i];
        assert(d[i - from] == ch);
        if ch < '0' || ch > '9' {
            assert(!all_digits(d));
            return None;
        }
        assert(d.take(i - from + 1).drop_last() =~= d.take(i - from));
        value = 10 * value + (ch as u32 - 48) as u128;
        i = i + 1;
        assert(value == digits_value(d.take(i - from)));
        if value > max as u128 {
            proof {
                if all_digits(d) {
                    lemma_digits_value_grows(d, i - from);
                }
            }
            return None;
        }
    }
    assert(d.take(i - from) =~= d);
    assert forall|k: int| 0 <= k < d.len() implies '0' <= #[trigger] d[k] <= '9' by {
        assert(d[k] == c@[k + from]);
    }
    Some(value as u64)
}

/// A decimal notation is read as the number it was written for.
pub proof fn decimal_reads_back(n: nat, max: nat)
    requires
        n <= max,
    ensures
        number_in(decimal(n), max) == Some(n),
{
    lemma_decimal_digits(n);
    lemma_digits_of_decimal(n);
    assert(decimal(n)[0] != '+');
}

proof fn lemma_digits_of_decimal(n: nat)
    ensures
        digits_value(decimal(n)) == n,
    decreases n,
{
    reveal_with_fuel(digits_value, 2);
    if n < 10 {
        assert(decimal(n).drop_last() =~= Seq::<char>::empty());
    } else {
        lemma_digits_of_decimal(n / 10);
        assert(decimal(n).drop_last() =~= decimal(n / 10));
    }
}

/// `n` blanks.
pub open spec fn blanks(n: nat) -> Seq<char> {
    Seq::new(n, |i: int| ' ')
}

/// A text filled up with blanks on its right to `width` characters.
pub open spec fn padded_right(s: Seq<char>, width: nat) -> Seq<char> {
    if s.len() < width {
        s + blanks((width - s.len()) as nat)
    } else {
        s
    }
}

/// A text filled up with blanks on its left to `width` characters.
pub open spec fn padded_left(s: Seq<char>, width: nat) -> Seq<char> {
    if s.len() < width {
        blanks((width - s.len()) as nat) + s
    } else {
        s
    }
}

fn push_blanks(out: &mut String, n: usize)
    ensures
        final(out)@ == old(out)@ + blanks(n as nat),
{
    let ghost before = out@;
    for i in 0..n
        invariant
            out@ == before + blanks(i as nat),
    {
        out.push(' ');
        assert(out@ =~= before + blanks((i + 1) as nat));
    }
    assert(out@ =~= before + blanks(n as nat));
}

/// Appends a text filled up with blanks on its right.
pub fn push_padded_right(out: &mut String, s: &str, width: usize)
    ensures
        final(out)@ == old(out)@ + padded_right(s@, width as nat),
{
    let n: usize = s.unicode_len();
    out.append(s);
    if n < width {
        push_blanks(out, width - n);
    }
    assert(final(out)@ =~= old(out)@ + padded_right(s@, width as nat));
}

/// Appends a text filled up with blanks on its left.
pub fn push_padded_left(out: &mut String, s: &str, width: usize)
    ensures
        final(out)@ == old(out)@ + padded_left(s@, width as nat),
{
    let n: usize = s.unicode_len();
    if n < width {
        push_blanks(out, width - n);
    }
    out.append(s);
    assert(final(out)@ =~= old(out)@ + padded_left(s@, width as nat));
}

/// What stands between the first `marker` and the next, or the end: nothing where there is none.
pub open spec fn is_second_part(s: Seq<char>, marker: Seq<char>, part: Option<Seq<char>>) -> bool {
    match part {
        Some(p) => exists|i: int, j: int|
            #![trigger s.subrange(i, j)]
            first_at(s, marker, i - marker.len()) && p == s.subrange(i, j) && is_next_at(
                s,
                marker,
                i,
                j,
            ),
        None => !contains_text(s, marker),
    }
}

/// Whether `j` is the first position of `marker` from `from` on, or the end where there is none.
pub open spec fn is_next_at(s: Seq<char>, marker: Seq<char>, from: int, j: int) -> bool {
    &&& from <= j <= s.len()
    &&& j == s.len() || occurs_at(s, marker, j)
    &&& forall|k: int| from <= k < j ==> !occurs_at(s, marker, k)
}

/// Takes what stands between the first `marker` and the next, or the end.
pub fn second_part(s: &str, marker: &str) -> (r: Option<String>)
    requires
        marker@.len() > 0,
    ensures
        is_second_part(s@, marker@, match r {
            Some(p) => Some(p@),
            None => None,
        }),
{
    let c = chars_of(s);
    let m = chars_of(marker);
    match find_text(&c, &m) {
        None => None,
        Some(at) => {
            assert(at + m.len() <= c.len());
            let from: usize = at + m.len();
            let to: usize = match find_from(&c, &m, from) {
                Some(j) => j,
                None => c.len(),
            };
            let part = slice_text(&c, from, to);
            assert(first_at(s@, marker@, from - marker@.len()));
            assert(is_next_at(s@, marker@, from as int, to as int));
            assert(part@ == s@.subrange(from as int, to as int));
            Some(part)
        },
    }
}

/// A text up to the first of a character, or all of it.
pub open spec fn up_to(s: Seq<char>, c: char) -> Seq<char>
    decreases s.len(),
{
    if s.len() == 0 || s[0] == c {
        seq![]
    } else {
        seq![s[0]] + up_to(s.skip(1), c)
    }
}

/// What follows the first of a character, where there is one.
pub open spec fn following(s: Seq<char>, c: char) -> Option<Seq<char>>
    decreases s.len(),
{
    if s.len() == 0 {
        None
    } else if s[0] == c {
        Some(s.skip(1))
    } else {
        following(s.skip(1), c)
    }
}

/// A text without a character, that character, and a text: they split where they were joined.
pub proof fn joined_texts_split(a: Seq<char>, c: char, b: Seq<char>)
    requires
        !a.contains(c),
    ensures
        up_to(a + seq![c] + b, c) == a,
        following(a + seq![c] + b, c) == Some(b),
    decreases a.len(),
{
    let all = a + seq![c] + b;
    if a.len() == 0 {
        assert(all[0] == c);
        assert(all.skip(1) =~= b);
        assert(up_to(all, c) =~= a);
    } else {
        assert(a.contains(a[0]));
        assert(all[0] == a[0]);
        assert(all.skip(1) =~= a.skip(1) + seq![c] + b);
        assert forall|x: char| a.skip(1).contains(x) implies a.contains(x) by {
            let i = choose|i: int| 0 <= i < a.skip(1).len() && a.skip(1)[i] == x;
            assert(a[i + 1] == x);
        }
        joined_texts_split(a.skip(1), c, b);
        assert(seq![a[0]] + a.skip(1) =~= a);
    }
}

/// A text without a character does not split there.
pub proof fn whole_text_stays(a: Seq<char>, c: char)
    requires
        !a.contains(c),
    ensures
        up_to(a, c) == a,
        following(a, c) is None,
    decreases a.len(),
{
    if a.len() == 0 {
        assert(up_to(a, c) =~= a);
    } else {
        assert(a.contains(a[0]));
        assert forall|x: char| a.skip(1).contains(x) implies a.contains(x) by {
            let i = choose|i: int| 0 <= i < a.skip(1).len() && a.skip(1)[i] == x;
            assert(a[i + 1] == x);
        }
        whole_text_stays(a.skip(1), c);
        assert(seq![a[0]] + a.skip(1) =~= a);
    }
}

/// Splits a text at the first of a character: what stands before it, and what follows, where there
/// is one.
pub fn split_at_char(s: &str, c: char) -> (r: (String, Option<String>))
    ensures
        r.0@ == up_to(s@, c),
        match r.1 {
            Some(t) => following(s@, c) == Some(t@),
            None => following(s@, c) is None,
        },
{
    let v = chars_of(s);
    let mut i: usize = 0;
    assert(v@.skip(0) =~= v@);
    while i < v.len() && v[i] != c
        invariant
            v@ == s@,
            i <= v@.len(),
            up_to(s@, c) == s@.take(i as int) + up_to(s@.skip(i as int), c),
            following(s@, c) == following(s@.skip(i as int), c),
        decreases v@.len() - i,
    {
        assert(s@.skip(i as int).skip(1) =~= s@.skip(i + 1));
        assert(up_to(s@, c) =~= s@.take(i + 1) + up_to(s@.skip(i + 1), c));
        i = i + 1;
    }
    let head = slice_text(&v, 0, i);
    assert(head@ =~= up_to(s@, c));
    if i < v.len() {
        let tail = slice_text(&v, i + 1, v.len());
        assert(tail@ =~= s@.skip(i as int).skip(1));
        (head, Some(tail))
    } else {
        (head, None)
    }
}

pub proof fn lemma_following_shorter(s: Seq<char>, c: char)
    ensures
        following(s, c) matches Some(t) ==> t.len() < s.len(),
    decreases s.len(),
{
    if s.len() > 0 && s[0] != c {
        lemma_following_shorter(s.skip(1), c);
    }
}

/// The lines of a text: a line ends before a line feed, and a carriage return right before it is
/// no part of the line.
pub open spec fn lines_of(s: Seq<char>) -> Seq<Seq<char>>
    decreases s.len(),
    via lines_end
{
    if s.len() == 0 {
        seq![]
    } else {
        match following(s, '\n') {
            Some(rest) => seq![without_suffix(up_to(s, '\n'), "\r"@)] + lines_of(rest),
            None => seq![s],
        }
    }
}

#[via_fn]
proof fn lines_end(s: Seq<char>) {
    lemma_following_shorter(s, '\n');
}

/// The lines of a text.
pub fn lines(s: &str) -> (r: Vec<String>)
    ensures
        texts(r@) == lines_of(s@),
{
    let mut out: Vec<String> = Vec::new();
    let mut rest = s.to_owned();
    let mut more = true;
    assert(texts(out@) + lines_of(rest@) =~= lines_of(s@));
    while more && !rest.as_str().is_empty()
        invariant
            more ==> texts(out@) + lines_of(rest@) == lines_of(s@),
            !more ==> texts(out@) == lines_of(s@),
        decreases (if more {
            rest@.len() + 1
        } else {
            0
        }),
    {
        proof {
            lemma_following_shorter(rest@, '\n');
        }
        let ghost before = texts(out@);
        let (head, tail) = split_at_char(rest.as_str(), '\n');
        match tail {
            Some(t) => {
                let line = drop_suffix(head.as_str(), "\r");
                proof {
                    lemma_texts_push(out@, line);
                }
                out.push(line);
                assert(texts(out@) + lines_of(t@) =~= before + lines_of(rest@));
                rest = t;
            },
            None => {
                let line = rest.clone();
                proof {
                    lemma_texts_push(out@, line);
                }
                out.push(line);
                assert(texts(out@) =~= before + lines_of(rest@));
                more = false;
            },
        }
    }
    assert(texts(out@) =~= lines_of(s@));
    out
}

/// What precedes the last of a character, where there is one.
pub open spec fn before_last(s: Seq<char>, c: char) -> Option<Seq<char>>
    decreases s.len(),
{
    if s.len() == 0 {
        None
    } else if s.last() == c {
        Some(s.drop_last())
    } else {
        before_last(s.drop_last(), c)
    }
}

/// What precedes the last of a character, where there is one.
pub fn cut_at_last(s: &str, c: char) -> (r: Option<String>)
    ensures
        match r {
            Some(t) => before_last(s@, c) == Some(t@),
            None => before_last(s@, c) is None,
        },
{
    let v = chars_of(s);
    let mut to: usize = v.len();
    assert(v@.take(to as int) =~= s@);
    while to > 0 && v[to - 1] != c
        invariant
            v@ == s@,
            to <= v@.len(),
            before_last(s@, c) == before_last(s@.take(to as int), c),
        decreases to,
    {
        assert(s@.take(to as int).drop_last() =~= s@.take(to - 1));
        to = to - 1;
    }
    if to > 0 {
        assert(s@.take(to as int).drop_last() =~= s@.subrange(0, to - 1));
        Some(slice_text(&v, 0, to - 1))
    } else {
        None
    }
}

/// The parts of a text between the occurrences of a character, at least one.
pub open spec fn parts_of(s: Seq<char>, c: char) -> Seq<Seq<char>>
    decreases s.len(),
    via parts_end
{
    match following(s, c) {
        Some(rest) => seq![up_to(s, c)] + parts_of(rest, c),
        None => seq![s],
    }
}

#[via_fn]
proof fn parts_end(s: Seq<char>, c: char) {
    lemma_following_shorter(s, c);
}

/// The parts of a text between the occurrences of a character.
pub fn parts(s: &str, c: char) -> (r: Vec<String>)
    ensures
        texts(r@) == parts_of(s@, c),
{
    let mut out: Vec<String> = Vec::new();
    let mut rest = s.to_owned();
    let mut more = true;
    assert(texts(out@) + parts_of(rest@, c) =~= parts_of(s@, c));
    while more
        invariant
            more ==> texts(out@) + parts_of(rest@, c) == parts_of(s@, c),
            !more ==> texts(out@) == parts_of(s@, c),
        decreases (if more {
            rest@.len() + 1
        } else {
            0
        }),
    {
        proof {
            lemma_following_shorter(rest@, c);
        }
        let ghost before = texts(out@);
        let (head, tail) = split_at_char(rest.as_str(), c);
        match tail {
            Some(t) => {
                proof {
                    lemma_texts_push(out@, head);
                }
                out.push(head);
                assert(texts(out@) + parts_of(t@, c) =~= before + parts_of(rest@, c));
                rest = t;
            },
            None => {
                let part = rest.clone();
                proof {
                    lemma_texts_push(out@, part);
                }
                out.push(part);
                assert(texts(out@) =~= before + parts_of(rest@, c));
                more = false;
            },
        }
    }
    out
}

/// The digits of a number are those of its tenth, and its last one.
pub proof fn digits_follow_each_other(n: nat, d: nat)
    requires
        n > 0,
        d < 10,
    ensures
        decimal(10 * n + d) == decimal(n).push((48 + d) as char),
        decimal(d) == seq![(48 + d) as char],
{
}

/// Trimming leaves a part of a text, with white space only before and behind it, and none at either
/// of its ends.
pub proof fn trimming_leaves_the_inner_part(s: Seq<char>)
    ensures
        ({
            let a = s.len() - trimmed_start(s).len();
            let t = trimmed(s);
            &&& 0 <= a <= a + t.len() <= s.len()
            &&& t == s.subrange(a, a + t.len())
            &&& forall|i: int| 0 <= i < a ==> white_space(#[trigger] s[i])
            &&& forall|i: int| a + t.len() <= i < s.len() ==> white_space(#[trigger] s[i])
            &&& t.len() > 0 ==> !white_space(t[0]) && !white_space(t.last())
        }),
{
    lemma_trim_start(s);
    let m = trimmed_start(s);
    lemma_trim_end(m);
    let a = s.len() - m.len();
    let t = trimmed(s);
    assert(t =~= s.subrange(a, a + t.len()));
    assert forall|i: int| a + t.len() <= i < s.len() implies white_space(#[trigger] s[i]) by {
        assert(m[i - a] == s[i]);
    }
}

proof fn lemma_trim_start(s: Seq<char>)
    ensures
        trimmed_start(s).len() <= s.len(),
        trimmed_start(s) == s.skip(s.len() - trimmed_start(s).len()),
        forall|i: int| 0 <= i < s.len() - trimmed_start(s).len() ==> white_space(#[trigger] s[i]),
        trimmed_start(s).len() > 0 ==> !white_space(trimmed_start(s)[0]),
    decreases s.len(),
{
    if s.len() > 0 && white_space(s[0]) {
        let rest = s.skip(1);
        lemma_trim_start(rest);
        let t = trimmed_start(s);
        assert(rest.skip(rest.len() - t.len()) =~= s.skip(s.len() - t.len()));
        assert forall|i: int| 0 <= i < s.len() - t.len() implies white_space(#[trigger] s[i]) by {
            if i > 0 {
                assert(rest[i - 1] == s[i]);
            }
        }
    } else {
        assert(s.skip(0) =~= s);
    }
}

proof fn lemma_trim_end(s: Seq<char>)
    ensures
        trimmed_end(s).len() <= s.len(),
        trimmed_end(s) == s.take(trimmed_end(s).len() as int),
        forall|i: int| trimmed_end(s).len() <= i < s.len() ==> white_space(#[trigger] s[i]),
        trimmed_end(s).len() > 0 ==> !white_space(trimmed_end(s).last()),
    decreases s.len(),
{
    if s.len() > 0 && white_space(s.last()) {
        let rest = s.drop_last();
        lemma_trim_end(rest);
        let t = trimmed_end(s);
        assert(rest.take(t.len() as int) =~= s.take(t.len() as int));
        assert forall|i: int| t.len() <= i < s.len() implies white_space(#[trigger] s[i]) by {
            if i < rest.len() {
                assert(rest[i] == s[i]);
            }
        }
    } else {
        assert(s.take(s.len() as int) =~= s);
    }
}

/// Blanks, tabs and line ends are white space; visible ASCII is not.
pub proof fn blanks_are_white_space(c: char)
    ensures
        white_space(' ') && white_space('\t') && white_space('\n') && white_space('\r'),
        '!' <= c <= '~' ==> !white_space(c),
{
}

/// A text is filled up with blanks to its width, on one side, and never cut.
pub proof fn texts_are_filled_up(s: Seq<char>, width: nat)
    ensures
        s.len() >= width ==> padded_right(s, width) == s && padded_left(s, width) == s,
        s.len() < width ==> padded_right(s, width).len() == width && padded_left(s, width).len() == width,
        padded_right(s, width).take(s.len() as int) == s,
        padded_left(s, width).skip(padded_left(s, width).len() - s.len()) == s,
        forall|i: int|
            s.len() <= i < padded_right(s, width).len() ==> #[trigger] padded_right(s, width)[i] == ' ',
        forall|i: int|
            0 <= i < padded_left(s, width).len() - s.len() ==> #[trigger] padded_left(s, width)[i] == ' ',
{
    assert(padded_right(s, width).take(s.len() as int) =~= s);
    assert(padded_left(s, width).skip(padded_left(s, width).len() - s.len()) =~= s);
}

/// Parts are joined in order, with the separator between each two and nowhere else.
pub proof fn parts_are_joined_in_order(parts: Seq<Seq<char>>, p: Seq<char>, sep: Seq<char>)
    ensures
        joined(Seq::<Seq<char>>::empty(), sep).len() == 0,
        joined(seq![p], sep) == p,
        parts.len() > 0 ==> joined(parts.push(p), sep) == joined(parts, sep) + sep + p,
{
    assert(parts.push(p).drop_last() =~= parts);
}

/// A text ends its lines at line feeds, and a carriage return before one is no part of the line.
pub proof fn lines_end_at_line_feeds(a: Seq<char>, b: Seq<char>)
    requires
        !a.contains('\n'),
        a.len() == 0 || a.last() != '\r',
    ensures
        lines_of(a + seq!['\n'] + b) == seq![a] + lines_of(b),
        lines_of(a + seq!['\r'] + seq!['\n'] + b) == seq![a] + lines_of(b),
        a.len() > 0 ==> lines_of(a) == seq![a],
        lines_of(Seq::<char>::empty()).len() == 0,
{
    reveal_strlit("\r");
    let r = a + seq!['\r'];
    assert forall|i: int| 0 <= i < r.len() implies r[i] != '\n' by {
        if i < a.len() {
            assert(a.contains(a[i]));
        }
    }
    joined_texts_split(a, '\n', b);
    joined_texts_split(r, '\n', b);
    whole_text_stays(a, '\n');
    assert(r.subrange(r.len() - 1, r.len() as int) =~= "\r"@);
    assert(r.take(r.len() - 1) =~= a);
    if a.len() > 0 {
        assert(a.subrange(a.len() - 1, a.len() as int)[0] == a.last());
    }
    assert(!ends_in(a, "\r"@));
}

/// Replacing a character changes its occurrences and nothing else; a text written `n` times is `n`
/// times as long.
pub proof fn characters_are_replaced(s: Seq<char>, a: char, b: char, i: int, n: nat)
    requires
        0 <= i < s.len(),
    ensures
        replaced(s, a, b).len() == s.len(),
        s[i] == a ==> replaced(s, a, b)[i] == b,
        s[i] != a ==> replaced(s, a, b)[i] == s[i],
        repeated(s, n + 1) == repeated(s, n) + s,
        repeated(s, 0).len() == 0,
{
}

} // verus!
