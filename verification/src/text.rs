//! Verified text helpers working on character sequences.
//!
//! Every function here states its result over `Seq<char>`, the view of a
//! `String` or `&str`.

use vstd::prelude::*;
use vstd::string::StringExecFns;

verus! {

// ---------------------------------------------------------------- specs

/// `p` occurs in `s` starting at character position `i`.
pub open spec fn occurs_at(s: Seq<char>, p: Seq<char>, i: int) -> bool {
    0 <= i && i + p.len() <= s.len() && s.subrange(i, i + p.len()) == p
}

/// `p` occurs somewhere in `s`.
pub open spec fn seq_contains(s: Seq<char>, p: Seq<char>) -> bool {
    exists|i: int| #[trigger] occurs_at(s, p, i)
}

/// `p` is a prefix of `s`.
pub open spec fn seq_starts_with(s: Seq<char>, p: Seq<char>) -> bool {
    p.len() <= s.len() && s.subrange(0, p.len() as int) == p
}

/// `p` is a suffix of `s`.
pub open spec fn seq_ends_with(s: Seq<char>, p: Seq<char>) -> bool {
    p.len() <= s.len() && s.subrange(s.len() - p.len(), s.len() as int) == p
}

/// ASCII lower-casing of one character.
pub open spec fn ascii_lower(c: char) -> char {
    if 'A' <= c && c <= 'Z' {
        ((c as u32) + 32) as char
    } else {
        c
    }
}

/// ASCII lower-casing of a character sequence.
pub open spec fn seq_ascii_lower(s: Seq<char>) -> Seq<char> {
    s.map_values(|c: char| ascii_lower(c))
}

/// ASCII letter or digit.
pub open spec fn is_ascii_alnum(c: char) -> bool {
    ('a' <= c && c <= 'z') || ('A' <= c && c <= 'Z') || ('0' <= c && c <= '9')
}

/// ASCII digit.
pub open spec fn is_ascii_digit(c: char) -> bool {
    '0' <= c && c <= '9'
}

/// The Unicode `White_Space` property, which `char::is_whitespace` tests.
pub open spec fn is_white(c: char) -> bool {
    let u = c as u32;
    (0x9 <= u && u <= 0xd) || u == 0x20 || u == 0x85 || u == 0xa0 || u == 0x1680 || (0x2000 <= u
        && u <= 0x200a) || u == 0x2028 || u == 0x2029 || u == 0x202f || u == 0x205f || u
        == 0x3000
}

/// Number of leading white characters of `s`.
pub open spec fn lead_white(s: Seq<char>) -> nat
    decreases s.len(),
{
    if s.len() > 0 && is_white(s[0]) {
        1 + lead_white(s.drop_first())
    } else {
        0
    }
}

/// Number of trailing white characters of `s`.
pub open spec fn trail_white(s: Seq<char>) -> nat
    decreases s.len(),
{
    if s.len() > 0 && is_white(s.last()) {
        1 + trail_white(s.drop_last())
    } else {
        0
    }
}

/// `s` without leading white space (`str::trim_start`).
pub open spec fn trim_start_spec(s: Seq<char>) -> Seq<char> {
    s.subrange(lead_white(s) as int, s.len() as int)
}

/// `s` without trailing white space (`str::trim_end`).
pub open spec fn trim_end_spec(s: Seq<char>) -> Seq<char> {
    s.subrange(0, s.len() - trail_white(s))
}

/// `s` without leading and trailing white space (`str::trim`).
pub open spec fn trim_spec(s: Seq<char>) -> Seq<char> {
    trim_end_spec(trim_start_spec(s))
}

/// Decimal digits of a natural number, most significant first.
pub open spec fn decimal(n: nat) -> Seq<char>
    decreases n,
{
    if n < 10 {
        seq![digit_char(n)]
    } else {
        decimal(n / 10).push(digit_char(n % 10))
    }
}

/// The character of a single digit.
pub open spec fn digit_char(d: nat) -> char {
    if d == 0 {
        '0'
    } else if d == 1 {
        '1'
    } else if d == 2 {
        '2'
    } else if d == 3 {
        '3'
    } else if d == 4 {
        '4'
    } else if d == 5 {
        '5'
    } else if d == 6 {
        '6'
    } else if d == 7 {
        '7'
    } else if d == 8 {
        '8'
    } else {
        '9'
    }
}

/// Position of the first `c` in `s` at or after `from`, if any.
pub open spec fn next_index_of(s: Seq<char>, c: char, from: int) -> int
    decreases s.len() - from,
{
    if from >= s.len() {
        s.len() as int
    } else if s[from] == c {
        from
    } else {
        next_index_of(s, c, from + 1)
    }
}

/// The pieces of `s` between the separator `c`, starting at `from`
/// (`str::split` with a character pattern).
pub open spec fn split_from(s: Seq<char>, c: char, from: int) -> Seq<Seq<char>>
    decreases s.len() - from,
{
    let end = next_index_of(s, c, from);
    if from < 0 || from > s.len() {
        seq![]
    } else if end >= s.len() {
        seq![s.subrange(from, s.len() as int)]
    } else {
        proof {
            lemma_next_index_bounds(s, c, from);
        }
        seq![s.subrange(from, end)] + split_from(s, c, end + 1)
    }
}

/// `str::split(c)` for a character `c`.
pub open spec fn split_spec(s: Seq<char>, c: char) -> Seq<Seq<char>> {
    split_from(s, c, 0)
}

/// Pieces joined with a separator (`[String]::join`).
pub open spec fn join_spec(parts: Seq<Seq<char>>, sep: Seq<char>) -> Seq<char>
    decreases parts.len(),
{
    if parts.len() == 0 {
        seq![]
    } else if parts.len() == 1 {
        parts[0]
    } else {
        join_spec(parts.drop_last(), sep) + sep + parts.last()
    }
}

/// A line of `str::lines`: the piece without a trailing carriage return.
pub open spec fn strip_cr(l: Seq<char>) -> Seq<char> {
    if l.len() > 0 && l.last() == '\r' {
        l.drop_last()
    } else {
        l
    }
}

/// `str::lines`: the pieces between line feeds, each without a trailing
/// carriage return; a final empty piece (after a last line feed, or of an
/// empty text) is not a line.
pub open spec fn lines_spec(s: Seq<char>) -> Seq<Seq<char>> {
    let pieces = split_spec(s, '\n');
    let kept = if pieces.last().len() == 0 {
        pieces.drop_last()
    } else {
        pieces
    };
    kept.map_values(|l: Seq<char>| strip_cr(l))
}

/// Every occurrence of `from` replaced by `to`.
pub open spec fn replace_char_spec(s: Seq<char>, from: char, to: char) -> Seq<char> {
    s.map_values(|c: char| if c == from { to } else { c })
}

// ---------------------------------------------------------------- lemmas

/// A split always yields at least one piece.
pub proof fn lemma_split_from_nonempty(s: Seq<char>, c: char, from: int)
    requires
        0 <= from <= s.len(),
    ensures
        split_from(s, c, from).len() >= 1,
{
    lemma_next_index_bounds(s, c, from);
}

/// `next_index_of` lies between the start and the length.
pub proof fn lemma_next_index_bounds(s: Seq<char>, c: char, from: int)
    requires
        0 <= from,
    ensures
        from <= next_index_of(s, c, from) <= s.len() || (from > s.len() && next_index_of(s, c, from) == s.len()),
        next_index_of(s, c, from) < s.len() ==> s[next_index_of(s, c, from)] == c,
        forall|k: int| from <= k < next_index_of(s, c, from) ==> s[k] != c,
    decreases s.len() - from,
{
    if from >= s.len() {
    } else if s[from] == c {
    } else {
        lemma_next_index_bounds(s, c, from + 1);
    }
}

/// Joining a first piece before the rest puts the separator between them.
pub proof fn lemma_join_cons(x: Seq<char>, rest: Seq<Seq<char>>, sep: Seq<char>)
    requires
        rest.len() >= 1,
    ensures
        join_spec(seq![x] + rest, sep) == x + sep + join_spec(rest, sep),
    decreases rest.len(),
{
    let all = seq![x] + rest;
    if rest.len() == 1 {
        assert(all.drop_last() =~= seq![x]);
        assert(all.last() == rest[0]);
        assert(join_spec(seq![x], sep) == x);
        assert(join_spec(rest, sep) == rest[0]);
        assert(join_spec(all, sep) == join_spec(all.drop_last(), sep) + sep + all.last());
    } else {
        lemma_join_cons(x, rest.drop_last(), sep);
        assert(all.drop_last() =~= seq![x] + rest.drop_last());
        assert(all.last() == rest.last());
        assert(join_spec(all, sep) == join_spec(all.drop_last(), sep) + sep + all.last());
        assert(join_spec(rest, sep) == join_spec(rest.drop_last(), sep) + sep + rest.last());
        assert(x + sep + join_spec(rest.drop_last(), sep) + sep + rest.last() =~= x + sep + (join_spec(
            rest.drop_last(),
            sep,
        ) + sep + rest.last()));
    }
}

/// The pieces of a split hold no separator, and joined with the
/// separator they give back the text split; there are at least two pieces
/// exactly when the text holds the separator.
pub proof fn lemma_split_join(s: Seq<char>, c: char, from: int)
    requires
        0 <= from <= s.len(),
    ensures
        join_spec(split_from(s, c, from), seq![c]) == s.subrange(from, s.len() as int),
        forall|i: int| 0 <= i < split_from(s, c, from).len() ==> !(#[trigger] split_from(s, c, from)[i]).contains(c),
        split_from(s, c, from).len() >= 2 <==> exists|k: int| from <= k < s.len() && s[k] == c,
    decreases s.len() - from,
{
    lemma_next_index_bounds(s, c, from);
    let end = next_index_of(s, c, from);
    let parts = split_from(s, c, from);
    let first = s.subrange(from, end);
    assert(!first.contains(c)) by {
        if first.contains(c) {
            let k = choose|k: int| 0 <= k < first.len() && first[k] == c;
            assert(s[from + k] == c);
        }
    }
    if end >= s.len() {
        assert(parts =~= seq![s.subrange(from, s.len() as int)]);
        assert(!(exists|k: int| from <= k < s.len() && s[k] == c));
    } else {
        lemma_split_join(s, c, end + 1);
        lemma_split_from_nonempty(s, c, end + 1);
        let rest = split_from(s, c, end + 1);
        assert(parts == seq![first] + rest);
        lemma_join_cons(first, rest, seq![c]);
        assert(first + seq![c] + s.subrange(end + 1, s.len() as int) =~= s.subrange(from, s.len() as int));
        assert forall|i: int| 0 <= i < parts.len() implies !(#[trigger] parts[i]).contains(c) by {
            if i > 0 {
                assert(parts[i] == rest[i - 1]);
            }
        }
        assert(s[end] == c);
    }
}

/// Decimal representation is never empty and holds only digits.
pub proof fn lemma_decimal_digits(n: nat)
    ensures
        decimal(n).len() >= 1,
        forall|i: int| 0 <= i < decimal(n).len() ==> is_ascii_digit(#[trigger] decimal(n)[i]),
    decreases n,
{
    if n >= 10 {
        lemma_decimal_digits(n / 10);
    }
}

/// `digit_char` is injective on digits.
proof fn lemma_digit_char_injective(a: nat, b: nat)
    requires
        a < 10,
        b < 10,
        digit_char(a) == digit_char(b),
    ensures
        a == b,
{
}

/// Decimal representation is injective.
pub proof fn lemma_decimal_injective(a: nat, b: nat)
    requires
        decimal(a) == decimal(b),
    ensures
        a == b,
    decreases a + b,
{
    if a < 10 && b < 10 {
        assert(decimal(a) == seq![digit_char(a)]);
        assert(decimal(b) == seq![digit_char(b)]);
        assert(seq![digit_char(a)][0] == digit_char(a));
        assert(seq![digit_char(b)][0] == digit_char(b));
        lemma_digit_char_injective(a, b);
    } else if a < 10 {
        lemma_decimal_digits(b / 10);
        assert(decimal(b).len() >= 2);
        assert(decimal(a).len() == 1);
    } else if b < 10 {
        lemma_decimal_digits(a / 10);
        assert(decimal(a).len() >= 2);
        assert(decimal(b).len() == 1);
    } else {
        let da = decimal(a);
        let db = decimal(b);
        assert(da == decimal(a / 10).push(digit_char(a % 10)));
        assert(db == decimal(b / 10).push(digit_char(b % 10)));
        assert(da.drop_last() == decimal(a / 10));
        assert(db.drop_last() == decimal(b / 10));
        assert(da.last() == db.last());
        lemma_digit_char_injective(a % 10, b % 10);
        lemma_decimal_injective(a / 10, b / 10);
    }
}

// ---------------------------------------------------------------- exec: building

/// Characters of a string slice, in order.
pub fn chars_of(s: &str) -> (v: Vec<char>)
    ensures
        v@ == s@,
{
    let mut v: Vec<char> = Vec::new();
    for c in it: s.chars()
        invariant
            v@ == it.seq().take(it.index() as int),
    {
        v.push(c);
    }
    v
}

/// Appends one character (`String::push`).
#[verifier::external_body]
pub fn push_char(s: &mut String, c: char)
    ensures
        final(s)@ == old(s)@.push(c),
{
    s.push(c);
}

/// Appends a string slice.
pub fn push_str(s: &mut String, t: &str)
    ensures
        final(s)@ == old(s)@ + t@,
{
    s.append(t);
}

/// ASCII lower-casing of one character.
pub fn char_ascii_lower(c: char) -> (r: char)
    ensures
        r == ascii_lower(c),
{
    if 'A' <= c && c <= 'Z' {
        let code: u32 = (c as u32) + 32;
        let lower: u8 = code as u8;
        assert(lower as u32 == code);
        lower as char
    } else {
        c
    }
}

/// A fresh owned copy of a string slice.
pub fn owned(s: &str) -> (r: String)
    ensures
        r@ == s@,
{
    s.to_owned()
}

/// The string of a character slice.
pub fn string_from_chars(v: &[char]) -> (r: String)
    ensures
        r@ == v@,
{
    let mut r = String::new();
    let mut i: usize = 0;
    while i < v.len()
        invariant
            0 <= i <= v.len(),
            r@ == v@.subrange(0, i as int),
        decreases v.len() - i,
    {
        push_char(&mut r, v[i]);
        i = i + 1;
        assert(r@ == v@.subrange(0, i as int));
    }
    assert(v@.subrange(0, v.len() as int) == v@);
    r
}

/// The string of a character subrange `v[from..to]`.
pub fn string_from_range(v: &[char], from: usize, to: usize) -> (r: String)
    requires
        from <= to <= v.len(),
    ensures
        r@ == v@.subrange(from as int, to as int),
{
    let mut r = String::new();
    let mut i: usize = from;
    while i < to
        invariant
            from <= i <= to <= v.len(),
            r@ == v@.subrange(from as int, i as int),
        decreases to - i,
    {
        push_char(&mut r, v[i]);
        i = i + 1;
        assert(r@ == v@.subrange(from as int, i as int));
    }
    r
}

/// Concatenation of two string slices.
pub fn concat2(a: &str, b: &str) -> (r: String)
    ensures
        r@ == a@ + b@,
{
    let mut r = owned(a);
    push_str(&mut r, b);
    r
}

/// Concatenation of three string slices.
pub fn concat3(a: &str, b: &str, c: &str) -> (r: String)
    ensures
        r@ == a@ + b@ + c@,
{
    let mut r = owned(a);
    push_str(&mut r, b);
    push_str(&mut r, c);
    r
}

/// Decimal rendering of a number (`usize::to_string`).
pub fn decimal_string(n: usize) -> (r: String)
    ensures
        r@ == decimal(n as nat),
    decreases n,
{
    let d = n % 10;
    let c = if d == 0 {
        '0'
    } else if d == 1 {
        '1'
    } else if d == 2 {
        '2'
    } else if d == 3 {
        '3'
    } else if d == 4 {
        '4'
    } else if d == 5 {
        '5'
    } else if d == 6 {
        '6'
    } else if d == 7 {
        '7'
    } else if d == 8 {
        '8'
    } else {
        '9'
    };
    assert(c == digit_char(d as nat));
    if n < 10 {
        let mut r = String::new();
        push_char(&mut r, c);
        r
    } else {
        let mut r = decimal_string(n / 10);
        push_char(&mut r, c);
        r
    }
}

// ---------------------------------------------------------------- exec: tests

/// Equality of two character sequences.
pub fn chars_eq(a: &[char], b: &[char]) -> (r: bool)
    ensures
        r == (a@ == b@),
{
    if a.len() != b.len() {
        return false;
    }
    let mut i: usize = 0;
    while i < a.len()
        invariant
            a.len() == b.len(),
            0 <= i <= a.len(),
            forall|k: int| 0 <= k < i ==> a@[k] == b@[k],
        decreases a.len() - i,
    {
        if a[i] != b[i] {
            return false;
        }
        i = i + 1;
    }
    assert(a@ =~= b@);
    true
}

/// Equality of two string slices.
pub fn str_eq(a: &str, b: &str) -> (r: bool)
    ensures
        r == (a@ == b@),
{
    let va = chars_of(a);
    let vb = chars_of(b);
    chars_eq(va.as_slice(), vb.as_slice())
}

/// Equality of an optional string with a string slice.
pub fn opt_str_eq(a: &Option<String>, b: &str) -> (r: bool)
    ensures
        r == (a is Some && a->0@ == b@),
{
    match a {
        Some(s) => str_eq(s.as_str(), b),
        None => false,
    }
}

/// Whether `p` occurs in `s` at character position `i`.
pub fn chars_occur_at(s: &[char], p: &[char], i: usize) -> (r: bool)
    ensures
        r == occurs_at(s@, p@, i as int),
{
    if i > s.len() || p.len() > s.len() - i {
        return false;
    }
    let mut k: usize = 0;
    while k < p.len()
        invariant
            i + p.len() <= s.len(),
            0 <= k <= p.len(),
            forall|j: int| 0 <= j < k ==> s@[i + j] == p@[j],
        decreases p.len() - k,
    {
        if s[i + k] != p[k] {
            assert(s@.subrange(i as int, i + p.len())[k as int] != p@[k as int]);
            return false;
        }
        k = k + 1;
    }
    assert(s@.subrange(i as int, i + p.len()) =~= p@);
    true
}

/// Whether `p` is a prefix of `s`.
pub fn chars_starts_with(s: &[char], p: &[char]) -> (r: bool)
    ensures
        r == seq_starts_with(s@, p@),
{
    chars_occur_at(s, p, 0)
}

/// Whether `p` is a suffix of `s`.
pub fn chars_ends_with(s: &[char], p: &[char]) -> (r: bool)
    ensures
        r == seq_ends_with(s@, p@),
{
    if p.len() > s.len() {
        return false;
    }
    chars_occur_at(s, p, s.len() - p.len())
}

/// First position at which `p` occurs in `s`.
pub fn chars_find(s: &[char], p: &[char]) -> (r: Option<usize>)
    ensures
        match r {
            Some(i) => occurs_at(s@, p@, i as int) && forall|j: int|
                0 <= j < i ==> !#[trigger] occurs_at(s@, p@, j),
            None => !seq_contains(s@, p@),
        },
{
    if p.len() > s.len() {
        assert forall|j: int| !#[trigger] occurs_at(s@, p@, j) by {}
        return None;
    }
    let last = s.len() - p.len();
    let mut i: usize = 0;
    while i < last
        invariant
            last == s.len() - p.len(),
            0 <= i <= last,
            forall|j: int| 0 <= j < i ==> !#[trigger] occurs_at(s@, p@, j),
        decreases last - i,
    {
        if chars_occur_at(s, p, i) {
            return Some(i);
        }
        i = i + 1;
    }
    if chars_occur_at(s, p, last) {
        return Some(last);
    }
    assert forall|j: int| !#[trigger] occurs_at(s@, p@, j) by {
        if 0 <= j <= last {
        }
    }
    None
}

/// Whether `p` occurs in `s`.
pub fn chars_contains(s: &[char], p: &[char]) -> (r: bool)
    ensures
        r == seq_contains(s@, p@),
{
    chars_find(s, p).is_some()
}

/// Whether `c` occurs in `s`.
pub fn chars_has(s: &[char], c: char) -> (r: bool)
    ensures
        r == s@.contains(c),
{
    let mut i: usize = 0;
    while i < s.len()
        invariant
            0 <= i <= s.len(),
            forall|k: int| 0 <= k < i ==> s@[k] != c,
        decreases s.len() - i,
    {
        if s[i] == c {
            return true;
        }
        i = i + 1;
    }
    false
}

/// Whether `p` is a prefix of `s` (`str::starts_with`).
pub fn starts_with(s: &str, p: &str) -> (r: bool)
    ensures
        r == seq_starts_with(s@, p@),
{
    let vs = chars_of(s);
    let vp = chars_of(p);
    chars_starts_with(vs.as_slice(), vp.as_slice())
}

/// Whether `p` is a suffix of `s` (`str::ends_with`).
pub fn ends_with(s: &str, p: &str) -> (r: bool)
    ensures
        r == seq_ends_with(s@, p@),
{
    let vs = chars_of(s);
    let vp = chars_of(p);
    chars_ends_with(vs.as_slice(), vp.as_slice())
}

/// Whether `p` occurs in `s` (`str::contains`).
pub fn contains(s: &str, p: &str) -> (r: bool)
    ensures
        r == seq_contains(s@, p@),
{
    let vs = chars_of(s);
    let vp = chars_of(p);
    chars_contains(vs.as_slice(), vp.as_slice())
}

/// Whether `c` occurs in `s`.
pub fn has_char(s: &str, c: char) -> (r: bool)
    ensures
        r == s@.contains(c),
{
    let vs = chars_of(s);
    chars_has(vs.as_slice(), c)
}

/// Whether a character is white space (`char::is_whitespace`).
pub fn char_is_white(c: char) -> (r: bool)
    ensures
        r == is_white(c),
{
    let u = c as u32;
    (0x9 <= u && u <= 0xd) || u == 0x20 || u == 0x85 || u == 0xa0 || u == 0x1680 || (0x2000 <= u
        && u <= 0x200a) || u == 0x2028 || u == 0x2029 || u == 0x202f || u == 0x205f || u
        == 0x3000
}

/// Number of leading white characters of `s[from..]`.
proof fn lemma_lead_white_skip(s: Seq<char>, i: int)
    requires
        0 <= i <= s.len(),
        forall|k: int| 0 <= k < i ==> is_white(#[trigger] s[k]),
    ensures
        lead_white(s) == i + lead_white(s.subrange(i, s.len() as int)),
    decreases i,
{
    if i > 0 {
        assert(is_white(s[0]));
        assert(s.drop_first().subrange(i - 1, s.drop_first().len() as int) =~= s.subrange(
            i,
            s.len() as int,
        ));
        assert forall|k: int| 0 <= k < i - 1 implies is_white(#[trigger] s.drop_first()[k]) by {
            assert(s.drop_first()[k] == s[k + 1]);
        }
        lemma_lead_white_skip(s.drop_first(), i - 1);
    } else {
        assert(s.subrange(0, s.len() as int) =~= s);
    }
}

/// Number of trailing white characters, counted from the end.
proof fn lemma_trail_white_skip(s: Seq<char>, j: int)
    requires
        0 <= j <= s.len(),
        forall|k: int| j <= k < s.len() ==> is_white(#[trigger] s[k]),
    ensures
        trail_white(s) == (s.len() - j) + trail_white(s.subrange(0, j)),
    decreases s.len() - j,
{
    if j < s.len() {
        assert(is_white(s.last()));
        assert(s.drop_last().subrange(0, j) =~= s.subrange(0, j));
        assert forall|k: int| j <= k < s.len() - 1 implies is_white(#[trigger] s.drop_last()[k]) by {
            assert(s.drop_last()[k] == s[k]);
        }
        lemma_trail_white_skip(s.drop_last(), j);
    } else {
        assert(s.subrange(0, j) =~= s);
    }
}

/// Number of leading white characters of a character slice.
pub fn count_lead_white(s: &[char]) -> (n: usize)
    ensures
        n == lead_white(s@),
{
    let mut i: usize = 0;
    while i < s.len() && char_is_white(s[i])
        invariant
            0 <= i <= s.len(),
            forall|k: int| 0 <= k < i ==> is_white(#[trigger] s@[k]),
        decreases s.len() - i,
    {
        i = i + 1;
    }
    proof {
        lemma_lead_white_skip(s@, i as int);
        let rest = s@.subrange(i as int, s@.len() as int);
        if rest.len() > 0 {
            assert(rest[0] == s@[i as int]);
        }
    }
    i
}

/// Number of trailing white characters of a character slice.
pub fn count_trail_white(s: &[char]) -> (n: usize)
    ensures
        n == trail_white(s@),
        n <= s.len(),
{
    let mut j: usize = s.len();
    while j > 0 && char_is_white(s[j - 1])
        invariant
            0 <= j <= s.len(),
            forall|k: int| j <= k < s.len() ==> is_white(#[trigger] s@[k]),
        decreases j,
    {
        j = j - 1;
    }
    proof {
        lemma_trail_white_skip(s@, j as int);
        let rest = s@.subrange(0, j as int);
        if rest.len() > 0 {
            assert(rest.last() == s@[j - 1]);
        }
    }
    s.len() - j
}

/// Lead white of a sequence is at most its length.
pub proof fn lemma_lead_white_le(s: Seq<char>)
    ensures
        lead_white(s) <= s.len(),
    decreases s.len(),
{
    if s.len() > 0 && is_white(s[0]) {
        lemma_lead_white_le(s.drop_first());
    }
}

/// Trail white of a sequence is at most its length.
pub proof fn lemma_trail_white_le(s: Seq<char>)
    ensures
        trail_white(s) <= s.len(),
    decreases s.len(),
{
    if s.len() > 0 && is_white(s.last()) {
        lemma_trail_white_le(s.drop_last());
    }
}

/// The characters of `s` without leading and trailing white space.
pub fn trim_chars(s: &[char]) -> (r: Vec<char>)
    ensures
        r@ == trim_spec(s@),
{
    let a = count_lead_white(s);
    proof {
        lemma_lead_white_le(s@);
    }
    let mut mid: Vec<char> = Vec::new();
    let mut i = a;
    while i < s.len()
        invariant
            a <= i <= s.len(),
            mid@ == s@.subrange(a as int, i as int),
        decreases s.len() - i,
    {
        mid.push(s[i]);
        i = i + 1;
        assert(mid@ == s@.subrange(a as int, i as int));
    }
    let b = count_trail_white(mid.as_slice());
    let mut r: Vec<char> = Vec::new();
    let end = mid.len() - b;
    let mut k: usize = 0;
    while k < end
        invariant
            end == mid.len() - b,
            0 <= k <= end,
            r@ == mid@.subrange(0, k as int),
        decreases end - k,
    {
        r.push(mid[k]);
        k = k + 1;
        assert(r@ == mid@.subrange(0, k as int));
    }
    r
}

/// `str::trim` as a fresh string.
pub fn trim(s: &str) -> (r: String)
    ensures
        r@ == trim_spec(s@),
{
    let v = chars_of(s);
    let t = trim_chars(v.as_slice());
    string_from_chars(t.as_slice())
}

/// Whether `s` is empty after trimming white space.
pub fn is_blank(s: &str) -> (r: bool)
    ensures
        r == (trim_spec(s@).len() == 0),
{
    let t = trim(s);
    t.as_str().unicode_len() == 0
}

/// ASCII lower-casing of a string (`str::to_ascii_lowercase`).
pub fn ascii_lowercase(s: &str) -> (r: String)
    ensures
        r@ == seq_ascii_lower(s@),
{
    let v = chars_of(s);
    let mut r = String::new();
    let mut i: usize = 0;
    while i < v.len()
        invariant
            0 <= i <= v.len(),
            v@ == s@,
            r@ == seq_ascii_lower(s@).subrange(0, i as int),
        decreases v.len() - i,
    {
        let c = char_ascii_lower(v[i]);
        push_char(&mut r, c);
        i = i + 1;
        assert(r@ =~= seq_ascii_lower(s@).subrange(0, i as int));
    }
    assert(r@ =~= seq_ascii_lower(s@));
    r
}

/// Every occurrence of `from` replaced by `to` (`str::replace` with
/// single characters).
pub fn replace_char(s: &str, from: char, to: char) -> (r: String)
    ensures
        r@ == replace_char_spec(s@, from, to),
{
    let v = chars_of(s);
    let mut r = String::new();
    let mut i: usize = 0;
    while i < v.len()
        invariant
            0 <= i <= v.len(),
            v@ == s@,
            r@ == replace_char_spec(s@, from, to).subrange(0, i as int),
        decreases v.len() - i,
    {
        let c = if v[i] == from {
            to
        } else {
            v[i]
        };
        push_char(&mut r, c);
        i = i + 1;
        assert(r@ =~= replace_char_spec(s@, from, to).subrange(0, i as int));
    }
    assert(r@ =~= replace_char_spec(s@, from, to));
    r
}

/// Pieces of `s` between occurrences of `c` (`str::split` with a
/// character pattern).
pub fn split_char(s: &str, c: char) -> (r: Vec<String>)
    ensures
        r@.map_values(|x: String| x@) == split_spec(s@, c),
{
    let v = chars_of(s);
    let mut r: Vec<String> = Vec::new();
    let mut start: usize = 0;
    let mut i: usize = 0;
    proof {
        lemma_next_index_bounds(v@, c, 0);
    }
    while i < v.len()
        invariant
            v@ == s@,
            0 <= start <= i <= v.len(),
            forall|k: int| start <= k < i ==> v@[k] != c,
            r@.map_values(|x: String| x@) + split_from(v@, c, start as int) == split_spec(v@, c),
        decreases v.len() - i,
    {
        if v[i] == c {
            let piece = string_from_range(v.as_slice(), start, i);
            proof {
                lemma_next_index_at(v@, c, start as int, i as int);
                let old_r = r@.map_values(|x: String| x@);
                assert(split_from(v@, c, start as int) == seq![v@.subrange(start as int, i as int)]
                    + split_from(v@, c, i + 1));
                r@.push(piece);
                assert(r@.push(piece).map_values(|x: String| x@) =~= old_r.push(piece@));
                assert(old_r.push(piece@) + split_from(v@, c, i + 1) =~= old_r + (seq![
                    v@.subrange(start as int, i as int),
                ] + split_from(v@, c, i + 1)));
            }
            r.push(piece);
            start = i + 1;
        }
        i = i + 1;
    }
    let last = string_from_range(v.as_slice(), start, v.len());
    proof {
        lemma_next_index_at(v@, c, start as int, v.len() as int);
        assert(split_from(v@, c, start as int) == seq![v@.subrange(start as int, v.len() as int)]);
        let old_r = r@.map_values(|x: String| x@);
        assert(r@.push(last).map_values(|x: String| x@) =~= old_r.push(last@));
        assert(old_r.push(last@) =~= old_r + seq![v@.subrange(start as int, v.len() as int)]);
    }
    r.push(last);
    r
}

/// `next_index_of` from `start` is `i` when no `c` lies between them and
/// `i` is either a `c` or the end.
pub proof fn lemma_next_index_at(s: Seq<char>, c: char, start: int, i: int)
    requires
        0 <= start <= i <= s.len(),
        forall|k: int| start <= k < i ==> s[k] != c,
        i == s.len() || s[i] == c,
    ensures
        next_index_of(s, c, start) == i,
    decreases i - start,
{
    if start < i {
        lemma_next_index_at(s, c, start + 1, i);
    }
}

/// Pieces joined by a separator (`[String]::join`).
pub fn join(parts: &Vec<String>, sep: &str) -> (r: String)
    ensures
        r@ == join_spec(parts@.map_values(|x: String| x@), sep@),
{
    let ghost views = parts@.map_values(|x: String| x@);
    let mut r = String::new();
    let mut i: usize = 0;
    while i < parts.len()
        invariant
            0 <= i <= parts.len(),
            views == parts@.map_values(|x: String| x@),
            r@ == join_spec(views.subrange(0, i as int), sep@),
        decreases parts.len() - i,
    {
        if i > 0 {
            push_str(&mut r, sep);
        }
        push_str(&mut r, parts[i].as_str());
        proof {
            let pre = views.subrange(0, i as int);
            let next = views.subrange(0, i + 1);
            assert(next.drop_last() =~= pre);
            assert(next.last() == parts@[i as int]@);
            if i == 0 {
                assert(pre =~= Seq::<Seq<char>>::empty());
                assert(next.len() == 1);
            }
        }
        i = i + 1;
    }
    assert(views.subrange(0, parts.len() as int) =~= views);
    r
}

/// The lines of a text (`str::lines`).
pub fn lines(s: &str) -> (r: Vec<String>)
    ensures
        r@.map_values(|x: String| x@) == lines_spec(s@),
{
    let pieces = split_char(s, '\n');
    let ghost pv = pieces@.map_values(|x: String| x@);
    proof {
        lemma_split_from_nonempty(s@, '\n', 0);
    }
    let n = pieces.len();
    let keep = if pieces[n - 1].as_str().unicode_len() == 0 {
        n - 1
    } else {
        n
    };
    let ghost kept = if pv.last().len() == 0 {
        pv.drop_last()
    } else {
        pv
    };
    assert(kept.len() == keep);
    let mut r: Vec<String> = Vec::new();
    let mut i: usize = 0;
    while i < keep
        invariant
            keep <= pieces.len(),
            pv == pieces@.map_values(|x: String| x@),
            kept.len() == keep,
            forall|k: int| 0 <= k < keep ==> kept[k] == pv[k],
            0 <= i <= keep,
            r@.map_values(|x: String| x@) == kept.map_values(|l: Seq<char>| strip_cr(l)).subrange(
                0,
                i as int,
            ),
        decreases keep - i,
    {
        let v = chars_of(pieces[i].as_str());
        let line = if v.len() > 0 && v[v.len() - 1] == '\r' {
            string_from_range(v.as_slice(), 0, v.len() - 1)
        } else {
            string_from_chars(v.as_slice())
        };
        proof {
            assert(v@ == pv[i as int]);
            assert(line@ == strip_cr(kept[i as int]));
        }
        let ghost old_r = r@;
        r.push(line);
        proof {
            let target = kept.map_values(|l: Seq<char>| strip_cr(l));
            assert(r@.map_values(|x: String| x@) =~= old_r.map_values(|x: String| x@).push(line@));
            assert(target.subrange(0, i + 1) =~= target.subrange(0, i as int).push(target[i as int]));
        }
        i = i + 1;
    }
    assert(kept.map_values(|l: Seq<char>| strip_cr(l)).subrange(0, keep as int) =~= kept.map_values(
        |l: Seq<char>| strip_cr(l),
    ));
    r
}

// ---------------------------------------------------------------- split on text

/// Position of the first occurrence of `p` in `s` at or after `from`, or
/// the length of `s`.
pub open spec fn next_occurrence(s: Seq<char>, p: Seq<char>, from: int) -> int
    decreases s.len() - from,
{
    if from >= s.len() {
        s.len() as int
    } else if occurs_at(s, p, from) {
        from
    } else {
        next_occurrence(s, p, from + 1)
    }
}

/// The pieces of `s` between the occurrences of a non-empty `p`, from
/// position `from` (`str::split` with a text pattern).
pub open spec fn split_on_from(s: Seq<char>, p: Seq<char>, from: int) -> Seq<Seq<char>>
    decreases s.len() - from,
{
    let end = next_occurrence(s, p, from);
    if from < 0 || from > s.len() || p.len() == 0 {
        seq![]
    } else if end >= s.len() {
        seq![s.subrange(from, s.len() as int)]
    } else {
        proof {
            lemma_next_occurrence_bounds(s, p, from);
        }
        seq![s.subrange(from, end)] + split_on_from(s, p, end + p.len())
    }
}

/// `str::split(p)` for a non-empty text `p`.
pub open spec fn split_on_spec(s: Seq<char>, p: Seq<char>) -> Seq<Seq<char>> {
    split_on_from(s, p, 0)
}

pub proof fn lemma_next_occurrence_bounds(s: Seq<char>, p: Seq<char>, from: int)
    requires
        0 <= from <= s.len(),
    ensures
        from <= next_occurrence(s, p, from) <= s.len(),
        next_occurrence(s, p, from) < s.len() ==> occurs_at(s, p, next_occurrence(s, p, from)),
        forall|k: int| from <= k < next_occurrence(s, p, from) ==> !#[trigger] occurs_at(s, p, k),
    decreases s.len() - from,
{
    if from < s.len() && !occurs_at(s, p, from) {
        lemma_next_occurrence_bounds(s, p, from + 1);
    }
}

proof fn lemma_next_occurrence_at(s: Seq<char>, p: Seq<char>, start: int, i: int)
    requires
        0 <= start <= i <= s.len(),
        forall|k: int| start <= k < i ==> !#[trigger] occurs_at(s, p, k),
        i == s.len() || occurs_at(s, p, i),
    ensures
        next_occurrence(s, p, start) == i,
    decreases i - start,
{
    if start < i {
        lemma_next_occurrence_at(s, p, start + 1, i);
    }
}

/// Pieces of `s` between occurrences of the non-empty text `p`.
pub fn split_on(s: &str, p: &str) -> (r: Vec<String>)
    requires
        p@.len() > 0,
    ensures
        r@.map_values(|x: String| x@) == split_on_spec(s@, p@),
{
    let v = chars_of(s);
    let pv = chars_of(p);
    let mut r: Vec<String> = Vec::new();
    let mut start: usize = 0;
    let mut i: usize = 0;
    while i < v.len()
        invariant
            v@ == s@,
            pv@ == p@,
            pv@.len() > 0,
            0 <= start <= i <= v.len(),
            forall|k: int| start <= k < i ==> !#[trigger] occurs_at(v@, pv@, k),
            r@.map_values(|x: String| x@) + split_on_from(v@, pv@, start as int) == split_on_spec(v@, pv@),
        decreases v.len() - i,
    {
        if chars_occur_at(v.as_slice(), pv.as_slice(), i) {
            let piece = string_from_range(v.as_slice(), start, i);
            proof {
                lemma_next_occurrence_at(v@, pv@, start as int, i as int);
                let old_r = r@.map_values(|x: String| x@);
                assert(split_on_from(v@, pv@, start as int) == seq![v@.subrange(start as int, i as int)]
                    + split_on_from(v@, pv@, i + pv@.len()));
                assert(r@.push(piece).map_values(|x: String| x@) =~= old_r.push(piece@));
                assert(old_r.push(piece@) + split_on_from(v@, pv@, i + pv@.len()) =~= old_r + (seq![
                    v@.subrange(start as int, i as int),
                ] + split_on_from(v@, pv@, i + pv@.len())));
            }
            r.push(piece);
            start = i + pv.len();
            i = start;
        } else {
            i = i + 1;
        }
    }
    let last = string_from_range(v.as_slice(), start, v.len());
    proof {
        lemma_next_occurrence_at(v@, pv@, start as int, v.len() as int);
        assert(split_on_from(v@, pv@, start as int) == seq![v@.subrange(start as int, v.len() as int)]);
        let old_r = r@.map_values(|x: String| x@);
        assert(r@.push(last).map_values(|x: String| x@) =~= old_r.push(last@));
        assert(old_r.push(last@) =~= old_r + seq![v@.subrange(start as int, v.len() as int)]);
    }
    r.push(last);
    r
}

} // verus!
