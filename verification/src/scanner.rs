//! Byte scanner: literal token search and decimal numbers in raw PDF bytes.
//!
//! A PDF is mostly ASCII with binary streams in between, so everything here
//! works on bytes and never decodes text.

use vstd::prelude::*;
use vstd::slice::slice_subrange;
use vstd::string::*;

verus! {

/// Width of the window searched backwards for an object header.
pub const SCAN_WINDOW: usize = 2000;

/// The line feed.
pub const NEWLINE: u8 = 10;

/// The carriage return.
pub const CARRIAGE_RETURN: u8 = 13;

/// The digit `0`.
pub const DIGIT_ZERO: u8 = 48;

/// The `+` that may stand in front of a number.
pub const PLUS_SIGN: u8 = 43;

/// The bytes of a text.
pub open spec fn text(s: &str) -> Seq<u8> {
    s.spec_bytes()
}

/// `needle` stands in `hay` at offset `i`.
pub open spec fn occurs_at(hay: Seq<u8>, needle: Seq<u8>, i: int) -> bool {
    0 <= i && i + needle.len() <= hay.len() && hay.subrange(i, i + needle.len()) == needle
}

/// `needle` stands somewhere in `hay`.
pub open spec fn occurs(hay: Seq<u8>, needle: Seq<u8>) -> bool {
    exists|i: int| occurs_at(hay, needle, i)
}

/// Offset of the first occurrence of `needle` in `hay` at or after `from`.
pub open spec fn find_from(hay: Seq<u8>, needle: Seq<u8>, from: int) -> Option<int>
    decreases hay.len() + 1 - from,
{
    if from < 0 || from + needle.len() > hay.len() {
        None
    } else if occurs_at(hay, needle, from) {
        Some(from)
    } else {
        find_from(hay, needle, from + 1)
    }
}

/// Offset of the first occurrence of `needle` in `hay`.
pub open spec fn first_occurrence(hay: Seq<u8>, needle: Seq<u8>) -> Option<int> {
    find_from(hay, needle, 0)
}

/// Offset of the last occurrence of `needle` in `hay` at or before `upto`.
pub open spec fn rfind_upto(hay: Seq<u8>, needle: Seq<u8>, upto: int) -> Option<int>
    decreases upto + 1,
{
    if upto < 0 {
        None
    } else if occurs_at(hay, needle, upto) {
        Some(upto)
    } else {
        rfind_upto(hay, needle, upto - 1)
    }
}

/// Offset of the last occurrence of `needle` in `hay`.
pub open spec fn last_occurrence(hay: Seq<u8>, needle: Seq<u8>) -> Option<int> {
    rfind_upto(hay, needle, hay.len() - needle.len())
}

/// What `find_from` returns is the least offset at or after `from` where the
/// needle stands, and it returns nothing only if there is none.
pub proof fn lemma_find_from(hay: Seq<u8>, needle: Seq<u8>, from: int)
    requires
        0 <= from,
    ensures
        match find_from(hay, needle, from) {
            Some(i) => from <= i && occurs_at(hay, needle, i) && forall|j: int|
                from <= j < i ==> !occurs_at(hay, needle, j),
            None => forall|j: int| from <= j ==> !occurs_at(hay, needle, j),
        },
    decreases hay.len() + 1 - from,
{
    if from + needle.len() > hay.len() {
    } else if occurs_at(hay, needle, from) {
    } else {
        lemma_find_from(hay, needle, from + 1);
    }
}

/// The least offset at or after `from` where the needle stands is what
/// `find_from` returns.
pub proof fn lemma_find_from_is(hay: Seq<u8>, needle: Seq<u8>, from: int, i: int)
    requires
        0 <= from <= i,
        occurs_at(hay, needle, i),
        forall|j: int| from <= j < i ==> !occurs_at(hay, needle, j),
    ensures
        find_from(hay, needle, from) == Some(i),
{
    lemma_find_from(hay, needle, from);
}

/// What `rfind_upto` returns is the greatest offset up to `upto` where the
/// needle stands, and it returns nothing only if there is none.
pub proof fn lemma_rfind_upto(hay: Seq<u8>, needle: Seq<u8>, upto: int)
    ensures
        match rfind_upto(hay, needle, upto) {
            Some(i) => 0 <= i <= upto && occurs_at(hay, needle, i) && forall|j: int|
                i < j <= upto ==> !occurs_at(hay, needle, j),
            None => forall|j: int| j <= upto ==> !occurs_at(hay, needle, j),
        },
    decreases upto + 1,
{
    if upto < 0 {
    } else if occurs_at(hay, needle, upto) {
    } else {
        lemma_rfind_upto(hay, needle, upto - 1);
    }
}

/// The last occurrence is an occurrence with none after it.
pub proof fn lemma_last_occurrence(hay: Seq<u8>, needle: Seq<u8>)
    ensures
        match last_occurrence(hay, needle) {
            Some(i) => occurs_at(hay, needle, i) && forall|j: int|
                i < j ==> !occurs_at(hay, needle, j),
            None => forall|j: int| !occurs_at(hay, needle, j),
        },
{
    lemma_rfind_upto(hay, needle, hay.len() - needle.len());
}

/// An occurrence with none after it is the last occurrence.
pub proof fn lemma_last_occurrence_is(hay: Seq<u8>, needle: Seq<u8>, i: int)
    requires
        occurs_at(hay, needle, i),
        forall|j: int| i < j ==> !occurs_at(hay, needle, j),
    ensures
        last_occurrence(hay, needle) == Some(i),
{
    lemma_rfind_upto(hay, needle, hay.len() - needle.len());
}

/// Whether `needle` stands in `hay` at offset `i`.
pub fn matches_at(hay: &[u8], needle: &[u8], i: usize) -> (b: bool)
    ensures
        b == occurs_at(hay@, needle@, i as int),
{
    if needle.len() > hay.len() || i > hay.len() - needle.len() {
        return false;
    }
    let mut k: usize = 0;
    while k < needle.len()
        invariant
            k <= needle.len(),
            i + needle.len() <= hay.len(),
            forall|j: int| 0 <= j < k ==> hay@[i + j] == needle@[j],
        decreases needle.len() - k,
    {
        if hay[i + k] != needle[k] {
            assert(hay@.subrange(i as int, i + needle.len())[k as int] != needle@[k as int]);
            return false;
        }
        k = k + 1;
    }
    assert(hay@.subrange(i as int, i + needle.len()) =~= needle@);
    true
}

/// First occurrence of `needle` in `hay` at or after `from`.
pub fn find_token_from(hay: &[u8], needle: &[u8], from: usize) -> (r: Option<usize>)
    ensures
        match r {
            Some(i) => find_from(hay@, needle@, from as int) == Some(i as int),
            None => find_from(hay@, needle@, from as int) is None,
        },
{
    if needle.len() > hay.len() || from > hay.len() - needle.len() {
        return None;
    }
    let last: usize = hay.len() - needle.len();
    let mut i: usize = from;
    loop
        invariant
            from <= i <= last,
            last == hay.len() - needle.len(),
            find_from(hay@, needle@, from as int) == find_from(hay@, needle@, i as int),
        decreases last - i,
    {
        if matches_at(hay, needle, i) {
            return Some(i);
        }
        if i == last {
            assert(find_from(hay@, needle@, i + 1) is None);
            return None;
        }
        i = i + 1;
    }
}

/// First occurrence of `needle` in `hay`.
pub fn find_token(hay: &[u8], needle: &[u8]) -> (r: Option<usize>)
    ensures
        match r {
            Some(i) => first_occurrence(hay@, needle@) == Some(i as int),
            None => first_occurrence(hay@, needle@) is None,
        },
{
    find_token_from(hay, needle, 0)
}

/// Last occurrence of `needle` in `hay`.
pub fn rfind_token(hay: &[u8], needle: &[u8]) -> (r: Option<usize>)
    ensures
        match r {
            Some(i) => last_occurrence(hay@, needle@) == Some(i as int),
            None => last_occurrence(hay@, needle@) is None,
        },
{
    if needle.len() > hay.len() {
        return None;
    }
    let mut i: usize = hay.len() - needle.len();
    loop
        invariant
            i <= hay.len() - needle.len(),
            last_occurrence(hay@, needle@) == rfind_upto(hay@, needle@, i as int),
        decreases i,
    {
        if matches_at(hay, needle, i) {
            return Some(i);
        }
        if i == 0 {
            assert(rfind_upto(hay@, needle@, -1) is None);
            return None;
        }
        i = i - 1;
    }
}

/// Whether `needle` stands somewhere in `hay`.
pub fn contains_token(hay: &[u8], needle: &[u8]) -> (b: bool)
    ensures
        b == occurs(hay@, needle@),
        b == first_occurrence(hay@, needle@).is_some(),
{
    proof {
        lemma_find_from(hay@, needle@, 0);
    }
    find_token(hay, needle).is_some()
}

/// An ASCII decimal digit.
pub open spec fn is_digit(b: u8) -> bool {
    48 <= b <= 57
}

/// ASCII white space: tab, line feed, vertical tab, form feed, carriage
/// return and space.
pub open spec fn is_space(b: u8) -> bool {
    b == 32 || 9 <= b <= 13
}

/// Every byte of `s` is a decimal digit.
pub open spec fn all_digits(s: Seq<u8>) -> bool {
    forall|i: int| 0 <= i < s.len() ==> is_digit(#[trigger] s[i])
}

/// The number that a run of decimal digits writes.
pub open spec fn digits_value(s: Seq<u8>) -> nat
    decreases s.len(),
{
    if s.len() == 0 {
        0
    } else {
        digits_value(s.drop_last()) * 10 + (s.last() - 48) as nat
    }
}

/// A token without the `+` that may stand in front of a number.
pub open spec fn unsigned_part(tok: Seq<u8>) -> Seq<u8> {
    if tok.len() > 0 && tok[0] == 43 {
        tok.subrange(1, tok.len() as int)
    } else {
        tok
    }
}

/// An unsigned decimal number: an optional `+`, then one digit or more,
/// writing a value of at most `max`.
pub open spec fn parse_number(tok: Seq<u8>, max: nat) -> Option<nat> {
    let body = unsigned_part(tok);
    if body.len() > 0 && all_digits(body) && digits_value(body) <= max {
        Some(digits_value(body))
    } else {
        None
    }
}

/// Whether `b` is an ASCII decimal digit.
pub fn is_digit_byte(b: u8) -> (r: bool)
    ensures
        r == is_digit(b),
{
    DIGIT_ZERO <= b && b <= 57
}

/// Whether `b` is ASCII white space.
pub fn is_space_byte(b: u8) -> (r: bool)
    ensures
        r == is_space(b),
{
    b == 32 || (9 <= b && b <= 13)
}

/// A run of digits writes no less than a shorter run that it starts with.
proof fn lemma_digits_value_monotone(s: Seq<u8>, k: int)
    requires
        0 <= k <= s.len(),
        all_digits(s),
    ensures
        digits_value(s.subrange(0, k)) <= digits_value(s),
    decreases s.len() - k,
{
    if k == s.len() {
        assert(s.subrange(0, k) =~= s);
    } else {
        lemma_digits_value_monotone(s, k + 1);
        assert(s.subrange(0, k + 1).drop_last() =~= s.subrange(0, k));
    }
}

/// Reads `tok` as an unsigned decimal number of at most `max`.
pub fn parse_unsigned(tok: &[u8], max: u64) -> (r: Option<u64>)
    ensures
        match r {
            Some(n) => parse_number(tok@, max as nat) == Some(n as nat) && n <= max,
            None => parse_number(tok@, max as nat) is None,
        },
{
    let start: usize = if tok.len() > 0 && tok[0] == PLUS_SIGN {
        1
    } else {
        0
    };
    if start == tok.len() {
        return None;
    }
    let ghost body = tok@.subrange(start as int, tok@.len() as int);
    assert(body =~= unsigned_part(tok@));
    let mut acc: u64 = 0;
    let mut i: usize = start;
    while i < tok.len()
        invariant
            start <= i <= tok.len(),
            body == tok@.subrange(start as int, tok@.len() as int),
            body == unsigned_part(tok@),
            all_digits(body.subrange(0, i - start)),
            acc == digits_value(body.subrange(0, i - start)),
            acc <= max,
        decreases tok.len() - i,
    {
        let b = tok[i];
        if !is_digit_byte(b) {
            assert(!is_digit(body[i - start]));
            return None;
        }
        let d: u64 = (b - DIGIT_ZERO) as u64;
        proof {
            assert(body.subrange(0, i + 1 - start).drop_last() =~= body.subrange(0, i - start));
            assert(body.subrange(0, i + 1 - start).last() == b);
            assert forall|j: int| 0 <= j < i + 1 - start implies is_digit(
                #[trigger] body.subrange(0, i + 1 - start)[j],
            ) by {
                if j < i - start {
                    assert(body.subrange(0, i - start)[j] == body[j]);
                }
            }
        }
        if d > max || acc > (max - d) / 10 {
            proof {
                // the value read so far already exceeds `max`
                assert(acc * 10 + d > max);
                if all_digits(body) {
                    lemma_digits_value_monotone(body, i + 1 - start);
                }
            }
            return None;
        }
        acc = acc * 10 + d;
        i = i + 1;
    }
    assert(body.subrange(0, i - start) =~= body);
    Some(acc)
}

/// End of the run of bytes that are no white space and start at `i`.
pub open spec fn token_end(s: Seq<u8>, i: int) -> int
    decreases s.len() - i,
{
    if i < 0 || i >= s.len() || is_space(s[i]) {
        i
    } else {
        token_end(s, i + 1)
    }
}

/// A token, that is a longest run of bytes that are no white space, starts
/// at `i`.
pub open spec fn token_starts_at(s: Seq<u8>, i: int) -> bool {
    0 <= i < s.len() && !is_space(s[i]) && (i == 0 || is_space(s[i - 1]))
}

/// The token that starts at `i`.
pub open spec fn token_at(s: Seq<u8>, i: int) -> Seq<u8> {
    s.subrange(i, token_end(s, i))
}

/// Offset of the first byte at or after `i` that is no white space, or the
/// length of `s`.
pub open spec fn skip_spaces(s: Seq<u8>, i: int) -> int
    decreases s.len() - i,
{
    if 0 <= i < s.len() && is_space(s[i]) {
        skip_spaces(s, i + 1)
    } else {
        i
    }
}

/// Length of `s` without the white space at its end.
pub open spec fn trimmed_len(s: Seq<u8>) -> int
    decreases s.len(),
{
    if s.len() > 0 && is_space(s.last()) {
        trimmed_len(s.drop_last())
    } else {
        s.len() as int
    }
}

/// `s` without the white space at its two ends.
pub open spec fn trimmed(s: Seq<u8>) -> Seq<u8> {
    let end = trimmed_len(s);
    s.subrange(skip_spaces(s.subrange(0, end), 0), end)
}

/// The length without the white space at the end is no more than the
/// length.
pub proof fn lemma_trimmed_len(s: Seq<u8>)
    ensures
        0 <= trimmed_len(s) <= s.len(),
    decreases s.len(),
{
    if s.len() > 0 && is_space(s.last()) {
        lemma_trimmed_len(s.drop_last());
    }
}

/// Skipping white space ends at or behind its start and inside the text.
pub proof fn lemma_skip_spaces(s: Seq<u8>, i: int)
    requires
        0 <= i <= s.len(),
    ensures
        i <= skip_spaces(s, i) <= s.len(),
    decreases s.len() - i,
{
    if i < s.len() && is_space(s[i]) {
        lemma_skip_spaces(s, i + 1);
    }
}

/// A text without the white space at its ends holds no byte that the text
/// does not hold.
pub proof fn lemma_trimmed_bytes(s: Seq<u8>)
    ensures
        forall|k: int|
            0 <= k < trimmed(s).len() ==> exists|j: int|
                0 <= j < s.len() && s[j] == #[trigger] trimmed(s)[k],
{
    let end = trimmed_len(s);
    lemma_trimmed_len(s);
    let start = skip_spaces(s.subrange(0, end), 0);
    lemma_skip_spaces(s.subrange(0, end), 0);
    assert forall|k: int| 0 <= k < trimmed(s).len() implies exists|j: int|
        0 <= j < s.len() && s[j] == #[trigger] trimmed(s)[k] by {
        assert(s[start + k] == trimmed(s)[k]);
    }
}

/// A byte that ends a line: a line feed or a carriage return.
pub open spec fn is_line_end(b: u8) -> bool {
    b == 10 || b == 13
}

/// Offset of the first byte at or after `i` that ends a line, or the
/// length of `s`.
pub open spec fn line_end(s: Seq<u8>, i: int) -> int
    decreases s.len() - i,
{
    if i < 0 || i >= s.len() || is_line_end(s[i]) {
        i
    } else {
        line_end(s, i + 1)
    }
}

/// The end of a line lies at or behind its start and inside the text; no
/// byte that ends a line stands in front of it, and one stands at it
/// unless the text ends there.
pub proof fn lemma_line_end(s: Seq<u8>, i: int)
    requires
        0 <= i <= s.len(),
    ensures
        i <= line_end(s, i) <= s.len(),
        forall|j: int| i <= j < line_end(s, i) ==> !is_line_end(#[trigger] s[j]),
        line_end(s, i) < s.len() ==> is_line_end(s[line_end(s, i)]),
    decreases s.len() - i,
{
    if i < s.len() && !is_line_end(s[i]) {
        lemma_line_end(s, i + 1);
    }
}

/// Offset of the first byte at or after `i` that ends a line, or the
/// length of `s`.
pub fn scan_line(s: &[u8], i: usize) -> (e: usize)
    requires
        i <= s.len(),
    ensures
        e == line_end(s@, i as int),
        i <= e <= s.len(),
{
    let mut e: usize = i;
    while e < s.len() && s[e] != NEWLINE && s[e] != CARRIAGE_RETURN
        invariant
            i <= e <= s.len(),
            line_end(s@, i as int) == line_end(s@, e as int),
        decreases s.len() - e,
    {
        e = e + 1;
    }
    e
}

/// `s` without the white space at its two ends.
pub fn trim(s: &[u8]) -> (t: &[u8])
    ensures
        t@ == trimmed(s@),
{
    let mut end: usize = s.len();
    assert(s@.subrange(0, s.len() as int) =~= s@);
    while end > 0 && is_space_byte(s[end - 1])
        invariant
            end <= s.len(),
            trimmed_len(s@) == trimmed_len(s@.subrange(0, end as int)),
        decreases end,
    {
        assert(s@.subrange(0, end as int).drop_last() =~= s@.subrange(0, end - 1));
        end = end - 1;
    }
    let head = slice_subrange(s, 0, end);
    let mut start: usize = 0;
    while start < end && is_space_byte(head[start])
        invariant
            start <= end,
            end == head@.len(),
            skip_spaces(head@, 0) == skip_spaces(head@, start as int),
        decreases end - start,
    {
        start = start + 1;
    }
    slice_subrange(s, start, end)
}

/// The number written by the token that starts at `i`, if one starts there
/// and writes a number.
pub open spec fn number_at(s: Seq<u8>, i: int, max: nat) -> Option<nat> {
    if token_starts_at(s, i) {
        parse_number(token_at(s, i), max)
    } else {
        None
    }
}

/// The number written by the first token at or after `i` that writes one.
pub open spec fn first_number_from(s: Seq<u8>, i: int, max: nat) -> Option<nat>
    decreases s.len() - i,
{
    if i < 0 || i >= s.len() {
        None
    } else if number_at(s, i, max) is Some {
        number_at(s, i, max)
    } else {
        first_number_from(s, i + 1, max)
    }
}

/// The number written by the first white-space separated token of `s` that
/// writes one.
pub open spec fn first_number(s: Seq<u8>, max: nat) -> Option<nat> {
    first_number_from(s, 0, max)
}

/// The end of a token lies at or behind its start and inside the text; no
/// white space stands in front of it, and white space stands at it unless
/// the text ends there.
pub proof fn lemma_token_end(s: Seq<u8>, i: int)
    requires
        0 <= i <= s.len(),
    ensures
        i <= token_end(s, i) <= s.len(),
        forall|j: int| i <= j < token_end(s, i) ==> !is_space(#[trigger] s[j]),
        token_end(s, i) < s.len() ==> is_space(s[token_end(s, i)]),
    decreases s.len() - i,
{
    if i < s.len() && !is_space(s[i]) {
        lemma_token_end(s, i + 1);
    }
}

/// End of the token that starts at `i`.
pub fn scan_token(s: &[u8], i: usize) -> (e: usize)
    requires
        i <= s.len(),
    ensures
        e == token_end(s@, i as int),
        i <= e <= s.len(),
{
    let mut e: usize = i;
    while e < s.len() && !is_space_byte(s[e])
        invariant
            i <= e <= s.len(),
            token_end(s@, i as int) == token_end(s@, e as int),
        decreases s.len() - e,
    {
        e = e + 1;
    }
    e
}

/// The number written by the first white-space separated token of `s` that
/// writes one of at most `max`.
pub fn read_first_number(s: &[u8], max: u64) -> (r: Option<u64>)
    ensures
        match r {
            Some(n) => first_number(s@, max as nat) == Some(n as nat) && n <= max,
            None => first_number(s@, max as nat) is None,
        },
{
    let mut i: usize = 0;
    while i < s.len()
        invariant
            i <= s.len(),
            i == 0 || i == s.len() || is_space(s@[i - 1]) || !token_starts_at(s@, i as int),
            first_number(s@, max as nat) == first_number_from(s@, i as int, max as nat),
            i < s.len() && !is_space(s@[i as int]) ==> token_starts_at(s@, i as int),
        decreases s.len() - i,
    {
        if is_space_byte(s[i]) {
            i = i + 1;
        } else {
            let e = scan_token(s, i);
            proof {
                lemma_token_end(s@, i as int);
            }
            let tok = slice_subrange(s, i, e);
            match parse_unsigned(tok, max) {
                Some(n) => {
                    return Some(n);
                },
                None => {
                    proof {
                        lemma_skip_token(s@, i as int, e as int, max as nat);
                    }
                    i = e;
                },
            }
        }
    }
    None
}

/// Inside a token that writes no number, no number is found.
proof fn lemma_skip_token(s: Seq<u8>, i: int, e: int, max: nat)
    requires
        0 <= i < e <= s.len(),
        number_at(s, i, max) is None,
        forall|j: int| i <= j < e ==> !is_space(#[trigger] s[j]),
    ensures
        first_number_from(s, i, max) == first_number_from(s, e, max),
    decreases e - i,
{
    if i + 1 < e {
        assert(!is_space(s[i]));
        assert(!token_starts_at(s, i + 1));
        lemma_skip_token(s, i + 1, e, max);
    }
}

/// Start of the run of digits that ends just before `p`.
pub open spec fn digits_start(s: Seq<u8>, p: int) -> int
    decreases p,
{
    if 0 < p <= s.len() && is_digit(s[p - 1]) {
        digits_start(s, p - 1)
    } else {
        p
    }
}

/// The object number of the definition that `cursor` stands in: the digits
/// in front of the last ` 0 obj` that lies wholly inside the `SCAN_WINDOW`
/// bytes before `cursor`.
pub open spec fn object_number_before(hay: Seq<u8>, cursor: int) -> Option<nat> {
    let start = if cursor > SCAN_WINDOW {
        cursor - SCAN_WINDOW
    } else {
        0
    };
    match last_occurrence(hay.subrange(start, cursor), text(" 0 obj")) {
        None => None,
        Some(rel) => {
            let header = start + rel;
            let first = digits_start(hay, header);
            if first < header && digits_value(hay.subrange(first, header)) <= usize::MAX {
                Some(digits_value(hay.subrange(first, header)))
            } else {
                None
            }
        },
    }
}

/// The run of digits in front of an offset starts at or in front of it and
/// holds digits only.
proof fn lemma_digits_start(s: Seq<u8>, p: int)
    requires
        0 <= p <= s.len(),
    ensures
        0 <= digits_start(s, p) <= p,
        all_digits(s.subrange(digits_start(s, p), p)),
    decreases p,
{
    if 0 < p && is_digit(s[p - 1]) {
        lemma_digits_start(s, p - 1);
        let d = digits_start(s, p);
        assert forall|j: int| 0 <= j < p - d implies is_digit(#[trigger] s.subrange(d, p)[j]) by {
            if j < p - 1 - d {
                assert(s.subrange(d, p - 1)[j] == s[d + j]);
            }
        }
    }
}

/// Recovers the object number of the definition around `cursor`.
pub fn parse_object_number_before(hay: &[u8], cursor: usize) -> (r: Option<usize>)
    requires
        cursor <= hay.len(),
    ensures
        match r {
            Some(n) => object_number_before(hay@, cursor as int) == Some(n as nat),
            None => object_number_before(hay@, cursor as int) is None,
        },
{
    let start: usize = if cursor > SCAN_WINDOW {
        cursor - SCAN_WINDOW
    } else {
        0
    };
    let window = slice_subrange(hay, start, cursor);
    match rfind_token(window, " 0 obj".as_bytes()) {
        None => None,
        Some(rel) => {
            proof {
                lemma_last_occurrence(window@, text(" 0 obj"));
            }
            let header: usize = start + rel;
            let mut first: usize = header;
            while first > 0 && is_digit_byte(hay[first - 1])
                invariant
                    first <= header <= hay.len(),
                    digits_start(hay@, header as int) == digits_start(hay@, first as int),
                decreases first,
            {
                first = first - 1;
            }
            proof {
                lemma_digits_start(hay@, header as int);
            }
            let digits = slice_subrange(hay, first, header);
            match parse_unsigned(digits, usize::MAX as u64) {
                Some(n) => Some(n as usize),
                None => None,
            }
        },
    }
}

} // verus!
