//! Structure probe: the few coordinates of an existing PDF that an
//! incremental update needs.
//!
//! Nothing here builds the object graph. The catalog is found through the
//! last trailer, or else by its `/Type` entry; the page tree root through
//! the catalog; the first page by its `/Type` entry; object numbers by the
//! header in front of a match.

use crate::bytes::append;
use crate::decimal::{decimal, lemma_decimal, push_decimal};
use crate::error::{PdfSignError, Result};
use crate::scanner::{
    all_digits, contains_token, digits_start, digits_value, find_from, find_token, find_token_from,
    first_number, first_occurrence, is_digit, is_digit_byte, is_line_end, is_space, is_space_byte,
    last_occurrence, lemma_find_from, lemma_find_from_is, lemma_last_occurrence, lemma_line_end,
    lemma_trimmed_bytes, line_end, matches_at, object_number_before, occurs, occurs_at,
    parse_number, parse_object_number_before, parse_unsigned, read_first_number, rfind_token,
    scan_line, scan_token, skip_spaces, text, token_at, trim, trimmed, CARRIAGE_RETURN, NEWLINE,
};
use vstd::prelude::*;
use vstd::slice::slice_subrange;
use vstd::string::*;

verus! {

/// `s` without the line feeds and carriage returns at its end: the
/// longest start of `s` that is empty or ends with another byte.
pub open spec fn without_trailing_newlines(s: Seq<u8>) -> Seq<u8>
    decreases s.len(),
{
    if s.len() > 0 && is_line_end(s.last()) {
        without_trailing_newlines(s.drop_last())
    } else {
        s
    }
}

/// What is left of a text without the line ends at its end is a start of
/// the text; it is empty or ends with a byte that ends no line; and every
/// byte behind it ends a line.
pub proof fn lemma_without_trailing_newlines(s: Seq<u8>)
    ensures
        ({
            let kept = without_trailing_newlines(s);
            &&& kept.len() <= s.len()
            &&& kept == s.subrange(0, kept.len() as int)
            &&& kept.len() == 0 || !is_line_end(kept.last())
            &&& forall|i: int| kept.len() <= i < s.len() ==> is_line_end(#[trigger] s[i])
        }),
    decreases s.len(),
{
    if s.len() > 0 && is_line_end(s.last()) {
        lemma_without_trailing_newlines(s.drop_last());
        let kept = without_trailing_newlines(s);
        assert(kept =~= s.subrange(0, kept.len() as int));
        assert forall|i: int| kept.len() <= i < s.len() implies is_line_end(#[trigger] s[i]) by {
            if i < s.len() - 1 {
                assert(s.drop_last()[i] == s[i]);
            }
        }
    } else {
        assert(s =~= s.subrange(0, s.len() as int));
    }
}

/// Drops the line feeds and carriage returns at the end of a document:
/// what is left is the longest start of the document that is empty or
/// ends with a byte that ends no line.
pub fn remove_trailing_newline(pdf: Vec<u8>) -> (stripped: Vec<u8>)
    ensures
        stripped@ == without_trailing_newlines(pdf@),
        stripped@.len() <= pdf@.len(),
        stripped@ == pdf@.subrange(0, stripped@.len() as int),
        stripped@.len() == 0 || !is_line_end(stripped@.last()),
        forall|i: int| stripped@.len() <= i < pdf@.len() ==> is_line_end(#[trigger] pdf@[i]),
{
    proof {
        lemma_without_trailing_newlines(pdf@);
    }
    let ghost whole = pdf@;
    let mut kept = pdf;
    while kept.len() > 0 && (kept[kept.len() - 1] == NEWLINE || kept[kept.len() - 1]
        == CARRIAGE_RETURN)
        invariant
            without_trailing_newlines(kept@) == without_trailing_newlines(whole),
        decreases kept.len(),
    {
        assert(kept@.subrange(0, kept@.len() - 1) =~= kept@.drop_last());
        kept.pop();
    }
    kept
}

/// The keyword of an object header, behind the number of the object: a
/// space, the generation 0 and `obj`.
pub open spec fn header_keyword() -> Seq<u8> {
    text(" 0 obj")
}

/// The number of the object defined by the header whose keyword stands at
/// `j`: the number written by the digits in front of the keyword, all of
/// them. None where no keyword stands at `j` or no digit in front of it.
pub open spec fn defined_at(s: Seq<u8>, j: int) -> Option<nat> {
    if occurs_at(s, header_keyword(), j) && digits_start(s, j) < j {
        Some(digits_value(s.subrange(digits_start(s, j), j)))
    } else {
        None
    }
}

/// `s` defines object `n`: a header somewhere in it writes that number.
pub open spec fn defines(s: Seq<u8>, n: nat) -> bool {
    exists|j: int| defined_at(s, j) == Some(n)
}

/// The greatest number of an object defined by a header whose keyword
/// stands in front of `k`; 0 if there is none.
pub open spec fn highest_defined_upto(s: Seq<u8>, k: int) -> nat
    decreases k,
{
    if k <= 0 {
        0
    } else {
        let rest = highest_defined_upto(s, k - 1);
        match defined_at(s, k - 1) {
            Some(n) => if n > rest {
                n
            } else {
                rest
            },
            None => rest,
        }
    }
}

/// The greatest number of an object that `s` defines; 0 if it defines
/// none.
pub open spec fn highest_object_number(s: Seq<u8>) -> nat {
    highest_defined_upto(s, s.len() as int)
}

/// The run of digits in front of `j` starts at `i` where digits stand from
/// `i` up to `j` and none in front of `i`.
pub proof fn lemma_digits_start_is(s: Seq<u8>, i: int, j: int)
    requires
        0 <= i <= j <= s.len(),
        forall|k: int| i <= k < j ==> is_digit(#[trigger] s[k]),
        i == 0 || !is_digit(s[i - 1]),
    ensures
        digits_start(s, j) == i,
    decreases j - i,
{
    if i < j {
        lemma_digits_start_is(s, i, j - 1);
    }
}

/// Headers further on only raise the greatest number.
proof fn lemma_highest_defined_grows(s: Seq<u8>, a: int, b: int)
    requires
        a <= b,
    ensures
        highest_defined_upto(s, a) <= highest_defined_upto(s, b),
    decreases b - a,
{
    if a < b {
        lemma_highest_defined_grows(s, a, b - 1);
    }
}

/// In front of `k` no header defines more than the greatest number found
/// there, and unless that is 0 some header defines it.
proof fn lemma_highest_defined_upto(s: Seq<u8>, k: int)
    ensures
        forall|j: int|
            j < k && (#[trigger] defined_at(s, j)) is Some ==> defined_at(s, j)->0
                <= highest_defined_upto(s, k),
        highest_defined_upto(s, k) == 0 || exists|j: int|
            j < k && #[trigger] defined_at(s, j) == Some(highest_defined_upto(s, k)),
    decreases k,
{
    if k > 0 {
        lemma_highest_defined_upto(s, k - 1);
        let rest = highest_defined_upto(s, k - 1);
        let here = highest_defined_upto(s, k);
        if here != 0 {
            if here == rest {
                let j = choose|j: int| j < k - 1 && #[trigger] defined_at(s, j) == Some(rest);
                assert(j < k && defined_at(s, j) == Some(here));
            } else {
                assert(defined_at(s, k - 1) == Some(here));
            }
        }
    } else {
        assert forall|j: int| j < k implies (#[trigger] defined_at(s, j)) is None by {}
    }
}

/// The highest object number is the greatest that a header defines: no
/// object that `s` defines has a greater number, and unless it is 0 `s`
/// defines the object of that number.
pub proof fn law_highest_object_number(s: Seq<u8>)
    ensures
        forall|n: nat| #[trigger] defines(s, n) ==> n <= highest_object_number(s),
        highest_object_number(s) == 0 || defines(s, highest_object_number(s)),
{
    lemma_highest_defined_upto(s, s.len() as int);
    assert forall|n: nat| #[trigger] defines(s, n) implies n <= highest_object_number(s) by {
        let j = choose|j: int| defined_at(s, j) == Some(n);
        assert(occurs_at(s, header_keyword(), j));
        lemma_header_keyword();
        assert(j < s.len());
        assert(defined_at(s, j) is Some);
    }
    if highest_object_number(s) != 0 {
        let j = choose|j: int|
            j < s.len() && #[trigger] defined_at(s, j) == Some(highest_object_number(s));
        assert(defined_at(s, j) == Some(highest_object_number(s)));
    }
}

/// The keyword of an object header is six bytes long and starts with a
/// space.
pub proof fn lemma_header_keyword()
    ensures
        header_keyword().len() == 6,
        header_keyword()[0] == 32,
{
    reveal_strlit(" 0 obj");
    is_ascii_spec_bytes(" 0 obj");
}

/// An object whose definition can be opened is one that the document
/// defines: where the header of object `n` stands with no digit in front
/// of it, `s` defines `n`, so that `n` is at most the highest object
/// number.
pub proof fn law_opened_object_is_defined(s: Seq<u8>, n: nat)
    requires
        object_start(s, n) is Some,
    ensures
        defines(s, n),
        n <= highest_object_number(s),
{
    lemma_header_from(s, n, 0);
    lemma_decimal(n);
    lemma_header_keyword();
    let at = object_start(s, n)->0;
    let numeral = decimal(n);
    let j = at + numeral.len();
    let header = object_header(n);
    assert(s.subrange(j, j + 6) =~= header.subrange(numeral.len() as int, header.len() as int));
    assert(header.subrange(numeral.len() as int, header.len() as int) =~= header_keyword());
    assert(s.subrange(at, j) =~= header.subrange(0, numeral.len() as int));
    assert(header.subrange(0, numeral.len() as int) =~= numeral);
    assert forall|k: int| at <= k < j implies is_digit(#[trigger] s[k]) by {
        assert(s[k] == s.subrange(at, j)[k - at]);
    }
    lemma_digits_start_is(s, at, j);
    assert(defined_at(s, j) == Some(n));
    assert(defines(s, n));
    law_highest_object_number(s);
}

/// Offset at which the run of digits starts that ends in front of `j`.
fn find_run_start(data: &[u8], j: usize) -> (i: usize)
    requires
        j <= data.len(),
    ensures
        i == digits_start(data@, j as int),
        i <= j,
        forall|k: int| i <= k < j ==> is_digit(#[trigger] data@[k]),
{
    let mut i: usize = j;
    while i > 0 && is_digit_byte(data[i - 1])
        invariant
            i <= j <= data.len(),
            digits_start(data@, j as int) == digits_start(data@, i as int),
            forall|k: int| i <= k < j ==> is_digit(#[trigger] data@[k]),
        decreases i,
    {
        i = i - 1;
    }
    i
}

/// The number for the next new object: one more than the greatest number
/// of an object that the document defines. A header defines an object
/// wherever it stands: the number is written by the digits that stand
/// right in front of ` 0 obj`, all of them. So no object of the document
/// has the number that comes back or a greater one, and unless it is 1 the
/// document defines the object of the number below it.
///
/// Fails where the document defines an object whose number is `u32::MAX`
/// or more.
pub fn get_next_object_number(pdf_data: &[u8]) -> (r: Result<u32>)
    ensures
        match r {
            Ok(n) => n == highest_object_number(pdf_data@) + 1 && (forall|m: nat| #[trigger]
                defines(pdf_data@, m) ==> m < n) && (n == 1 || defines(
                pdf_data@,
                (n - 1) as nat,
            )),
            Err(e) => e is InvalidPdf && highest_object_number(pdf_data@) >= u32::MAX && defines(
                pdf_data@,
                highest_object_number(pdf_data@),
            ),
        },
{
    let keyword = " 0 obj".as_bytes();
    let mut highest: u32 = 0;
    let mut k: usize = 0;
    while k < pdf_data.len()
        invariant
            k <= pdf_data.len(),
            keyword@ == header_keyword(),
            highest == highest_defined_upto(pdf_data@, k as int),
            highest < u32::MAX,
        decreases pdf_data.len() - k,
    {
        if matches_at(pdf_data, keyword, k) {
            let start = find_run_start(pdf_data, k);
            if start < k {
                let run = slice_subrange(pdf_data, start, k);
                assert(all_digits(run@));
                assert(run@[0] == pdf_data@[start as int]);
                match parse_unsigned(run, (u32::MAX - 1) as u64) {
                    Some(n) => {
                        if n > highest as u64 {
                            highest = n as u32;
                        }
                    },
                    None => {
                        proof {
                            lemma_highest_defined_grows(
                                pdf_data@,
                                k + 1,
                                pdf_data@.len() as int,
                            );
                            law_highest_object_number(pdf_data@);
                        }
                        return Err(
                            PdfSignError::InvalidPdf("Número de objeto fora do limite".to_owned()),
                        );
                    },
                }
            }
        }
        k = k + 1;
    }
    proof {
        law_highest_object_number(pdf_data@);
    }
    Ok(highest + 1)
}

/// Where the catalog of a document is, and what it refers to.
#[derive(Debug, Clone, Copy)]
pub struct PdfCatalogInfo {
    /// Object number of the catalog.
    pub catalog_obj: usize,
    /// Object number of the root of the page tree.
    pub pages_ref: usize,
    /// Whether the catalog already names an interactive form.
    pub has_acroform: bool,
}

/// Where the first page of a document is.
#[derive(Debug, Clone, Copy)]
pub struct PdfPageInfo {
    /// Object number of the first page.
    pub first_page_obj: usize,
}

/// The header that opens the definition of object `n`.
pub open spec fn object_header(n: nat) -> Seq<u8> {
    decimal(n) + text(" 0 obj")
}

/// The header of object `n` stands at `i`, and no digit stands in front
/// of it, so that it is not the end of the header of another object.
pub open spec fn header_at(s: Seq<u8>, n: nat, i: int) -> bool {
    occurs_at(s, object_header(n), i) && (i == 0 || !is_digit(s[i - 1]))
}

/// Offset of the first header of object `n` at or after `i`.
pub open spec fn header_from(s: Seq<u8>, n: nat, i: int) -> Option<int>
    decreases s.len() - i,
{
    if i < 0 || i >= s.len() {
        None
    } else if header_at(s, n, i) {
        Some(i)
    } else {
        header_from(s, n, i + 1)
    }
}

/// Offset at which the definition of object `n` starts: that of the first
/// header of object `n`.
pub open spec fn object_start(s: Seq<u8>, n: nat) -> Option<int> {
    header_from(s, n, 0)
}

/// The first header of object `n` at or after `i` is a header of it, and
/// none stands between `i` and it; where none is found, there is none.
pub proof fn lemma_header_from(s: Seq<u8>, n: nat, i: int)
    requires
        0 <= i,
    ensures
        match header_from(s, n, i) {
            Some(at) => i <= at < s.len() && header_at(s, n, at) && forall|j: int|
                i <= j < at ==> !header_at(s, n, j),
            None => forall|j: int| i <= j ==> !header_at(s, n, j),
        },
    decreases s.len() - i,
{
    lemma_decimal(n);
    if i < s.len() && !header_at(s, n, i) {
        lemma_header_from(s, n, i + 1);
    }
}

/// A header of object `n` with none in front of it is the first.
pub proof fn lemma_header_from_is(s: Seq<u8>, n: nat, at: int)
    requires
        0 <= at,
        header_at(s, n, at),
        forall|j: int| 0 <= j < at ==> !header_at(s, n, j),
    ensures
        object_start(s, n) == Some(at),
{
    lemma_header_from(s, n, 0);
}

/// The definition of an object starts in a longer text where it starts in
/// the text that the longer one starts with.
pub proof fn lemma_object_start_in_longer(start: Seq<u8>, whole: Seq<u8>, n: nat)
    requires
        start.len() <= whole.len(),
        whole.subrange(0, start.len() as int) == start,
        object_start(start, n) is Some,
    ensures
        object_start(whole, n) == object_start(start, n),
{
    let header = object_header(n);
    let at = object_start(start, n)->0;
    lemma_header_from(start, n, 0);
    assert forall|j: int| 0 <= j <= at implies header_at(whole, n, j) == header_at(start, n, j) by {
        assert(whole.subrange(j, j + header.len()) =~= start.subrange(j, j + header.len()));
        if j > 0 {
            assert(whole.subrange(0, start.len() as int)[j - 1] == whole[j - 1]);
        }
    }
    lemma_header_from_is(whole, n, at);
}

/// The definition of an object has the same bounds and the same bytes in
/// a longer text as in the text that the longer one starts with, where
/// that text holds it.
pub proof fn lemma_object_section_in_longer(start: Seq<u8>, whole: Seq<u8>, n: nat)
    requires
        start.len() <= whole.len(),
        whole.subrange(0, start.len() as int) == start,
        object_section(start, n) is Some,
    ensures
        object_section(whole, n) == object_section(start, n),
        ({
            let (a, b) = object_section(start, n)->0;
            0 <= a <= b <= start.len() && whole.subrange(a, b) == start.subrange(a, b)
        }),
{
    let mark = text("endobj");
    lemma_object_start_in_longer(start, whole, n);
    lemma_header_from(start, n, 0);
    let a = object_start(start, n)->0;
    lemma_find_from(start, mark, a);
    let b = find_from(start, mark, a)->0;
    assert forall|j: int| a <= j <= b implies occurs_at(whole, mark, j) == occurs_at(start, mark, j) by {
        assert(whole.subrange(j, j + mark.len()) =~= start.subrange(j, j + mark.len()));
    }
    lemma_find_from_is(whole, mark, a, b);
    assert(whole.subrange(a, b) =~= start.subrange(a, b));
}

/// The bounds of the definition of object `n`: from its first header to
/// the next `endobj`.
pub open spec fn object_section(s: Seq<u8>, n: nat) -> Option<(int, int)> {
    match object_start(s, n) {
        None => None,
        Some(start) => match find_from(s, text("endobj"), start) {
            None => None,
            Some(end) => Some((start, end)),
        },
    }
}

/// The catalog that the last trailer names: the first number after the
/// first `/Root` that follows the last `trailer`.
pub open spec fn catalog_from_trailer(s: Seq<u8>) -> Option<nat> {
    match last_occurrence(s, text("trailer")) {
        None => None,
        Some(trailer) => match find_from(s, text("/Root"), trailer) {
            None => None,
            Some(root) => first_number(
                s.subrange(root + text("/Root").len(), s.len() as int),
                usize::MAX as nat,
            ),
        },
    }
}

/// The number of the object around the first occurrence of `marker`.
pub open spec fn object_of_marker(s: Seq<u8>, marker: Seq<u8>) -> Option<nat> {
    match first_occurrence(s, marker) {
        None => None,
        Some(at) => object_number_before(s, at),
    }
}

/// The number of the object around the first occurrence of `spaced`, or
/// else around the first occurrence of `tight`.
pub open spec fn object_of_either(s: Seq<u8>, spaced: Seq<u8>, tight: Seq<u8>) -> Option<nat> {
    match object_of_marker(s, spaced) {
        Some(n) => Some(n),
        None => object_of_marker(s, tight),
    }
}

/// The catalog found by its `/Type` entry.
pub open spec fn catalog_by_pattern(s: Seq<u8>) -> Option<nat> {
    object_of_either(s, text("/Type /Catalog"), text("/Type/Catalog"))
}

/// The root of the page tree found by its `/Type` entry.
pub open spec fn pages_object(s: Seq<u8>) -> Option<nat> {
    object_of_either(s, text("/Type /Pages"), text("/Type/Pages"))
}

/// The page tree root that the catalog names: the first number after the
/// first `/Pages` inside the definition of the catalog.
pub open spec fn pages_ref_in_catalog(s: Seq<u8>, catalog_obj: nat) -> Option<nat> {
    match object_section(s, catalog_obj) {
        None => None,
        Some((start, end)) => {
            let section = s.subrange(start, end);
            match first_occurrence(section, text("/Pages")) {
                None => None,
                Some(at) => first_number(
                    section.subrange(at + text("/Pages").len(), section.len() as int),
                    usize::MAX as nat,
                ),
            }
        },
    }
}

/// Whether the definition of the catalog holds `/AcroForm`.
pub open spec fn catalog_has_acroform(s: Seq<u8>, catalog_obj: nat) -> bool {
    match object_section(s, catalog_obj) {
        None => false,
        Some((start, end)) => occurs(s.subrange(start, end), text("/AcroForm")),
    }
}

/// `pages_obj` if the document defines an object of that number, else the
/// page tree root found by its `/Type` entry.
pub open spec fn validated_pages(s: Seq<u8>, pages_obj: nat) -> Option<nat> {
    if object_start(s, pages_obj) is Some {
        Some(pages_obj)
    } else {
        pages_object(s)
    }
}

/// The catalog of a document: the one that the last trailer names, else
/// the one found by its `/Type` entry.
pub open spec fn catalog_object(s: Seq<u8>) -> Option<nat> {
    match catalog_from_trailer(s) {
        Some(n) => Some(n),
        None => catalog_by_pattern(s),
    }
}

/// The root of the page tree of a document whose catalog is `catalog_obj`:
/// the one that the catalog names, else the one found by its `/Type` entry,
/// else object 1; replaced by the one found by its `/Type` entry where the
/// document defines no object of that number but has such an entry.
pub open spec fn pages_root(s: Seq<u8>, catalog_obj: nat) -> nat {
    let named = match pages_ref_in_catalog(s, catalog_obj) {
        Some(n) => n,
        None => match pages_object(s) {
            Some(n) => n,
            None => 1,
        },
    };
    match validated_pages(s, named) {
        Some(n) => n,
        None => named,
    }
}

/// `marker` stands at `i` and no `s` follows it, so that it names a page
/// and not the page tree.
pub open spec fn page_marker_at(s: Seq<u8>, marker: Seq<u8>, i: int) -> bool {
    occurs_at(s, marker, i) && !(i + marker.len() < s.len() && s[i + marker.len()] == 115)
}

/// The number of the object around a page marker at `i`.
pub open spec fn page_at(s: Seq<u8>, marker: Seq<u8>, i: int) -> Option<nat> {
    if page_marker_at(s, marker, i) {
        object_number_before(s, i)
    } else {
        None
    }
}

/// The number of the object around the first page marker at or after `i`
/// that has an object number in front of it.
pub open spec fn first_page_from(s: Seq<u8>, marker: Seq<u8>, i: int) -> Option<nat>
    decreases s.len() - i,
{
    if i < 0 || i >= s.len() {
        None
    } else if page_at(s, marker, i) is Some {
        page_at(s, marker, i)
    } else {
        first_page_from(s, marker, i + 1)
    }
}

/// The first page of a document, found by its `/Type` entry.
pub open spec fn first_page(s: Seq<u8>) -> Option<nat> {
    match first_page_from(s, text("/Type /Page"), 0) {
        Some(n) => Some(n),
        None => first_page_from(s, text("/Type/Page"), 0),
    }
}

/// The header that opens the definition of object `n`.
pub fn object_header_bytes(n: usize) -> (header: Vec<u8>)
    ensures
        header@ == object_header(n as nat),
{
    let mut header: Vec<u8> = Vec::new();
    push_decimal(&mut header, n as u64);
    append(&mut header, " 0 obj".as_bytes());
    assert(header@ =~= object_header(n as nat));
    header
}

/// Where no header stands, none is found.
proof fn lemma_no_header_between(s: Seq<u8>, n: nat, a: int, b: int)
    requires
        0 <= a <= b,
        forall|j: int| a <= j < b ==> !occurs_at(s, object_header(n), j),
    ensures
        header_from(s, n, a) == header_from(s, n, b),
    decreases b - a,
{
    if a < b {
        lemma_no_header_between(s, n, a + 1, b);
    }
}

/// Offset at which the definition of object `n` starts.
pub fn find_object_start(pdf_data: &[u8], n: usize) -> (r: Option<usize>)
    ensures
        match r {
            Some(at) => object_start(pdf_data@, n as nat) == Some(at as int) && at
                < pdf_data.len(),
            None => object_start(pdf_data@, n as nat) is None,
        },
{
    let header = object_header_bytes(n);
    let mut pos: usize = 0;
    while pos < pdf_data.len()
        invariant
            pos <= pdf_data.len(),
            header@ == object_header(n as nat),
            object_start(pdf_data@, n as nat) == header_from(pdf_data@, n as nat, pos as int),
        decreases pdf_data.len() - pos,
    {
        proof {
            lemma_find_from(pdf_data@, header@, pos as int);
        }
        match find_token_from(pdf_data, header.as_slice(), pos) {
            None => {
                proof {
                    lemma_no_header_between(
                        pdf_data@,
                        n as nat,
                        pos as int,
                        pdf_data@.len() as int,
                    );
                }
                return None;
            },
            Some(at) => {
                proof {
                    lemma_no_header_between(pdf_data@, n as nat, pos as int, at as int);
                }
                if at >= pdf_data.len() {
                    return None;
                }
                if at == 0 || !is_digit_byte(pdf_data[at - 1]) {
                    return Some(at);
                }
                pos = at + 1;
            },
        }
    }
    None
}

/// The bounds of the definition of object `n`.
pub fn find_object_section(pdf_data: &[u8], n: usize) -> (r: Option<(usize, usize)>)
    ensures
        match r {
            Some((start, end)) => object_section(pdf_data@, n as nat) == Some(
                (start as int, end as int),
            ) && start <= end <= pdf_data.len(),
            None => object_section(pdf_data@, n as nat) is None,
        },
{
    match find_object_start(pdf_data, n) {
        None => None,
        Some(start) => match find_token_from(pdf_data, "endobj".as_bytes(), start) {
            None => None,
            Some(end) => {
                proof {
                    lemma_find_from(pdf_data@, text("endobj"), start as int);
                }
                Some((start, end))
            },
        },
    }
}

/// The catalog that the last trailer names.
pub fn find_catalog_from_trailer(pdf_data: &[u8]) -> (r: Option<usize>)
    ensures
        match r {
            Some(n) => catalog_from_trailer(pdf_data@) == Some(n as nat),
            None => catalog_from_trailer(pdf_data@) is None,
        },
{
    let root_key = "/Root".as_bytes();
    match rfind_token(pdf_data, "trailer".as_bytes()) {
        None => None,
        Some(trailer) => match find_token_from(pdf_data, root_key, trailer) {
            None => None,
            Some(root) => {
                proof {
                    lemma_find_from(pdf_data@, text("/Root"), trailer as int);
                }
                let total = pdf_data.len();
                let after = slice_subrange(pdf_data, root + root_key.len(), total);
                match read_first_number(after, usize::MAX as u64) {
                    Some(n) => Some(n as usize),
                    None => None,
                }
            },
        },
    }
}

/// The number of the object around the first occurrence of `marker`.
fn find_object_of_marker(pdf_data: &[u8], marker: &[u8]) -> (r: Option<usize>)
    ensures
        match r {
            Some(n) => object_of_marker(pdf_data@, marker@) == Some(n as nat),
            None => object_of_marker(pdf_data@, marker@) is None,
        },
{
    match find_token(pdf_data, marker) {
        None => None,
        Some(at) => {
            proof {
                lemma_find_from(pdf_data@, marker@, 0);
            }
            parse_object_number_before(pdf_data, at)
        },
    }
}

/// The catalog found by its `/Type` entry, written with a space or without.
pub fn find_catalog_by_pattern(pdf_data: &[u8]) -> (r: Option<usize>)
    ensures
        match r {
            Some(n) => catalog_by_pattern(pdf_data@) == Some(n as nat),
            None => catalog_by_pattern(pdf_data@) is None,
        },
{
    match find_object_of_marker(pdf_data, "/Type /Catalog".as_bytes()) {
        Some(n) => Some(n),
        None => find_object_of_marker(pdf_data, "/Type/Catalog".as_bytes()),
    }
}

/// The root of the page tree found by its `/Type` entry, written with a
/// space or without.
pub fn find_pages_object(pdf_data: &[u8]) -> (r: Option<usize>)
    ensures
        match r {
            Some(n) => pages_object(pdf_data@) == Some(n as nat),
            None => pages_object(pdf_data@) is None,
        },
{
    match find_object_of_marker(pdf_data, "/Type /Pages".as_bytes()) {
        Some(n) => Some(n),
        None => find_object_of_marker(pdf_data, "/Type/Pages".as_bytes()),
    }
}

/// The page tree root that the catalog names.
pub fn find_pages_ref_in_catalog(pdf_data: &[u8], catalog_obj: usize) -> (r: Option<usize>)
    ensures
        match r {
            Some(n) => pages_ref_in_catalog(pdf_data@, catalog_obj as nat) == Some(n as nat),
            None => pages_ref_in_catalog(pdf_data@, catalog_obj as nat) is None,
        },
{
    let pages_key = "/Pages".as_bytes();
    match find_object_section(pdf_data, catalog_obj) {
        None => None,
        Some((start, end)) => {
            let section = slice_subrange(pdf_data, start, end);
            match find_token(section, pages_key) {
                None => None,
                Some(at) => {
                    proof {
                        lemma_find_from(section@, text("/Pages"), 0);
                    }
                    let after = slice_subrange(section, at + pages_key.len(), section.len());
                    match read_first_number(after, usize::MAX as u64) {
                        Some(n) => Some(n as usize),
                        None => None,
                    }
                },
            }
        },
    }
}

/// Whether the definition of the catalog holds `/AcroForm`.
pub fn check_catalog_has_acroform(pdf_data: &[u8], catalog_obj: usize) -> (b: bool)
    ensures
        b == catalog_has_acroform(pdf_data@, catalog_obj as nat),
{
    match find_object_section(pdf_data, catalog_obj) {
        None => false,
        Some((start, end)) => contains_token(
            slice_subrange(pdf_data, start, end),
            "/AcroForm".as_bytes(),
        ),
    }
}

/// `pages_obj` if the document defines an object of that number, else the
/// page tree root found by its `/Type` entry.
pub fn validate_pages_object(pdf_data: &[u8], pages_obj: usize) -> (r: Option<usize>)
    ensures
        match r {
            Some(n) => validated_pages(pdf_data@, pages_obj as nat) == Some(n as nat),
            None => validated_pages(pdf_data@, pages_obj as nat) is None,
        },
{
    if find_object_start(pdf_data, pages_obj).is_some() {
        Some(pages_obj)
    } else {
        find_pages_object(pdf_data)
    }
}

/// Finds the catalog and what it refers to.
///
/// Fails where the document has no trailer that names a catalog and no
/// object with the `/Type` entry of one.
pub fn extract_catalog_info(pdf_data: &[u8]) -> (r: Result<PdfCatalogInfo>)
    ensures
        match r {
            Ok(info) => catalog_object(pdf_data@) == Some(info.catalog_obj as nat)
                && info.pages_ref == pages_root(pdf_data@, info.catalog_obj as nat)
                && info.has_acroform == catalog_has_acroform(pdf_data@, info.catalog_obj as nat),
            Err(e) => catalog_object(pdf_data@) is None && e is InvalidPdf,
        },
{
    let found = match find_catalog_from_trailer(pdf_data) {
        Some(n) => Some(n),
        None => find_catalog_by_pattern(pdf_data),
    };
    let catalog_obj = match found {
        Some(n) => n,
        None => {
            return Err(PdfSignError::InvalidPdf("Catalog não encontrado".to_owned()));
        },
    };
    let named = match find_pages_ref_in_catalog(pdf_data, catalog_obj) {
        Some(n) => n,
        None => match find_pages_object(pdf_data) {
            Some(n) => n,
            None => 1,
        },
    };
    let pages_ref = match validate_pages_object(pdf_data, named) {
        Some(n) => n,
        None => named,
    };
    let has_acroform = check_catalog_has_acroform(pdf_data, catalog_obj);
    Ok(PdfCatalogInfo { catalog_obj, pages_ref, has_acroform })
}

/// Where the marker does not stand, no page is found.
proof fn lemma_no_page_between(s: Seq<u8>, marker: Seq<u8>, a: int, b: int)
    requires
        0 <= a <= b,
        forall|j: int| a <= j < b ==> !occurs_at(s, marker, j),
    ensures
        first_page_from(s, marker, a) == first_page_from(s, marker, b),
    decreases b - a,
{
    if a < b {
        lemma_no_page_between(s, marker, a + 1, b);
    }
}

/// The first page found by one way of writing its `/Type` entry.
fn find_first_page_by_marker(pdf_data: &[u8], marker: &[u8]) -> (r: Option<usize>)
    ensures
        match r {
            Some(n) => first_page_from(pdf_data@, marker@, 0) == Some(n as nat),
            None => first_page_from(pdf_data@, marker@, 0) is None,
        },
{
    let mut pos: usize = 0;
    while pos < pdf_data.len()
        invariant
            pos <= pdf_data.len(),
            first_page_from(pdf_data@, marker@, 0) == first_page_from(
                pdf_data@,
                marker@,
                pos as int,
            ),
        decreases pdf_data.len() - pos,
    {
        proof {
            lemma_find_from(pdf_data@, marker@, pos as int);
        }
        match find_token_from(pdf_data, marker, pos) {
            None => {
                proof {
                    lemma_no_page_between(pdf_data@, marker@, pos as int, pdf_data@.len() as int);
                }
                return None;
            },
            Some(at) => {
                proof {
                    lemma_no_page_between(pdf_data@, marker@, pos as int, at as int);
                }
                if at >= pdf_data.len() {
                    return None;
                }
                let next = at + marker.len();
                let is_tree = next < pdf_data.len() && pdf_data[next] == 115;
                if !is_tree {
                    match parse_object_number_before(pdf_data, at) {
                        Some(n) => {
                            return Some(n);
                        },
                        None => {},
                    }
                }
                pos = at + 1;
            },
        }
    }
    None
}

/// The first page found by its `/Type` entry, written with a space or
/// without: the object around the first such entry that is not the entry of
/// the page tree and has an object header in front of it.
pub fn find_first_page_by_pattern(pdf_data: &[u8]) -> (r: Option<usize>)
    ensures
        match r {
            Some(n) => first_page(pdf_data@) == Some(n as nat),
            None => first_page(pdf_data@) is None,
        },
{
    match find_first_page_by_marker(pdf_data, "/Type /Page".as_bytes()) {
        Some(n) => Some(n),
        None => find_first_page_by_marker(pdf_data, "/Type/Page".as_bytes()),
    }
}

/// Finds the first page.
///
/// Fails where the document has no page with an object header in front of
/// it.
pub fn extract_first_page_info(pdf_data: &[u8]) -> (r: Result<PdfPageInfo>)
    ensures
        match r {
            Ok(info) => first_page(pdf_data@) == Some(info.first_page_obj as nat),
            Err(e) => first_page(pdf_data@) is None && e is InvalidPdf,
        },
{
    match find_first_page_by_pattern(pdf_data) {
        Some(first_page_obj) => Ok(PdfPageInfo { first_page_obj }),
        None => Err(
            PdfSignError::InvalidPdf("Não foi possível encontrar a primeira página".to_owned()),
        ),
    }
}

/// The offset of the previous cross-reference table: the number written
/// by the first token behind the last `startxref` keyword, or 0 where
/// there is no keyword, no token behind it, or the token writes no number.
pub open spec fn previous_xref(s: Seq<u8>) -> nat {
    match last_occurrence(s, text("startxref")) {
        None => 0,
        Some(at) => {
            let rest = s.subrange(at + text("startxref").len(), s.len() as int);
            match parse_number(token_at(rest, skip_spaces(rest, 0)), usize::MAX as nat) {
                Some(n) => n,
                None => 0,
            }
        },
    }
}

/// The offset of the previous cross-reference table.
pub fn find_previous_xref(pdf_data: &[u8]) -> (offset: usize)
    ensures
        offset == previous_xref(pdf_data@),
{
    let keyword = "startxref".as_bytes();
    match rfind_token(pdf_data, keyword) {
        None => 0,
        Some(at) => {
            proof {
                lemma_last_occurrence(pdf_data@, text("startxref"));
            }
            let total = pdf_data.len();
            let rest = slice_subrange(pdf_data, at + keyword.len(), total);
            let mut first: usize = 0;
            while first < rest.len() && is_space_byte(rest[first])
                invariant
                    first <= rest.len(),
                    skip_spaces(rest@, 0) == skip_spaces(rest@, first as int),
                decreases rest.len() - first,
            {
                first = first + 1;
            }
            let end = scan_token(rest, first);
            match parse_unsigned(slice_subrange(rest, first, end), usize::MAX as u64) {
                Some(n) => n as usize,
                None => 0,
            }
        },
    }
}

/// What stands between the first `<<` and the last `>>` of an object
/// definition, if the one comes before the other.
pub open spec fn dictionary_body(section: Seq<u8>) -> Option<Seq<u8>> {
    match first_occurrence(section, text("<<")) {
        None => None,
        Some(open) => match last_occurrence(section, text(">>")) {
            None => None,
            Some(close) => if open + text("<<").len() <= close {
                Some(section.subrange(open + text("<<").len(), close))
            } else {
                None
            },
        },
    }
}

/// A byte at which a name ends: white space, or one of the delimiters
/// `(`, `)`, `<`, `>`, `[`, `]`, `{`, `}`, `/` and `%`.
pub open spec fn ends_name(b: u8) -> bool {
    is_space(b) || b == 0 || b == 40 || b == 41 || b == 60 || b == 62 || b == 91 || b == 93 || b
        == 123 || b == 125 || b == 47 || b == 37
}

/// The name `key` stands in `t` at `a`, and ends there: `t` ends behind it
/// or goes on with a byte that ends a name.
pub open spec fn key_at(t: Seq<u8>, key: Seq<u8>, a: int) -> bool {
    occurs_at(t, key, a) && (a + key.len() == t.len() || ends_name(t[a + key.len()]))
}

/// An entry that the replacement catalog writes itself: one whose key is
/// `/Type`, `/Pages` or `/AcroForm`.
pub open spec fn is_known_entry(entry: Seq<u8>) -> bool {
    key_at(entry, text("/Type"), 0) || key_at(entry, text("/Pages"), 0) || key_at(
        entry,
        text("/AcroForm"),
        0,
    )
}

/// An entry that the replacement catalog carries over.
pub open spec fn is_extra_entry(entry: Seq<u8>) -> bool {
    entry.len() > 0 && !is_known_entry(entry)
}

/// The lines of `body` from offset `a` on, where `a` starts a line: each
/// without the white space at its ends, those that are empty or start
/// with a known key left out, each followed by a line feed. A line ends at a line feed or at a
/// carriage return.
pub open spec fn extra_lines_from(body: Seq<u8>, a: int) -> Seq<u8>
    decreases body.len() - a,
{
    if a < 0 || a > body.len() {
        Seq::<u8>::empty()
    } else {
        let b = line_end(body, a);
        let entry = trimmed(body.subrange(a, b));
        let here = if is_extra_entry(entry) {
            entry + seq![10u8]
        } else {
            Seq::<u8>::empty()
        };
        if b >= body.len() {
            here
        } else {
            proof {
                lemma_line_end(body, a);
            }
            here + extra_lines_from(body, b + 1)
        }
    }
}

/// A line of `t` starts at `a`: at the start of `t` or behind a line
/// feed.
pub open spec fn line_starts_at(t: Seq<u8>, a: int) -> bool {
    0 <= a < t.len() && (a == 0 || t[a - 1] == 10)
}

/// One of the entries that the replacement catalog writes itself stands in
/// `t` at `a`.
pub open spec fn known_entry_at(t: Seq<u8>, a: int) -> bool {
    key_at(t, text("/Type"), a) || key_at(t, text("/Pages"), a) || key_at(
        t,
        text("/AcroForm"),
        a,
    )
}

/// The keys that the replacement catalog writes itself hold no line feed.
proof fn lemma_known_keys()
    ensures
        text("/Type").len() == 5,
        text("/Pages").len() == 6,
        text("/AcroForm").len() == 9,
        forall|k: int| 0 <= k < 5 ==> #[trigger] text("/Type")[k] != 10,
        forall|k: int| 0 <= k < 6 ==> #[trigger] text("/Pages")[k] != 10,
        forall|k: int| 0 <= k < 9 ==> #[trigger] text("/AcroForm")[k] != 10,
{
    reveal_strlit("/Type");
    is_ascii_spec_bytes("/Type");
    reveal_strlit("/Pages");
    is_ascii_spec_bytes("/Pages");
    reveal_strlit("/AcroForm");
    is_ascii_spec_bytes("/AcroForm");
}

/// A key without a line feed that is not the key of an entry is not the
/// key of the line that the entry makes, whatever follows the line.
proof fn lemma_line_opens_as_entry(entry: Seq<u8>, rest: Seq<u8>, key: Seq<u8>)
    requires
        forall|k: int| 0 <= k < entry.len() ==> #[trigger] entry[k] != 10,
        forall|k: int| 0 <= k < key.len() ==> #[trigger] key[k] != 10,
        !key_at(entry, key, 0),
    ensures
        !key_at(entry + seq![10u8] + rest, key, 0),
{
    let line = entry + seq![10u8] + rest;
    if occurs_at(line, key, 0) {
        let found = line.subrange(0, key.len() as int);
        if key.len() <= entry.len() {
            assert(entry.subrange(0, key.len() as int) =~= found);
            assert(line[key.len() as int] == entry[key.len() as int]);
        } else {
            assert(found[entry.len() as int] == line[entry.len() as int]);
            assert(line[entry.len() as int] == 10);
            assert(key[entry.len() as int] != 10);
        }
    }
}

/// What stands in the second of two joined texts stands in it as it
/// stands in the whole.
proof fn lemma_key_in_second(front: Seq<u8>, rest: Seq<u8>, key: Seq<u8>, x: int)
    requires
        front.len() <= x,
    ensures
        key_at(front + rest, key, x) == key_at(rest, key, x - front.len()),
{
    let whole = front + rest;
    if x + key.len() <= whole.len() {
        assert(whole.subrange(x, x + key.len()) =~= rest.subrange(
            x - front.len(),
            x - front.len() + key.len(),
        ));
        if x + key.len() < whole.len() {
            assert(whole[x + key.len()] == rest[x - front.len() + key.len()]);
        }
    }
}

/// The lines carried over from `a` on: each ends with a line feed, and at
/// the start of none of them stands an entry that the replacement catalog
/// writes itself.
proof fn lemma_extra_lines(body: Seq<u8>, a: int)
    requires
        0 <= a <= body.len(),
    ensures
        ({
            let lines = extra_lines_from(body, a);
            &&& lines.len() == 0 || lines.last() == 10
            &&& forall|x: int| #[trigger] line_starts_at(lines, x) ==> !known_entry_at(lines, x)
        }),
    decreases body.len() - a,
{
    let b = line_end(body, a);
    lemma_line_end(body, a);
    lemma_known_keys();
    let line = body.subrange(a, b);
    let entry = trimmed(line);
    lemma_trimmed_bytes(line);
    assert forall|k: int| 0 <= k < entry.len() implies #[trigger] entry[k] != 10 by {
        let j = choose|j: int| 0 <= j < line.len() && line[j] == entry[k];
        assert(!is_line_end(body[a + j]));
    }
    let here = if is_extra_entry(entry) {
        entry + seq![10u8]
    } else {
        Seq::<u8>::empty()
    };
    let rest = if b >= body.len() {
        Seq::<u8>::empty()
    } else {
        extra_lines_from(body, b + 1)
    };
    if b < body.len() {
        lemma_extra_lines(body, b + 1);
    }
    let lines = extra_lines_from(body, a);
    assert(lines =~= here + rest);
    assert forall|x: int| #[trigger] line_starts_at(lines, x) implies !known_entry_at(lines, x) by {
        if x < here.len() {
            if x > 0 {
                assert(lines[x - 1] == entry[x - 1]);
            }
            assert(lines =~= entry + seq![10u8] + rest);
            lemma_line_opens_as_entry(entry, rest, text("/Type"));
            lemma_line_opens_as_entry(entry, rest, text("/Pages"));
            lemma_line_opens_as_entry(entry, rest, text("/AcroForm"));
        } else {
            let y = x - here.len();
            if y > 0 {
                assert(rest[y - 1] == lines[x - 1]);
            }
            assert(line_starts_at(rest, y));
            lemma_key_in_second(here, rest, text("/Type"), x);
            lemma_key_in_second(here, rest, text("/Pages"), x);
            lemma_key_in_second(here, rest, text("/AcroForm"), x);
        }
    }
}

/// The replacement catalog carries over no entry that it writes itself:
/// the lines carried over from the catalog of a document each end with a
/// line feed, and none of them starts with the key `/Type`, `/Pages` or
/// `/AcroForm`.
pub proof fn law_carried_lines_are_extras(s: Seq<u8>, catalog_obj: nat)
    ensures
        ({
            let lines = catalog_extras_text(s, catalog_obj);
            &&& lines.len() == 0 || lines.last() == 10
            &&& forall|x: int| #[trigger] line_starts_at(lines, x) ==> !known_entry_at(lines, x)
        }),
{
    match object_section(s, catalog_obj) {
        None => {},
        Some((start, end)) => match dictionary_body(s.subrange(start, end)) {
            None => {},
            Some(body) => {
                lemma_extra_lines(body, 0);
            },
        },
    }
}

/// The entries of the catalog of a document other than `/Type`, `/Pages`
/// and `/AcroForm`, one to a line, as the document writes them.
pub open spec fn catalog_extras_text(s: Seq<u8>, catalog_obj: nat) -> Seq<u8> {
    match object_section(s, catalog_obj) {
        None => Seq::<u8>::empty(),
        Some((start, end)) => match dictionary_body(s.subrange(start, end)) {
            None => Seq::<u8>::empty(),
            Some(body) => extra_lines_from(body, 0),
        },
    }
}

/// Whether the replacement catalog carries `entry` over.
pub fn is_extra(entry: &[u8]) -> (b: bool)
    ensures
        b == is_extra_entry(entry@),
{
    entry.len() > 0 && !has_key(entry, "/Type".as_bytes()) && !has_key(
        entry,
        "/Pages".as_bytes(),
    ) && !has_key(entry, "/AcroForm".as_bytes())
}

/// Whether a name ends at `b`.
pub fn is_name_end(b: u8) -> (r: bool)
    ensures
        r == ends_name(b),
{
    is_space_byte(b) || b == 0 || b == 40 || b == 41 || b == 60 || b == 62 || b == 91 || b == 93
        || b == 123 || b == 125 || b == 47 || b == 37
}

/// Whether the key of `entry` is `key`.
pub fn has_key(entry: &[u8], key: &[u8]) -> (r: bool)
    ensures
        r == key_at(entry@, key@, 0),
{
    if !matches_at(entry, key, 0) {
        return false;
    }
    let behind = key.len();
    behind == entry.len() || is_name_end(entry[behind])
}

/// Appends the lines of a dictionary body that are carried over.
fn push_extra_lines(out: &mut Vec<u8>, body: &[u8])
    ensures
        final(out)@ == old(out)@ + extra_lines_from(body@, 0),
{
    let mut a: usize = 0;
    loop
        invariant_except_break
            a <= body.len(),
            old(out)@ + extra_lines_from(body@, 0) == out@ + extra_lines_from(body@, a as int),
        ensures
            out@ == old(out)@ + extra_lines_from(body@, 0),
        decreases body.len() - a,
    {
        let b = scan_line(body, a);
        let entry = trim(slice_subrange(body, a, b));
        let ghost seen = out@;
        let ghost here = if is_extra_entry(entry@) {
            entry@ + seq![10u8]
        } else {
            Seq::<u8>::empty()
        };
        if is_extra(entry) {
            append(out, entry);
            out.push(NEWLINE);
        }
        assert(out@ =~= seen + here);
        if b >= body.len() {
            assert(extra_lines_from(body@, a as int) == here);
            break;
        }
        assert(extra_lines_from(body@, a as int) == here + extra_lines_from(body@, b + 1));
        assert(seen + (here + extra_lines_from(body@, b + 1)) =~= (seen + here) + extra_lines_from(
            body@,
            b + 1,
        ));
        a = b + 1;
    }
}

/// Appends the entries of the catalog of a document that its replacement
/// carries over.
pub fn push_catalog_extras(out: &mut Vec<u8>, pdf_data: &[u8], catalog_obj: usize)
    ensures
        final(out)@ == old(out)@ + catalog_extras_text(pdf_data@, catalog_obj as nat),
{
    let open_mark = "<<".as_bytes();
    match find_object_section(pdf_data, catalog_obj) {
        None => {},
        Some((start, end)) => {
            let section = slice_subrange(pdf_data, start, end);
            match find_token(section, open_mark) {
                None => {},
                Some(open) => match rfind_token(section, ">>".as_bytes()) {
                    None => {},
                    Some(close) => {
                        proof {
                            lemma_find_from(section@, text("<<"), 0);
                            lemma_last_occurrence(section@, text(">>"));
                        }
                        if open + open_mark.len() <= close {
                            push_extra_lines(
                                out,
                                slice_subrange(section, open + open_mark.len(), close),
                            );
                        }
                    },
                },
            }
        },
    }
    assert(final(out)@ =~= old(out)@ + catalog_extras_text(pdf_data@, catalog_obj as nat));
}

/// The coordinates of a document that shape its update.
pub struct Coordinates {
    /// Object number of the catalog.
    pub catalog_obj: nat,
    /// Object number of the root of the page tree.
    pub pages_ref: nat,
    /// Object number of the first page.
    pub first_page_obj: nat,
    /// Offset of the previous cross-reference table.
    pub prev_xref: nat,
    /// Number of the first new object.
    pub next_obj: nat,
    /// The catalog entries to carry over.
    pub extras: Seq<u8>,
}

/// The coordinates of a document, if it has a catalog and a first page and
/// its next object number is a `u32`.
#[verifier::opaque]
pub open spec fn coordinates(pdf: Seq<u8>) -> Option<Coordinates> {
    if highest_object_number(pdf) >= u32::MAX {
        None
    } else {
        match catalog_object(pdf) {
            None => None,
            Some(catalog_obj) => match first_page(pdf) {
                None => None,
                Some(first_page_obj) => Some(
                    Coordinates {
                        catalog_obj,
                        pages_ref: pages_root(pdf, catalog_obj),
                        first_page_obj,
                        prev_xref: previous_xref(pdf),
                        next_obj: highest_object_number(pdf) + 1,
                        extras: catalog_extras_text(pdf, catalog_obj),
                    },
                ),
            },
        }
    }
}

/// The coordinates of a document that shape its update, as found in it.
#[derive(Debug, Clone)]
pub struct StructuralCoordinates {
    /// Object number of the catalog.
    pub catalog_obj: usize,
    /// Object number of the root of the page tree.
    pub pages_ref: usize,
    /// Object number of the first page.
    pub first_page_obj: usize,
    /// Offset of the previous cross-reference table.
    pub prev_xref: usize,
    /// Number of the first new object.
    pub next_obj: u32,
    /// The catalog entries to carry over, one to a line.
    pub catalog_extras: Vec<u8>,
}

impl View for StructuralCoordinates {
    type V = Coordinates;

    open spec fn view(&self) -> Coordinates {
        Coordinates {
            catalog_obj: self.catalog_obj as nat,
            pages_ref: self.pages_ref as nat,
            first_page_obj: self.first_page_obj as nat,
            prev_xref: self.prev_xref as nat,
            next_obj: self.next_obj as nat,
            extras: self.catalog_extras@,
        }
    }
}

/// Finds the coordinates of a document.
///
/// Fails where the document has no catalog or no first page, or where its
/// next object number is no `u32`.
pub fn locate_coordinates(pdf_data: &[u8]) -> (r: Result<StructuralCoordinates>)
    ensures
        match r {
            Ok(found) => coordinates(pdf_data@) == Some(found@),
            Err(e) => e is InvalidPdf && coordinates(pdf_data@) is None,
        },
{
    proof {
        reveal(coordinates);
    }
    let next_obj = match get_next_object_number(pdf_data) {
        Ok(n) => n,
        Err(e) => {
            return Err(e);
        },
    };
    let catalog_info = match extract_catalog_info(pdf_data) {
        Ok(info) => info,
        Err(e) => {
            return Err(e);
        },
    };
    let page_info = match extract_first_page_info(pdf_data) {
        Ok(info) => info,
        Err(e) => {
            return Err(e);
        },
    };
    let prev_xref = find_previous_xref(pdf_data);
    let mut catalog_extras: Vec<u8> = Vec::new();
    push_catalog_extras(&mut catalog_extras, pdf_data, catalog_info.catalog_obj);
    assert(catalog_extras@ =~= catalog_extras_text(pdf_data@, catalog_info.catalog_obj as nat));
    Ok(
        StructuralCoordinates {
            catalog_obj: catalog_info.catalog_obj,
            pages_ref: catalog_info.pages_ref,
            first_page_obj: page_info.first_page_obj,
            prev_xref,
            next_obj,
            catalog_extras,
        },
    )
}

} // verus!
