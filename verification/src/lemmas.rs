//! Lemmas that the laws of signing rest on: how the searches of the
//! signing steps behave in a file of the shape of a layout, and how a
//! trailer is read back.

use crate::assembler::{
    byte_range_placeholder, contents_placeholder, date_placeholder, trailer_section, xref_section,
    SIG_SLOT,
};
use crate::byterange::{byte_range_entry, padded_entry, slot_position, spaces, SlotPosition};
use crate::bytes::overwritten;
use crate::decimal::{decimal, lemma_decimal};
use crate::landmarks::{
    lemma_byte_range_placeholder, lemma_contents_key, lemma_contents_placeholder,
    lemma_date_placeholder,
};
use crate::probe::{catalog_from_trailer, catalog_object, previous_xref, without_trailing_newlines};
use crate::scanner::{
    find_from, first_number, first_number_from, is_digit, is_line_end, is_space, last_occurrence,
    lemma_find_from, lemma_find_from_is, lemma_last_occurrence_is, number_at, occurs_at,
    skip_spaces, text, token_at, token_end, token_starts_at, unsigned_part,
};
use crate::sequences::{
    lacks, lacks_upto, lemma_byte_occurs, lemma_lacks_joined, lemma_lacks_upto, lemma_overwritten,
    lemma_pair_free_joined, lemma_pair_free_no_occurrence, lemma_pair_free_upto, pair_free,
    pair_free_upto,
};
use vstd::prelude::*;
use vstd::string::*;

verus! {

/// In a file whose update starts with a head in which `B` never follows
/// `/` and that ends with a line feed, then holds the byte range
/// placeholder, the line with the `/Contents ` key and the slot as it is
/// first written, the search from the start of the update finds that
/// placeholder and that slot.
pub proof fn lemma_slot_exact(buf: Seq<u8>, from: int, head: Seq<u8>, range_at: int)
    requires
        0 <= from,
        from + head.len() == range_at,
        buf.subrange(from, range_at) == head,
        head.len() > 0,
        head.last() == 10,
        pair_free(head, 47, 66),
        occurs_at(buf, byte_range_placeholder(), range_at),
        occurs_at(buf, text("\n/Contents "), range_at + 61),
        occurs_at(buf, contents_placeholder(), range_at + 72),
    ensures
        slot_position(buf, from) == Some(
            SlotPosition { range_at, start: range_at + 72, len: SIG_SLOT + 2 },
        ),
{
    let placeholder = byte_range_placeholder();
    let key = text("/Contents ");
    lemma_byte_range_placeholder();
    lemma_contents_key();
    lemma_contents_placeholder();
    // no placeholder in front of the one that was written
    assert forall|j: int| from <= j < range_at implies !occurs_at(buf, placeholder, j) by {
        if occurs_at(buf, placeholder, j) {
            let found = buf.subrange(j, j + 61);
            assert(found[0] == buf[j]);
            assert(found[1] == buf[j + 1]);
            assert(buf.subrange(from, range_at)[j - from] == buf[j]);
            if j + 1 < range_at {
                assert(buf.subrange(from, range_at)[j - from + 1] == buf[j + 1]);
            } else {
                assert(head[j - from] == head.last());
            }
        }
    }
    lemma_find_from_is(buf, placeholder, from, range_at);
    // the key follows the line feed behind the placeholder
    let behind = range_at + 61;
    let line = buf.subrange(behind, behind + 11);
    assert(line[0] == buf[behind]);
    assert(!occurs_at(buf, key, behind)) by {
        if occurs_at(buf, key, behind) {
            assert(buf.subrange(behind, behind + 10)[0] == buf[behind]);
        }
    }
    assert(occurs_at(buf, key, behind + 1)) by {
        assert(buf.subrange(behind + 1, behind + 11) =~= line.subrange(1, 11));
        assert(line.subrange(1, 11) =~= key);
    }
    lemma_find_from_is(buf, key, behind, behind + 1);
    // the slot opens behind the key
    let slot_at = range_at + 72;
    let written = buf.subrange(slot_at, slot_at + SIG_SLOT + 2);
    assert(written[0] == buf[slot_at]);
    lemma_byte_occurs(buf, 60, slot_at);
    assert forall|j: int| behind + 1 <= j < slot_at implies !occurs_at(buf, seq![60u8], j) by {
        lemma_byte_occurs(buf, 60, j);
        assert(line[j - behind] == buf[j]);
        assert(line[j - behind] == key[j - behind - 1]);
    }
    lemma_find_from_is(buf, seq![60u8], behind + 1, slot_at);
    // and closes behind its zeros
    let close_at = slot_at + SIG_SLOT + 1;
    assert(written[SIG_SLOT + 1] == buf[close_at]);
    lemma_byte_occurs(buf, 62, close_at);
    assert forall|j: int| slot_at <= j < close_at implies !occurs_at(buf, seq![62u8], j) by {
        lemma_byte_occurs(buf, 62, j);
        assert(written[j - slot_at] == buf[j]);
    }
    lemma_find_from_is(buf, seq![62u8], slot_at, close_at);
}

/// A byte range as it is written starts with `/` and holds no `D`.
pub proof fn lemma_byte_range_entry(start: nat, len: nat, total: nat)
    requires
        padded_entry(byte_range_entry(start, len, total)) is Some,
    ensures
        ({
            let entry = padded_entry(byte_range_entry(start, len, total))->0;
            &&& entry.len() == byte_range_placeholder().len()
            &&& entry[0] == 47
            &&& lacks(entry, 68)
        }),
{
    let open_text = text("/ByteRange [");
    let blank = text(" ");
    let close_text = text("]");
    reveal_strlit("/ByteRange [");
    is_ascii_spec_bytes("/ByteRange [");
    reveal_strlit(" ");
    is_ascii_spec_bytes(" ");
    reveal_strlit("]");
    is_ascii_spec_bytes("]");
    assert(lacks_upto(open_text, 68, 12)) by {
        reveal_with_fuel(lacks_upto, 13);
    }
    lemma_lacks_upto(open_text, 68, 12);
    assert(lacks(open_text, 68));
    assert(lacks(blank, 68));
    assert(lacks(close_text, 68));
    let last = (total - (start + len)) as nat;
    lemma_decimal(0);
    lemma_decimal(start);
    lemma_decimal(start + len);
    lemma_decimal(last);
    assert(lacks(decimal(0), 68));
    assert(lacks(decimal(start), 68));
    assert(lacks(decimal(start + len), 68));
    assert(lacks(decimal(last), 68));
    let joined_1 = open_text + decimal(0);
    lemma_lacks_joined(open_text, decimal(0), 68);
    let joined_2 = joined_1 + blank;
    lemma_lacks_joined(joined_1, blank, 68);
    let joined_3 = joined_2 + decimal(start);
    lemma_lacks_joined(joined_2, decimal(start), 68);
    let joined_4 = joined_3 + blank;
    lemma_lacks_joined(joined_3, blank, 68);
    let joined_5 = joined_4 + decimal(start + len);
    lemma_lacks_joined(joined_4, decimal(start + len), 68);
    let joined_6 = joined_5 + blank;
    lemma_lacks_joined(joined_5, blank, 68);
    let joined_7 = joined_6 + decimal(last);
    lemma_lacks_joined(joined_6, decimal(last), 68);
    let joined_8 = joined_7 + close_text;
    lemma_lacks_joined(joined_7, close_text, 68);
    assert(joined_8 == byte_range_entry(start, len, total));
    let pad = spaces((byte_range_placeholder().len() - joined_8.len()) as nat);
    assert(lacks(pad, 68));
    lemma_lacks_joined(joined_8, pad, 68);
    assert((joined_8 + pad)[0] == open_text[0]);
}

/// The signing date is never written over the byte range.
pub proof fn lemma_date_clear_of_byte_range(ranged: Seq<u8>, range_at: int, entry: Seq<u8>, at: int)
    requires
        0 <= range_at,
        range_at + entry.len() <= ranged.len(),
        ranged.subrange(range_at, range_at + entry.len()) == entry,
        entry.len() > 0,
        entry[0] == 47,
        lacks(entry, 68),
        occurs_at(ranged, date_placeholder(), at),
    ensures
        at + date_placeholder().len() <= range_at || range_at + entry.len() <= at,
{
    lemma_date_placeholder();
    let date = date_placeholder();
    let window = ranged.subrange(range_at, range_at + entry.len());
    let found = ranged.subrange(at, at + date.len());
    if range_at <= at < range_at + entry.len() {
        assert(window[at - range_at] == ranged[at]);
        assert(found[0] == ranged[at]);
    } else if at < range_at < at + date.len() {
        assert(window[0] == ranged[range_at]);
        assert(found[range_at - at] == ranged[range_at]);
    }
}

/// In a file that holds, from an offset on, a text without `D` and then
/// the date placeholder, the first date placeholder from that offset on
/// is that one.
pub proof fn lemma_date_exact(file: Seq<u8>, from: int, between: Seq<u8>, date_at: int)
    requires
        0 <= from,
        from + between.len() == date_at,
        file.subrange(from, date_at) == between,
        lacks(between, 68),
        occurs_at(file, date_placeholder(), date_at),
    ensures
        find_from(file, date_placeholder(), from) == Some(date_at),
{
    lemma_date_placeholder();
    let mark = date_placeholder();
    assert forall|j: int| from <= j < date_at implies !occurs_at(file, mark, j) by {
        if occurs_at(file, mark, j) {
            assert(file.subrange(j, j + mark.len())[0] == file[j]);
            assert(file.subrange(from, date_at)[j - from] == file[j]);
        }
    }
    lemma_find_from_is(file, mark, from, date_at);
}

/// Three values written in front of an offset leave what stands from that
/// offset on as it was.
pub proof fn lemma_kept_behind(
    buf: Seq<u8>,
    range_at: int,
    entry: Seq<u8>,
    date_at: int,
    date: Seq<u8>,
    slot_at: int,
    value: Seq<u8>,
    from: int,
)
    requires
        0 <= range_at,
        range_at + entry.len() <= from,
        0 <= date_at,
        date_at + date.len() <= from,
        0 <= slot_at,
        slot_at + value.len() <= from,
        from <= buf.len(),
    ensures
        ({
            let out = overwritten(
                overwritten(overwritten(buf, range_at, entry), date_at, date),
                slot_at,
                value,
            );
            &&& out.len() == buf.len()
            &&& forall|i: int| from <= i < buf.len() ==> out[i] == buf[i]
        }),
{
    let ranged = overwritten(buf, range_at, entry);
    let dated = overwritten(ranged, date_at, date);
    lemma_overwritten(buf, range_at, entry);
    lemma_overwritten(ranged, date_at, date);
    lemma_overwritten(dated, slot_at, value);
}

/// What stands in one file behind an offset stands in another file that
/// is the same from that offset on.
pub proof fn lemma_same_behind(buf: Seq<u8>, out: Seq<u8>, from: int, part: Seq<u8>, at: int)
    requires
        out.len() == buf.len(),
        0 <= from <= at,
        forall|i: int| from <= i < buf.len() ==> out[i] == buf[i],
        occurs_at(buf, part, at),
    ensures
        occurs_at(out, part, at),
{
    assert(out.subrange(at, at + part.len()) =~= buf.subrange(at, at + part.len()));
}

/// A numeral followed by a space, read as the first number of what
/// follows a space.
pub proof fn lemma_first_number_of_numeral(rest: Seq<u8>, n: nat, max: nat)
    requires
        n <= max,
        rest.len() > 1 + decimal(n).len(),
        rest[0] == 32,
        rest.subrange(1, 1 + decimal(n).len() as int) == decimal(n),
        rest[1 + decimal(n).len() as int] == 32,
    ensures
        first_number(rest, max) == Some(n),
{
    lemma_decimal(n);
    let d = decimal(n);
    let end = 1 + d.len() as int;
    assert forall|j: int| 1 <= j < end implies !is_space(#[trigger] rest[j]) by {
        assert(rest.subrange(1, end)[j - 1] == rest[j]);
        assert(is_digit(d[j - 1]));
    }
    lemma_token_end_is(rest, 1, end);
    assert(token_at(rest, 1) == d);
    assert(d[0] != 43) by {
        assert(is_digit(d[0]));
    }
    assert(unsigned_part(d) == d);
    assert(token_starts_at(rest, 1));
    assert(number_at(rest, 1, max) == Some(n));
    assert(number_at(rest, 0, max) is None);
    assert(first_number_from(rest, 1, max) == Some(n));
    assert(first_number_from(rest, 0, max) == first_number_from(rest, 1, max));
}

/// A run of bytes that are no white space, with white space behind it, is
/// a token.
pub proof fn lemma_token_end_is(s: Seq<u8>, i: int, end: int)
    requires
        0 <= i <= end < s.len(),
        forall|j: int| i <= j < end ==> !is_space(#[trigger] s[j]),
        is_space(s[end]),
    ensures
        token_end(s, i) == end,
    decreases end - i,
{
    if i < end {
        lemma_token_end_is(s, i + 1, end);
    }
}

/// The first number that a text writes is at most the bound given.
pub proof fn lemma_first_number_bound(s: Seq<u8>, i: int, max: nat)
    ensures
        first_number_from(s, i, max) matches Some(n) ==> n <= max,
    decreases s.len() - i,
{
    if 0 <= i < s.len() && number_at(s, i, max) is None {
        lemma_first_number_bound(s, i + 1, max);
    }
}

/// The catalog of a document has a number that fits the machine.
pub proof fn lemma_catalog_object_bound(s: Seq<u8>)
    ensures
        catalog_object(s) matches Some(n) ==> n <= usize::MAX,
{
    match last_occurrence(s, text("trailer")) {
        None => {},
        Some(trailer) => match find_from(s, text("/Root"), trailer) {
            None => {},
            Some(root) => {
                lemma_first_number_bound(
                    s.subrange(root + text("/Root").len(), s.len() as int),
                    0,
                    usize::MAX as nat,
                );
            },
        },
    }
}

/// The parts of a trailer as one sequence, and where `/Root` and the
/// number behind it stand.
pub proof fn lemma_trailer_parts(
    l1: Seq<u8>,
    d1: Seq<u8>,
    l2: Seq<u8>,
    d2: Seq<u8>,
    l3: Seq<u8>,
    d3: Seq<u8>,
    l4: Seq<u8>,
    d4: Seq<u8>,
    l5: Seq<u8>,
)
    requires
        l1.len() >= 1,
        l3.len() == 7,
        l4.len() >= 1,
    ensures
        ({
            let t = l1 + d1 + l2 + d2 + l3 + d3 + l4 + d4 + l5;
            let q = (l1.len() + d1.len() + l2.len() + d2.len()) as int;
            &&& t.subrange(1, t.len() as int) == l1.subrange(1, l1.len() as int) + d1 + l2 + d2
                + l3 + d3 + l4 + d4 + l5
            &&& t.subrange(0, q + 2) == l1 + d1 + l2 + d2 + l3.subrange(0, 2)
            &&& t.subrange(q + 1, q + 6) == l3.subrange(1, 6)
            &&& q + 6 < t.len()
            &&& t.subrange(q + 6, t.len() as int) == l3.subrange(6, 7) + d3 + l4 + d4 + l5
        }),
{
    let t = l1 + d1 + l2 + d2 + l3 + d3 + l4 + d4 + l5;
    let q = (l1.len() + d1.len() + l2.len() + d2.len()) as int;
    assert(t.subrange(1, t.len() as int) =~= l1.subrange(1, l1.len() as int) + d1 + l2 + d2 + l3
        + d3 + l4 + d4 + l5);
    assert(t.subrange(0, q + 2) =~= l1 + d1 + l2 + d2 + l3.subrange(0, 2));
    assert(t.subrange(q + 1, q + 6) =~= l3.subrange(1, 6));
    assert(t.subrange(q + 6, t.len() as int) =~= l3.subrange(6, 7) + d3 + l4 + d4 + l5);
}

/// What the texts of a trailer hold: where the letters of the `trailer`
/// keyword and of the `/Root` key stand in them.
proof fn lemma_trailer_texts()
    ensures
        ({
            let l1 = text("trailer\n<<\n/Size ");
            let l2 = text("\n/Prev ");
            let l3 = text("\n/Root ");
            let l4 = text(" 0 R\n>>\nstartxref\n");
            let l5 = text("\n%%EOF\n");
            let keyword = text("trailer");
            let root_key = text("/Root");
            &&& l1.len() == 17 && l2.len() == 7 && l3.len() == 7 && l4.len() == 18 && l5.len() == 7
            &&& keyword.len() == 7 && keyword[0] == 116 && keyword[1] == 114
            &&& root_key.len() == 5 && root_key[0] == 47 && root_key[1] == 82
            &&& l3.subrange(1, 6) == root_key
            &&& l3[0] == 10 && l3[1] == 47 && l3[6] == 32 && l4[0] == 32
            &&& lacks(l1.subrange(1, 17), 116)
            &&& pair_free(l2, 116, 114) && pair_free(l3, 116, 114) && pair_free(l4, 116, 114)
                && pair_free(l5, 116, 114)
            &&& l2[6] == 32 && l4[17] == 10
            &&& pair_free(l1, 47, 82) && pair_free(l2, 47, 82)
            &&& l1[16] == 32
        }),
{
    let l1 = text("trailer\n<<\n/Size ");
    let l2 = text("\n/Prev ");
    let l3 = text("\n/Root ");
    let l4 = text(" 0 R\n>>\nstartxref\n");
    let l5 = text("\n%%EOF\n");
    reveal_strlit("trailer\n<<\n/Size ");
    is_ascii_spec_bytes("trailer\n<<\n/Size ");
    reveal_strlit("\n/Prev ");
    is_ascii_spec_bytes("\n/Prev ");
    reveal_strlit("\n/Root ");
    is_ascii_spec_bytes("\n/Root ");
    reveal_strlit(" 0 R\n>>\nstartxref\n");
    is_ascii_spec_bytes(" 0 R\n>>\nstartxref\n");
    reveal_strlit("\n%%EOF\n");
    is_ascii_spec_bytes("\n%%EOF\n");
    reveal_strlit("trailer");
    is_ascii_spec_bytes("trailer");
    reveal_strlit("/Root");
    is_ascii_spec_bytes("/Root");
    assert(l3.subrange(1, 6) =~= text("/Root"));
    let l1_tail = l1.subrange(1, 17);
    assert(lacks_upto(l1_tail, 116, 16)) by {
        reveal_with_fuel(lacks_upto, 17);
    }
    lemma_lacks_upto(l1_tail, 116, 16);
    assert(pair_free_upto(l2, 116, 114, 6)) by {
        reveal_with_fuel(pair_free_upto, 7);
    }
    lemma_pair_free_upto(l2, 116, 114, 6);
    assert(pair_free_upto(l3, 116, 114, 6)) by {
        reveal_with_fuel(pair_free_upto, 7);
    }
    lemma_pair_free_upto(l3, 116, 114, 6);
    assert(pair_free_upto(l4, 116, 114, 17)) by {
        reveal_with_fuel(pair_free_upto, 18);
    }
    lemma_pair_free_upto(l4, 116, 114, 17);
    assert(pair_free_upto(l5, 116, 114, 6)) by {
        reveal_with_fuel(pair_free_upto, 7);
    }
    lemma_pair_free_upto(l5, 116, 114, 6);
    assert(pair_free_upto(l1, 47, 82, 16)) by {
        reveal_with_fuel(pair_free_upto, 17);
    }
    lemma_pair_free_upto(l1, 47, 82, 16);
    assert(pair_free_upto(l2, 47, 82, 6)) by {
        reveal_with_fuel(pair_free_upto, 7);
    }
    lemma_pair_free_upto(l2, 47, 82, 6);
}

/// In a text made of parts none of which holds the second byte of a
/// keyword behind its first, the keyword does not stand.
proof fn lemma_keyword_absent(
    l1: Seq<u8>,
    d1: Seq<u8>,
    l2: Seq<u8>,
    d2: Seq<u8>,
    l3: Seq<u8>,
    d3: Seq<u8>,
    l4: Seq<u8>,
    d4: Seq<u8>,
    l5: Seq<u8>,
    keyword: Seq<u8>,
    j: int,
)
    requires
        keyword.len() >= 2,
        lacks(l1, keyword[0]),
        lacks(d1, keyword[0]),
        lacks(d2, keyword[0]),
        lacks(d3, keyword[0]),
        lacks(d4, keyword[0]),
        pair_free(l2, keyword[0], keyword[1]),
        pair_free(l3, keyword[0], keyword[1]),
        pair_free(l4, keyword[0], keyword[1]),
        pair_free(l5, keyword[0], keyword[1]),
        l2.len() > 0 && l2.last() != keyword[0],
        l3.len() > 0 && l3.last() != keyword[0],
        l4.len() > 0 && l4.last() != keyword[0],
    ensures
        !occurs_at(l1 + d1 + l2 + d2 + l3 + d3 + l4 + d4 + l5, keyword, j),
{
    let a = keyword[0];
    let b = keyword[1];
    lemma_lacks_joined(l1, d1, a);
    assert(pair_free(l1 + d1, a, b));
    lemma_pair_free_joined(l1 + d1, l2, a, b);
    assert(pair_free(d2, a, b));
    lemma_pair_free_joined(l1 + d1 + l2, d2, a, b);
    assert((l1 + d1 + l2 + d2).len() > 0 ==> (l1 + d1 + l2 + d2).last() != a) by {
        if d2.len() > 0 {
            assert((l1 + d1 + l2 + d2).last() == d2.last());
        } else {
            assert(l1 + d1 + l2 + d2 =~= l1 + d1 + l2);
            assert((l1 + d1 + l2).last() == l2.last());
        }
    }
    lemma_pair_free_joined(l1 + d1 + l2 + d2, l3, a, b);
    assert(pair_free(d3, a, b));
    lemma_pair_free_joined(l1 + d1 + l2 + d2 + l3, d3, a, b);
    assert((l1 + d1 + l2 + d2 + l3 + d3).last() != a) by {
        if d3.len() > 0 {
            assert((l1 + d1 + l2 + d2 + l3 + d3).last() == d3.last());
        } else {
            assert(l1 + d1 + l2 + d2 + l3 + d3 =~= l1 + d1 + l2 + d2 + l3);
            assert((l1 + d1 + l2 + d2 + l3).last() == l3.last());
        }
    }
    lemma_pair_free_joined(l1 + d1 + l2 + d2 + l3 + d3, l4, a, b);
    assert(pair_free(d4, a, b));
    lemma_pair_free_joined(l1 + d1 + l2 + d2 + l3 + d3 + l4, d4, a, b);
    assert((l1 + d1 + l2 + d2 + l3 + d3 + l4 + d4).last() != a) by {
        if d4.len() > 0 {
            assert((l1 + d1 + l2 + d2 + l3 + d3 + l4 + d4).last() == d4.last());
        } else {
            assert(l1 + d1 + l2 + d2 + l3 + d3 + l4 + d4 =~= l1 + d1 + l2 + d2 + l3 + d3 + l4);
            assert((l1 + d1 + l2 + d2 + l3 + d3 + l4).last() == l4.last());
        }
    }
    lemma_pair_free_joined(l1 + d1 + l2 + d2 + l3 + d3 + l4 + d4, l5, a, b);
    lemma_pair_free_no_occurrence(l1 + d1 + l2 + d2 + l3 + d3 + l4 + d4 + l5, keyword, j);
}

/// In front of the `/Root` key of a trailer no `/Root` stands.
proof fn lemma_root_first(
    l1: Seq<u8>,
    d1: Seq<u8>,
    l2: Seq<u8>,
    d2: Seq<u8>,
    l3_head: Seq<u8>,
    root_key: Seq<u8>,
    t: Seq<u8>,
    j: int,
)
    requires
        root_key.len() >= 2,
        root_key[0] == 47,
        root_key[1] == 82,
        pair_free(l1, 47, 82),
        pair_free(l2, 47, 82),
        lacks(d1, 47),
        lacks(d2, 47),
        l1.len() > 0 && l1.last() != 47,
        l2.len() > 0 && l2.last() != 47,
        l3_head.len() == 2 && l3_head[0] == 10 && l3_head[1] == 47,
        (l1 + d1 + l2 + d2 + l3_head).len() <= t.len(),
        t.subrange(0, (l1 + d1 + l2 + d2 + l3_head).len() as int) == l1 + d1 + l2 + d2 + l3_head,
        0 <= j < (l1 + d1 + l2 + d2).len() + 1,
    ensures
        !occurs_at(t, root_key, j),
{
    let front = l1 + d1 + l2 + d2 + l3_head;
    assert(pair_free(d1, 47, 82));
    assert(pair_free(d2, 47, 82));
    assert(pair_free(l3_head, 47, 82));
    lemma_pair_free_joined(l1, d1, 47, 82);
    lemma_pair_free_joined(l1 + d1, l2, 47, 82);
    lemma_pair_free_joined(l1 + d1 + l2, d2, 47, 82);
    lemma_pair_free_joined(l1 + d1 + l2 + d2, l3_head, 47, 82);
    if occurs_at(t, root_key, j) {
        let found = t.subrange(j, j + root_key.len());
        assert(found[0] == t[j]);
        assert(found[1] == t[j + 1]);
        assert(t.subrange(0, front.len() as int)[j] == t[j]);
        assert(t.subrange(0, front.len() as int)[j + 1] == t[j + 1]);
    }
}

/// In a trailer the keyword stands at the start only, the first `/Root`
/// is the one that the trailer writes, and the first number behind it is
/// the number of the catalog.
pub proof fn lemma_trailer_read_back(n: nat, prev_xref: nat, catalog_obj: nat, xref_at: nat)
    requires
        catalog_obj <= usize::MAX,
    ensures
        ({
            let t = trailer_section(n, prev_xref, catalog_obj, xref_at);
            &&& occurs_at(t, text("trailer"), 0)
            &&& forall|j: int| 0 < j ==> !occurs_at(t, text("trailer"), j)
            &&& find_from(t, text("/Root"), 0) matches Some(root) && first_number(
                t.subrange(root + text("/Root").len(), t.len() as int),
                usize::MAX as nat,
            ) == Some(catalog_obj)
        }),
{
    let t = trailer_section(n, prev_xref, catalog_obj, xref_at);
    let l1 = text("trailer\n<<\n/Size ");
    let d1 = decimal(n + 3);
    let l2 = text("\n/Prev ");
    let d2 = decimal(prev_xref);
    let l3 = text("\n/Root ");
    let d3 = decimal(catalog_obj);
    let l4 = text(" 0 R\n>>\nstartxref\n");
    let d4 = decimal(xref_at);
    let l5 = text("\n%%EOF\n");
    let keyword = text("trailer");
    let root_key = text("/Root");
    lemma_trailer_texts();
    lemma_decimal(n + 3);
    lemma_decimal(prev_xref);
    lemma_decimal(catalog_obj);
    lemma_decimal(xref_at);
    lemma_trailer_parts(l1, d1, l2, d2, l3, d3, l4, d4, l5);
    lemma_trailer_shape(n, prev_xref, catalog_obj, xref_at);
    let q = (l1.len() + d1.len() + l2.len() + d2.len()) as int;
    let l1_tail = l1.subrange(1, 17);
    let tail = t.subrange(1, t.len() as int);
    assert(lacks(d1, 116) && lacks(d2, 116) && lacks(d3, 116) && lacks(d4, 116));
    assert forall|j: int| 0 < j implies !occurs_at(t, keyword, j) by {
        if occurs_at(t, keyword, j) {
            assert(tail.subrange(j - 1, j - 1 + keyword.len()) =~= t.subrange(
                j,
                j + keyword.len(),
            ));
            lemma_keyword_absent(l1_tail, d1, l2, d2, l3, d3, l4, d4, l5, keyword, j - 1);
        }
    }
    assert(lacks(d1, 47) && lacks(d2, 47));
    let l3_head = l3.subrange(0, 2);
    assert(occurs_at(t, root_key, q + 1));
    assert forall|j: int| 0 <= j < q + 1 implies !occurs_at(t, root_key, j) by {
        lemma_root_first(l1, d1, l2, d2, l3_head, root_key, t, j);
    }
    lemma_find_from_is(t, root_key, 0, q + 1);
    let rest = t.subrange(q + 6, t.len() as int);
    assert(rest[0] == 32);
    assert(rest.subrange(1, 1 + d3.len() as int) =~= d3);
    assert(rest[1 + d3.len() as int] == l4[0]);
    lemma_first_number_of_numeral(rest, catalog_obj, usize::MAX as nat);
}

/// A trailer starts with the `trailer` keyword and ends with the `%%EOF`
/// line.
pub proof fn lemma_trailer_shape(n: nat, prev_xref: nat, catalog_obj: nat, xref_at: nat)
    ensures
        ({
            let trailer = trailer_section(n, prev_xref, catalog_obj, xref_at);
            &&& occurs_at(trailer, text("trailer"), 0)
            &&& occurs_at(trailer, text("%%EOF\n"), trailer.len() - text("%%EOF\n").len())
        }),
{
    let trailer = trailer_section(n, prev_xref, catalog_obj, xref_at);
    let first = text("trailer\n<<\n/Size ");
    let keyword = text("trailer");
    let last = text("\n%%EOF\n");
    let eof = text("%%EOF\n");
    reveal_strlit("trailer\n<<\n/Size ");
    is_ascii_spec_bytes("trailer\n<<\n/Size ");
    reveal_strlit("trailer");
    is_ascii_spec_bytes("trailer");
    reveal_strlit("\n%%EOF\n");
    is_ascii_spec_bytes("\n%%EOF\n");
    reveal_strlit("%%EOF\n");
    is_ascii_spec_bytes("%%EOF\n");
    assert(first.subrange(0, 7) =~= keyword);
    assert(trailer.subrange(0, 7) =~= first.subrange(0, 7));
    assert(last.subrange(1, 7) =~= eof);
    assert(trailer.subrange(trailer.len() - 6, trailer.len() as int) =~= last.subrange(1, 7));
}

/// A file that ends with a trailer is read back as the trailer is: its
/// last `trailer` keyword is that of the trailer, and the catalog that it
/// names is the one that the trailer names.
pub proof fn lemma_read_back_in_file(out: Seq<u8>, t: Seq<u8>, catalog_obj: nat)
    requires
        t.len() <= out.len(),
        out.subrange(out.len() - t.len(), out.len() as int) == t,
        occurs_at(t, text("trailer"), 0),
        forall|j: int| 0 < j ==> !occurs_at(t, text("trailer"), j),
        find_from(t, text("/Root"), 0) matches Some(root) && first_number(
            t.subrange(root + text("/Root").len(), t.len() as int),
            usize::MAX as nat,
        ) == Some(catalog_obj),
    ensures
        last_occurrence(out, text("trailer")) == Some(out.len() - t.len()),
        catalog_from_trailer(out) == Some(catalog_obj),
{
    let at = out.len() - t.len();
    let keyword = text("trailer");
    let root_key = text("/Root");
    lemma_find_from(t, root_key, 0);
    let root = find_from(t, root_key, 0)->0;
    assert(occurs_at(out, keyword, at)) by {
        assert(out.subrange(at, at + keyword.len()) =~= t.subrange(0, keyword.len() as int));
    }
    assert forall|j: int| at < j implies !occurs_at(out, keyword, j) by {
        if occurs_at(out, keyword, j) {
            assert(t.subrange(j - at, j - at + keyword.len()) =~= out.subrange(
                j,
                j + keyword.len(),
            ));
            assert(occurs_at(t, keyword, j - at));
        }
    }
    lemma_last_occurrence_is(out, keyword, at);
    assert(occurs_at(out, root_key, at + root)) by {
        assert(out.subrange(at + root, at + root + root_key.len()) =~= t.subrange(
            root,
            root + root_key.len(),
        ));
    }
    assert forall|j: int| at <= j < at + root implies !occurs_at(out, root_key, j) by {
        if occurs_at(out, root_key, j) {
            assert(t.subrange(j - at, j - at + root_key.len()) =~= out.subrange(
                j,
                j + root_key.len(),
            ));
            assert(occurs_at(t, root_key, j - at));
        }
    }
    lemma_find_from_is(out, root_key, at, at + root);
    assert(out.subrange(at + root + root_key.len(), out.len() as int) =~= t.subrange(
        root + root_key.len(),
        t.len() as int,
    ));
}

/// Line ends behind a document do not show in what is left once the line
/// ends at its end are dropped.
pub proof fn lemma_line_ends_dropped(pdf: Seq<u8>, tail: Seq<u8>)
    requires
        forall|i: int| 0 <= i < tail.len() ==> is_line_end(#[trigger] tail[i]),
    ensures
        without_trailing_newlines(pdf + tail) == without_trailing_newlines(pdf),
    decreases tail.len(),
{
    if tail.len() == 0 {
        assert(pdf + tail =~= pdf);
    } else {
        let shorter = tail.drop_last();
        assert((pdf + tail).drop_last() =~= pdf + shorter);
        assert((pdf + tail).last() == tail.last());
        assert(is_line_end(tail[tail.len() - 1]));
        assert forall|i: int| 0 <= i < shorter.len() implies is_line_end(#[trigger] shorter[i]) by {
            assert(shorter[i] == tail[i]);
        }
        lemma_line_ends_dropped(pdf, shorter);
    }
}

/// A number below `10^14` has at most 14 digits.
pub proof fn lemma_decimal_len_14(n: nat)
    requires
        n < 100_000_000_000_000,
    ensures
        decimal(n).len() <= 14,
{
    reveal_with_fuel(decimal, 15);
}

/// The byte range of a file of less than `10^14` bytes fits its
/// placeholder.
pub proof fn lemma_byte_range_fits(start: nat, len: nat, total: nat)
    requires
        start + len <= total,
        total < 100_000_000_000_000,
    ensures
        padded_entry(byte_range_entry(start, len, total)) is Some,
{
    reveal_strlit("/ByteRange [");
    is_ascii_spec_bytes("/ByteRange [");
    reveal_strlit(" ");
    is_ascii_spec_bytes(" ");
    reveal_strlit("]");
    is_ascii_spec_bytes("]");
    lemma_byte_range_placeholder();
    lemma_decimal_len_14(start);
    lemma_decimal_len_14(start + len);
    lemma_decimal_len_14((total - (start + len)) as nat);
    assert(decimal(0).len() == 1) by {
        reveal_with_fuel(decimal, 2);
    }
}

/// A trailer ends with the `startxref` keyword on a line of its own, the
/// offset of the cross-reference section on the next, and the `%%EOF`
/// line.
pub proof fn lemma_trailer_tail(n: nat, prev_xref: nat, catalog_obj: nat, xref_at: nat)
    ensures
        ({
            let t = trailer_section(n, prev_xref, catalog_obj, xref_at);
            let tail = text("startxref\n") + decimal(xref_at) + text("\n%%EOF\n");
            &&& tail.len() <= t.len()
            &&& t.subrange(t.len() - tail.len(), t.len() as int) == tail
        }),
{
    let t = trailer_section(n, prev_xref, catalog_obj, xref_at);
    let l4 = text(" 0 R\n>>\nstartxref\n");
    let keyword = text("startxref\n");
    let tail = keyword + decimal(xref_at) + text("\n%%EOF\n");
    reveal_strlit(" 0 R\n>>\nstartxref\n");
    is_ascii_spec_bytes(" 0 R\n>>\nstartxref\n");
    reveal_strlit("startxref\n");
    is_ascii_spec_bytes("startxref\n");
    assert(l4.subrange(8, 18) =~= keyword);
    let front = text("trailer\n<<\n/Size ") + decimal(n + 3) + text("\n/Prev ") + decimal(
        prev_xref,
    ) + text("\n/Root ") + decimal(catalog_obj);
    lemma_cut_tail(front, l4, 8, decimal(xref_at), text("\n%%EOF\n"));
}

/// The end of a text made of a front, a middle and two more parts, from
/// an offset in the middle on.
proof fn lemma_cut_tail(front: Seq<u8>, middle: Seq<u8>, cut: int, a: Seq<u8>, b: Seq<u8>)
    requires
        0 <= cut <= middle.len(),
    ensures
        ({
            let whole = front + middle + a + b;
            let tail = middle.subrange(cut, middle.len() as int) + a + b;
            &&& tail.len() <= whole.len()
            &&& whole.subrange(whole.len() - tail.len(), whole.len() as int) == tail
        }),
{
    let whole = front + middle + a + b;
    let tail = middle.subrange(cut, middle.len() as int) + a + b;
    assert(whole.subrange(whole.len() - tail.len(), whole.len() as int) =~= tail);
}

/// A cross-reference section starts with the `xref` keyword on a line of
/// its own.
pub proof fn lemma_xref_head(
    catalog_obj: nat,
    n: nat,
    catalog_at: nat,
    sig_at: nat,
    acroform_at: nat,
    widget_at: nat,
)
    ensures
        occurs_at(
            xref_section(catalog_obj, n, catalog_at, sig_at, acroform_at, widget_at),
            text("xref\n"),
            0,
        ),
{
    let xref = xref_section(catalog_obj, n, catalog_at, sig_at, acroform_at, widget_at);
    let head = text("xref\n0 1\n0000000000 65535 f \n");
    reveal_strlit("xref\n0 1\n0000000000 65535 f \n");
    is_ascii_spec_bytes("xref\n0 1\n0000000000 65535 f \n");
    reveal_strlit("xref\n");
    is_ascii_spec_bytes("xref\n");
    assert(head.subrange(0, 5) =~= text("xref\n"));
    assert(xref.subrange(0, 5) =~= head.subrange(0, 5));
}

/// Where a part stands, a start of the part stands.
pub proof fn lemma_start_of_part(hay: Seq<u8>, part: Seq<u8>, at: int, start: Seq<u8>)
    requires
        occurs_at(hay, part, at),
        occurs_at(part, start, 0),
    ensures
        occurs_at(hay, start, at),
{
    assert(hay.subrange(at, at + start.len()) =~= hay.subrange(at, at + part.len()).subrange(
        0,
        start.len() as int,
    ));
}

/// The offset behind the last `startxref` is read back: a file that ends
/// with the keyword on a line of its own, a numeral on the next and the
/// `%%EOF` line has the number that the numeral writes as the offset of
/// its last cross-reference section.
pub proof fn lemma_startxref_read_back(out: Seq<u8>, x: nat)
    requires
        x <= usize::MAX,
        ({
            let tail = text("startxref\n") + decimal(x) + text("\n%%EOF\n");
            tail.len() <= out.len() && out.subrange(out.len() - tail.len(), out.len() as int)
                == tail
        }),
    ensures
        previous_xref(out) == x,
{
    reveal_strlit("startxref\n");
    is_ascii_spec_bytes("startxref\n");
    reveal_strlit("startxref");
    is_ascii_spec_bytes("startxref");
    reveal_strlit("\n%%EOF\n");
    is_ascii_spec_bytes("\n%%EOF\n");
    lemma_decimal(x);
    let keyword = text("startxref");
    let line = text("startxref\n");
    let closing = text("\n%%EOF\n");
    let d = decimal(x);
    let width = d.len() as int;
    let tail = line + d + closing;
    let p = out.len() - tail.len();
    assert forall|k: int| 0 <= k < tail.len() implies #[trigger] tail[k] == out[p + k] by {
        assert(out.subrange(p, out.len() as int)[k] == out[p + k]);
    }
    assert forall|k: int| 1 <= k < tail.len() implies #[trigger] tail[k] != 115 by {
        if k < 10 {
            assert(tail[k] == line[k]);
        } else if k < 10 + width {
            assert(tail[k] == d[k - 10]);
            assert(is_digit(d[k - 10]));
        } else {
            assert(tail[k] == closing[k - 10 - width]);
        }
    }
    assert forall|k: int| 0 <= k < 9 implies out.subrange(p, p + 9)[k] == keyword[k] by {
        assert(out[p + k] == tail[k]);
        assert(tail[k] == line[k]);
    }
    assert(out.subrange(p, p + 9) =~= keyword);
    assert forall|j: int| p < j implies !occurs_at(out, keyword, j) by {
        if occurs_at(out, keyword, j) {
            assert(out.subrange(j, j + 9)[0] == out[j]);
            assert(out[j] == tail[j - p]);
        }
    }
    lemma_last_occurrence_is(out, keyword, p);
    let rest = out.subrange(p + 9, out.len() as int);
    assert(rest.len() == 1 + width + 7);
    assert(rest[0] == tail[9]);
    assert(tail[9] == line[9]);
    assert forall|j: int| 1 <= j < 1 + width implies !is_space(#[trigger] rest[j]) by {
        assert(rest[j] == tail[9 + j]);
        assert(tail[9 + j] == d[j - 1]);
        assert(is_digit(d[j - 1]));
    }
    assert(rest[1 + width] == tail[10 + width]);
    assert(tail[10 + width] == closing[0]);
    assert(skip_spaces(rest, 0) == 1) by {
        reveal_with_fuel(skip_spaces, 3);
        assert(!is_space(rest[1]));
    }
    lemma_token_end_is(rest, 1, 1 + width);
    assert forall|k: int| 0 <= k < width implies token_at(rest, 1)[k] == d[k] by {
        assert(rest[1 + k] == tail[10 + k]);
        assert(tail[10 + k] == d[k]);
    }
    assert(token_at(rest, 1) =~= d);
    assert(is_digit(d[0]));
    assert(unsigned_part(d) == d);
}

} // verus!
