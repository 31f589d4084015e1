//! Where the parts of an update stand in a layout.

use crate::assembler::{
    acroform_object, acroform_offset, byte_range_placeholder, catalog_offset, contents_placeholder,
    date_placeholder, laid_out, signature_head, signature_middle, signature_object,
    signature_offset, signature_tail, trailer_section, updated_catalog, widget_object,
    widget_offset, xref_offset, xref_section, SignatureTexts, SIG_SLOT,
};
use crate::decimal::{decimal, lemma_decimal};
use crate::probe::Coordinates;
use crate::scanner::{occurs_at, text};
use crate::sequences::{
    lacks, lacks_upto, lemma_lacks_joined, lemma_lacks_upto, lemma_pair_free_joined,
    lemma_pair_free_upto, pair_free, pair_free_upto,
};
use vstd::prelude::*;
use vstd::string::*;

verus! {

/// The byte range placeholder is 61 bytes long, starts with `/B` and holds
/// no line feed.
pub proof fn lemma_byte_range_placeholder()
    ensures
        byte_range_placeholder().len() == 61,
        byte_range_placeholder()[0] == 47,
        byte_range_placeholder()[1] == 66,
        lacks(byte_range_placeholder(), 10),
{
    reveal_strlit("/ByteRange [0000000 0000000 0000000 0000000]                 ");
    is_ascii_spec_bytes("/ByteRange [0000000 0000000 0000000 0000000]                 ");
    let p = byte_range_placeholder();
    assert(p.len() == 61);
    assert(lacks_upto(p, 10, 16)) by {
        reveal_with_fuel(lacks_upto, 17);
    }
    assert(lacks_upto(p, 10, 32)) by {
        reveal_with_fuel(lacks_upto, 17);
    }
    assert(lacks_upto(p, 10, 48)) by {
        reveal_with_fuel(lacks_upto, 17);
    }
    assert(lacks_upto(p, 10, 61)) by {
        reveal_with_fuel(lacks_upto, 14);
    }
    lemma_lacks_upto(p, 10, 61);
}

/// The date placeholder is 17 bytes long, starts with `D` and holds no
/// line feed, no `/` and no `)`.
pub proof fn lemma_date_placeholder()
    ensures
        date_placeholder().len() == 17,
        date_placeholder()[0] == 68,
        lacks(date_placeholder(), 10),
        lacks(date_placeholder(), 47),
        lacks(date_placeholder(), 41),
{
    reveal_strlit("D:00000000000000Z");
    is_ascii_spec_bytes("D:00000000000000Z");
    let p = date_placeholder();
    assert(p.len() == 17);
    assert(lacks_upto(p, 10, 17)) by {
        reveal_with_fuel(lacks_upto, 18);
    }
    assert(lacks_upto(p, 47, 17)) by {
        reveal_with_fuel(lacks_upto, 18);
    }
    assert(lacks_upto(p, 41, 17)) by {
        reveal_with_fuel(lacks_upto, 18);
    }
    lemma_lacks_upto(p, 10, 17);
    lemma_lacks_upto(p, 47, 17);
    lemma_lacks_upto(p, 41, 17);
}

/// The line with the `/Contents ` key is a line feed and the key; the key
/// is 10 bytes long and holds no `<` and no `D`.
pub proof fn lemma_contents_key()
    ensures
        text("/Contents ").len() == 10,
        text("\n/Contents ").len() == 11,
        text("\n/Contents ") == seq![10u8] + text("/Contents "),
        text("/Contents ")[0] == 47,
        lacks(text("/Contents "), 60),
        lacks(text("\n/Contents "), 68),
{
    reveal_strlit("\n/Contents ");
    is_ascii_spec_bytes("\n/Contents ");
    reveal_strlit("/Contents ");
    is_ascii_spec_bytes("/Contents ");
    assert(text("\n/Contents ") =~= seq![10u8] + text("/Contents "));
    assert(lacks_upto(text("/Contents "), 60, 10)) by {
        reveal_with_fuel(lacks_upto, 11);
    }
    lemma_lacks_upto(text("/Contents "), 60, 10);
    assert(lacks_upto(text("\n/Contents "), 68, 11)) by {
        reveal_with_fuel(lacks_upto, 12);
    }
    lemma_lacks_upto(text("\n/Contents "), 68, 11);
}

/// The slot as it is first written is `SIG_SLOT + 2` bytes long, opens
/// with `<`, closes with `>` and holds zero digits between them.
pub proof fn lemma_contents_placeholder()
    ensures
        contents_placeholder().len() == SIG_SLOT + 2,
        contents_placeholder()[0] == 60,
        contents_placeholder()[SIG_SLOT + 1] == 62,
        forall|i: int| 1 <= i <= SIG_SLOT ==> #[trigger] contents_placeholder()[i] == 48,
        lacks(contents_placeholder(), 68),
{
}

/// The head of the signature dictionary ends with a line feed, holds no
/// `D`, and nowhere in it does `B` follow `/`.
pub proof fn lemma_signature_head(n: nat)
    ensures
        signature_head(n).len() > 0,
        signature_head(n).last() == 10,
        lacks(signature_head(n), 68),
        pair_free(signature_head(n), 47, 66),
{
    let lit = text(
        " 0 obj\n<<\n/Type /Sig\n/Filter /Adobe.PPKLite\n/SubFilter /adbe.pkcs7.detached\n",
    );
    reveal_strlit(
        " 0 obj\n<<\n/Type /Sig\n/Filter /Adobe.PPKLite\n/SubFilter /adbe.pkcs7.detached\n",
    );
    is_ascii_spec_bytes(
        " 0 obj\n<<\n/Type /Sig\n/Filter /Adobe.PPKLite\n/SubFilter /adbe.pkcs7.detached\n",
    );
    assert(lit.len() == 76);
    assert(lacks_upto(lit, 68, 16)) by {
        reveal_with_fuel(lacks_upto, 17);
    }
    assert(lacks_upto(lit, 68, 32)) by {
        reveal_with_fuel(lacks_upto, 17);
    }
    assert(lacks_upto(lit, 68, 48)) by {
        reveal_with_fuel(lacks_upto, 17);
    }
    assert(lacks_upto(lit, 68, 64)) by {
        reveal_with_fuel(lacks_upto, 17);
    }
    assert(lacks_upto(lit, 68, 76)) by {
        reveal_with_fuel(lacks_upto, 13);
    }
    lemma_lacks_upto(lit, 68, 76);
    assert(lacks(lit, 68));
    assert(pair_free_upto(lit, 47, 66, 16)) by {
        reveal_with_fuel(pair_free_upto, 17);
    }
    assert(pair_free_upto(lit, 47, 66, 32)) by {
        reveal_with_fuel(pair_free_upto, 17);
    }
    assert(pair_free_upto(lit, 47, 66, 48)) by {
        reveal_with_fuel(pair_free_upto, 17);
    }
    assert(pair_free_upto(lit, 47, 66, 64)) by {
        reveal_with_fuel(pair_free_upto, 17);
    }
    assert(pair_free_upto(lit, 47, 66, 75)) by {
        reveal_with_fuel(pair_free_upto, 12);
    }
    lemma_pair_free_upto(lit, 47, 66, 75);
    assert(pair_free(lit, 47, 66));
    lemma_decimal(n);
    assert(lacks(decimal(n), 68));
    assert(pair_free(decimal(n), 47, 66));
    lemma_lacks_joined(decimal(n), lit, 68);
    lemma_pair_free_joined(decimal(n), lit, 47, 66);
    assert(signature_head(n).last() == lit[75]);
}

/// What stands between the slot and the date in the signature dictionary
/// is a text without `D`, the reason, and a text without `D` that starts
/// with `)`.
pub proof fn lemma_signature_middle(texts: SignatureTexts)
    ensures
        signature_middle(texts) == text("\n/Reason (") + texts.reason + text(")\n/M ("),
        lacks(text("\n/Reason ("), 68),
        lacks(text(")\n/M ("), 68),
        text("\n/Reason (").len() == 10,
        text(")\n/M (").len() == 6,
        text(")\n/M (")[0] == 41,
{
    reveal_strlit("\n/Reason (");
    is_ascii_spec_bytes("\n/Reason (");
    reveal_strlit(")\n/M (");
    is_ascii_spec_bytes(")\n/M (");
    assert(lacks_upto(text("\n/Reason ("), 68, 10)) by {
        reveal_with_fuel(lacks_upto, 11);
    }
    lemma_lacks_upto(text("\n/Reason ("), 68, 10);
    assert(lacks_upto(text(")\n/M ("), 68, 6)) by {
        reveal_with_fuel(lacks_upto, 7);
    }
    lemma_lacks_upto(text(")\n/M ("), 68, 6);
}

/// What follows the signature dictionary in an update, up to the trailer:
/// the interactive form, the signature field, the replacement catalog and
/// the cross-reference section.
#[verifier::opaque]
pub open spec fn update_rest(pdf: Seq<u8>, c: Coordinates, texts: SignatureTexts) -> Seq<u8> {
    acroform_object(c.next_obj) + widget_object(c.next_obj, c.first_page_obj) + updated_catalog(
        c.catalog_obj,
        c.pages_ref,
        c.next_obj + 1,
        c.extras,
    ) + update_xref(pdf, c, texts)
}

/// The cross-reference section of the update of a document.
pub open spec fn update_xref(pdf: Seq<u8>, c: Coordinates, texts: SignatureTexts) -> Seq<u8> {
    xref_section(
        c.catalog_obj,
        c.next_obj,
        catalog_offset(pdf.len(), c, texts),
        signature_offset(pdf.len()),
        acroform_offset(pdf.len(), c, texts),
        widget_offset(pdf.len(), c, texts),
    )
}

/// The trailer of the update of a document.
pub open spec fn update_trailer(pdf: Seq<u8>, c: Coordinates, texts: SignatureTexts) -> Seq<u8> {
    trailer_section(c.next_obj, c.prev_xref, c.catalog_obj, xref_offset(pdf.len(), c, texts))
}

/// Where the parts of the update stand in a layout.
pub struct Landmarks {
    /// Offset of the line feed behind the document.
    pub line_feed_at: int,
    /// Offset of the byte range placeholder.
    pub range_at: int,
    /// Offset of the `<` that opens the slot.
    pub slot_at: int,
    /// Offset of the date placeholder.
    pub date_at: int,
    /// Offset of the interactive form, the first object behind the
    /// signature dictionary.
    pub rest_at: int,
    /// Offset of the trailer.
    pub trailer_at: int,
    /// Length of the layout.
    pub end: int,
}

/// The landmarks of the layout of a document.
#[verifier::opaque]
pub open spec fn landmarks(pdf: Seq<u8>, c: Coordinates, texts: SignatureTexts) -> Landmarks {
    let line_feed_at = pdf.len() as int;
    let range_at = line_feed_at + 1 + signature_head(c.next_obj).len();
    let slot_at = range_at + byte_range_placeholder().len() + text("\n/Contents ").len();
    let date_at = slot_at + contents_placeholder().len() + signature_middle(texts).len();
    let rest_at = date_at + date_placeholder().len() + signature_tail(texts).len();
    let trailer_at = rest_at + update_rest(pdf, c, texts).len();
    let end = trailer_at + update_trailer(pdf, c, texts).len();
    Landmarks { line_feed_at, range_at, slot_at, date_at, rest_at, trailer_at, end }
}

/// Where the parts of an object stand in a file that holds the object
/// between a prefix and what follows it.
proof fn lemma_file_parts(
    prefix: Seq<u8>,
    head: Seq<u8>,
    first: Seq<u8>,
    gap: Seq<u8>,
    second: Seq<u8>,
    middle: Seq<u8>,
    third: Seq<u8>,
    tail: Seq<u8>,
    rest: Seq<u8>,
    end: Seq<u8>,
)
    ensures
        ({
            let file = prefix + (head + first + gap + second + middle + third + tail) + rest + end;
            let head_at = prefix.len() as int;
            let first_at = head_at + head.len();
            let gap_at = first_at + first.len();
            let second_at = gap_at + gap.len();
            let middle_at = second_at + second.len();
            let third_at = middle_at + middle.len();
            let rest_at = third_at + third.len() + tail.len();
            let end_at = rest_at + rest.len();
            &&& file.len() == end_at + end.len()
            &&& file.subrange(0, head_at) == prefix
            &&& file.subrange(head_at, first_at) == head
            &&& occurs_at(file, first, first_at)
            &&& occurs_at(file, gap, gap_at)
            &&& occurs_at(file, second, second_at)
            &&& file.subrange(middle_at, third_at) == middle
            &&& occurs_at(file, third, third_at)
            &&& file.subrange(third_at + third.len(), rest_at) == tail
            &&& file.subrange(rest_at, end_at) == rest
            &&& file.subrange(end_at, file.len() as int) == end
        }),
{
    let file = prefix + (head + first + gap + second + middle + third + tail) + rest + end;
    let head_at = prefix.len() as int;
    let first_at = head_at + head.len();
    let gap_at = first_at + first.len();
    let second_at = gap_at + gap.len();
    let middle_at = second_at + second.len();
    let third_at = middle_at + middle.len();
    let rest_at = third_at + third.len() + tail.len();
    let end_at = rest_at + rest.len();
    assert(file.subrange(0, head_at) =~= prefix);
    assert(file.subrange(head_at, first_at) =~= head);
    assert(file.subrange(first_at, first_at + first.len()) =~= first);
    assert(file.subrange(gap_at, gap_at + gap.len()) =~= gap);
    assert(file.subrange(second_at, second_at + second.len()) =~= second);
    assert(file.subrange(middle_at, third_at) =~= middle);
    assert(file.subrange(third_at, third_at + third.len()) =~= third);
    assert(file.subrange(third_at + third.len(), rest_at) =~= tail);
    assert(file.subrange(rest_at, end_at) =~= rest);
    assert(file.subrange(end_at, file.len() as int) =~= end);
}

/// Objects written one after another, seen as the first and the rest.
proof fn lemma_regroup(
    prefix: Seq<u8>,
    a: Seq<u8>,
    b: Seq<u8>,
    c: Seq<u8>,
    d: Seq<u8>,
    e: Seq<u8>,
    end: Seq<u8>,
)
    ensures
        prefix + (a + b + c + d) + e + end == prefix + a + (b + c + d + e) + end,
{
    assert(prefix + (a + b + c + d) + e + end =~= prefix + a + (b + c + d + e) + end);
}

/// The layout is the document, a line feed, the signature dictionary, the
/// rest of the update and the trailer.
proof fn lemma_layout_split(pdf: Seq<u8>, c: Coordinates, texts: SignatureTexts)
    ensures
        laid_out(pdf, c, texts) == (pdf + seq![10u8]) + signature_object(c.next_obj, texts)
            + update_rest(pdf, c, texts) + update_trailer(pdf, c, texts),
{
    let n = c.next_obj;
    reveal(laid_out);
    reveal(update_rest);
    lemma_regroup(
        pdf + seq![10u8],
        signature_object(n, texts),
        acroform_object(n),
        widget_object(n, c.first_page_obj),
        updated_catalog(c.catalog_obj, c.pages_ref, n + 1, c.extras),
        update_xref(pdf, c, texts),
        update_trailer(pdf, c, texts),
    );
}

/// The shape of a layout: the document, a line feed, the head of the
/// signature dictionary, the byte range placeholder, the line with the
/// `/Contents ` key, the slot, the reason, the date placeholder, the end of
/// the signature dictionary, the rest of the update and the trailer stand
/// at the landmarks, in this order.
pub proof fn lemma_layout_shape(pdf: Seq<u8>, c: Coordinates, texts: SignatureTexts)
    ensures
        ({
            let buf = laid_out(pdf, c, texts);
            let marks = landmarks(pdf, c, texts);
            &&& buf.len() == marks.end
            &&& marks.line_feed_at == pdf.len()
            &&& marks.line_feed_at < marks.range_at
            &&& marks.range_at + 72 == marks.slot_at
            &&& marks.slot_at + SIG_SLOT + 2 <= marks.date_at
            &&& marks.date_at + 17 <= marks.rest_at
            &&& marks.rest_at <= marks.trailer_at
            &&& marks.trailer_at <= marks.end
            &&& marks.rest_at == acroform_offset(pdf.len(), c, texts)
            &&& buf.subrange(0, marks.line_feed_at) == pdf
            &&& buf[marks.line_feed_at] == 10
            &&& buf.subrange(marks.line_feed_at + 1, marks.range_at) == signature_head(c.next_obj)
            &&& occurs_at(buf, byte_range_placeholder(), marks.range_at)
            &&& occurs_at(buf, text("\n/Contents "), marks.range_at + 61)
            &&& occurs_at(buf, contents_placeholder(), marks.slot_at)
            &&& buf.subrange(marks.slot_at + SIG_SLOT + 2, marks.date_at) == signature_middle(
                texts,
            )
            &&& occurs_at(buf, date_placeholder(), marks.date_at)
            &&& buf.subrange(marks.date_at + 17, marks.rest_at) == signature_tail(texts)
            &&& buf.subrange(marks.rest_at, marks.trailer_at) == update_rest(pdf, c, texts)
            &&& buf.subrange(marks.trailer_at, marks.end) == update_trailer(pdf, c, texts)
        }),
{
    let buf = laid_out(pdf, c, texts);
    let prefix = pdf + seq![10u8];
    reveal(landmarks);
    lemma_byte_range_placeholder();
    lemma_date_placeholder();
    lemma_contents_key();
    lemma_contents_placeholder();
    lemma_layout_split(pdf, c, texts);
    lemma_file_parts(
        prefix,
        signature_head(c.next_obj),
        byte_range_placeholder(),
        text("\n/Contents "),
        contents_placeholder(),
        signature_middle(texts),
        date_placeholder(),
        signature_tail(texts),
        update_rest(pdf, c, texts),
        update_trailer(pdf, c, texts),
    );
    assert(buf.subrange(0, pdf.len() as int) =~= prefix.subrange(0, pdf.len() as int));
    assert(prefix.subrange(0, pdf.len() as int) =~= pdf);
    assert(buf[pdf.len() as int] == buf.subrange(0, prefix.len() as int)[pdf.len() as int]);
}

/// Where five parts stand that follow a front one after another.
proof fn lemma_five_parts(
    front: Seq<u8>,
    a: Seq<u8>,
    b: Seq<u8>,
    c: Seq<u8>,
    d: Seq<u8>,
    e: Seq<u8>,
)
    ensures
        ({
            let file = front + (a + b + c + d) + e;
            let a_at = front.len() as int;
            let b_at = a_at + a.len();
            let c_at = b_at + b.len();
            let d_at = c_at + c.len();
            let e_at = d_at + d.len();
            &&& occurs_at(file, a, a_at)
            &&& occurs_at(file, b, b_at)
            &&& occurs_at(file, c, c_at)
            &&& occurs_at(file, d, d_at)
            &&& occurs_at(file, e, e_at)
            &&& e_at + e.len() == file.len()
        }),
{
    let file = front + (a + b + c + d) + e;
    let a_at = front.len() as int;
    let b_at = a_at + a.len();
    let c_at = b_at + b.len();
    let d_at = c_at + c.len();
    let e_at = d_at + d.len();
    assert(file.subrange(a_at, a_at + a.len()) =~= a);
    assert(file.subrange(b_at, b_at + b.len()) =~= b);
    assert(file.subrange(c_at, c_at + c.len()) =~= c);
    assert(file.subrange(d_at, d_at + d.len()) =~= d);
    assert(file.subrange(e_at, e_at + e.len()) =~= e);
}

/// The objects behind the signature dictionary stand in the layout at the
/// offsets that the cross-reference section names, the section at the
/// offset that the trailer names, and the trailer behind it.
pub proof fn lemma_objects_in_layout(pdf: Seq<u8>, c: Coordinates, texts: SignatureTexts)
    ensures
        ({
            let buf = laid_out(pdf, c, texts);
            let len = pdf.len();
            let xref = update_xref(pdf, c, texts);
            &&& occurs_at(buf, acroform_object(c.next_obj), acroform_offset(len, c, texts) as int)
            &&& occurs_at(
                buf,
                widget_object(c.next_obj, c.first_page_obj),
                widget_offset(len, c, texts) as int,
            )
            &&& occurs_at(
                buf,
                updated_catalog(c.catalog_obj, c.pages_ref, c.next_obj + 1, c.extras),
                catalog_offset(len, c, texts) as int,
            )
            &&& occurs_at(buf, xref, xref_offset(len, c, texts) as int)
            &&& occurs_at(
                buf,
                update_trailer(pdf, c, texts),
                (xref_offset(len, c, texts) + xref.len()) as int,
            )
            &&& xref_offset(len, c, texts) + xref.len() + update_trailer(pdf, c, texts).len()
                == buf.len()
        }),
{
    let front = (pdf + seq![10u8]) + signature_object(c.next_obj, texts);
    lemma_layout_split(pdf, c, texts);
    reveal(update_rest);
    lemma_five_parts(
        front,
        acroform_object(c.next_obj),
        widget_object(c.next_obj, c.first_page_obj),
        updated_catalog(c.catalog_obj, c.pages_ref, c.next_obj + 1, c.extras),
        update_xref(pdf, c, texts),
        update_trailer(pdf, c, texts),
    );
}

} // verus!
