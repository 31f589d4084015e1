//! What holds of every signed document.
//!
//! The laws speak of the signed document as a value: the layout of a
//! document with the byte range, the signing date and the signature
//! written over their placeholders, for any date and any signature.

use crate::assembler::{
    acroform_object, acroform_offset, byte_range_placeholder, catalog_offset, contents_placeholder,
    date_placeholder, law_xref_entry_width, signature_head, signature_middle, signature_offset,
    signature_tail, updated_catalog, widget_object, widget_offset, xref_entry, xref_offset,
    SignatureTexts, SIG_SLOT,
};
use crate::byterange::{
    byte_range_entry, lemma_slot_position, padded_entry, slot_position, SlotPosition,
};
use crate::bytes::overwritten;
use crate::decimal::decimal;
use crate::injector::{
    contents_value, date_search_start, is_hex_digit, is_time_stamp, layout, lemma_contents_value,
    prepared, prepared_slot, signed_document, signed_slab, signing_date, update_start, with_date,
};
use crate::landmarks::{
    landmarks, lemma_byte_range_placeholder, lemma_contents_key, lemma_contents_placeholder,
    lemma_date_placeholder, lemma_layout_shape, lemma_objects_in_layout, lemma_signature_head,
    lemma_signature_middle, update_rest, update_trailer, update_xref, Landmarks,
};
use crate::lemmas::{
    lemma_byte_range_entry, lemma_byte_range_fits, lemma_catalog_object_bound,
    lemma_date_clear_of_byte_range, lemma_date_exact, lemma_kept_behind, lemma_line_ends_dropped,
    lemma_read_back_in_file, lemma_same_behind, lemma_slot_exact, lemma_start_of_part,
    lemma_startxref_read_back, lemma_trailer_read_back, lemma_trailer_shape, lemma_trailer_tail,
    lemma_xref_head,
};
use crate::markers::{
    end_marker, lemma_byte_range_guarded, lemma_clear_is_guarded, lemma_contents_guarded,
    lemma_contents_key_guarded, lemma_signature_head_guarded, lemma_signature_middle_guarded,
    lemma_signature_tail_guarded, lemma_trailer_guarded, lemma_update_of_guarded_parts,
    lemma_update_rest_guarded, marker_free,
};
use crate::probe::{
    catalog_from_trailer, catalog_has_acroform, catalog_object, coordinates, defines,
    highest_object_number, law_highest_object_number, law_opened_object_is_defined,
    lemma_object_section_in_longer, lemma_object_start_in_longer, object_start,
    pages_ref_in_catalog, pages_root, previous_xref, without_trailing_newlines, Coordinates,
};
use crate::scanner::{
    find_from, is_digit, is_line_end, last_occurrence, lemma_find_from, occurs_at, text,
};
use crate::sequences::{
    lacks, lemma_occurrence_kept, lemma_overwritten, lemma_part_kept, lemma_part_written,
};
use vstd::prelude::*;
use vstd::string::*;

verus! {

/// The coordinates of the layout of a document that has one.
pub open spec fn layout_coordinates(pdf: Seq<u8>) -> Coordinates {
    coordinates(without_trailing_newlines(pdf))->0
}

/// The landmarks of the layout of a document that has one.
pub open spec fn layout_landmarks(pdf: Seq<u8>, texts: SignatureTexts) -> Landmarks {
    landmarks(without_trailing_newlines(pdf), layout_coordinates(pdf), texts)
}

/// Offset at which the signing date is written.
pub open spec fn date_position(pdf: Seq<u8>, texts: SignatureTexts) -> int {
    find_from(prepared(pdf, texts)->0, date_placeholder(), date_search_start(pdf, texts))->0
}

/// The byte range as it is written into the document.
pub open spec fn written_byte_range(pdf: Seq<u8>, texts: SignatureTexts) -> Seq<u8> {
    let slot = prepared_slot(pdf, texts);
    padded_entry(
        byte_range_entry(slot.start as nat, slot.len as nat, layout(pdf, texts)->0.len()),
    )->0
}

/// The four numbers of the byte range of a file of `total` bytes whose
/// slot is at `start` and `len` bytes long.
pub open spec fn byte_range_values(start: nat, len: nat, total: nat) -> (nat, nat, nat, nat) {
    (0, start, start + len, (total - (start + len)) as nat)
}

/// The steps by which a signed document comes about: where it exists, the
/// update of the layout has a byte range placeholder and a slot behind it,
/// the byte range fits, a date placeholder stands behind the slot and the
/// date has its length, and the signature fills the slot exactly; the
/// signed document is the layout with these three values written over it,
/// all of them behind the document.
pub proof fn lemma_signing_steps(
    pdf: Seq<u8>,
    texts: SignatureTexts,
    date: Seq<u8>,
    cms: Seq<u8>,
)
    requires
        signed_document(pdf, texts, date, cms) is Some,
    ensures
        ({
            let buf = layout(pdf, texts)->0;
            let slot = prepared_slot(pdf, texts);
            let entry = written_byte_range(pdf, texts);
            let at = date_position(pdf, texts);
            let value = contents_value(cms)->0;
            &&& layout(pdf, texts) is Some
            &&& slot_position(buf, update_start(pdf)) == Some(slot)
            &&& update_start(pdf) <= slot.range_at
            &&& slot.range_at + entry.len() <= slot.start
            &&& slot.start + slot.len <= buf.len()
            &&& entry.len() == 61
            &&& occurs_at(buf, byte_range_placeholder(), slot.range_at)
            &&& prepared(pdf, texts) == Some(overwritten(buf, slot.range_at, entry))
            &&& slot.start + slot.len <= at
            &&& at + date.len() <= buf.len()
            &&& date.len() == 17
            &&& occurs_at(prepared(pdf, texts)->0, date_placeholder(), at)
            &&& contents_value(cms) is Some
            &&& value.len() == slot.len
            &&& value.len() == SIG_SLOT + 2
            &&& signed_document(pdf, texts, date, cms) == Some(
                overwritten(
                    overwritten(overwritten(buf, slot.range_at, entry), at, date),
                    slot.start,
                    value,
                ),
            )
        }),
{
    let buf = layout(pdf, texts)->0;
    let from = update_start(pdf);
    lemma_byte_range_placeholder();
    lemma_date_placeholder();
    lemma_slot_position(buf, from);
    lemma_find_from(buf, byte_range_placeholder(), from);
    let slot = prepared_slot(pdf, texts);
    let entry = written_byte_range(pdf, texts);
    lemma_overwritten(buf, slot.range_at, entry);
    let ranged = prepared(pdf, texts)->0;
    lemma_find_from(ranged, date_placeholder(), date_search_start(pdf, texts));
}

/// The placeholders are never missing, and they are the ones that the
/// layout wrote: the search finds the byte range placeholder and the slot
/// of the signature dictionary, so that the layout lacks a byte range only
/// where the byte range is wider than its placeholder; and once the byte
/// range is written, the first date placeholder behind the reason is the
/// one of the `/M` entry.
pub proof fn law_placeholders_found(pdf: Seq<u8>, texts: SignatureTexts)
    requires
        layout(pdf, texts) is Some,
    ensures
        ({
            let buf = layout(pdf, texts)->0;
            let marks = layout_landmarks(pdf, texts);
            let slot = prepared_slot(pdf, texts);
            &&& slot_position(buf, update_start(pdf)) == Some(slot)
            &&& update_start(pdf) <= slot.range_at == marks.range_at
            &&& slot.start == marks.slot_at == slot.range_at + 72
            &&& slot.len == SIG_SLOT + 2
            &&& date_search_start(pdf, texts) + 6 == marks.date_at
            &&& marks.date_at + 17 <= marks.rest_at <= marks.trailer_at <= buf.len()
            &&& prepared(pdf, texts) is None <==> padded_entry(
                byte_range_entry(slot.start as nat, slot.len as nat, buf.len()),
            ) is None
            &&& prepared(pdf, texts) matches Some(ranged) ==> find_from(
                ranged,
                date_placeholder(),
                date_search_start(pdf, texts),
            ) == Some(marks.date_at)
        }),
{
    let stripped = without_trailing_newlines(pdf);
    let c = layout_coordinates(pdf);
    let buf = layout(pdf, texts)->0;
    let marks = layout_landmarks(pdf, texts);
    lemma_layout_shape(stripped, c, texts);
    lemma_signature_head(c.next_obj);
    lemma_signature_middle(texts);
    lemma_slot_exact(buf, update_start(pdf), signature_head(c.next_obj), marks.range_at);
    let slot = prepared_slot(pdf, texts);
    let from = date_search_start(pdf, texts);
    let middle = buf.subrange(marks.slot_at + SIG_SLOT + 2, marks.date_at);
    assert(middle.len() == 10 + texts.reason.len() + 6);
    if prepared(pdf, texts) is Some {
        lemma_byte_range_placeholder();
        let entry = written_byte_range(pdf, texts);
        let ranged = overwritten(buf, slot.range_at, entry);
        let date_open = text(")\n/M (");
        lemma_occurrence_kept(buf, slot.range_at, entry, date_placeholder(), marks.date_at);
        lemma_part_kept(buf, slot.range_at, entry, from, marks.date_at);
        assert(buf.subrange(from, marks.date_at) =~= middle.subrange(
            10 + texts.reason.len() as int,
            middle.len() as int,
        ));
        assert(middle.subrange(10 + texts.reason.len() as int, middle.len() as int) =~= date_open);
        lemma_date_exact(ranged, from, date_open, marks.date_at);
    }
}

/// Signing succeeds where it can: a document that has a catalog and a
/// first page, whose next object number is a `u32`, and whose layout is
/// shorter than `10^14` bytes has a signed document for every date of 17
/// bytes and every signature of at most `SIG_SLOT / 2` bytes.
pub proof fn law_signing_succeeds(
    pdf: Seq<u8>,
    texts: SignatureTexts,
    date: Seq<u8>,
    cms: Seq<u8>,
)
    requires
        layout(pdf, texts) matches Some(buf) && buf.len() < 100_000_000_000_000,
        date.len() == 17,
        2 * cms.len() <= SIG_SLOT,
    ensures
        prepared(pdf, texts) is Some,
        signed_document(pdf, texts, date, cms) is Some,
{
    law_placeholders_found(pdf, texts);
    law_slot_is_the_one_written(pdf, texts);
    lemma_date_placeholder();
    let buf = layout(pdf, texts)->0;
    let slot = prepared_slot(pdf, texts);
    lemma_byte_range_fits(slot.start as nat, slot.len as nat, buf.len());
}

/// The document is kept: the signed document starts with the document
/// without the line ends at its end, byte for byte, whatever the document
/// holds; one line feed follows; and the byte range, the date and the
/// slot all lie behind that line feed, so that everything in the document
/// lies in the first range that the signature covers.
pub proof fn law_prefix_preserved(
    pdf: Seq<u8>,
    texts: SignatureTexts,
    date: Seq<u8>,
    cms: Seq<u8>,
)
    requires
        signed_document(pdf, texts, date, cms) is Some,
    ensures
        ({
            let stripped = without_trailing_newlines(pdf);
            let out = signed_document(pdf, texts, date, cms)->0;
            &&& stripped.len() < out.len()
            &&& out.subrange(0, stripped.len() as int) == stripped
            &&& out[stripped.len() as int] == 10
            &&& stripped.len() < prepared_slot(pdf, texts).range_at
            &&& stripped.len() < date_position(pdf, texts)
            &&& stripped.len() < prepared_slot(pdf, texts).start
        }),
{
    lemma_signing_steps(pdf, texts, date, cms);
    let stripped = without_trailing_newlines(pdf);
    let n = stripped.len() as int;
    let c = layout_coordinates(pdf);
    let buf = layout(pdf, texts)->0;
    let slot = prepared_slot(pdf, texts);
    let entry = written_byte_range(pdf, texts);
    let at = date_position(pdf, texts);
    let value = contents_value(cms)->0;
    let ranged = overwritten(buf, slot.range_at, entry);
    let dated = overwritten(ranged, at, date);
    let out = overwritten(dated, slot.start, value);
    lemma_layout_shape(stripped, c, texts);
    lemma_overwritten(buf, slot.range_at, entry);
    lemma_part_kept(buf, slot.range_at, entry, 0, n);
    lemma_overwritten(ranged, at, date);
    lemma_part_kept(ranged, at, date, 0, n);
    lemma_overwritten(dated, slot.start, value);
    lemma_part_kept(dated, slot.start, value, 0, n);
}

/// The byte range covers the file but the slot. The signed document holds,
/// where the placeholder stood, the byte range `[0 a b c]` in which `a` is
/// the offset of the slot, `b` the offset behind the slot, and `c` the
/// number of bytes from there to the end of the signed document; the slot
/// holds the signature between `<` and `>`; and the bytes outside the slot
/// are those that were signed.
pub proof fn law_byte_range_covers(
    pdf: Seq<u8>,
    texts: SignatureTexts,
    date: Seq<u8>,
    cms: Seq<u8>,
)
    requires
        signed_document(pdf, texts, date, cms) is Some,
    ensures
        ({
            let out = signed_document(pdf, texts, date, cms)->0;
            let slot = prepared_slot(pdf, texts);
            let values = byte_range_values(slot.start as nat, slot.len as nat, out.len());
            let dated = with_date(
                prepared(pdf, texts)->0,
                date_search_start(pdf, texts),
                date,
            )->0;
            &&& 0 <= slot.range_at
            &&& slot.range_at + byte_range_placeholder().len() <= slot.start
            &&& slot.start + slot.len <= out.len()
            &&& values.1 == slot.start
            &&& values.2 == values.1 + slot.len
            &&& values.1 + slot.len + values.3 == out.len()
            &&& padded_entry(
                byte_range_entry(slot.start as nat, slot.len as nat, out.len()),
            ) matches Some(entry) && out.subrange(
                slot.range_at,
                slot.range_at + byte_range_placeholder().len(),
            ) == entry
            &&& slot.len == SIG_SLOT + 2
            &&& out.subrange(slot.start, slot.start + slot.len) == contents_value(cms)->0
            &&& out[slot.start] == 60
            &&& out[slot.start + slot.len - 1] == 62
            &&& signed_slab(out, slot.start, slot.len) == signed_slab(dated, slot.start, slot.len)
        }),
{
    lemma_signing_steps(pdf, texts, date, cms);
    lemma_byte_range_placeholder();
    let buf = layout(pdf, texts)->0;
    let slot = prepared_slot(pdf, texts);
    let entry = written_byte_range(pdf, texts);
    let at = date_position(pdf, texts);
    let value = contents_value(cms)->0;
    let ranged = overwritten(buf, slot.range_at, entry);
    let dated = overwritten(ranged, at, date);
    let out = overwritten(dated, slot.start, value);
    lemma_byte_range_entry(slot.start as nat, slot.len as nat, buf.len());
    lemma_overwritten(buf, slot.range_at, entry);
    lemma_part_written(buf, slot.range_at, entry);
    lemma_date_clear_of_byte_range(ranged, slot.range_at, entry, at);
    lemma_overwritten(ranged, at, date);
    lemma_part_kept(ranged, at, date, slot.range_at, slot.range_at + 61);
    lemma_overwritten(dated, slot.start, value);
    lemma_part_kept(dated, slot.start, value, slot.range_at, slot.range_at + 61);
    lemma_part_written(dated, slot.start, value);
    assert(value[0] == 60);
    assert(value[slot.len - 1] == 62);
    assert(out.subrange(slot.start, slot.start + slot.len)[0] == out[slot.start]);
    assert(out.subrange(slot.start, slot.start + slot.len)[slot.len - 1] == out[slot.start
        + slot.len - 1]);
    assert(signed_slab(out, slot.start, slot.len) =~= signed_slab(dated, slot.start, slot.len));
}

/// Only the three placeholders change after the layout: the signed
/// document has the length of the layout, and a byte that differs from the
/// layout lies where the byte range, the date or the signature was
/// written. Each of the three has the length of what it replaces.
pub proof fn law_only_placeholders_change(
    pdf: Seq<u8>,
    texts: SignatureTexts,
    date: Seq<u8>,
    cms: Seq<u8>,
)
    requires
        signed_document(pdf, texts, date, cms) is Some,
    ensures
        ({
            let buf = layout(pdf, texts)->0;
            let out = signed_document(pdf, texts, date, cms)->0;
            let slot = prepared_slot(pdf, texts);
            let at = date_position(pdf, texts);
            &&& out.len() == buf.len()
            &&& written_byte_range(pdf, texts).len() == byte_range_placeholder().len()
            &&& date.len() == date_placeholder().len()
            &&& contents_value(cms)->0.len() == slot.len
            &&& slot.len == contents_placeholder().len()
            &&& forall|i: int|
                0 <= i < buf.len() && #[trigger] out[i] != buf[i] ==> (slot.range_at <= i
                    < slot.range_at + byte_range_placeholder().len()) || (at <= i < at
                    + date_placeholder().len()) || (slot.start <= i < slot.start + slot.len)
        }),
{
    lemma_signing_steps(pdf, texts, date, cms);
    lemma_byte_range_placeholder();
    lemma_date_placeholder();
    lemma_contents_placeholder();
    let buf = layout(pdf, texts)->0;
    let slot = prepared_slot(pdf, texts);
    let entry = written_byte_range(pdf, texts);
    let at = date_position(pdf, texts);
    let value = contents_value(cms)->0;
    let ranged = overwritten(buf, slot.range_at, entry);
    let dated = overwritten(ranged, at, date);
    lemma_overwritten(buf, slot.range_at, entry);
    lemma_overwritten(ranged, at, date);
    lemma_overwritten(dated, slot.start, value);
}

/// The update ends the signed document: its last bytes are the trailer of
/// the update, which starts with the `trailer` keyword and ends with the
/// one `%%EOF` line that the update adds, and the byte range, the date and
/// the signature all lie in front of the trailer.
pub proof fn law_trailer_ends_document(
    pdf: Seq<u8>,
    texts: SignatureTexts,
    date: Seq<u8>,
    cms: Seq<u8>,
)
    requires
        signed_document(pdf, texts, date, cms) is Some,
    ensures
        ({
            let out = signed_document(pdf, texts, date, cms)->0;
            let stripped = without_trailing_newlines(pdf);
            let c = layout_coordinates(pdf);
            let trailer = update_trailer(stripped, c, texts);
            let slot = prepared_slot(pdf, texts);
            &&& trailer.len() <= out.len()
            &&& out.subrange(out.len() - trailer.len(), out.len() as int) == trailer
            &&& occurs_at(trailer, text("trailer"), 0)
            &&& occurs_at(trailer, text("%%EOF\n"), trailer.len() - text("%%EOF\n").len())
            &&& slot.range_at + byte_range_placeholder().len() <= out.len() - trailer.len()
            &&& date_position(pdf, texts) + date_placeholder().len() <= out.len() - trailer.len()
            &&& slot.start + slot.len <= out.len() - trailer.len()
        }),
{
    lemma_signing_steps(pdf, texts, date, cms);
    law_placeholders_found(pdf, texts);
    lemma_byte_range_placeholder();
    lemma_date_placeholder();
    let stripped = without_trailing_newlines(pdf);
    let c = layout_coordinates(pdf);
    let buf = layout(pdf, texts)->0;
    let marks = layout_landmarks(pdf, texts);
    let slot = prepared_slot(pdf, texts);
    let entry = written_byte_range(pdf, texts);
    let at = date_position(pdf, texts);
    let value = contents_value(cms)->0;
    let out = signed_document(pdf, texts, date, cms)->0;
    lemma_layout_shape(stripped, c, texts);
    lemma_kept_behind(buf, slot.range_at, entry, at, date, slot.start, value, marks.trailer_at);
    assert(out.subrange(marks.trailer_at, out.len() as int) =~= buf.subrange(
        marks.trailer_at,
        buf.len() as int,
    ));
    lemma_trailer_shape(
        c.next_obj,
        c.prev_xref,
        c.catalog_obj,
        xref_offset(stripped.len(), c, texts),
    );
}

/// Signing does not depend on the line ends behind the document: with
/// the same texts, date and signature, a document and the same document
/// with line feeds and carriage returns added at its end, in any order,
/// give the same signed document.
pub proof fn law_trailing_line_ends_ignored(
    pdf: Seq<u8>,
    tail: Seq<u8>,
    texts: SignatureTexts,
    date: Seq<u8>,
    cms: Seq<u8>,
)
    requires
        forall|i: int| 0 <= i < tail.len() ==> is_line_end(#[trigger] tail[i]),
    ensures
        without_trailing_newlines(pdf + tail) == without_trailing_newlines(pdf),
        layout(pdf + tail, texts) == layout(pdf, texts),
        prepared(pdf + tail, texts) == prepared(pdf, texts),
        signed_document(pdf + tail, texts, date, cms) == signed_document(pdf, texts, date, cms),
{
    lemma_line_ends_dropped(pdf, tail);
}

/// The trailer that the update wrote is the last one, and it leads to the
/// cross-reference section of the update: the last `trailer` keyword of
/// the signed document stands behind the document, where the trailer of
/// the update starts; the signed document ends with `startxref`, the
/// offset of the cross-reference section of the update and the `%%EOF`
/// line; and at that offset the `xref` keyword stands.
pub proof fn law_last_trailer_is_the_new_one(
    pdf: Seq<u8>,
    texts: SignatureTexts,
    date: Seq<u8>,
    cms: Seq<u8>,
)
    requires
        signed_document(pdf, texts, date, cms) is Some,
    ensures
        ({
            let out = signed_document(pdf, texts, date, cms)->0;
            let stripped = without_trailing_newlines(pdf);
            let c = layout_coordinates(pdf);
            let trailer = update_trailer(stripped, c, texts);
            let xref_at = xref_offset(stripped.len(), c, texts);
            let tail = text("startxref\n") + decimal(xref_at) + text("\n%%EOF\n");
            &&& stripped.len() < out.len() - trailer.len()
            &&& last_occurrence(out, text("trailer")) == Some(out.len() - trailer.len())
            &&& tail.len() <= out.len()
            &&& out.subrange(out.len() - tail.len(), out.len() as int) == tail
            &&& occurs_at(out, text("xref\n"), xref_at as int)
        }),
{
    law_trailer_ends_document(pdf, texts, date, cms);
    law_objects_at_their_offsets(pdf, texts, date, cms);
    law_prefix_preserved(pdf, texts, date, cms);
    let out = signed_document(pdf, texts, date, cms)->0;
    let stripped = without_trailing_newlines(pdf);
    let c = layout_coordinates(pdf);
    let trailer = update_trailer(stripped, c, texts);
    let xref_at = xref_offset(stripped.len(), c, texts);
    let tail = text("startxref\n") + decimal(xref_at) + text("\n%%EOF\n");
    assert(catalog_object(stripped) == Some(c.catalog_obj)) by {
        reveal(coordinates);
    }
    lemma_catalog_object_bound(stripped);
    lemma_trailer_read_back(c.next_obj, c.prev_xref, c.catalog_obj, xref_at);
    lemma_read_back_in_file(out, trailer, c.catalog_obj);
    lemma_trailer_tail(c.next_obj, c.prev_xref, c.catalog_obj, xref_at);
    assert(out.subrange(out.len() - tail.len(), out.len() as int) =~= trailer.subrange(
        trailer.len() - tail.len(),
        trailer.len() as int,
    ));
    lemma_xref_head(
        c.catalog_obj,
        c.next_obj,
        catalog_offset(stripped.len(), c, texts),
        signature_offset(stripped.len()),
        acroform_offset(stripped.len(), c, texts),
        widget_offset(stripped.len(), c, texts),
    );
    lemma_start_of_part(out, update_xref(stripped, c, texts), xref_at as int, text("xref\n"));
}

/// Probing the signed document finds the catalog again: the last trailer
/// of the signed document is the one that the update wrote, and the
/// catalog that it names is the catalog of the document that was signed.
pub proof fn law_catalog_found_again(
    pdf: Seq<u8>,
    texts: SignatureTexts,
    date: Seq<u8>,
    cms: Seq<u8>,
)
    requires
        signed_document(pdf, texts, date, cms) is Some,
    ensures
        catalog_from_trailer(signed_document(pdf, texts, date, cms)->0) == Some(
            layout_coordinates(pdf).catalog_obj,
        ),
        catalog_object(signed_document(pdf, texts, date, cms)->0) == catalog_object(
            without_trailing_newlines(pdf),
        ),
{
    law_trailer_ends_document(pdf, texts, date, cms);
    let out = signed_document(pdf, texts, date, cms)->0;
    let stripped = without_trailing_newlines(pdf);
    let c = layout_coordinates(pdf);
    assert(catalog_object(stripped) == Some(c.catalog_obj)) by {
        reveal(coordinates);
    }
    lemma_catalog_object_bound(stripped);
    lemma_trailer_read_back(
        c.next_obj,
        c.prev_xref,
        c.catalog_obj,
        xref_offset(stripped.len(), c, texts),
    );
    lemma_read_back_in_file(out, update_trailer(stripped, c, texts), c.catalog_obj);
}

/// The search finds the placeholder and the slot that the layout wrote,
/// whatever the document holds: the slot is `SIG_SLOT + 2` bytes long and
/// stands where the `/Contents` entry of the signature dictionary has its
/// value, and the byte range is written into the signature dictionary.
pub proof fn law_slot_is_the_one_written(pdf: Seq<u8>, texts: SignatureTexts)
    requires
        layout(pdf, texts) is Some,
    ensures
        prepared_slot(pdf, texts) == (SlotPosition {
            range_at: layout_landmarks(pdf, texts).range_at,
            start: layout_landmarks(pdf, texts).slot_at,
            len: SIG_SLOT + 2,
        }),
        occurs_at(
            layout(pdf, texts)->0,
            contents_placeholder(),
            layout_landmarks(pdf, texts).slot_at,
        ),
        layout_landmarks(pdf, texts).slot_at == layout_landmarks(pdf, texts).range_at + 72,
{
    law_placeholders_found(pdf, texts);
    lemma_layout_shape(without_trailing_newlines(pdf), layout_coordinates(pdf), texts);
}

/// The objects of the update stand where the cross-reference section says:
/// in the signed document the interactive form, the signature field and
/// the replacement catalog stand at the offsets that the section names for
/// them, the section stands at the offset that the trailer names, and the
/// trailer follows it and ends the document.
pub proof fn law_objects_at_their_offsets(
    pdf: Seq<u8>,
    texts: SignatureTexts,
    date: Seq<u8>,
    cms: Seq<u8>,
)
    requires
        signed_document(pdf, texts, date, cms) is Some,
    ensures
        ({
            let out = signed_document(pdf, texts, date, cms)->0;
            let stripped = without_trailing_newlines(pdf);
            let len = stripped.len();
            let c = layout_coordinates(pdf);
            let xref = update_xref(stripped, c, texts);
            &&& occurs_at(out, acroform_object(c.next_obj), acroform_offset(len, c, texts) as int)
            &&& occurs_at(
                out,
                widget_object(c.next_obj, c.first_page_obj),
                widget_offset(len, c, texts) as int,
            )
            &&& occurs_at(
                out,
                updated_catalog(c.catalog_obj, c.pages_ref, c.next_obj + 1, c.extras),
                catalog_offset(len, c, texts) as int,
            )
            &&& occurs_at(out, xref, xref_offset(len, c, texts) as int)
            &&& occurs_at(
                out,
                update_trailer(stripped, c, texts),
                (xref_offset(len, c, texts) + xref.len()) as int,
            )
            &&& xref_offset(len, c, texts) + xref.len() + update_trailer(stripped, c, texts).len()
                == out.len()
        }),
{
    lemma_signing_steps(pdf, texts, date, cms);
    law_placeholders_found(pdf, texts);
    let stripped = without_trailing_newlines(pdf);
    let len = stripped.len();
    let c = layout_coordinates(pdf);
    let buf = layout(pdf, texts)->0;
    let marks = layout_landmarks(pdf, texts);
    let slot = prepared_slot(pdf, texts);
    let entry = written_byte_range(pdf, texts);
    let at = date_position(pdf, texts);
    let value = contents_value(cms)->0;
    let out = signed_document(pdf, texts, date, cms)->0;
    let rest_at = marks.rest_at;
    lemma_layout_shape(stripped, c, texts);
    lemma_objects_in_layout(stripped, c, texts);
    lemma_kept_behind(buf, slot.range_at, entry, at, date, slot.start, value, rest_at);
    let xref = update_xref(stripped, c, texts);
    lemma_same_behind(buf, out, rest_at, acroform_object(c.next_obj), rest_at);
    lemma_same_behind(
        buf,
        out,
        rest_at,
        widget_object(c.next_obj, c.first_page_obj),
        widget_offset(len, c, texts) as int,
    );
    lemma_same_behind(
        buf,
        out,
        rest_at,
        updated_catalog(c.catalog_obj, c.pages_ref, c.next_obj + 1, c.extras),
        catalog_offset(len, c, texts) as int,
    );
    lemma_same_behind(buf, out, rest_at, xref, xref_offset(len, c, texts) as int);
    lemma_same_behind(
        buf,
        out,
        rest_at,
        update_trailer(stripped, c, texts),
        (xref_offset(len, c, texts) + xref.len()) as int,
    );
}

/// The byte range stands in the signature dictionary, whatever the
/// document holds: it is written behind the head of the dictionary, and
/// the line with the `/Contents ` key follows it in the signed document;
/// the slot that the byte range leaves out is the value of that key,
/// `SIG_SLOT + 2` bytes of which all between the angle brackets are
/// lowercase hexadecimal digits; and the date is written behind the slot.
pub proof fn law_byte_range_in_signature_dictionary(
    pdf: Seq<u8>,
    texts: SignatureTexts,
    date: Seq<u8>,
    cms: Seq<u8>,
)
    requires
        signed_document(pdf, texts, date, cms) is Some,
    ensures
        ({
            let out = signed_document(pdf, texts, date, cms)->0;
            let stripped = without_trailing_newlines(pdf);
            let head = signature_head(layout_coordinates(pdf).next_obj);
            let slot = prepared_slot(pdf, texts);
            &&& slot.range_at == stripped.len() + 1 + head.len()
            &&& slot.start == slot.range_at + 72
            &&& slot.len == SIG_SLOT + 2
            &&& slot.start + slot.len <= date_position(pdf, texts)
            &&& date_position(pdf, texts) + 17 <= out.len()
            &&& occurs_at(out, text("\n/Contents "), slot.range_at + 61)
            &&& text("\n/Contents ").len() == 11
            &&& out[slot.start] == 60
            &&& out[slot.start + SIG_SLOT + 1] == 62
            &&& forall|i: int|
                slot.start < i <= slot.start + SIG_SLOT ==> is_hex_digit(#[trigger] out[i])
        }),
{
    lemma_signing_steps(pdf, texts, date, cms);
    law_slot_is_the_one_written(pdf, texts);
    lemma_byte_range_placeholder();
    lemma_date_placeholder();
    lemma_contents_key();
    lemma_contents_placeholder();
    lemma_contents_value(cms);
    let stripped = without_trailing_newlines(pdf);
    let n = stripped.len() as int;
    let c = layout_coordinates(pdf);
    let buf = layout(pdf, texts)->0;
    let marks = layout_landmarks(pdf, texts);
    let slot = prepared_slot(pdf, texts);
    let entry = written_byte_range(pdf, texts);
    let at = date_position(pdf, texts);
    let value = contents_value(cms)->0;
    let ranged = overwritten(buf, slot.range_at, entry);
    let dated = overwritten(ranged, at, date);
    let out = overwritten(dated, slot.start, value);
    let key_line = text("\n/Contents ");
    lemma_layout_shape(stripped, c, texts);
    lemma_signature_head(c.next_obj);
    lemma_byte_range_entry(slot.start as nat, slot.len as nat, buf.len());
    lemma_overwritten(buf, slot.range_at, entry);
    lemma_part_kept(buf, slot.range_at, entry, n + 1, marks.range_at);
    lemma_part_written(buf, slot.range_at, entry);
    lemma_occurrence_kept(buf, slot.range_at, entry, key_line, marks.range_at + 61);
    lemma_occurrence_kept(buf, slot.range_at, entry, contents_placeholder(), marks.slot_at);
    lemma_overwritten(ranged, at, date);
    lemma_occurrence_kept(ranged, at, date, key_line, marks.range_at + 61);
    lemma_overwritten(dated, slot.start, value);
    lemma_occurrence_kept(dated, slot.start, value, key_line, marks.range_at + 61);
}

/// The signature dictionary starts where the cross-reference section
/// says: the head of the signature dictionary, which opens object `n`,
/// stands in the signed document right behind the line feed that follows
/// the document.
pub proof fn law_signature_dictionary_at_its_offset(
    pdf: Seq<u8>,
    texts: SignatureTexts,
    date: Seq<u8>,
    cms: Seq<u8>,
)
    requires
        signed_document(pdf, texts, date, cms) is Some,
    ensures
        occurs_at(
            signed_document(pdf, texts, date, cms)->0,
            signature_head(layout_coordinates(pdf).next_obj),
            signature_offset(without_trailing_newlines(pdf).len()) as int,
        ),
{
    lemma_signing_steps(pdf, texts, date, cms);
    law_placeholders_found(pdf, texts);
    let stripped = without_trailing_newlines(pdf);
    let n = stripped.len() as int;
    let c = layout_coordinates(pdf);
    let buf = layout(pdf, texts)->0;
    let marks = layout_landmarks(pdf, texts);
    let slot = prepared_slot(pdf, texts);
    let entry = written_byte_range(pdf, texts);
    let at = date_position(pdf, texts);
    let value = contents_value(cms)->0;
    let ranged = overwritten(buf, slot.range_at, entry);
    let dated = overwritten(ranged, at, date);
    lemma_layout_shape(stripped, c, texts);
    lemma_overwritten(buf, slot.range_at, entry);
    lemma_part_kept(buf, slot.range_at, entry, n + 1, marks.range_at);
    lemma_overwritten(ranged, at, date);
    lemma_part_kept(ranged, at, date, n + 1, marks.range_at);
    lemma_overwritten(dated, slot.start, value);
    lemma_part_kept(dated, slot.start, value, n + 1, marks.range_at);
}

/// Probing the signed document finds the page tree again: where the
/// catalog of the document names the root of its page tree and the
/// document defines that object, the signed document is probed with the
/// same result, which is the root that the replacement catalog names.
pub proof fn law_page_tree_found_again(
    pdf: Seq<u8>,
    texts: SignatureTexts,
    date: Seq<u8>,
    cms: Seq<u8>,
)
    requires
        signed_document(pdf, texts, date, cms) is Some,
        pages_ref_in_catalog(
            without_trailing_newlines(pdf),
            layout_coordinates(pdf).catalog_obj,
        ) matches Some(named) && object_start(without_trailing_newlines(pdf), named) is Some,
    ensures
        ({
            let out = signed_document(pdf, texts, date, cms)->0;
            let c = layout_coordinates(pdf);
            &&& catalog_object(out) == Some(c.catalog_obj)
            &&& pages_ref_in_catalog(out, c.catalog_obj) == Some(c.pages_ref)
            &&& pages_root(out, c.catalog_obj) == c.pages_ref
            &&& catalog_has_acroform(out, c.catalog_obj) == catalog_has_acroform(
                without_trailing_newlines(pdf),
                c.catalog_obj,
            )
        }),
{
    law_prefix_preserved(pdf, texts, date, cms);
    law_catalog_found_again(pdf, texts, date, cms);
    let out = signed_document(pdf, texts, date, cms)->0;
    let stripped = without_trailing_newlines(pdf);
    let c = layout_coordinates(pdf);
    reveal(coordinates);
    let named = pages_ref_in_catalog(stripped, c.catalog_obj)->0;
    lemma_object_section_in_longer(stripped, out, c.catalog_obj);
    lemma_object_start_in_longer(stripped, out, named);
}

/// The signing date stands in the `/M` entry, whatever the document and
/// the texts hold: the date is written where the layout wrote the date
/// placeholder, in the signature dictionary behind the reason, and the
/// signed document holds it there, behind `/M (`.
pub proof fn law_date_in_its_entry(
    pdf: Seq<u8>,
    texts: SignatureTexts,
    date: Seq<u8>,
    cms: Seq<u8>,
)
    requires
        signed_document(pdf, texts, date, cms) is Some,
    ensures
        ({
            let out = signed_document(pdf, texts, date, cms)->0;
            let marks = layout_landmarks(pdf, texts);
            &&& date_position(pdf, texts) == marks.date_at
            &&& marks.slot_at + SIG_SLOT + 2 + 16 + texts.reason.len() == marks.date_at
            &&& marks.date_at + date.len() <= out.len()
            &&& out.subrange(marks.date_at, marks.date_at + date.len()) == date
            &&& out.subrange(marks.date_at - 6, marks.date_at) == text(")\n/M (")
        }),
{
    lemma_signing_steps(pdf, texts, date, cms);
    law_placeholders_found(pdf, texts);
    lemma_signature_middle(texts);
    let stripped = without_trailing_newlines(pdf);
    let c = layout_coordinates(pdf);
    let buf = layout(pdf, texts)->0;
    let marks = layout_landmarks(pdf, texts);
    let slot = prepared_slot(pdf, texts);
    let entry = written_byte_range(pdf, texts);
    let value = contents_value(cms)->0;
    let ranged = overwritten(buf, slot.range_at, entry);
    let dated = overwritten(ranged, marks.date_at, date);
    let from = date_search_start(pdf, texts);
    lemma_layout_shape(stripped, c, texts);
    let middle = buf.subrange(marks.slot_at + SIG_SLOT + 2, marks.date_at);
    assert(buf.subrange(from, marks.date_at) =~= middle.subrange(
        10 + texts.reason.len() as int,
        middle.len() as int,
    ));
    assert(middle.subrange(10 + texts.reason.len() as int, middle.len() as int) =~= text(")\n/M ("));
    lemma_overwritten(buf, slot.range_at, entry);
    lemma_part_kept(buf, slot.range_at, entry, from, marks.date_at);
    lemma_overwritten(ranged, marks.date_at, date);
    lemma_part_written(ranged, marks.date_at, date);
    lemma_part_kept(ranged, marks.date_at, date, from, marks.date_at);
    lemma_overwritten(dated, slot.start, value);
    lemma_part_kept(dated, slot.start, value, marks.date_at, marks.date_at + 17);
    lemma_part_kept(dated, slot.start, value, from, marks.date_at);
}

/// The shape of a signed document behind the document: a line feed, the
/// head of the signature dictionary, the byte range, the line with the
/// `/Contents ` key, the signature, the reason, the date, the end of the
/// signature dictionary, the rest of the update and the trailer, each
/// where the layout has its part.
pub proof fn lemma_signed_shape(pdf: Seq<u8>, texts: SignatureTexts, date: Seq<u8>, cms: Seq<u8>)
    requires
        signed_document(pdf, texts, date, cms) is Some,
    ensures
        ({
            let out = signed_document(pdf, texts, date, cms)->0;
            let stripped = without_trailing_newlines(pdf);
            let c = layout_coordinates(pdf);
            let marks = layout_landmarks(pdf, texts);
            let n = stripped.len() as int;
            &&& n < marks.range_at
            &&& marks.range_at + 72 == marks.slot_at
            &&& marks.slot_at + SIG_SLOT + 2 <= marks.date_at
            &&& marks.date_at + 17 <= marks.rest_at <= marks.trailer_at <= out.len()
            &&& marks.slot_at + SIG_SLOT + 2 + signature_middle(texts).len() == marks.date_at
            &&& date.len() == 17
            &&& marks.trailer_at + update_trailer(stripped, c, texts).len() == out.len()
            &&& prepared_slot(pdf, texts).start == marks.slot_at
            &&& prepared(pdf, texts) is Some
            &&& contents_value(cms) is Some
            &&& out[n] == 10
            &&& out.subrange(n + 1, marks.range_at) == signature_head(c.next_obj)
            &&& out.subrange(marks.range_at, marks.range_at + 61) == written_byte_range(pdf, texts)
            &&& out.subrange(marks.range_at + 61, marks.slot_at) == text("\n/Contents ")
            &&& out.subrange(marks.slot_at, marks.slot_at + SIG_SLOT + 2) == contents_value(cms)->0
            &&& out.subrange(marks.slot_at + SIG_SLOT + 2, marks.date_at) == signature_middle(
                texts,
            )
            &&& out.subrange(marks.date_at, marks.date_at + 17) == date
            &&& out.subrange(marks.date_at + 17, marks.rest_at) == signature_tail(texts)
            &&& out.subrange(marks.rest_at, marks.trailer_at) == update_rest(stripped, c, texts)
            &&& out.subrange(marks.trailer_at, out.len() as int) == update_trailer(
                stripped,
                c,
                texts,
            )
        }),
{
    lemma_signing_steps(pdf, texts, date, cms);
    law_placeholders_found(pdf, texts);
    law_prefix_preserved(pdf, texts, date, cms);
    law_byte_range_covers(pdf, texts, date, cms);
    law_byte_range_in_signature_dictionary(pdf, texts, date, cms);
    law_signature_dictionary_at_its_offset(pdf, texts, date, cms);
    law_date_in_its_entry(pdf, texts, date, cms);
    lemma_byte_range_placeholder();
    let out = signed_document(pdf, texts, date, cms)->0;
    let stripped = without_trailing_newlines(pdf);
    let c = layout_coordinates(pdf);
    let buf = layout(pdf, texts)->0;
    let marks = layout_landmarks(pdf, texts);
    let slot = prepared_slot(pdf, texts);
    let entry = written_byte_range(pdf, texts);
    let value = contents_value(cms)->0;
    let ranged = overwritten(buf, slot.range_at, entry);
    let dated = overwritten(ranged, marks.date_at, date);
    let middle_at = marks.slot_at + SIG_SLOT + 2;
    lemma_layout_shape(stripped, c, texts);
    lemma_overwritten(buf, slot.range_at, entry);
    lemma_part_kept(buf, slot.range_at, entry, middle_at, marks.date_at);
    lemma_overwritten(ranged, marks.date_at, date);
    lemma_part_kept(ranged, marks.date_at, date, middle_at, marks.date_at);
    lemma_overwritten(dated, slot.start, value);
    lemma_part_kept(dated, slot.start, value, middle_at, marks.date_at);
    let behind = marks.date_at + 17;
    lemma_kept_behind(buf, slot.range_at, entry, marks.date_at, date, slot.start, value, behind);
    assert(out.subrange(behind, marks.rest_at) =~= buf.subrange(behind, marks.rest_at));
    assert(out.subrange(marks.rest_at, marks.trailer_at) =~= buf.subrange(
        marks.rest_at,
        marks.trailer_at,
    ));
    assert(out.subrange(marks.trailer_at, out.len() as int) =~= buf.subrange(
        marks.trailer_at,
        buf.len() as int,
    ));
}

/// The update adds one `%%EOF` marker, the one that ends the file: where
/// neither the texts of the signature, nor the lines carried over from the
/// catalog, nor the date hold the marker, the signed document ends with
/// the `%%EOF` line, and every other marker in it stands in the document,
/// in front of the slot.
pub proof fn law_one_end_marker_added(
    pdf: Seq<u8>,
    texts: SignatureTexts,
    date: Seq<u8>,
    cms: Seq<u8>,
)
    requires
        signed_document(pdf, texts, date, cms) is Some,
        marker_free(texts.reason),
        marker_free(texts.contact_info),
        marker_free(texts.name),
        marker_free(texts.location),
        marker_free(layout_coordinates(pdf).extras),
        marker_free(date),
    ensures
        ({
            let out = signed_document(pdf, texts, date, cms)->0;
            let stripped = without_trailing_newlines(pdf);
            &&& stripped.len() < prepared_slot(pdf, texts).start
            &&& 6 <= out.len()
            &&& out.subrange(out.len() - 6, out.len() as int) == text("%%EOF\n")
            &&& occurs_at(out, end_marker(), out.len() - 6)
            &&& forall|i: int| #[trigger]
                occurs_at(out, end_marker(), i) ==> i + 5 <= stripped.len() || i == out.len() - 6
        }),
{
    lemma_signed_shape(pdf, texts, date, cms);
    law_placeholders_found(pdf, texts);
    let out = signed_document(pdf, texts, date, cms)->0;
    let stripped = without_trailing_newlines(pdf);
    let c = layout_coordinates(pdf);
    let marks = layout_landmarks(pdf, texts);
    let slot = prepared_slot(pdf, texts);
    let total = layout(pdf, texts)->0.len();
    assert(padded_entry(byte_range_entry(slot.start as nat, slot.len as nat, total)) is Some);
    assert(written_byte_range(pdf, texts) == padded_entry(
        byte_range_entry(slot.start as nat, slot.len as nat, total),
    )->0);
    assert(2 * cms.len() <= SIG_SLOT);
    lemma_signature_head_guarded(c.next_obj);
    lemma_byte_range_guarded(slot.start as nat, slot.len as nat, total);
    lemma_contents_key_guarded();
    lemma_contents_guarded(cms);
    lemma_signature_middle_guarded(texts, date);
    lemma_signature_tail_guarded(texts);
    lemma_update_rest_guarded(stripped, c, texts);
    lemma_trailer_guarded(
        c.next_obj,
        c.prev_xref,
        c.catalog_obj,
        xref_offset(stripped.len(), c, texts),
    );
    lemma_update_of_guarded_parts(
        out,
        stripped.len() as int,
        marks.range_at,
        marks.range_at + 61,
        marks.slot_at,
        marks.slot_at + SIG_SLOT + 2,
        marks.date_at,
        marks.date_at + 17,
        marks.rest_at,
        marks.trailer_at,
        signature_middle(texts),
        date,
        update_trailer(stripped, c, texts),
    );
}

/// The signing date of a time stamp is well formed: the date made of 14
/// digits is 17 bytes long, `D:`, the 14 digits and `Z`, and the marker
/// stands nowhere in it.
pub proof fn law_signing_date_well_formed(stamp: Seq<u8>)
    requires
        is_time_stamp(stamp),
    ensures
        ({
            let date = signing_date(stamp);
            &&& date.len() == 17
            &&& date[0] == 68
            &&& date[1] == 58
            &&& date.subrange(2, 16) == stamp
            &&& forall|i: int| 2 <= i < 16 ==> is_digit(#[trigger] date[i])
            &&& date[16] == 90
            &&& marker_free(date)
        }),
{
    reveal_strlit("D:");
    is_ascii_spec_bytes("D:");
    reveal_strlit("Z");
    is_ascii_spec_bytes("Z");
    let date = signing_date(stamp);
    assert(date.subrange(2, 16) =~= stamp);
    assert forall|i: int| 2 <= i < 16 implies is_digit(#[trigger] date[i]) by {
        assert(date[i] == stamp[i - 2]);
    }
    assert forall|i: int| 0 <= i < date.len() implies #[trigger] date[i] != 37 by {
        if 2 <= i < 16 {
            assert(is_digit(date[i]));
        }
    }
    lemma_clear_is_guarded(date);
}

/// The objects of the update are new: an object that the document defines,
/// or whose definition can be opened in it, has a number below that of the
/// signature dictionary, the first of the three new objects, and the
/// three new numbers are `u32` values or one more.
pub proof fn law_new_objects_are_new(pdf: Seq<u8>, texts: SignatureTexts, m: nat)
    requires
        layout(pdf, texts) is Some,
        defines(without_trailing_newlines(pdf), m) || object_start(
            without_trailing_newlines(pdf),
            m,
        ) is Some,
    ensures
        m < layout_coordinates(pdf).next_obj,
        layout_coordinates(pdf).next_obj == highest_object_number(without_trailing_newlines(pdf))
            + 1,
        layout_coordinates(pdf).next_obj <= u32::MAX,
{
    let stripped = without_trailing_newlines(pdf);
    reveal(coordinates);
    law_highest_object_number(stripped);
    if object_start(stripped, m) is Some {
        law_opened_object_is_defined(stripped, m);
    }
}

/// The entries of the cross-reference section are 20 bytes each: in a
/// signed document of less than `10^10` bytes, which every document is
/// that the signer hands out, the entries for the signature dictionary,
/// the interactive form, the signature field and the replacement catalog
/// each have ten digits, a space, five digits, a space, `n`, a space and a
/// line feed.
pub proof fn law_xref_entries_are_twenty_bytes(
    pdf: Seq<u8>,
    texts: SignatureTexts,
    date: Seq<u8>,
    cms: Seq<u8>,
)
    requires
        signed_document(pdf, texts, date, cms) matches Some(out) && out.len() < 10_000_000_000,
    ensures
        ({
            let len = without_trailing_newlines(pdf).len();
            let c = layout_coordinates(pdf);
            &&& xref_entry(signature_offset(len)).len() == 20
            &&& xref_entry(acroform_offset(len, c, texts)).len() == 20
            &&& xref_entry(widget_offset(len, c, texts)).len() == 20
            &&& xref_entry(catalog_offset(len, c, texts)).len() == 20
        }),
{
    law_objects_at_their_offsets(pdf, texts, date, cms);
    let len = without_trailing_newlines(pdf).len();
    let c = layout_coordinates(pdf);
    law_xref_entry_width(signature_offset(len));
    law_xref_entry_width(acroform_offset(len, c, texts));
    law_xref_entry_width(widget_offset(len, c, texts));
    law_xref_entry_width(catalog_offset(len, c, texts));
}

/// Probing the signed document finds the cross-reference section of the
/// update: the number behind the last `startxref` of a signed document,
/// which is read as the offset of the previous section when the document
/// is signed again, is the offset at which the update wrote its section.
/// The lengths are those of the machine.
pub proof fn law_new_xref_found_again(
    pdf: Seq<u8>,
    texts: SignatureTexts,
    date: Seq<u8>,
    cms: Seq<u8>,
)
    requires
        signed_document(pdf, texts, date, cms) matches Some(out) && out.len() <= usize::MAX,
    ensures
        ({
            let out = signed_document(pdf, texts, date, cms)->0;
            let stripped = without_trailing_newlines(pdf);
            let xref_at = xref_offset(stripped.len(), layout_coordinates(pdf), texts);
            &&& previous_xref(out) == xref_at
            &&& occurs_at(out, text("xref\n"), xref_at as int)
        }),
{
    law_last_trailer_is_the_new_one(pdf, texts, date, cms);
    let out = signed_document(pdf, texts, date, cms)->0;
    let stripped = without_trailing_newlines(pdf);
    let xref_at = xref_offset(stripped.len(), layout_coordinates(pdf), texts);
    lemma_startxref_read_back(out, xref_at);
}

} // verus!
