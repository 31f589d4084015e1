//! The `%%EOF` marker, and where it can stand in a file.
//!
//! A part of a file is guarded if it holds no marker and starts with a byte
//! that the marker lacks. Guarded parts stay guarded when joined, since no
//! marker can reach from one into the next.

use crate::assembler::{
    acroform_object, acroform_offset, byte_range_placeholder, catalog_offset, signature_head,
    signature_middle, signature_offset, signature_tail, trailer_section, updated_catalog,
    widget_object, widget_offset, xref_catalog_subsection, xref_entry, xref_new_subsection,
    xref_section, SignatureTexts, SIG_SLOT, XREF_OFFSET_WIDTH,
};
use crate::byterange::{byte_range_entry, padded_entry, spaces};
use crate::decimal::{decimal, lemma_decimal, zero_padded, zeros};
use crate::injector::{contents_value, is_hex_digit, lemma_contents_value};
use crate::landmarks::{update_rest, update_xref};
use crate::probe::Coordinates;
use crate::scanner::{is_digit, occurs_at, text};
use crate::sequences::{lacks, lacks_upto, lemma_lacks_upto};
use vstd::prelude::*;
use vstd::string::*;

verus! {

/// The marker that ends a file and each of its updates.
pub open spec fn end_marker() -> Seq<u8> {
    text("%%EOF")
}

/// The marker stands nowhere in `s`.
pub open spec fn marker_free(s: Seq<u8>) -> bool {
    forall|i: int| !occurs_at(s, end_marker(), i)
}

/// `b` is one of the bytes of the marker: `%`, `E`, `O` or `F`.
pub open spec fn marker_byte(b: u8) -> bool {
    b == 37 || b == 69 || b == 79 || b == 70
}

/// `s` holds no marker and completes none: it is not empty, starts with a
/// byte that the marker lacks, and the marker stands nowhere in it.
pub open spec fn guarded(s: Seq<u8>) -> bool {
    s.len() > 0 && !marker_byte(s[0]) && marker_free(s)
}

/// The marker is `%%EOF`, five bytes.
pub proof fn lemma_end_marker()
    ensures
        end_marker().len() == 5,
        end_marker()[0] == 37,
        end_marker()[1] == 37,
        end_marker()[2] == 69,
        end_marker()[3] == 79,
        end_marker()[4] == 70,
{
    reveal_strlit("%%EOF");
    is_ascii_spec_bytes("%%EOF");
}

/// The bytes of a file at which the marker stands.
pub proof fn lemma_marker_bytes(s: Seq<u8>, i: int)
    requires
        occurs_at(s, end_marker(), i),
    ensures
        0 <= i,
        i + 5 <= s.len(),
        s[i] == 37,
        s[i + 1] == 37,
        s[i + 2] == 69,
        s[i + 3] == 79,
        s[i + 4] == 70,
{
    lemma_end_marker();
    let found = s.subrange(i, i + 5);
    assert(found[0] == s[i]);
    assert(found[1] == s[i + 1]);
    assert(found[2] == s[i + 2]);
    assert(found[3] == s[i + 3]);
    assert(found[4] == s[i + 4]);
}

/// The marker stands where its five bytes stand.
pub proof fn lemma_marker_stands(s: Seq<u8>, i: int)
    requires
        0 <= i,
        i + 5 <= s.len(),
        s[i] == 37,
        s[i + 1] == 37,
        s[i + 2] == 69,
        s[i + 3] == 79,
        s[i + 4] == 70,
    ensures
        occurs_at(s, end_marker(), i),
{
    lemma_end_marker();
    assert(s.subrange(i, i + 5) =~= end_marker());
}

/// A part without `%` that starts with a byte that the marker lacks is
/// guarded.
pub proof fn lemma_clear_is_guarded(b: Seq<u8>)
    requires
        b.len() > 0,
        !marker_byte(b[0]),
        lacks(b, 37),
    ensures
        guarded(b),
{
    assert forall|i: int| !occurs_at(b, end_marker(), i) by {
        if occurs_at(b, end_marker(), i) {
            lemma_marker_bytes(b, i);
        }
    }
}

/// Guarded parts are guarded when joined.
pub proof fn lemma_guarded_joined(x: Seq<u8>, y: Seq<u8>)
    requires
        guarded(x),
        guarded(y),
    ensures
        guarded(x + y),
{
    lemma_end_marker();
    let whole = x + y;
    let cut = x.len() as int;
    assert(whole[0] == x[0]);
    assert forall|i: int| !occurs_at(whole, end_marker(), i) by {
        if occurs_at(whole, end_marker(), i) {
            lemma_marker_bytes(whole, i);
            if i >= cut {
                assert(y.subrange(i - cut, i - cut + 5) =~= whole.subrange(i, i + 5));
                assert(occurs_at(y, end_marker(), i - cut));
            } else if i + 5 <= cut {
                assert(x.subrange(i, i + 5) =~= whole.subrange(i, i + 5));
                assert(occurs_at(x, end_marker(), i));
            } else {
                assert(whole[cut] == y[0]);
            }
        }
    }
}

/// A guarded part that ends with a byte that the marker lacks is guarded
/// with a part behind it in which the marker does not stand.
pub proof fn lemma_guarded_then_free(g: Seq<u8>, t: Seq<u8>)
    requires
        guarded(g),
        !marker_byte(g.last()),
        marker_free(t),
    ensures
        guarded(g + t),
{
    lemma_end_marker();
    let whole = g + t;
    let cut = g.len() as int;
    assert(whole[0] == g[0]);
    assert forall|i: int| !occurs_at(whole, end_marker(), i) by {
        if occurs_at(whole, end_marker(), i) {
            lemma_marker_bytes(whole, i);
            if i >= cut {
                assert(t.subrange(i - cut, i - cut + 5) =~= whole.subrange(i, i + 5));
                assert(occurs_at(t, end_marker(), i - cut));
            } else if i + 5 <= cut {
                assert(g.subrange(i, i + 5) =~= whole.subrange(i, i + 5));
                assert(occurs_at(g, end_marker(), i));
            } else {
                assert(whole[cut - 1] == g.last());
            }
        }
    }
}

/// A guarded part is guarded with a part without `%` behind it that
/// starts with a byte that the marker lacks; the last byte of the whole is
/// the last byte of what was added.
pub proof fn lemma_guarded_then_clear(g: Seq<u8>, b: Seq<u8>)
    requires
        guarded(g),
        b.len() > 0,
        !marker_byte(b[0]),
        lacks(b, 37),
    ensures
        guarded(g + b),
        (g + b).last() == b.last(),
{
    lemma_clear_is_guarded(b);
    lemma_guarded_joined(g, b);
}

/// Two guarded parts of a file that follow one another are one guarded
/// part.
pub proof fn lemma_guarded_parts(file: Seq<u8>, from: int, cut: int, to: int)
    requires
        0 <= from <= cut <= to <= file.len(),
        guarded(file.subrange(from, cut)),
        guarded(file.subrange(cut, to)),
    ensures
        guarded(file.subrange(from, to)),
{
    lemma_guarded_joined(file.subrange(from, cut), file.subrange(cut, to));
    assert(file.subrange(from, to) =~= file.subrange(from, cut) + file.subrange(cut, to));
}

/// In a file that ends with the `%%EOF` line behind a line feed, and
/// whose part from `from` up to that line is guarded, the marker stands in
/// front of `from` or in that last line, and nowhere else.
pub proof fn lemma_marker_only_at_end(file: Seq<u8>, from: int)
    requires
        0 <= from,
        from + 6 < file.len(),
        guarded(file.subrange(from, file.len() - 6)),
        file[file.len() - 7] == 10,
        file.subrange(file.len() - 6, file.len() as int) == text("%%EOF\n"),
    ensures
        occurs_at(file, end_marker(), file.len() - 6),
        forall|i: int| #[trigger]
            occurs_at(file, end_marker(), i) ==> i + 5 <= from || i == file.len() - 6,
{
    reveal_strlit("%%EOF\n");
    is_ascii_spec_bytes("%%EOF\n");
    lemma_end_marker();
    let end = file.len() as int;
    let line = file.subrange(end - 6, end);
    let part = file.subrange(from, end - 6);
    assert(line[0] == file[end - 6]);
    assert(line[1] == file[end - 5]);
    assert(line[2] == file[end - 4]);
    assert(line[3] == file[end - 3]);
    assert(line[4] == file[end - 2]);
    lemma_marker_stands(file, end - 6);
    assert forall|i: int| #[trigger] occurs_at(file, end_marker(), i) implies i + 5 <= from || i
        == end - 6 by {
        lemma_marker_bytes(file, i);
        if i + 5 > from && i != end - 6 {
            if i < from {
                assert(part[0] == file[from]);
            } else if i + 5 <= end - 6 {
                assert(part.subrange(i - from, i - from + 5) =~= file.subrange(i, i + 5));
                assert(occurs_at(part, end_marker(), i - from));
            } else if i < end - 6 {
                assert(file[end - 7] == 10);
                assert(file[end - 6] == 37);
                assert(file[end - 5] == 37);
                assert(file[end - 4] == 69);
            } else {
                assert(file[end - 4] == 69);
            }
        }
    }
}

/// A numeral is guarded: it holds digits only.
pub proof fn lemma_decimal_guarded(n: nat)
    ensures
        decimal(n).len() > 0,
        !marker_byte(decimal(n)[0]),
        lacks(decimal(n), 37),
        guarded(decimal(n)),
{
    lemma_decimal(n);
    let d = decimal(n);
    assert(is_digit(d[0]));
    assert forall|i: int| 0 <= i < d.len() implies #[trigger] d[i] != 37 by {
        assert(is_digit(d[i]));
    }
    lemma_clear_is_guarded(d);
}

/// A numeral with zeros in front of it is guarded.
pub proof fn lemma_zero_padded_guarded(n: nat, width: nat)
    ensures
        guarded(zero_padded(n, width)),
{
    lemma_decimal_guarded(n);
    let d = decimal(n);
    let padded = zero_padded(n, width);
    if d.len() < width {
        let front = zeros((width - d.len()) as nat);
        assert(padded[0] == front[0]);
        assert forall|i: int| 0 <= i < padded.len() implies #[trigger] padded[i] != 37 by {
            if i < front.len() {
                assert(padded[i] == front[i]);
            } else {
                assert(padded[i] == d[i - front.len()]);
            }
        }
        lemma_clear_is_guarded(padded);
    }
}

/// The head of the signature dictionary is guarded.
pub proof fn lemma_signature_head_guarded(n: nat)
    ensures
        guarded(signature_head(n)),
{
    reveal_strlit(
        " 0 obj\n<<\n/Type /Sig\n/Filter /Adobe.PPKLite\n/SubFilter /adbe.pkcs7.detached\n",
    );
    is_ascii_spec_bytes(
        " 0 obj\n<<\n/Type /Sig\n/Filter /Adobe.PPKLite\n/SubFilter /adbe.pkcs7.detached\n",
    );
    let opening = text(
        " 0 obj\n<<\n/Type /Sig\n/Filter /Adobe.PPKLite\n/SubFilter /adbe.pkcs7.detached\n",
    );
    assert(opening.len() == 76);
    assert(lacks_upto(opening, 37, 16)) by {
        reveal_with_fuel(lacks_upto, 17);
    }
    assert(lacks_upto(opening, 37, 32)) by {
        reveal_with_fuel(lacks_upto, 17);
    }
    assert(lacks_upto(opening, 37, 48)) by {
        reveal_with_fuel(lacks_upto, 17);
    }
    assert(lacks_upto(opening, 37, 64)) by {
        reveal_with_fuel(lacks_upto, 17);
    }
    assert(lacks_upto(opening, 37, 76)) by {
        reveal_with_fuel(lacks_upto, 13);
    }
    lemma_lacks_upto(opening, 37, 76);
    assert(lacks(opening, 37));
    assert(opening[0] == 32);
    lemma_decimal_guarded(n);
    lemma_guarded_then_clear(decimal(n), opening);
}

/// A byte range as it is written is guarded.
pub proof fn lemma_byte_range_guarded(start: nat, len: nat, total: nat)
    requires
        padded_entry(byte_range_entry(start, len, total)) is Some,
    ensures
        guarded(padded_entry(byte_range_entry(start, len, total))->0),
{
    reveal_strlit("/ByteRange [");
    is_ascii_spec_bytes("/ByteRange [");
    let key = text("/ByteRange [");
    assert(key.len() == 12);
    assert(lacks_upto(key, 37, 12)) by {
        reveal_with_fuel(lacks_upto, 13);
    }
    lemma_lacks_upto(key, 37, 12);
    assert(lacks(key, 37));
    assert(key[0] == 47);
    reveal_strlit(" ");
    is_ascii_spec_bytes(" ");
    let blank = text(" ");
    assert(blank.len() == 1);
    assert(lacks_upto(blank, 37, 1)) by {
        reveal_with_fuel(lacks_upto, 2);
    }
    lemma_lacks_upto(blank, 37, 1);
    assert(lacks(blank, 37));
    assert(blank[0] == 32);
    reveal_strlit("]");
    is_ascii_spec_bytes("]");
    let close = text("]");
    assert(close.len() == 1);
    assert(lacks_upto(close, 37, 1)) by {
        reveal_with_fuel(lacks_upto, 2);
    }
    lemma_lacks_upto(close, 37, 1);
    assert(lacks(close, 37));
    assert(close[0] == 93);
    let last = (total - (start + len)) as nat;
    lemma_decimal_guarded(0);
    lemma_decimal_guarded(start);
    lemma_decimal_guarded(start + len);
    lemma_decimal_guarded(last);
    lemma_clear_is_guarded(key);
    lemma_guarded_then_clear(key, decimal(0));
    lemma_guarded_then_clear(key + decimal(0), blank);
    lemma_guarded_then_clear(key + decimal(0) + blank, decimal(start));
    lemma_guarded_then_clear(key + decimal(0) + blank + decimal(start), blank);
    lemma_guarded_then_clear(key + decimal(0) + blank + decimal(start) + blank, decimal(start + len));
    lemma_guarded_then_clear(key + decimal(0) + blank + decimal(start) + blank + decimal(start + len), blank);
    lemma_guarded_then_clear(key + decimal(0) + blank + decimal(start) + blank + decimal(start + len) + blank, decimal(last));
    lemma_guarded_then_clear(key + decimal(0) + blank + decimal(start) + blank + decimal(start + len) + blank + decimal(last), close);
    let bare = byte_range_entry(start, len, total);
    let pad = spaces((byte_range_placeholder().len() - bare.len()) as nat);
    if pad.len() == 0 {
        assert(bare + pad =~= bare);
    } else {
        assert(pad[0] == 32);
        lemma_guarded_then_clear(bare, pad);
    }
}

/// The line with the `/Contents ` key is guarded.
pub proof fn lemma_contents_key_guarded()
    ensures
        guarded(text("\n/Contents ")),
{
    reveal_strlit("\n/Contents ");
    is_ascii_spec_bytes("\n/Contents ");
    let key = text("\n/Contents ");
    assert(key.len() == 11);
    assert(lacks_upto(key, 37, 11)) by {
        reveal_with_fuel(lacks_upto, 12);
    }
    lemma_lacks_upto(key, 37, 11);
    assert(lacks(key, 37));
    assert(key[0] == 10);
    lemma_clear_is_guarded(key);
}

/// What fills the slot is guarded.
pub proof fn lemma_contents_guarded(cms: Seq<u8>)
    requires
        2 * cms.len() <= SIG_SLOT,
    ensures
        guarded(contents_value(cms)->0),
{
    lemma_contents_value(cms);
    let value = contents_value(cms)->0;
    assert forall|i: int| 0 <= i < value.len() implies #[trigger] value[i] != 37 by {
        if 1 <= i <= SIG_SLOT {
            assert(is_hex_digit(value[i]));
        }
    }
    lemma_clear_is_guarded(value);
}

/// What stands between the slot and the rest of the signature
/// dictionary, with a date in place of the placeholder, is guarded where
/// neither the reason nor the date holds the marker.
pub proof fn lemma_signature_middle_guarded(texts: SignatureTexts, date: Seq<u8>)
    requires
        marker_free(texts.reason),
        marker_free(date),
    ensures
        guarded(signature_middle(texts) + date),
{
    reveal_strlit("\n/Reason (");
    is_ascii_spec_bytes("\n/Reason (");
    let reason_key = text("\n/Reason (");
    assert(reason_key.len() == 10);
    assert(lacks_upto(reason_key, 37, 10)) by {
        reveal_with_fuel(lacks_upto, 11);
    }
    lemma_lacks_upto(reason_key, 37, 10);
    assert(lacks(reason_key, 37));
    assert(reason_key[0] == 10);
    assert(reason_key[9] == 40);
    reveal_strlit(")\n/M (");
    is_ascii_spec_bytes(")\n/M (");
    let date_key = text(")\n/M (");
    assert(date_key.len() == 6);
    assert(lacks_upto(date_key, 37, 6)) by {
        reveal_with_fuel(lacks_upto, 7);
    }
    lemma_lacks_upto(date_key, 37, 6);
    assert(lacks(date_key, 37));
    assert(date_key[0] == 41);
    assert(date_key[5] == 40);
    lemma_clear_is_guarded(reason_key);
    lemma_guarded_then_free(reason_key, texts.reason);
    lemma_guarded_then_clear(reason_key + texts.reason, date_key);
    lemma_guarded_then_free(reason_key + texts.reason + date_key, date);
}

/// The signature dictionary behind the signing date is guarded where
/// none of its texts holds the marker.
pub proof fn lemma_signature_tail_guarded(texts: SignatureTexts)
    requires
        marker_free(texts.contact_info),
        marker_free(texts.name),
        marker_free(texts.location),
    ensures
        guarded(signature_tail(texts)),
{
    reveal_strlit(")\n/ContactInfo (");
    is_ascii_spec_bytes(")\n/ContactInfo (");
    let contact_key = text(")\n/ContactInfo (");
    assert(contact_key.len() == 16);
    assert(lacks_upto(contact_key, 37, 16)) by {
        reveal_with_fuel(lacks_upto, 17);
    }
    lemma_lacks_upto(contact_key, 37, 16);
    assert(lacks(contact_key, 37));
    assert(contact_key[0] == 41);
    assert(contact_key[15] == 40);
    reveal_strlit(")\n/Name (");
    is_ascii_spec_bytes(")\n/Name (");
    let name_key = text(")\n/Name (");
    assert(name_key.len() == 9);
    assert(lacks_upto(name_key, 37, 9)) by {
        reveal_with_fuel(lacks_upto, 10);
    }
    lemma_lacks_upto(name_key, 37, 9);
    assert(lacks(name_key, 37));
    assert(name_key[0] == 41);
    assert(name_key[8] == 40);
    reveal_strlit(")\n/Location (");
    is_ascii_spec_bytes(")\n/Location (");
    let location_key = text(")\n/Location (");
    assert(location_key.len() == 13);
    assert(lacks_upto(location_key, 37, 13)) by {
        reveal_with_fuel(lacks_upto, 14);
    }
    lemma_lacks_upto(location_key, 37, 13);
    assert(lacks(location_key, 37));
    assert(location_key[0] == 41);
    assert(location_key[12] == 40);
    reveal_strlit(
        ")\n/Prop_Build <<\n/Filter <<\n/Name /Adobe.PPKLite\n>>\n>>\n>>\nendobj\n",
    );
    is_ascii_spec_bytes(
        ")\n/Prop_Build <<\n/Filter <<\n/Name /Adobe.PPKLite\n>>\n>>\n>>\nendobj\n",
    );
    let closing = text(
        ")\n/Prop_Build <<\n/Filter <<\n/Name /Adobe.PPKLite\n>>\n>>\n>>\nendobj\n",
    );
    assert(closing.len() == 65);
    assert(lacks_upto(closing, 37, 16)) by {
        reveal_with_fuel(lacks_upto, 17);
    }
    assert(lacks_upto(closing, 37, 32)) by {
        reveal_with_fuel(lacks_upto, 17);
    }
    assert(lacks_upto(closing, 37, 48)) by {
        reveal_with_fuel(lacks_upto, 17);
    }
    assert(lacks_upto(closing, 37, 64)) by {
        reveal_with_fuel(lacks_upto, 17);
    }
    assert(lacks_upto(closing, 37, 65)) by {
        reveal_with_fuel(lacks_upto, 2);
    }
    lemma_lacks_upto(closing, 37, 65);
    assert(lacks(closing, 37));
    assert(closing[0] == 41);
    lemma_clear_is_guarded(contact_key);
    lemma_guarded_then_free(contact_key, texts.contact_info);
    lemma_guarded_then_clear(contact_key + texts.contact_info, name_key);
    lemma_guarded_then_free(contact_key + texts.contact_info + name_key, texts.name);
    lemma_guarded_then_clear(contact_key + texts.contact_info + name_key + texts.name, location_key);
    lemma_guarded_then_free(contact_key + texts.contact_info + name_key + texts.name + location_key, texts.location);
    lemma_guarded_then_clear(contact_key + texts.contact_info + name_key + texts.name + location_key + texts.location, closing);
}

/// The interactive form is guarded.
pub proof fn lemma_acroform_guarded(n: nat)
    ensures
        guarded(acroform_object(n)),
{
    reveal_strlit(" 0 obj\n<<\n/Type /AcroForm\n/SigFlags 3\n/Fields [");
    is_ascii_spec_bytes(" 0 obj\n<<\n/Type /AcroForm\n/SigFlags 3\n/Fields [");
    let opening = text(" 0 obj\n<<\n/Type /AcroForm\n/SigFlags 3\n/Fields [");
    assert(opening.len() == 47);
    assert(lacks_upto(opening, 37, 16)) by {
        reveal_with_fuel(lacks_upto, 17);
    }
    assert(lacks_upto(opening, 37, 32)) by {
        reveal_with_fuel(lacks_upto, 17);
    }
    assert(lacks_upto(opening, 37, 47)) by {
        reveal_with_fuel(lacks_upto, 16);
    }
    lemma_lacks_upto(opening, 37, 47);
    assert(lacks(opening, 37));
    assert(opening[0] == 32);
    reveal_strlit(" 0 R]\n>>\nendobj\n");
    is_ascii_spec_bytes(" 0 R]\n>>\nendobj\n");
    let closing = text(" 0 R]\n>>\nendobj\n");
    assert(closing.len() == 16);
    assert(lacks_upto(closing, 37, 16)) by {
        reveal_with_fuel(lacks_upto, 17);
    }
    lemma_lacks_upto(closing, 37, 16);
    assert(lacks(closing, 37));
    assert(closing[0] == 32);
    lemma_decimal_guarded(n + 1);
    lemma_decimal_guarded(n + 2);
    lemma_guarded_then_clear(decimal(n + 1), opening);
    lemma_guarded_then_clear(decimal(n + 1) + opening, decimal(n + 2));
    lemma_guarded_then_clear(decimal(n + 1) + opening + decimal(n + 2), closing);
}

/// The signature field is guarded.
pub proof fn lemma_widget_guarded(n: nat, first_page_obj: nat)
    ensures
        guarded(widget_object(n, first_page_obj)),
{
    reveal_strlit(
        " 0 obj\n<<\n/Type /Annot\n/Subtype /Widget\n/FT /Sig\n/Rect [0 0 0 0]\n/V ",
    );
    is_ascii_spec_bytes(
        " 0 obj\n<<\n/Type /Annot\n/Subtype /Widget\n/FT /Sig\n/Rect [0 0 0 0]\n/V ",
    );
    let opening = text(
        " 0 obj\n<<\n/Type /Annot\n/Subtype /Widget\n/FT /Sig\n/Rect [0 0 0 0]\n/V ",
    );
    assert(opening.len() == 68);
    assert(lacks_upto(opening, 37, 16)) by {
        reveal_with_fuel(lacks_upto, 17);
    }
    assert(lacks_upto(opening, 37, 32)) by {
        reveal_with_fuel(lacks_upto, 17);
    }
    assert(lacks_upto(opening, 37, 48)) by {
        reveal_with_fuel(lacks_upto, 17);
    }
    assert(lacks_upto(opening, 37, 64)) by {
        reveal_with_fuel(lacks_upto, 17);
    }
    assert(lacks_upto(opening, 37, 68)) by {
        reveal_with_fuel(lacks_upto, 5);
    }
    lemma_lacks_upto(opening, 37, 68);
    assert(lacks(opening, 37));
    assert(opening[0] == 32);
    reveal_strlit(" 0 R\n/T (Signature1)\n/F 4\n/P ");
    is_ascii_spec_bytes(" 0 R\n/T (Signature1)\n/F 4\n/P ");
    let between = text(" 0 R\n/T (Signature1)\n/F 4\n/P ");
    assert(between.len() == 29);
    assert(lacks_upto(between, 37, 16)) by {
        reveal_with_fuel(lacks_upto, 17);
    }
    assert(lacks_upto(between, 37, 29)) by {
        reveal_with_fuel(lacks_upto, 14);
    }
    lemma_lacks_upto(between, 37, 29);
    assert(lacks(between, 37));
    assert(between[0] == 32);
    reveal_strlit(" 0 R\n>>\nendobj\n");
    is_ascii_spec_bytes(" 0 R\n>>\nendobj\n");
    let closing = text(" 0 R\n>>\nendobj\n");
    assert(closing.len() == 15);
    assert(lacks_upto(closing, 37, 15)) by {
        reveal_with_fuel(lacks_upto, 16);
    }
    lemma_lacks_upto(closing, 37, 15);
    assert(lacks(closing, 37));
    assert(closing[0] == 32);
    lemma_decimal_guarded(n + 2);
    lemma_decimal_guarded(n);
    lemma_decimal_guarded(first_page_obj);
    lemma_guarded_then_clear(decimal(n + 2), opening);
    lemma_guarded_then_clear(decimal(n + 2) + opening, decimal(n));
    lemma_guarded_then_clear(decimal(n + 2) + opening + decimal(n), between);
    lemma_guarded_then_clear(decimal(n + 2) + opening + decimal(n) + between, decimal(first_page_obj));
    lemma_guarded_then_clear(decimal(n + 2) + opening + decimal(n) + between + decimal(first_page_obj), closing);
}

/// The replacement catalog is guarded where the lines carried over do
/// not hold the marker.
pub proof fn lemma_catalog_guarded(
    catalog_obj: nat,
    pages_ref: nat,
    acroform_ref: nat,
    extras: Seq<u8>,
)
    requires
        marker_free(extras),
    ensures
        guarded(updated_catalog(catalog_obj, pages_ref, acroform_ref, extras)),
{
    reveal_strlit(" 0 obj\n<<\n/Type /Catalog\n/Pages ");
    is_ascii_spec_bytes(" 0 obj\n<<\n/Type /Catalog\n/Pages ");
    let opening = text(" 0 obj\n<<\n/Type /Catalog\n/Pages ");
    assert(opening.len() == 32);
    assert(lacks_upto(opening, 37, 16)) by {
        reveal_with_fuel(lacks_upto, 17);
    }
    assert(lacks_upto(opening, 37, 32)) by {
        reveal_with_fuel(lacks_upto, 17);
    }
    lemma_lacks_upto(opening, 37, 32);
    assert(lacks(opening, 37));
    assert(opening[0] == 32);
    reveal_strlit(" 0 R\n/AcroForm ");
    is_ascii_spec_bytes(" 0 R\n/AcroForm ");
    let form_key = text(" 0 R\n/AcroForm ");
    assert(form_key.len() == 15);
    assert(lacks_upto(form_key, 37, 15)) by {
        reveal_with_fuel(lacks_upto, 16);
    }
    lemma_lacks_upto(form_key, 37, 15);
    assert(lacks(form_key, 37));
    assert(form_key[0] == 32);
    reveal_strlit(" 0 R\n");
    is_ascii_spec_bytes(" 0 R\n");
    let line_end = text(" 0 R\n");
    assert(line_end.len() == 5);
    assert(lacks_upto(line_end, 37, 5)) by {
        reveal_with_fuel(lacks_upto, 6);
    }
    lemma_lacks_upto(line_end, 37, 5);
    assert(lacks(line_end, 37));
    assert(line_end[0] == 32);
    assert(line_end[4] == 10);
    reveal_strlit(">>\nendobj\n");
    is_ascii_spec_bytes(">>\nendobj\n");
    let closing = text(">>\nendobj\n");
    assert(closing.len() == 10);
    assert(lacks_upto(closing, 37, 10)) by {
        reveal_with_fuel(lacks_upto, 11);
    }
    lemma_lacks_upto(closing, 37, 10);
    assert(lacks(closing, 37));
    assert(closing[0] == 62);
    lemma_decimal_guarded(catalog_obj);
    lemma_decimal_guarded(pages_ref);
    lemma_decimal_guarded(acroform_ref);
    lemma_guarded_then_clear(decimal(catalog_obj), opening);
    lemma_guarded_then_clear(decimal(catalog_obj) + opening, decimal(pages_ref));
    lemma_guarded_then_clear(decimal(catalog_obj) + opening + decimal(pages_ref), form_key);
    lemma_guarded_then_clear(decimal(catalog_obj) + opening + decimal(pages_ref) + form_key, decimal(acroform_ref));
    lemma_guarded_then_clear(decimal(catalog_obj) + opening + decimal(pages_ref) + form_key + decimal(acroform_ref), line_end);
    lemma_guarded_then_free(decimal(catalog_obj) + opening + decimal(pages_ref) + form_key + decimal(acroform_ref) + line_end, extras);
    lemma_guarded_then_clear(decimal(catalog_obj) + opening + decimal(pages_ref) + form_key + decimal(acroform_ref) + line_end + extras, closing);
}

/// An entry of the cross-reference section is guarded.
pub proof fn lemma_xref_entry_guarded(offset: nat)
    ensures
        guarded(xref_entry(offset)),
{
    reveal_strlit(" 00000 n \n");
    is_ascii_spec_bytes(" 00000 n \n");
    let in_use = text(" 00000 n \n");
    assert(in_use.len() == 10);
    assert(lacks_upto(in_use, 37, 10)) by {
        reveal_with_fuel(lacks_upto, 11);
    }
    lemma_lacks_upto(in_use, 37, 10);
    assert(lacks(in_use, 37));
    assert(in_use[0] == 32);
    lemma_zero_padded_guarded(offset, XREF_OFFSET_WIDTH as nat);
    lemma_guarded_then_clear(zero_padded(offset, XREF_OFFSET_WIDTH as nat), in_use);
}

/// The cross-reference section of an update is guarded.
pub proof fn lemma_xref_guarded(
    catalog_obj: nat,
    n: nat,
    catalog_at: nat,
    sig_at: nat,
    acroform_at: nat,
    widget_at: nat,
)
    ensures
        guarded(xref_section(catalog_obj, n, catalog_at, sig_at, acroform_at, widget_at)),
{
    reveal_strlit("xref\n0 1\n0000000000 65535 f \n");
    is_ascii_spec_bytes("xref\n0 1\n0000000000 65535 f \n");
    let head = text("xref\n0 1\n0000000000 65535 f \n");
    assert(head.len() == 29);
    assert(lacks_upto(head, 37, 16)) by {
        reveal_with_fuel(lacks_upto, 17);
    }
    assert(lacks_upto(head, 37, 29)) by {
        reveal_with_fuel(lacks_upto, 14);
    }
    lemma_lacks_upto(head, 37, 29);
    assert(lacks(head, 37));
    assert(head[0] == 120);
    reveal_strlit(" 1\n");
    is_ascii_spec_bytes(" 1\n");
    let one = text(" 1\n");
    assert(one.len() == 3);
    assert(lacks_upto(one, 37, 3)) by {
        reveal_with_fuel(lacks_upto, 4);
    }
    lemma_lacks_upto(one, 37, 3);
    assert(lacks(one, 37));
    assert(one[0] == 32);
    reveal_strlit(" 3\n");
    is_ascii_spec_bytes(" 3\n");
    let three = text(" 3\n");
    assert(three.len() == 3);
    assert(lacks_upto(three, 37, 3)) by {
        reveal_with_fuel(lacks_upto, 4);
    }
    lemma_lacks_upto(three, 37, 3);
    assert(lacks(three, 37));
    assert(three[0] == 32);
    lemma_decimal_guarded(catalog_obj);
    lemma_decimal_guarded(n);
    lemma_xref_entry_guarded(catalog_at);
    lemma_xref_entry_guarded(sig_at);
    lemma_xref_entry_guarded(acroform_at);
    lemma_xref_entry_guarded(widget_at);
    let old_one = xref_catalog_subsection(catalog_obj, catalog_at);
    let new_ones = xref_new_subsection(n, sig_at, acroform_at, widget_at);
    lemma_guarded_then_clear(decimal(catalog_obj), one);
    lemma_guarded_joined(decimal(catalog_obj) + one, xref_entry(catalog_at));
    lemma_guarded_then_clear(decimal(n), three);
    lemma_guarded_joined(decimal(n) + three, xref_entry(sig_at));
    lemma_guarded_joined(decimal(n) + three + xref_entry(sig_at), xref_entry(acroform_at));
    lemma_guarded_joined(decimal(n) + three + xref_entry(sig_at) + xref_entry(acroform_at), xref_entry(widget_at));
    lemma_clear_is_guarded(head);
    if catalog_obj > n {
        lemma_guarded_joined(head, new_ones);
        lemma_guarded_joined(head + new_ones, old_one);
    } else {
        lemma_guarded_joined(head, old_one);
        lemma_guarded_joined(head + old_one, new_ones);
    }
}

/// The trailer of an update ends with the `%%EOF` line behind a line
/// feed, and what stands in front of that line is guarded.
pub proof fn lemma_trailer_guarded(n: nat, prev_xref: nat, catalog_obj: nat, xref_at: nat)
    ensures
        ({
            let trailer = trailer_section(n, prev_xref, catalog_obj, xref_at);
            &&& trailer.len() > 7
            &&& guarded(trailer.subrange(0, trailer.len() - 6))
            &&& trailer[trailer.len() - 7] == 10
            &&& trailer.subrange(trailer.len() - 6, trailer.len() as int) == text("%%EOF\n")
        }),
{
    reveal_strlit("trailer\n<<\n/Size ");
    is_ascii_spec_bytes("trailer\n<<\n/Size ");
    let opening = text("trailer\n<<\n/Size ");
    assert(opening.len() == 17);
    assert(lacks_upto(opening, 37, 16)) by {
        reveal_with_fuel(lacks_upto, 17);
    }
    assert(lacks_upto(opening, 37, 17)) by {
        reveal_with_fuel(lacks_upto, 2);
    }
    lemma_lacks_upto(opening, 37, 17);
    assert(lacks(opening, 37));
    assert(opening[0] == 116);
    reveal_strlit("\n/Prev ");
    is_ascii_spec_bytes("\n/Prev ");
    let prev_key = text("\n/Prev ");
    assert(prev_key.len() == 7);
    assert(lacks_upto(prev_key, 37, 7)) by {
        reveal_with_fuel(lacks_upto, 8);
    }
    lemma_lacks_upto(prev_key, 37, 7);
    assert(lacks(prev_key, 37));
    assert(prev_key[0] == 10);
    reveal_strlit("\n/Root ");
    is_ascii_spec_bytes("\n/Root ");
    let root_key = text("\n/Root ");
    assert(root_key.len() == 7);
    assert(lacks_upto(root_key, 37, 7)) by {
        reveal_with_fuel(lacks_upto, 8);
    }
    lemma_lacks_upto(root_key, 37, 7);
    assert(lacks(root_key, 37));
    assert(root_key[0] == 10);
    reveal_strlit(" 0 R\n>>\nstartxref\n");
    is_ascii_spec_bytes(" 0 R\n>>\nstartxref\n");
    let start_key = text(" 0 R\n>>\nstartxref\n");
    assert(start_key.len() == 18);
    assert(lacks_upto(start_key, 37, 16)) by {
        reveal_with_fuel(lacks_upto, 17);
    }
    assert(lacks_upto(start_key, 37, 18)) by {
        reveal_with_fuel(lacks_upto, 3);
    }
    lemma_lacks_upto(start_key, 37, 18);
    assert(lacks(start_key, 37));
    assert(start_key[0] == 32);
    reveal_strlit("\n%%EOF\n");
    is_ascii_spec_bytes("\n%%EOF\n");
    reveal_strlit("%%EOF\n");
    is_ascii_spec_bytes("%%EOF\n");
    let closing = text("\n%%EOF\n");
    let line_feed = seq![10u8];
    lemma_decimal_guarded(n + 3);
    lemma_decimal_guarded(prev_xref);
    lemma_decimal_guarded(catalog_obj);
    lemma_decimal_guarded(xref_at);
    lemma_clear_is_guarded(opening);
    lemma_guarded_then_clear(opening, decimal(n + 3));
    lemma_guarded_then_clear(opening + decimal(n + 3), prev_key);
    lemma_guarded_then_clear(opening + decimal(n + 3) + prev_key, decimal(prev_xref));
    lemma_guarded_then_clear(opening + decimal(n + 3) + prev_key + decimal(prev_xref), root_key);
    lemma_guarded_then_clear(opening + decimal(n + 3) + prev_key + decimal(prev_xref) + root_key, decimal(catalog_obj));
    lemma_guarded_then_clear(opening + decimal(n + 3) + prev_key + decimal(prev_xref) + root_key + decimal(catalog_obj), start_key);
    lemma_guarded_then_clear(opening + decimal(n + 3) + prev_key + decimal(prev_xref) + root_key + decimal(catalog_obj) + start_key, decimal(xref_at));
    lemma_guarded_then_clear(opening + decimal(n + 3) + prev_key + decimal(prev_xref) + root_key + decimal(catalog_obj) + start_key + decimal(xref_at), line_feed);
    let front = opening + decimal(n + 3) + prev_key + decimal(prev_xref) + root_key + decimal(
        catalog_obj,
    ) + start_key + decimal(xref_at);
    let trailer = trailer_section(n, prev_xref, catalog_obj, xref_at);
    assert(trailer == front + closing);
    assert(trailer.subrange(0, trailer.len() - 6) =~= front + line_feed);
    assert(trailer.subrange(trailer.len() - 6, trailer.len() as int) =~= text("%%EOF\n"));
    assert(trailer[trailer.len() - 7] == closing[0]);
}

/// What follows the signature dictionary in an update, up to the trailer,
/// is guarded where the lines carried over from the catalog do not hold
/// the marker.
pub proof fn lemma_update_rest_guarded(pdf: Seq<u8>, c: Coordinates, texts: SignatureTexts)
    requires
        marker_free(c.extras),
    ensures
        guarded(update_rest(pdf, c, texts)),
{
    reveal(update_rest);
    let form = acroform_object(c.next_obj);
    let field = widget_object(c.next_obj, c.first_page_obj);
    let catalog = updated_catalog(c.catalog_obj, c.pages_ref, c.next_obj + 1, c.extras);
    let xref = update_xref(pdf, c, texts);
    lemma_acroform_guarded(c.next_obj);
    lemma_widget_guarded(c.next_obj, c.first_page_obj);
    lemma_catalog_guarded(c.catalog_obj, c.pages_ref, c.next_obj + 1, c.extras);
    lemma_xref_guarded(
        c.catalog_obj,
        c.next_obj,
        catalog_offset(pdf.len(), c, texts),
        signature_offset(pdf.len()),
        acroform_offset(pdf.len(), c, texts),
        widget_offset(pdf.len(), c, texts),
    );
    lemma_guarded_joined(form, field);
    lemma_guarded_joined(form + field, catalog);
    lemma_guarded_joined(form + field + catalog, xref);
}

/// A file whose update is made of guarded parts holds the marker only in
/// front of the update and in its last line: the update starts at `from`
/// with a line feed, its parts follow one another up to the trailer, and
/// the trailer ends the file with the `%%EOF` line behind a line feed.
pub proof fn lemma_update_of_guarded_parts(
    file: Seq<u8>,
    from: int,
    range_at: int,
    key_at: int,
    slot_at: int,
    middle_at: int,
    date_at: int,
    tail_at: int,
    rest_at: int,
    trailer_at: int,
    middle: Seq<u8>,
    date: Seq<u8>,
    trailer: Seq<u8>,
)
    requires
        0 <= from,
        from + 1 < range_at <= key_at <= slot_at <= middle_at,
        middle_at <= date_at <= tail_at <= rest_at <= trailer_at,
        trailer_at + trailer.len() == file.len(),
        file[from] == 10,
        guarded(file.subrange(from + 1, range_at)),
        guarded(file.subrange(range_at, key_at)),
        guarded(file.subrange(key_at, slot_at)),
        guarded(file.subrange(slot_at, middle_at)),
        file.subrange(middle_at, date_at) == middle,
        file.subrange(date_at, tail_at) == date,
        guarded(middle + date),
        guarded(file.subrange(tail_at, rest_at)),
        guarded(file.subrange(rest_at, trailer_at)),
        file.subrange(trailer_at, file.len() as int) == trailer,
        trailer.len() > 7,
        guarded(trailer.subrange(0, trailer.len() - 6)),
        trailer[trailer.len() - 7] == 10,
        trailer.subrange(trailer.len() - 6, trailer.len() as int) == text("%%EOF\n"),
    ensures
        file.subrange(file.len() - 6, file.len() as int) == text("%%EOF\n"),
        occurs_at(file, end_marker(), file.len() - 6),
        forall|i: int| #[trigger]
            occurs_at(file, end_marker(), i) ==> i + 5 <= from || i == file.len() - 6,
{
    let end = file.len() as int;
    assert(file.subrange(from, from + 1) =~= seq![10u8]);
    lemma_clear_is_guarded(seq![10u8]);
    lemma_guarded_parts(file, from, from + 1, range_at);
    lemma_guarded_parts(file, from, range_at, key_at);
    lemma_guarded_parts(file, from, key_at, slot_at);
    lemma_guarded_parts(file, from, slot_at, middle_at);
    assert(file.subrange(middle_at, tail_at) =~= middle + date);
    lemma_guarded_parts(file, from, middle_at, tail_at);
    lemma_guarded_parts(file, from, tail_at, rest_at);
    lemma_guarded_parts(file, from, rest_at, trailer_at);
    assert(file.subrange(trailer_at, end - 6) =~= trailer.subrange(0, trailer.len() - 6));
    assert(file.subrange(end - 6, end) =~= trailer.subrange(
        trailer.len() - 6,
        trailer.len() as int,
    ));
    assert(file[end - 7] == trailer[trailer.len() - 7]);
    lemma_guarded_parts(file, from, trailer_at, end - 6);
    lemma_marker_only_at_end(file, from);
}

} // verus!
