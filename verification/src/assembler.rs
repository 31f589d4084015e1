//! Incremental assembler: the objects, the cross-reference section and the
//! trailer that are appended to a document to carry a signature.
//!
//! The update defines four objects. Three are new and take the numbers
//! `n`, `n + 1` and `n + 2`: the signature dictionary, the interactive form
//! and the signature field. The fourth takes the number of the catalog and
//! supersedes it.

use crate::bytes::append;
use crate::decimal::{decimal, push_decimal, push_zero_padded, zero_padded, zeros};
use crate::error::Result;
use crate::probe::{
    catalog_extras_text, coordinates, locate_coordinates, push_catalog_extras, Coordinates,
};
use crate::scanner::{text, DIGIT_ZERO, NEWLINE};
use vstd::prelude::*;
use vstd::slice::slice_subrange;
use vstd::string::*;

verus! {

/// Number of hexadecimal digits reserved for the signature.
pub const SIG_SLOT: usize = 16000;

/// Number of digits of an offset in a cross-reference entry.
pub const XREF_OFFSET_WIDTH: usize = 10;

/// The `<` that opens a hexadecimal string.
pub const LESS_THAN: u8 = 60;

/// The `>` that closes a hexadecimal string.
pub const GREATER_THAN: u8 = 62;

/// The byte range as it is first written: four numbers of seven digits and
/// 17 spaces, to be overwritten once the layout is known.
pub open spec fn byte_range_placeholder() -> Seq<u8> {
    text("/ByteRange [0000000 0000000 0000000 0000000]                 ")
}

/// The signing date as it is first written.
pub open spec fn date_placeholder() -> Seq<u8> {
    text("D:00000000000000Z")
}

/// The signature as it is first written: `SIG_SLOT` zero digits between
/// angle brackets.
pub open spec fn contents_placeholder() -> Seq<u8> {
    seq![60u8] + zeros(SIG_SLOT as nat) + seq![62u8]
}

/// The texts that the signature dictionary shows.
pub struct SignatureTexts {
    pub reason: Seq<u8>,
    pub contact_info: Seq<u8>,
    pub name: Seq<u8>,
    pub location: Seq<u8>,
}

/// The signature dictionary up to the byte range.
pub open spec fn signature_head(n: nat) -> Seq<u8> {
    decimal(n) + text(
        " 0 obj\n<<\n/Type /Sig\n/Filter /Adobe.PPKLite\n/SubFilter /adbe.pkcs7.detached\n",
    )
}

/// The signature dictionary between the signature and the signing date.
pub open spec fn signature_middle(texts: SignatureTexts) -> Seq<u8> {
    text("\n/Reason (") + texts.reason + text(")\n/M (")
}

/// The signature dictionary behind the signing date.
pub open spec fn signature_tail(texts: SignatureTexts) -> Seq<u8> {
    text(")\n/ContactInfo (") + texts.contact_info + text(")\n/Name (") + texts.name + text(
        ")\n/Location (",
    ) + texts.location + text(
        ")\n/Prop_Build <<\n/Filter <<\n/Name /Adobe.PPKLite\n>>\n>>\n>>\nendobj\n",
    )
}

/// The signature dictionary, object `n`: the byte range, the signature,
/// the reason, the signing date, the contact, the name of the signer and
/// the location, in this order.
pub open spec fn signature_object(n: nat, texts: SignatureTexts) -> Seq<u8> {
    signature_head(n) + byte_range_placeholder() + text("\n/Contents ") + contents_placeholder()
        + signature_middle(texts) + date_placeholder() + signature_tail(texts)
}

/// The interactive form, object `n + 1`, whose one field is object `n + 2`.
pub open spec fn acroform_object(n: nat) -> Seq<u8> {
    decimal(n + 1) + text(" 0 obj\n<<\n/Type /AcroForm\n/SigFlags 3\n/Fields [") + decimal(n + 2)
        + text(" 0 R]\n>>\nendobj\n")
}

/// The signature field, object `n + 2`: an invisible widget on the first
/// page whose value is object `n`.
pub open spec fn widget_object(n: nat, first_page_obj: nat) -> Seq<u8> {
    decimal(n + 2) + text(
        " 0 obj\n<<\n/Type /Annot\n/Subtype /Widget\n/FT /Sig\n/Rect [0 0 0 0]\n/V ",
    ) + decimal(n) + text(" 0 R\n/T (Signature1)\n/F 4\n/P ") + decimal(first_page_obj) + text(
        " 0 R\n>>\nendobj\n",
    )
}

/// The replacement catalog: the page tree root, the interactive form, and
/// the lines carried over.
pub open spec fn updated_catalog(
    catalog_obj: nat,
    pages_ref: nat,
    acroform_ref: nat,
    extras: Seq<u8>,
) -> Seq<u8> {
    decimal(catalog_obj) + text(" 0 obj\n<<\n/Type /Catalog\n/Pages ") + decimal(pages_ref)
        + text(" 0 R\n/AcroForm ") + decimal(acroform_ref) + text(" 0 R\n") + extras + text(
        ">>\nendobj\n",
    )
}

/// One entry of the cross-reference section, for an object in use at
/// `offset`.
pub open spec fn xref_entry(offset: nat) -> Seq<u8> {
    zero_padded(offset, XREF_OFFSET_WIDTH as nat) + text(" 00000 n \n")
}

/// An entry of the cross-reference section is 20 bytes long, for every
/// offset of at most ten digits.
pub proof fn law_xref_entry_width(offset: nat)
    requires
        offset < 10_000_000_000,
    ensures
        xref_entry(offset).len() == 20,
{
    reveal_strlit(" 00000 n \n");
    is_ascii_spec_bytes(" 00000 n \n");
    assert(decimal(offset).len() <= 10) by {
        reveal_with_fuel(decimal, 11);
    }
}

/// The subsection for the catalog.
pub open spec fn xref_catalog_subsection(catalog_obj: nat, catalog_at: nat) -> Seq<u8> {
    decimal(catalog_obj) + text(" 1\n") + xref_entry(catalog_at)
}

/// The subsection for the three new objects.
pub open spec fn xref_new_subsection(n: nat, sig_at: nat, acroform_at: nat, widget_at: nat) -> Seq<
    u8,
> {
    decimal(n) + text(" 3\n") + xref_entry(sig_at) + xref_entry(acroform_at) + xref_entry(
        widget_at,
    )
}

/// The cross-reference section of the update: the free entry of object 0,
/// then the two subsections, the one with the lower first object first.
pub open spec fn xref_section(
    catalog_obj: nat,
    n: nat,
    catalog_at: nat,
    sig_at: nat,
    acroform_at: nat,
    widget_at: nat,
) -> Seq<u8> {
    let head = text("xref\n0 1\n0000000000 65535 f \n");
    if catalog_obj > n {
        head + xref_new_subsection(n, sig_at, acroform_at, widget_at) + xref_catalog_subsection(
            catalog_obj,
            catalog_at,
        )
    } else {
        head + xref_catalog_subsection(catalog_obj, catalog_at) + xref_new_subsection(
            n,
            sig_at,
            acroform_at,
            widget_at,
        )
    }
}

/// The trailer of the update.
pub open spec fn trailer_section(n: nat, prev_xref: nat, catalog_obj: nat, xref_at: nat) -> Seq<
    u8,
> {
    text("trailer\n<<\n/Size ") + decimal(n + 3) + text("\n/Prev ") + decimal(prev_xref) + text(
        "\n/Root ",
    ) + decimal(catalog_obj) + text(" 0 R\n>>\nstartxref\n") + decimal(xref_at) + text(
        "\n%%EOF\n",
    )
}

/// The four objects of the update, in the order in which they are written.
pub open spec fn update_objects(c: Coordinates, texts: SignatureTexts) -> Seq<u8> {
    signature_object(c.next_obj, texts) + acroform_object(c.next_obj) + widget_object(
        c.next_obj,
        c.first_page_obj,
    ) + updated_catalog(c.catalog_obj, c.pages_ref, c.next_obj + 1, c.extras)
}

/// Offset of the signature dictionary in the update of a document of
/// `len` bytes.
pub open spec fn signature_offset(len: nat) -> nat {
    len + 1
}

/// Offset of the interactive form.
pub open spec fn acroform_offset(len: nat, c: Coordinates, texts: SignatureTexts) -> nat {
    signature_offset(len) + signature_object(c.next_obj, texts).len()
}

/// Offset of the signature field.
pub open spec fn widget_offset(len: nat, c: Coordinates, texts: SignatureTexts) -> nat {
    acroform_offset(len, c, texts) + acroform_object(c.next_obj).len()
}

/// Offset of the replacement catalog.
pub open spec fn catalog_offset(len: nat, c: Coordinates, texts: SignatureTexts) -> nat {
    widget_offset(len, c, texts) + widget_object(c.next_obj, c.first_page_obj).len()
}

/// Offset of the cross-reference section.
pub open spec fn xref_offset(len: nat, c: Coordinates, texts: SignatureTexts) -> nat {
    catalog_offset(len, c, texts) + updated_catalog(
        c.catalog_obj,
        c.pages_ref,
        c.next_obj + 1,
        c.extras,
    ).len()
}

/// The document with its update: the document, one line feed, the four
/// objects, the cross-reference section whose entries give the offsets at
/// which those objects start, and the trailer.
#[verifier::opaque]
pub open spec fn laid_out(pdf: Seq<u8>, c: Coordinates, texts: SignatureTexts) -> Seq<u8> {
    pdf + seq![10u8] + update_objects(c, texts) + xref_section(
        c.catalog_obj,
        c.next_obj,
        catalog_offset(pdf.len(), c, texts),
        signature_offset(pdf.len()),
        acroform_offset(pdf.len(), c, texts),
        widget_offset(pdf.len(), c, texts),
    ) + trailer_section(c.next_obj, c.prev_xref, c.catalog_obj, xref_offset(pdf.len(), c, texts))
}

/// Appends the signature as it is first written.
pub fn push_contents_placeholder(out: &mut Vec<u8>)
    ensures
        final(out)@ == old(out)@ + contents_placeholder(),
{
    out.push(LESS_THAN);
    let mut k: usize = 0;
    while k < SIG_SLOT
        invariant
            k <= SIG_SLOT,
            out@ == old(out)@ + seq![60u8] + zeros(k as nat),
        decreases SIG_SLOT - k,
    {
        out.push(DIGIT_ZERO);
        k = k + 1;
        assert(out@ =~= old(out)@ + seq![60u8] + zeros(k as nat));
    }
    out.push(GREATER_THAN);
    assert(final(out)@ =~= old(out)@ + contents_placeholder());
}

/// Appends the signature dictionary, object `n`.
pub fn push_signature_object(
    out: &mut Vec<u8>,
    n: u32,
    reason: &[u8],
    contact_info: &[u8],
    name: &[u8],
    location: &[u8],
)
    ensures
        final(out)@ == old(out)@ + signature_object(
            n as nat,
            SignatureTexts {
                reason: reason@,
                contact_info: contact_info@,
                name: name@,
                location: location@,
            },
        ),
{
    let ghost before = out@;
    push_decimal(out, n as u64);
    append(
        out,
        " 0 obj\n<<\n/Type /Sig\n/Filter /Adobe.PPKLite\n/SubFilter /adbe.pkcs7.detached\n".as_bytes(),
    );
    append(out, "/ByteRange [0000000 0000000 0000000 0000000]                 ".as_bytes());
    append(out, "\n/Contents ".as_bytes());
    push_contents_placeholder(out);
    append(out, "\n/Reason (".as_bytes());
    append(out, reason);
    append(out, ")\n/M (".as_bytes());
    append(out, "D:00000000000000Z".as_bytes());
    append(out, ")\n/ContactInfo (".as_bytes());
    append(out, contact_info);
    append(out, ")\n/Name (".as_bytes());
    append(out, name);
    append(out, ")\n/Location (".as_bytes());
    append(out, location);
    append(
        out,
        ")\n/Prop_Build <<\n/Filter <<\n/Name /Adobe.PPKLite\n>>\n>>\n>>\nendobj\n".as_bytes(),
    );
    assert(out@ =~= before + signature_object(
        n as nat,
        SignatureTexts {
            reason: reason@,
            contact_info: contact_info@,
            name: name@,
            location: location@,
        },
    ));
}

/// Appends the interactive form, object `n + 1`.
pub fn push_acroform_object(out: &mut Vec<u8>, n: u32)
    ensures
        final(out)@ == old(out)@ + acroform_object(n as nat),
{
    let ghost before = out@;
    push_decimal(out, n as u64 + 1);
    append(out, " 0 obj\n<<\n/Type /AcroForm\n/SigFlags 3\n/Fields [".as_bytes());
    push_decimal(out, n as u64 + 2);
    append(out, " 0 R]\n>>\nendobj\n".as_bytes());
    assert(out@ =~= before + acroform_object(n as nat));
}

/// Appends the signature field, object `n + 2`.
pub fn push_widget_object(out: &mut Vec<u8>, n: u32, first_page_obj: usize)
    ensures
        final(out)@ == old(out)@ + widget_object(n as nat, first_page_obj as nat),
{
    let ghost before = out@;
    push_decimal(out, n as u64 + 2);
    append(
        out,
        " 0 obj\n<<\n/Type /Annot\n/Subtype /Widget\n/FT /Sig\n/Rect [0 0 0 0]\n/V ".as_bytes(),
    );
    push_decimal(out, n as u64);
    append(out, " 0 R\n/T (Signature1)\n/F 4\n/P ".as_bytes());
    push_decimal(out, first_page_obj as u64);
    append(out, " 0 R\n>>\nendobj\n".as_bytes());
    assert(out@ =~= before + widget_object(n as nat, first_page_obj as nat));
}

/// Appends a replacement catalog that carries the given lines over.
pub fn push_catalog_with(
    out: &mut Vec<u8>,
    catalog_obj: usize,
    pages_ref: usize,
    acroform_ref: u64,
    extras: &[u8],
)
    ensures
        final(out)@ == old(out)@ + updated_catalog(
            catalog_obj as nat,
            pages_ref as nat,
            acroform_ref as nat,
            extras@,
        ),
{
    let ghost before = out@;
    push_decimal(out, catalog_obj as u64);
    append(out, " 0 obj\n<<\n/Type /Catalog\n/Pages ".as_bytes());
    push_decimal(out, pages_ref as u64);
    append(out, " 0 R\n/AcroForm ".as_bytes());
    push_decimal(out, acroform_ref);
    append(out, " 0 R\n".as_bytes());
    append(out, extras);
    append(out, ">>\nendobj\n".as_bytes());
    assert(out@ =~= before + updated_catalog(
        catalog_obj as nat,
        pages_ref as nat,
        acroform_ref as nat,
        extras@,
    ));
}

/// The replacement catalog of a document: it names the page tree root and
/// the interactive form, and carries over every other entry of the catalog
/// that it replaces.
pub fn build_updated_catalog(
    catalog_obj: usize,
    pages_ref: usize,
    acroform_ref: u64,
    pdf_data: &[u8],
) -> (r: Result<Vec<u8>>)
    ensures
        r matches Ok(catalog) && catalog@ == updated_catalog(
            catalog_obj as nat,
            pages_ref as nat,
            acroform_ref as nat,
            catalog_extras_text(pdf_data@, catalog_obj as nat),
        ),
{
    let mut extras: Vec<u8> = Vec::new();
    push_catalog_extras(&mut extras, pdf_data, catalog_obj);
    assert(extras@ =~= catalog_extras_text(pdf_data@, catalog_obj as nat));
    let mut catalog: Vec<u8> = Vec::new();
    push_catalog_with(&mut catalog, catalog_obj, pages_ref, acroform_ref, extras.as_slice());
    assert(catalog@ =~= updated_catalog(
        catalog_obj as nat,
        pages_ref as nat,
        acroform_ref as nat,
        extras@,
    ));
    Ok(catalog)
}

/// Appends one entry of the cross-reference section.
fn push_xref_entry(out: &mut Vec<u8>, offset: usize)
    ensures
        final(out)@ == old(out)@ + xref_entry(offset as nat),
{
    let ghost before = out@;
    push_zero_padded(out, offset as u64, XREF_OFFSET_WIDTH);
    append(out, " 00000 n \n".as_bytes());
    assert(out@ =~= before + xref_entry(offset as nat));
}

/// Appends the subsection for the catalog.
fn push_xref_catalog_subsection(out: &mut Vec<u8>, catalog_obj: usize, catalog_at: usize)
    ensures
        final(out)@ == old(out)@ + xref_catalog_subsection(catalog_obj as nat, catalog_at as nat),
{
    let ghost before = out@;
    push_decimal(out, catalog_obj as u64);
    append(out, " 1\n".as_bytes());
    push_xref_entry(out, catalog_at);
    assert(out@ =~= before + xref_catalog_subsection(catalog_obj as nat, catalog_at as nat));
}

/// Appends the subsection for the three new objects.
fn push_xref_new_subsection(
    out: &mut Vec<u8>,
    n: u32,
    sig_at: usize,
    acroform_at: usize,
    widget_at: usize,
)
    ensures
        final(out)@ == old(out)@ + xref_new_subsection(
            n as nat,
            sig_at as nat,
            acroform_at as nat,
            widget_at as nat,
        ),
{
    let ghost before = out@;
    push_decimal(out, n as u64);
    append(out, " 3\n".as_bytes());
    push_xref_entry(out, sig_at);
    push_xref_entry(out, acroform_at);
    push_xref_entry(out, widget_at);
    assert(out@ =~= before + xref_new_subsection(
        n as nat,
        sig_at as nat,
        acroform_at as nat,
        widget_at as nat,
    ));
}

/// Appends the cross-reference section of the update.
pub fn push_xref_section(
    out: &mut Vec<u8>,
    catalog_obj: usize,
    n: u32,
    catalog_at: usize,
    sig_at: usize,
    acroform_at: usize,
    widget_at: usize,
)
    ensures
        final(out)@ == old(out)@ + xref_section(
            catalog_obj as nat,
            n as nat,
            catalog_at as nat,
            sig_at as nat,
            acroform_at as nat,
            widget_at as nat,
        ),
{
    let ghost before = out@;
    append(out, "xref\n0 1\n0000000000 65535 f \n".as_bytes());
    if catalog_obj as u64 > n as u64 {
        push_xref_new_subsection(out, n, sig_at, acroform_at, widget_at);
        push_xref_catalog_subsection(out, catalog_obj, catalog_at);
    } else {
        push_xref_catalog_subsection(out, catalog_obj, catalog_at);
        push_xref_new_subsection(out, n, sig_at, acroform_at, widget_at);
    }
    assert(out@ =~= before + xref_section(
        catalog_obj as nat,
        n as nat,
        catalog_at as nat,
        sig_at as nat,
        acroform_at as nat,
        widget_at as nat,
    ));
}

/// Appends the trailer of the update.
pub fn push_trailer_section(
    out: &mut Vec<u8>,
    n: u32,
    prev_xref: usize,
    catalog_obj: usize,
    xref_at: usize,
)
    ensures
        final(out)@ == old(out)@ + trailer_section(
            n as nat,
            prev_xref as nat,
            catalog_obj as nat,
            xref_at as nat,
        ),
{
    let ghost before = out@;
    append(out, "trailer\n<<\n/Size ".as_bytes());
    push_decimal(out, n as u64 + 3);
    append(out, "\n/Prev ".as_bytes());
    push_decimal(out, prev_xref as u64);
    append(out, "\n/Root ".as_bytes());
    push_decimal(out, catalog_obj as u64);
    append(out, " 0 R\n>>\nstartxref\n".as_bytes());
    push_decimal(out, xref_at as u64);
    append(out, "\n%%EOF\n".as_bytes());
    assert(out@ =~= before + trailer_section(
        n as nat,
        prev_xref as nat,
        catalog_obj as nat,
        xref_at as nat,
    ));
}

/// Lays out a document with its update: the document as it is, one line
/// feed, the signature dictionary with its placeholders, the interactive
/// form, the signature field, the replacement catalog, the cross-reference
/// section and the trailer.
///
/// Fails where the document has no catalog or no first page, or where its
/// next object number is no `u32`.
pub fn assemble(
    pdf_data: &[u8],
    reason: &[u8],
    contact_info: &[u8],
    name: &[u8],
    location: &[u8],
) -> (r: Result<Vec<u8>>)
    ensures
        match r {
            Ok(out) => coordinates(pdf_data@) matches Some(c) && out@ == laid_out(
                pdf_data@,
                c,
                SignatureTexts {
                    reason: reason@,
                    contact_info: contact_info@,
                    name: name@,
                    location: location@,
                },
            ) && pdf_data@.len() < out@.len(),
            Err(e) => e is InvalidPdf && coordinates(pdf_data@) is None,
        },
{
    let found = match locate_coordinates(pdf_data) {
        Ok(found) => found,
        Err(e) => {
            return Err(e);
        },
    };
    let ghost c = found@;
    let ghost texts = SignatureTexts {
        reason: reason@,
        contact_info: contact_info@,
        name: name@,
        location: location@,
    };
    proof {
        reveal(laid_out);
    }
    let mut out: Vec<u8> = Vec::new();
    append(&mut out, pdf_data);
    out.push(NEWLINE);
    let sig_at = out.len();
    push_signature_object(&mut out, found.next_obj, reason, contact_info, name, location);
    let acroform_at = out.len();
    push_acroform_object(&mut out, found.next_obj);
    let widget_at = out.len();
    push_widget_object(&mut out, found.next_obj, found.first_page_obj);
    let catalog_at = out.len();
    push_catalog_with(
        &mut out,
        found.catalog_obj,
        found.pages_ref,
        found.next_obj as u64 + 1,
        found.catalog_extras.as_slice(),
    );
    let xref_at = out.len();
    assert(out@ =~= pdf_data@ + seq![10u8] + update_objects(c, texts));
    push_xref_section(
        &mut out,
        found.catalog_obj,
        found.next_obj,
        catalog_at,
        sig_at,
        acroform_at,
        widget_at,
    );
    push_trailer_section(&mut out, found.next_obj, found.prev_xref, found.catalog_obj, xref_at);
    Ok(out)
}

} // verus!
