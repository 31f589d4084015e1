//! Signature injector: a laid out document on its way to being signed.
//!
//! Three values are written into the document after it was laid out: the
//! byte range, the signing date and the signature. Each overwrites a
//! placeholder of its own length, so no byte moves. The order is fixed:
//! the byte range first, then the date, and the signature last, since it
//! is made over the bytes that hold the other two.

use crate::assembler::{
    assemble, date_placeholder, laid_out, SignatureTexts, GREATER_THAN, LESS_THAN, SIG_SLOT,
};
use crate::backend::{hex_encode, hex_lower, lemma_hex_text_bytes};
use crate::byterange::{patch_byte_range, slot_position, with_byte_range, SlotPosition};
use crate::bytes::{append, overwrite, overwritten};
use crate::decimal::zeros;
use crate::error::{PdfSignError, Result};
use crate::landmarks::lemma_signature_middle;
use crate::laws::law_placeholders_found;
use crate::probe::{coordinates, remove_trailing_newline, without_trailing_newlines};
use crate::scanner::{
    all_digits, find_from, find_token_from, is_digit, is_digit_byte, lemma_find_from, text,
    DIGIT_ZERO,
};
use vstd::prelude::*;
use vstd::slice::slice_subrange;
use vstd::string::*;

verus! {

/// The document as it is laid out for signing, before anything is written
/// over a placeholder: the document without the line ends at its end, and
/// its update. None where the document has no catalog or no first page.
pub open spec fn layout(pdf: Seq<u8>, texts: SignatureTexts) -> Option<Seq<u8>> {
    let stripped = without_trailing_newlines(pdf);
    match coordinates(stripped) {
        None => None,
        Some(c) => Some(laid_out(stripped, c, texts)),
    }
}

/// Offset at which the update of a document starts in its layout: behind
/// the document without the line ends at its end, and behind the line feed
/// that follows it. The placeholders are searched from here on, so that
/// nothing is written into the document itself.
pub open spec fn update_start(pdf: Seq<u8>) -> int {
    without_trailing_newlines(pdf).len() as int + 1
}

/// The laid out document with its byte range written.
pub open spec fn prepared(pdf: Seq<u8>, texts: SignatureTexts) -> Option<Seq<u8>> {
    match layout(pdf, texts) {
        None => None,
        Some(buf) => with_byte_range(buf, update_start(pdf)),
    }
}

/// The slot of the signature in the laid out document.
pub open spec fn prepared_slot(pdf: Seq<u8>, texts: SignatureTexts) -> SlotPosition {
    slot_position(layout(pdf, texts)->0, update_start(pdf))->0
}

/// Offset from which the date placeholder is searched: behind the slot and
/// behind the reason that follows it in the signature dictionary, so that
/// the date is written into the `/M` entry whatever the reason holds.
pub open spec fn date_search_start(pdf: Seq<u8>, texts: SignatureTexts) -> int {
    let slot = prepared_slot(pdf, texts);
    slot.start + slot.len + text("\n/Reason (").len() + texts.reason.len()
}

/// The signing date as the dictionary shows it: `D:`, the digits of the
/// time stamp, `Z`.
pub open spec fn signing_date(stamp: Seq<u8>) -> Seq<u8> {
    text("D:") + stamp + text("Z")
}

/// `buf` with `date` written over the first date placeholder at or after
/// `from`, if there is one and `date` has its length.
pub open spec fn with_date(buf: Seq<u8>, from: int, date: Seq<u8>) -> Option<Seq<u8>> {
    match find_from(buf, date_placeholder(), from) {
        None => None,
        Some(at) => if date.len() == date_placeholder().len() {
            Some(overwritten(buf, at, date))
        } else {
            None
        },
    }
}

/// The bytes that the signature is made over: those in front of the slot
/// and those behind it.
pub open spec fn signed_slab(buf: Seq<u8>, start: int, len: int) -> Seq<u8> {
    buf.subrange(0, start) + buf.subrange(start + len, buf.len() as int)
}

/// What fills the slot: `<`, the signature in lowercase hexadecimal digits,
/// zero digits up to `SIG_SLOT` digits, `>`. None where the signature has
/// more than `SIG_SLOT` digits.
pub open spec fn contents_value(cms: Seq<u8>) -> Option<Seq<u8>> {
    if 2 * cms.len() > SIG_SLOT {
        None
    } else {
        Some(
            seq![60u8] + hex_lower(cms) + zeros((SIG_SLOT - 2 * cms.len()) as nat) + seq![62u8],
        )
    }
}

/// A lowercase hexadecimal digit.
pub open spec fn is_hex_digit(b: u8) -> bool {
    48 <= b <= 57 || 97 <= b <= 102
}

/// What fills the slot is `SIG_SLOT + 2` bytes long: `<`, then `SIG_SLOT`
/// lowercase hexadecimal digits, then `>`.
pub proof fn lemma_contents_value(cms: Seq<u8>)
    requires
        2 * cms.len() <= SIG_SLOT,
    ensures
        contents_value(cms) matches Some(value) && value.len() == SIG_SLOT + 2 && value[0] == 60
            && value[SIG_SLOT + 1] == 62 && forall|i: int|
            1 <= i <= SIG_SLOT ==> is_hex_digit(#[trigger] value[i]),
{
    let value = contents_value(cms)->0;
    let digits = hex_lower(cms);
    assert forall|i: int| 1 <= i <= SIG_SLOT implies is_hex_digit(#[trigger] value[i]) by {
        if i <= digits.len() {
            assert(value[i] == digits[i - 1]);
            let byte = cms[(i - 1) / 2] as int;
            assert(0 <= byte / 16 < 16 && 0 <= byte % 16 < 16);
        } else {
            assert(value[i] == 48);
        }
    }
}

/// `buf` with the signature written into the slot, if the signature fits
/// and what fills the slot has the length of the slot.
pub open spec fn with_contents(buf: Seq<u8>, start: int, len: int, cms: Seq<u8>) -> Option<
    Seq<u8>,
> {
    match contents_value(cms) {
        None => None,
        Some(value) => if value.len() == len {
            Some(overwritten(buf, start, value))
        } else {
            None
        },
    }
}

/// The signed document: laid out, then the byte range, the date and the
/// signature written in this order.
pub open spec fn signed_document(
    pdf: Seq<u8>,
    texts: SignatureTexts,
    date: Seq<u8>,
    cms: Seq<u8>,
) -> Option<Seq<u8>> {
    match prepared(pdf, texts) {
        None => None,
        Some(buf) => match with_date(buf, date_search_start(pdf, texts), date) {
            None => None,
            Some(dated) => with_contents(
                dated,
                prepared_slot(pdf, texts).start,
                prepared_slot(pdf, texts).len,
                cms,
            ),
        },
    }
}

/// A time stamp as the signing date takes it: 14 decimal digits, for the
/// year, the month, the day, the hour, the minute and the second.
pub open spec fn is_time_stamp(stamp: Seq<u8>) -> bool {
    stamp.len() == 14 && all_digits(stamp)
}

/// Whether `stamp` is a time stamp of 14 decimal digits.
pub fn check_time_stamp(stamp: &[u8]) -> (ok: bool)
    ensures
        ok == is_time_stamp(stamp@),
{
    if stamp.len() != 14 {
        return false;
    }
    let mut i: usize = 0;
    while i < 14
        invariant
            i <= 14,
            stamp@.len() == 14,
            forall|k: int| 0 <= k < i ==> is_digit(#[trigger] stamp@[k]),
        decreases 14 - i,
    {
        if !is_digit_byte(stamp[i]) {
            return false;
        }
        i = i + 1;
    }
    true
}

/// The signing date made of the digits of a time stamp.
pub fn make_signing_date(stamp: &[u8]) -> (date: Vec<u8>)
    ensures
        date@ == signing_date(stamp@),
{
    let mut date: Vec<u8> = Vec::new();
    append(&mut date, "D:".as_bytes());
    append(&mut date, stamp);
    append(&mut date, "Z".as_bytes());
    assert(date@ =~= signing_date(stamp@));
    date
}

/// A laid out document with its byte range written, the slot that waits
/// for the signature, and the offset behind the reason from which the date
/// placeholder is searched. The slot lies inside the document.
pub struct PreparedDocument {
    buffer: Vec<u8>,
    date_from: usize,
    slot_start: usize,
    slot_len: usize,
}

impl View for PreparedDocument {
    type V = Seq<u8>;

    /// The bytes of the document.
    closed spec fn view(&self) -> Seq<u8> {
        self.buffer@
    }
}

impl PreparedDocument {
    #[verifier::type_invariant]
    spec fn slot_inside(self) -> bool {
        self.slot_start + self.slot_len <= self.buffer@.len()
    }

    /// Offset from which the date placeholder is searched.
    pub closed spec fn date_from(&self) -> int {
        self.date_from as int
    }

    /// Offset of the `<` that opens the slot.
    pub closed spec fn start(&self) -> int {
        self.slot_start as int
    }

    /// Length of the slot, both angle brackets counted.
    pub closed spec fn len(&self) -> int {
        self.slot_len as int
    }

    /// Lays out a document with its update and writes the byte range.
    ///
    /// Fails where the document has no catalog or no first page, or where
    /// the byte range is wider than its placeholder.
    pub fn prepare(
        pdf_data: Vec<u8>,
        reason: &[u8],
        contact_info: &[u8],
        name: &[u8],
        location: &[u8],
    ) -> (r: Result<PreparedDocument>)
        ensures
            match r {
                Ok(doc) => {
                    let texts = Self::texts(reason@, contact_info@, name@, location@);
                    &&& prepared(pdf_data@, texts) == Some(doc@)
                    &&& doc.date_from() == date_search_start(pdf_data@, texts)
                    &&& doc.start() == prepared_slot(pdf_data@, texts).start
                    &&& doc.len() == prepared_slot(pdf_data@, texts).len
                    &&& 0 <= doc.start()
                    &&& 0 <= doc.len()
                    &&& doc.start() + doc.len() <= doc@.len()
                },
                Err(e) => e is InvalidPdf && prepared(
                    pdf_data@,
                    Self::texts(reason@, contact_info@, name@, location@),
                ) is None,
            },
    {
        let stripped = remove_trailing_newline(pdf_data);
        let laid = match assemble(stripped.as_slice(), reason, contact_info, name, location) {
            Ok(laid) => laid,
            Err(e) => {
                return Err(e);
            },
        };
        let total = laid.len();
        assert(stripped@.len() < total);
        let update_at = stripped.len() + 1;
        let ghost texts = Self::texts(reason@, contact_info@, name@, location@);
        match patch_byte_range(laid, update_at) {
            Ok((buffer, slot_start, slot_len)) => {
                proof {
                    // the reason and the date placeholder follow the slot
                    // inside the layout
                    law_placeholders_found(pdf_data@, texts);
                    lemma_signature_middle(texts);
                }
                let reason_open = "\n/Reason (".as_bytes();
                let date_from = slot_start + slot_len + reason_open.len() + reason.len();
                Ok(PreparedDocument { buffer, date_from, slot_start, slot_len })
            },
            Err(e) => Err(e),
        }
    }

    /// The four texts as one value.
    pub open spec fn texts(
        reason: Seq<u8>,
        contact_info: Seq<u8>,
        name: Seq<u8>,
        location: Seq<u8>,
    ) -> SignatureTexts {
        SignatureTexts { reason, contact_info, name, location }
    }

    /// The bytes of the document.
    pub fn bytes(&self) -> (b: &[u8])
        ensures
            b@ == self@,
    {
        self.buffer.as_slice()
    }

    /// Offset of the `<` that opens the slot.
    pub fn contents_start(&self) -> (a: usize)
        ensures
            a == self.start(),
    {
        self.slot_start
    }

    /// Length of the slot, both angle brackets counted.
    pub fn contents_len(&self) -> (l: usize)
        ensures
            l == self.len(),
    {
        self.slot_len
    }

    /// Writes the signing date over the date placeholder that follows the
    /// reason.
    ///
    /// Fails with `InvalidPdf` where no date placeholder follows the
    /// reason, and with `PlaceholderMismatch` where one does and `date` has
    /// another length.
    pub fn stamp(self, date: &[u8]) -> (r: Result<PreparedDocument>)
        ensures
            match r {
                Ok(doc) => with_date(self@, self.date_from(), date@) == Some(doc@)
                    && doc.date_from() == self.date_from() && doc.start() == self.start()
                    && doc.len() == self.len() && doc@.len() == self@.len(),
                Err(e) => with_date(self@, self.date_from(), date@) is None && (e is InvalidPdf
                    <==> find_from(self@, date_placeholder(), self.date_from()) is None) && (e
                    is InvalidPdf || e is PlaceholderMismatch),
            },
    {
        proof {
            use_type_invariant(&self);
            lemma_find_from(self@, date_placeholder(), self.date_from());
        }
        let placeholder = "D:00000000000000Z".as_bytes();
        let PreparedDocument { buffer, date_from, slot_start, slot_len } = self;
        let mut buffer = buffer;
        let at = match find_token_from(buffer.as_slice(), placeholder, date_from) {
            Some(at) => at,
            None => {
                return Err(
                    PdfSignError::InvalidPdf("Placeholder de data não encontrado".to_owned()),
                );
            },
        };
        if date.len() != placeholder.len() {
            return Err(PdfSignError::PlaceholderMismatch);
        }
        overwrite(&mut buffer, at, date);
        Ok(PreparedDocument { buffer, date_from, slot_start, slot_len })
    }

    /// The bytes to sign: the document without the slot.
    pub fn signed_bytes(&self) -> (slab: Vec<u8>)
        ensures
            slab@ == signed_slab(self@, self.start(), self.len()),
    {
        proof {
            use_type_invariant(self);
        }
        let all = self.buffer.as_slice();
        let total = all.len();
        let mut slab: Vec<u8> = Vec::new();
        append(&mut slab, slice_subrange(all, 0, self.slot_start));
        append(&mut slab, slice_subrange(all, self.slot_start + self.slot_len, total));
        assert(slab@ =~= signed_slab(self@, self.start(), self.len()));
        slab
    }

    /// Writes the signature into the slot and hands the document out.
    ///
    /// Fails with `SignatureTooLarge` where the signature has more than
    /// `SIG_SLOT` hexadecimal digits, and with `PlaceholderMismatch` where
    /// it fits but the slot is not `SIG_SLOT + 2` bytes long.
    pub fn embed(self, cms: &[u8]) -> (r: Result<Vec<u8>>)
        ensures
            match r {
                Ok(out) => with_contents(self@, self.start(), self.len(), cms@) == Some(out@)
                    && out@.len() == self@.len(),
                Err(e) => with_contents(self@, self.start(), self.len(), cms@) is None && (e
                    is SignatureTooLarge <==> 2 * cms@.len() > SIG_SLOT) && (e is SignatureTooLarge
                    || e is PlaceholderMismatch),
            },
    {
        proof {
            use_type_invariant(&self);
        }
        let text = hex_encode(cms);
        let digits = text.as_str().as_bytes();
        proof {
            lemma_hex_text_bytes(cms@);
        }
        if digits.len() > SIG_SLOT {
            return Err(PdfSignError::SignatureTooLarge);
        }
        let mut value: Vec<u8> = Vec::new();
        value.push(LESS_THAN);
        append(&mut value, digits);
        let mut k: usize = digits.len();
        while k < SIG_SLOT
            invariant
                digits@.len() <= k <= SIG_SLOT,
                value@ == seq![60u8] + digits@ + zeros((k - digits@.len()) as nat),
            decreases SIG_SLOT - k,
        {
            value.push(DIGIT_ZERO);
            k = k + 1;
            assert(value@ =~= seq![60u8] + digits@ + zeros((k - digits@.len()) as nat));
        }
        value.push(GREATER_THAN);
        assert(value@ =~= contents_value(cms@)->0);
        let PreparedDocument { buffer, date_from: _, slot_start, slot_len } = self;
        if value.len() != slot_len {
            return Err(PdfSignError::PlaceholderMismatch);
        }
        let mut buffer = buffer;
        overwrite(&mut buffer, slot_start, value.as_slice());
        Ok(buffer)
    }
}

} // verus!
