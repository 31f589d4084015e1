//! Byte range planner and patcher.
//!
//! A signature covers the whole file but the slot that will hold it. The
//! byte range `[0 a b c]` says so: the first range is the `a` bytes in front
//! of the slot, the second the `c` bytes from offset `b` on, behind it. The
//! range is written over a placeholder of the same width, so that the
//! offsets it names stay true.

use crate::assembler::byte_range_placeholder;
use crate::bytes::{append, overwrite, overwritten};
use crate::decimal::{decimal, push_decimal};
use crate::error::{PdfSignError, Result};
use crate::scanner::{find_from, find_token_from, lemma_find_from, text};
use vstd::prelude::*;
use vstd::string::*;

verus! {

/// The space that pads the byte range.
pub const SPACE: u8 = 32;

/// `count` spaces.
pub open spec fn spaces(count: nat) -> Seq<u8> {
    Seq::new(count, |i: int| 32u8)
}

/// Where the byte range placeholder and the slot of the signature stand in
/// a laid out document.
pub struct SlotPosition {
    /// Offset of the byte range placeholder.
    pub range_at: int,
    /// Offset of the `<` that opens the slot.
    pub start: int,
    /// Length of the slot, both angle brackets counted.
    pub len: int,
}

/// The first byte range placeholder at or after `from`, the offset at
/// which the update starts; behind it the first `/Contents `; from there
/// the first `<`, which opens the slot; from there the first `>`, which
/// closes it. What stands in front of `from`, the document itself, is not
/// searched.
pub open spec fn slot_position(buf: Seq<u8>, from: int) -> Option<SlotPosition> {
    match find_from(buf, byte_range_placeholder(), from) {
        None => None,
        Some(range_at) => match find_from(
            buf,
            text("/Contents "),
            range_at + byte_range_placeholder().len(),
        ) {
            None => None,
            Some(key) => match find_from(buf, seq![60u8], key) {
                None => None,
                Some(start) => match find_from(buf, seq![62u8], start) {
                    None => None,
                    Some(close) => Some(SlotPosition { range_at, start, len: close + 1 - start }),
                },
            },
        },
    }
}

/// The byte range of a file of `total` bytes whose slot is at `start` and
/// `len` bytes long.
pub open spec fn byte_range_entry(start: nat, len: nat, total: nat) -> Seq<u8> {
    text("/ByteRange [") + decimal(0) + text(" ") + decimal(start) + text(" ") + decimal(
        start + len,
    ) + text(" ") + decimal((total - (start + len)) as nat) + text("]")
}

/// `entry` with spaces behind it up to the width of the placeholder, if it
/// is no wider.
pub open spec fn padded_entry(entry: Seq<u8>) -> Option<Seq<u8>> {
    if entry.len() > byte_range_placeholder().len() {
        None
    } else {
        Some(entry + spaces((byte_range_placeholder().len() - entry.len()) as nat))
    }
}

/// A laid out document with its byte range written over the placeholder
/// of its update, which starts at `from`, if the update has a placeholder
/// and a slot, and the byte range fits.
pub open spec fn with_byte_range(buf: Seq<u8>, from: int) -> Option<Seq<u8>> {
    match slot_position(buf, from) {
        None => None,
        Some(slot) => match padded_entry(
            byte_range_entry(slot.start as nat, slot.len as nat, buf.len()),
        ) {
            None => None,
            Some(entry) => Some(overwritten(buf, slot.range_at, entry)),
        },
    }
}

/// What `slot_position` finds lies inside the buffer, the slot behind the
/// placeholder.
pub proof fn lemma_slot_position(buf: Seq<u8>, from: int)
    requires
        0 <= from,
    ensures
        match slot_position(buf, from) {
            Some(slot) => from <= slot.range_at && slot.range_at + byte_range_placeholder().len()
                <= slot.start && 2 <= slot.len && slot.start + slot.len <= buf.len()
                && buf[slot.start] == 60 && buf[slot.start + slot.len - 1] == 62,
            None => true,
        },
{
    lemma_find_from(buf, byte_range_placeholder(), from);
    match find_from(buf, byte_range_placeholder(), from) {
        None => {},
        Some(range_at) => {
            let behind = range_at + byte_range_placeholder().len();
            lemma_find_from(buf, text("/Contents "), behind);
            match find_from(buf, text("/Contents "), behind) {
                None => {},
                Some(key) => {
                    lemma_find_from(buf, seq![60u8], key);
                    match find_from(buf, seq![60u8], key) {
                        None => {},
                        Some(start) => {
                            lemma_find_from(buf, seq![62u8], start);
                            match find_from(buf, seq![62u8], start) {
                                None => {},
                                Some(close) => {
                                    assert(buf.subrange(start, start + 1)[0] == 60);
                                    assert(buf.subrange(close, close + 1)[0] == 62);
                                },
                            }
                        },
                    }
                },
            }
        },
    }
}

/// Finds the byte range placeholder and the slot of the signature in the
/// update of a laid out document, which starts at `from`.
///
/// Returns the offset of the placeholder, the offset of the slot and the
/// length of the slot. Fails where one of them is missing.
pub fn locate_slot(buf: &[u8], from: usize) -> (r: Result<(usize, usize, usize)>)
    ensures
        match r {
            Ok((range_at, start, len)) => slot_position(buf@, from as int) == Some(
                SlotPosition { range_at: range_at as int, start: start as int, len: len as int },
            ) && from <= range_at && start + len <= buf.len(),
            Err(e) => e is InvalidPdf && slot_position(buf@, from as int) is None,
        },
{
    let placeholder = "/ByteRange [0000000 0000000 0000000 0000000]                 ".as_bytes();
    let total = buf.len();
    let open_mark: [u8; 1] = [60];
    let close_mark: [u8; 1] = [62];
    assert(open_mark@ =~= seq![60u8]);
    assert(close_mark@ =~= seq![62u8]);
    proof {
        lemma_slot_position(buf@, from as int);
    }
    let range_at = match find_token_from(buf, placeholder, from) {
        Some(at) => at,
        None => {
            return Err(PdfSignError::InvalidPdf("ByteRange não encontrado".to_owned()));
        },
    };
    proof {
        lemma_find_from(buf@, byte_range_placeholder(), from as int);
    }
    let key = match find_token_from(buf, "/Contents ".as_bytes(), range_at + placeholder.len()) {
        Some(at) => at,
        None => {
            return Err(
                PdfSignError::InvalidPdf("/Contents não encontrado após ByteRange".to_owned()),
            );
        },
    };
    let start = match find_token_from(buf, open_mark.as_slice(), key) {
        Some(at) => at,
        None => {
            return Err(PdfSignError::InvalidPdf("< não encontrado após /Contents".to_owned()));
        },
    };
    let close = match find_token_from(buf, close_mark.as_slice(), start) {
        Some(at) => at,
        None => {
            return Err(PdfSignError::InvalidPdf("> não encontrado após <".to_owned()));
        },
    };
    proof {
        lemma_find_from(buf@, seq![62u8], start as int);
        lemma_find_from(buf@, seq![60u8], key as int);
    }
    assert(start <= close < total);
    Ok((range_at, start, close + 1 - start))
}

/// Writes the byte range of a file of `total` bytes whose slot is at
/// `start` and `len` bytes long, with spaces behind it up to the width of
/// the placeholder.
///
/// Fails where the byte range is wider than the placeholder.
pub fn format_byte_range(start: usize, len: usize, total: usize) -> (r: Result<Vec<u8>>)
    requires
        start + len <= total,
    ensures
        match r {
            Ok(entry) => padded_entry(byte_range_entry(start as nat, len as nat, total as nat))
                == Some(entry@),
            Err(e) => e is InvalidPdf && padded_entry(
                byte_range_entry(start as nat, len as nat, total as nat),
            ) is None,
        },
{
    let width = "/ByteRange [0000000 0000000 0000000 0000000]                 ".as_bytes().len();
    let mut entry: Vec<u8> = Vec::new();
    append(&mut entry, "/ByteRange [".as_bytes());
    push_decimal(&mut entry, 0);
    append(&mut entry, " ".as_bytes());
    push_decimal(&mut entry, start as u64);
    append(&mut entry, " ".as_bytes());
    push_decimal(&mut entry, (start + len) as u64);
    append(&mut entry, " ".as_bytes());
    push_decimal(&mut entry, (total - (start + len)) as u64);
    append(&mut entry, "]".as_bytes());
    let ghost raw = entry@;
    assert(raw =~= byte_range_entry(start as nat, len as nat, total as nat));
    if entry.len() > width {
        return Err(PdfSignError::InvalidPdf("ByteRange maior que o placeholder".to_owned()));
    }
    while entry.len() < width
        invariant
            raw.len() <= entry.len() <= width,
            entry@ == raw + spaces((entry.len() - raw.len()) as nat),
        decreases width - entry.len(),
    {
        entry.push(SPACE);
        assert(entry@ =~= raw + spaces((entry.len() - raw.len()) as nat));
    }
    Ok(entry)
}

/// Writes the byte range of a laid out document over the placeholder of
/// its update, which starts at `from`.
///
/// Returns the document, the offset of the slot of the signature and the
/// length of the slot. Fails where the update has no placeholder or no
/// slot, or where the byte range is wider than the placeholder.
pub fn patch_byte_range(buf: Vec<u8>, from: usize) -> (r: Result<(Vec<u8>, usize, usize)>)
    ensures
        match r {
            Ok((patched, start, len)) => {
                &&& with_byte_range(buf@, from as int) == Some(patched@)
                &&& slot_position(buf@, from as int) matches Some(slot) && slot.start == start
                    && slot.len == len
                &&& start + len <= patched.len()
                &&& patched.len() == buf.len()
            },
            Err(e) => e is InvalidPdf && with_byte_range(buf@, from as int) is None,
        },
{
    let mut buf = buf;
    let (range_at, start, len) = match locate_slot(buf.as_slice(), from) {
        Ok(found) => found,
        Err(e) => {
            return Err(e);
        },
    };
    let entry = match format_byte_range(start, len, buf.len()) {
        Ok(entry) => entry,
        Err(e) => {
            return Err(e);
        },
    };
    proof {
        lemma_slot_position(buf@, from as int);
    }
    overwrite(&mut buf, range_at, entry.as_slice());
    Ok((buf, start, len))
}

} // verus!
