//! PEM armor for certificates.

use crate::backend::{base64_encode, base64_standard};
use crate::bytes::{append, append_all, byte_views, joined};
use crate::scanner::{text, NEWLINE};
use vstd::prelude::*;
use vstd::slice::slice_subrange;
use vstd::string::*;

verus! {

/// Number of base64 symbols on a line of PEM.
pub const PEM_LINE_WIDTH: usize = 64;

/// The longest input that is encoded.
pub const PEM_MAX_INPUT: usize = 0x3fff_ffff;

/// `symbols` cut into lines of `width` bytes, the last one maybe shorter,
/// with a line feed between one line and the next. Left as it is where
/// `width` is 0.
pub open spec fn wrapped_lines(symbols: Seq<u8>, width: nat) -> Seq<u8>
    decreases symbols.len(),
{
    if width == 0 || symbols.len() <= width {
        symbols
    } else {
        symbols.subrange(0, width as int) + seq![10u8] + wrapped_lines(
            symbols.subrange(width as int, symbols.len() as int),
            width,
        )
    }
}

/// A certificate in PEM: its DER bytes in base64, on lines of 64 symbols,
/// between the two lines that mark a certificate.
pub open spec fn certificate_pem(der: Seq<u8>) -> Seq<u8> {
    text("-----BEGIN CERTIFICATE-----\n") + wrapped_lines(
        base64_standard(der),
        PEM_LINE_WIDTH as nat,
    ) + text("\n-----END CERTIFICATE-----\n")
}

/// Appends `symbols` cut into lines of `width` bytes.
pub fn push_wrapped_lines(out: &mut Vec<u8>, symbols: &[u8], width: usize)
    ensures
        final(out)@ == old(out)@ + wrapped_lines(symbols@, width as nat),
{
    let total = symbols.len();
    if width == 0 {
        append(out, symbols);
        return ;
    }
    let mut at: usize = 0;
    assert(symbols@.subrange(0, total as int) =~= symbols@);
    while total - at > width
        invariant
            at <= total,
            total == symbols@.len(),
            width > 0,
            old(out)@ + wrapped_lines(symbols@, width as nat) == out@ + wrapped_lines(
                symbols@.subrange(at as int, total as int),
                width as nat,
            ),
        decreases total - at,
    {
        let ghost rest = symbols@.subrange(at as int, total as int);
        let ghost seen = out@;
        append(out, slice_subrange(symbols, at, at + width));
        out.push(NEWLINE);
        proof {
            assert(rest.subrange(0, width as int) =~= symbols@.subrange(
                at as int,
                at + width as int,
            ));
            assert(rest.subrange(width as int, rest.len() as int) =~= symbols@.subrange(
                at + width,
                total as int,
            ));
            assert(out@ =~= seen + (rest.subrange(0, width as int) + seq![10u8]));
            assert(seen + (rest.subrange(0, width as int) + seq![10u8] + wrapped_lines(
                rest.subrange(width as int, rest.len() as int),
                width as nat,
            )) =~= seen + (rest.subrange(0, width as int) + seq![10u8]) + wrapped_lines(
                rest.subrange(width as int, rest.len() as int),
                width as nat,
            ));
        }
        at = at + width;
    }
    append(out, slice_subrange(symbols, at, total));
}

/// A certificate in PEM, or nothing where the certificate has more than
/// `PEM_MAX_INPUT` bytes.
pub fn pem_certificate(der: &[u8]) -> (r: Option<Vec<u8>>)
    ensures
        match r {
            Some(pem) => der@.len() <= PEM_MAX_INPUT && pem@ == certificate_pem(der@),
            None => der@.len() > PEM_MAX_INPUT,
        },
{
    if der.len() > PEM_MAX_INPUT {
        return None;
    }
    let symbols = base64_encode(der);
    let mut pem: Vec<u8> = Vec::new();
    append(&mut pem, "-----BEGIN CERTIFICATE-----\n".as_bytes());
    push_wrapped_lines(&mut pem, symbols.as_slice(), PEM_LINE_WIDTH);
    append(&mut pem, "\n-----END CERTIFICATE-----\n".as_bytes());
    assert(pem@ =~= certificate_pem(der@));
    Some(pem)
}

/// What an optional text holds, or nothing.
pub open spec fn text_or_nothing(part: Option<Vec<u8>>) -> Seq<u8> {
    match part {
        Some(text) => text@,
        None => Seq::<u8>::empty(),
    }
}

/// A key and its certificates in one PEM text: the key, the certificate
/// that goes with it and the certificates of the chain, one after
/// another, each where there is one.
pub open spec fn pem_bundle(
    key: Option<Vec<u8>>,
    cert: Option<Vec<u8>>,
    chain: Seq<Vec<u8>>,
) -> Seq<u8> {
    text_or_nothing(key) + text_or_nothing(cert) + joined(byte_views(chain))
}

/// Joins the PEM texts of a key, of the certificate that goes with it and
/// of the certificates of the chain into one text.
pub fn join_pem(key: &Option<Vec<u8>>, cert: &Option<Vec<u8>>, chain: &Vec<Vec<u8>>) -> (pem: Vec<
    u8,
>)
    ensures
        pem@ == pem_bundle(*key, *cert, chain@),
{
    let mut pem: Vec<u8> = Vec::new();
    match key {
        Some(text) => {
            append(&mut pem, text.as_slice());
        },
        None => {},
    }
    match cert {
        Some(text) => {
            append(&mut pem, text.as_slice());
        },
        None => {},
    }
    assert(pem@ =~= text_or_nothing(*key) + text_or_nothing(*cert));
    append_all(&mut pem, chain);
    pem
}

} // verus!
