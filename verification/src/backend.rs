//! The calls that this library makes into other crates.
//!
//! The types of other crates that the library holds are declared here, and
//! each call into another crate stands in a function of its own. The body
//! of such a function is not verified: the verifier takes its contract as
//! given, and the rest of the library is proved from those contracts. A
//! function without a contract promises nothing about what it returns.
//! What the contracts speak of, such as the hexadecimal digits of bytes,
//! is defined here too.

use base64::Engine;
use der_parser::asn1_rs::FromDer;
use rsa::pkcs1::DecodeRsaPrivateKey;
use rsa::pkcs8::DecodePrivateKey;
use vstd::prelude::*;
use vstd::string::*;

verus! {

/// The error stack of OpenSSL.
#[verifier::external_type_specification]
#[verifier::external_body]
pub struct ExErrorStack(openssl::error::ErrorStack);

/// A provider of algorithms, loaded for as long as the value lives.
#[verifier::external_type_specification]
#[verifier::external_body]
pub struct ExProvider(openssl::provider::Provider);

/// A PKCS#12 archive.
#[verifier::external_type_specification]
#[verifier::external_body]
pub struct ExPkcs12(openssl::pkcs12::Pkcs12);

/// What a PKCS#12 archive holds.
#[verifier::external_type_specification]
#[verifier::external_body]
pub struct ExParsedPkcs12(openssl::pkcs12::ParsedPkcs12_2);

/// A key of OpenSSL.
#[verifier::external_type_specification]
#[verifier::external_body]
#[verifier::reject_recursive_types(T)]
pub struct ExPKey<T>(openssl::pkey::PKey<T>);

/// The mark of a key that has its private half.
#[verifier::external_type_specification]
#[verifier::external_body]
pub struct ExPrivate(openssl::pkey::Private);

/// A certificate of OpenSSL.
#[verifier::external_type_specification]
#[verifier::external_body]
pub struct ExX509(openssl::x509::X509);

/// An RSA private key.
#[verifier::external_type_specification]
#[verifier::external_body]
pub struct ExRsaPrivateKey(rsa::RsaPrivateKey);

/// Why a PKCS#1 document was not read.
#[verifier::external_type_specification]
#[verifier::external_body]
pub struct ExPkcs1Error(rsa::pkcs1::Error);

/// A reading of the system clock.
#[verifier::external_type_specification]
#[verifier::external_body]
pub struct ExSystemTime(std::time::SystemTime);

/// The lowercase hexadecimal digit of a value below 16.
pub open spec fn hex_digit(nibble: int) -> u8 {
    if nibble < 10 {
        (48 + nibble) as u8
    } else {
        (87 + nibble) as u8
    }
}

/// The bytes of `data` written as two lowercase hexadecimal digits each,
/// the high half first.
pub open spec fn hex_lower(data: Seq<u8>) -> Seq<u8> {
    Seq::new(
        2 * data.len(),
        |i: int|
            if i % 2 == 0 {
                hex_digit(data[i / 2] as int / 16)
            } else {
                hex_digit(data[i / 2] as int % 16)
            },
    )
}

/// The bytes of `data` written as two lowercase hexadecimal digits each,
/// as text.
pub open spec fn hex_text(data: Seq<u8>) -> Seq<char> {
    Seq::new(2 * data.len(), |i: int| hex_lower(data)[i] as char)
}

/// `hex::encode`. The crate documents that every byte of the input is
/// written as two lowercase hexadecimal digits; the contract states that.
#[verifier::external_body]
pub(crate) fn hex_encode(data: &[u8]) -> (digits: String)
    ensures
        digits@ == hex_text(data@),
{
    hex::encode(data)
}

/// Hexadecimal digits are ASCII: the bytes of the text are the digits.
pub proof fn lemma_hex_text_bytes(data: Seq<u8>)
    ensures
        vstd::utf8::encode_utf8(hex_text(data)) == hex_lower(data),
{
    let chars = hex_text(data);
    assert(vstd::utf8::is_ascii_chars(chars)) by {
        assert forall|i: int| 0 <= i < chars.len() implies '\0' <= #[trigger] chars[i]
            <= '\u{7f}' by {
            let d = hex_lower(data)[i];
            assert(48 <= d <= 102);
        }
    }
    vstd::utf8::is_ascii_chars_encode_utf8(chars);
    assert(vstd::utf8::encode_utf8(chars) =~= hex_lower(data));
}

/// The symbol of the standard base64 alphabet for a value below 64.
pub open spec fn base64_symbol(v: int) -> u8 {
    if v < 26 {
        (65 + v) as u8
    } else if v < 52 {
        (71 + v) as u8
    } else if v < 62 {
        (v - 4) as u8
    } else if v == 62 {
        43
    } else {
        47
    }
}

/// The standard base64 encoding with padding: every three bytes are
/// written as four symbols of six bits each, and one or two bytes left
/// over as two or three symbols and `=` up to four.
pub open spec fn base64_standard(data: Seq<u8>) -> Seq<u8>
    decreases data.len(),
{
    if data.len() == 0 {
        Seq::<u8>::empty()
    } else if data.len() == 1 {
        seq![base64_symbol(data[0] as int / 4), base64_symbol((data[0] as int % 4) * 16), 61u8, 61u8]
    } else if data.len() == 2 {
        seq![
            base64_symbol(data[0] as int / 4),
            base64_symbol((data[0] as int % 4) * 16 + data[1] as int / 16),
            base64_symbol((data[1] as int % 16) * 4),
            61u8,
        ]
    } else {
        seq![
            base64_symbol(data[0] as int / 4),
            base64_symbol((data[0] as int % 4) * 16 + data[1] as int / 16),
            base64_symbol((data[1] as int % 16) * 4 + data[2] as int / 64),
            base64_symbol(data[2] as int % 64),
        ] + base64_standard(data.skip(3))
    }
}

/// `encode` of the `STANDARD` engine of `base64`, and the string it
/// returns taken as bytes: the encoding of RFC 4648 with the standard
/// alphabet and padding. It panics where the length of the result is no
/// `usize`, which the bound on the input excludes.
#[verifier::external_body]
pub(crate) fn base64_encode(data: &[u8]) -> (symbols: Vec<u8>)
    requires
        data@.len() <= 0x3fff_ffff,
    ensures
        symbols@ == base64_standard(data@),
{
    base64::engine::general_purpose::STANDARD.encode(data).into_bytes()
}

/// `SystemTime::now` of std: the system clock as it stands. What comes
/// back depends on the clock, so nothing is promised of it.
#[verifier::external_body]
pub(crate) fn system_time_now() -> (now: std::time::SystemTime) {
    std::time::SystemTime::now()
}

/// `SystemTime::duration_since` of std, taken from the start of 1970: the
/// time that has passed since then, and none where the clock stands before
/// it. Nothing is promised of the duration.
#[verifier::external_body]
pub(crate) fn since_unix_epoch(now: &std::time::SystemTime) -> (elapsed: Option<
    core::time::Duration,
>) {
    now.duration_since(std::time::UNIX_EPOCH).ok()
}

/// `Duration::as_secs` of std: the whole seconds of a duration. Nothing is
/// promised of their number.
#[verifier::external_body]
pub(crate) fn whole_seconds(elapsed: &core::time::Duration) -> (secs: u64) {
    elapsed.as_secs()
}

/// What `chrono` writes with a pattern for the moment that lies `secs`
/// seconds after the start of 1970, in UTC: the text as bytes, and none
/// where `chrono` knows no such moment or does not write it.
pub uninterp spec fn utc_time_text(secs: int, pattern: Seq<char>) -> Option<Seq<u8>>;

/// `DateTime::from_timestamp` of `chrono`, with no nanoseconds, written by
/// `format` and `write_to` with the pattern given. The moment is in UTC
/// and the pattern holds numbers only, so the same seconds give the same
/// text every time, and the text has a name. None where `from_timestamp`
/// has no moment for the seconds or `write_to` fails; neither panics. The
/// pattern is bound to the one that this library uses.
#[verifier::external_body]
pub(crate) fn utc_time_stamp(secs: i64, pattern: &str) -> (stamp: Option<Vec<u8>>)
    requires
        pattern@ == "%Y%m%d%H%M%S"@,
    ensures
        match stamp {
            Some(text) => utc_time_text(secs as int, pattern@) == Some(text@),
            None => utc_time_text(secs as int, pattern@) is None,
        },
{
    let moment = chrono::DateTime::from_timestamp(secs, 0)?;
    let mut text = String::new();
    moment.format(pattern).write_to(&mut text).ok()?;
    Some(text.into_bytes())
}

/// `Provider::load` of `openssl` in the default library context. The
/// provider is handed out if it was loaded. The name is bound to the two
/// that this library loads; a name with a zero byte would panic.
#[verifier::external_body]
pub(crate) fn load_provider(name: &str) -> (provider: Option<openssl::provider::Provider>)
    requires
        name@ == "legacy"@ || name@ == "default"@,
{
    openssl::provider::Provider::load(None, name).ok()
}

/// The text that `Debug` writes for an error stack of OpenSSL.
#[verifier::external_body]
pub(crate) fn describe_error_stack(error: &openssl::error::ErrorStack) -> (text: String) {
    format!("{:?}", error)
}

/// `Pkcs12::from_der` of `openssl`.
#[verifier::external_body]
pub(crate) fn pkcs12_from_der(data: &[u8]) -> (r: Result<
    openssl::pkcs12::Pkcs12,
    openssl::error::ErrorStack,
>) {
    openssl::pkcs12::Pkcs12::from_der(data)
}

/// `Pkcs12::parse2` of `openssl`. It panics on a password with a zero
/// byte, which the contract excludes.
#[verifier::external_body]
pub(crate) fn pkcs12_parse(archive: &openssl::pkcs12::Pkcs12, password: &str) -> (r: Result<
    openssl::pkcs12::ParsedPkcs12_2,
    openssl::error::ErrorStack,
>)
    requires
        forall|i: int| 0 <= i < password.spec_bytes().len() ==> password.spec_bytes()[i] != 0,
{
    archive.parse2(password)
}

/// The key of a parsed archive, if it holds one.
#[verifier::external_body]
pub(crate) fn parsed_key(parsed: &openssl::pkcs12::ParsedPkcs12_2) -> (key: Option<
    &openssl::pkey::PKey<openssl::pkey::Private>,
>) {
    parsed.pkey.as_ref()
}

/// The certificate of a parsed archive, if it holds one.
#[verifier::external_body]
pub(crate) fn parsed_cert(parsed: &openssl::pkcs12::ParsedPkcs12_2) -> (cert: Option<
    &openssl::x509::X509,
>) {
    parsed.cert.as_ref()
}

/// The other certificates of a parsed archive, in the order in which its
/// stack holds them, if it holds such a stack.
#[verifier::external_body]
pub(crate) fn parsed_chain(parsed: &openssl::pkcs12::ParsedPkcs12_2) -> (chain: Option<
    Vec<openssl::x509::X509>,
>) {
    parsed.ca.as_ref().map(|stack| stack.iter().map(|cert| cert.to_owned()).collect())
}

/// `private_key_to_der` of `openssl`.
#[verifier::external_body]
pub(crate) fn pkey_to_der(key: &openssl::pkey::PKey<openssl::pkey::Private>) -> (r: Result<
    Vec<u8>,
    openssl::error::ErrorStack,
>) {
    key.private_key_to_der()
}

/// `private_key_to_pem_pkcs8` of `openssl`.
#[verifier::external_body]
pub(crate) fn pkey_to_pem(key: &openssl::pkey::PKey<openssl::pkey::Private>) -> (r: Result<
    Vec<u8>,
    openssl::error::ErrorStack,
>) {
    key.private_key_to_pem_pkcs8()
}

/// `X509::to_der` of `openssl`.
#[verifier::external_body]
pub(crate) fn x509_to_der(cert: &openssl::x509::X509) -> (r: Result<
    Vec<u8>,
    openssl::error::ErrorStack,
>) {
    cert.to_der()
}

/// `X509::to_pem` of `openssl`.
#[verifier::external_body]
pub(crate) fn x509_to_pem(cert: &openssl::x509::X509) -> (r: Result<
    Vec<u8>,
    openssl::error::ErrorStack,
>) {
    cert.to_pem()
}

/// `PKey::private_key_from_pem` of `openssl`. It panics on more bytes than
/// an `i32` counts, which the contract excludes.
#[verifier::external_body]
pub(crate) fn pkey_from_pem(pem: &[u8]) -> (r: Result<
    openssl::pkey::PKey<openssl::pkey::Private>,
    openssl::error::ErrorStack,
>)
    requires
        pem@.len() <= i32::MAX,
{
    openssl::pkey::PKey::private_key_from_pem(pem)
}

/// `X509::from_pem` of `openssl`. It panics on more bytes than an `i32`
/// counts, which the contract excludes.
#[verifier::external_body]
pub(crate) fn x509_from_pem(pem: &[u8]) -> (r: Result<
    openssl::x509::X509,
    openssl::error::ErrorStack,
>)
    requires
        pem@.len() <= i32::MAX,
{
    openssl::x509::X509::from_pem(pem)
}

/// `Pkcs7::sign` of `openssl` over `data`, with the certificates of
/// `chain` put on a stack in their order, and the structure it returns
/// written by `to_der`. The flags are handed to OpenSSL as they are. The
/// signature holds the time of signing, so nothing is promised of the
/// bytes that come back. `sign` panics on more data than an `i32` counts,
/// which the contract excludes.
#[verifier::external_body]
pub(crate) fn pkcs7_sign_der(
    cert: &openssl::x509::X509,
    key: &openssl::pkey::PKey<openssl::pkey::Private>,
    chain: Vec<openssl::x509::X509>,
    data: &[u8],
    flags: i32,
) -> (r: Result<Vec<u8>, openssl::error::ErrorStack>)
    requires
        data@.len() <= i32::MAX,
{
    let mut stack = openssl::stack::Stack::new()?;
    for link in chain {
        stack.push(link)?;
    }
    let flags = openssl::pkcs7::Pkcs7Flags::from_bits_truncate(flags);
    openssl::pkcs7::Pkcs7::sign(cert, key, &stack, data, flags)?.to_der()
}

/// `RsaPrivateKey::from_pkcs8_der` of `rsa`; the key is handed out if the
/// bytes were read as one.
#[verifier::external_body]
pub(crate) fn rsa_from_pkcs8_der(der: &[u8]) -> (key: Option<rsa::RsaPrivateKey>) {
    rsa::RsaPrivateKey::from_pkcs8_der(der).ok()
}

/// `RsaPrivateKey::from_pkcs1_der` of `rsa`.
#[verifier::external_body]
pub(crate) fn rsa_from_pkcs1_der(der: &[u8]) -> (r: Result<rsa::RsaPrivateKey, rsa::pkcs1::Error>) {
    rsa::RsaPrivateKey::from_pkcs1_der(der)
}

/// The text that `Debug` writes for an error of `pkcs1`.
#[verifier::external_body]
pub(crate) fn describe_pkcs1_error(error: &rsa::pkcs1::Error) -> (text: String) {
    format!("{:?}", error)
}

/// What `X509Certificate::from_der` of `x509_parser` reads in a
/// certificate: the text of the start of its validity, the text of the end
/// of its validity, and its serial number as bytes, the most significant
/// first. None where the bytes are not read as a certificate.
pub uninterp spec fn x509_certificate_fields(der: Seq<u8>) -> Option<
    (Seq<char>, Seq<char>, Seq<u8>),
>;

/// `X509Certificate::from_der` of `x509_parser`; from the certificate that
/// it reads, the two ends of the validity as `Display` writes them and the
/// serial number as `to_bytes_be` gives it. The parser reads the same
/// bytes the same way every time, so what it reads has a name. Where it
/// fails, the text that `Debug` writes for its error comes back.
#[verifier::external_body]
pub(crate) fn parse_x509(der: &[u8]) -> (r: Result<(String, String, Vec<u8>), String>)
    ensures
        match r {
            Ok(fields) => x509_certificate_fields(der@) == Some(
                (fields.0@, fields.1@, fields.2@),
            ),
            Err(_) => x509_certificate_fields(der@) is None,
        },
{
    match x509_parser::certificate::X509Certificate::from_der(der) {
        Ok((_, cert)) => Ok(
            (
                cert.validity().not_before.to_string(),
                cert.validity().not_after.to_string(),
                cert.serial.to_bytes_be(),
            ),
        ),
        Err(error) => Err(format!("{:?}", error)),
    }
}

/// One entry of the subject of a certificate.
#[derive(Debug, Clone)]
pub struct NameEntry {
    /// The number by which OpenSSL knows the kind of the entry.
    pub nid: i32,
    /// The value of the entry as text, where it converts to UTF-8.
    pub text: Option<String>,
}

/// An entry as plain values.
pub open spec fn entry_model(entry: NameEntry) -> (int, Option<Seq<char>>) {
    (
        entry.nid as int,
        match entry.text {
            Some(text) => Some(text@),
            None => None,
        },
    )
}

/// Entries as plain values.
pub open spec fn entries_model(entries: Seq<NameEntry>) -> Seq<(int, Option<Seq<char>>)> {
    Seq::new(entries.len(), |i: int| entry_model(entries[i]))
}

/// `X509::from_der` of `openssl`, and the entries of `subject_name` of the
/// certificate that it reads: for each the raw number of the kind of its
/// object and the text that `as_utf8` gives for its data; none where the
/// bytes are not read. The numbers come from the table of objects of
/// OpenSSL, which a process may extend, so nothing is promised of what
/// comes back.
#[verifier::external_body]
#[allow(deprecated)]
pub(crate) fn read_subject(der: &[u8]) -> (r: Option<Vec<NameEntry>>)
{
    let cert = openssl::x509::X509::from_der(der).ok()?;
    let entries = cert.subject_name().entries();
    Some(
        entries.map(
            |entry|
                NameEntry {
                    nid: entry.object().nid().as_raw(),
                    text: entry.data().as_utf8().ok().map(|text| text.to_string()),
                },
        ).collect(),
    )
}

} // verus!
