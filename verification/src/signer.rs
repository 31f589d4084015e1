//! The signer: a key with its certificates, and the signing of a
//! document with them.

use crate::assembler::{SignatureTexts, SIG_SLOT};
use crate::backend::{
    describe_error_stack, describe_pkcs1_error, hex_text, load_provider, parsed_cert, parsed_chain,
    parsed_key, pkcs12_from_der, pkcs12_parse, pkcs7_sign_der, pkey_from_pem, pkey_to_der,
    pkey_to_pem, rsa_from_pkcs1_der, rsa_from_pkcs8_der, since_unix_epoch, system_time_now,
    utc_time_stamp, utc_time_text, whole_seconds, x509_certificate_fields, x509_from_pem,
    x509_to_der, x509_to_pem,
};
use crate::bytes::byte_views;
use crate::certificate::{
    certificate_views, certificates_from_ders, subject_text, text_of, Certificate, NID_COMMON_NAME,
    NID_ORGANIZATION_NAME,
};
use crate::error::{PdfSignError, Result};
use crate::injector::{
    check_time_stamp, is_time_stamp, make_signing_date, prepared, signed_document, signing_date,
    PreparedDocument,
};
use crate::laws::law_placeholders_found;
use crate::pem::{certificate_pem, join_pem, pem_certificate, PEM_MAX_INPUT};
use crate::signature_config::SignatureConfig;
use vstd::prelude::*;
use vstd::string::*;

verus! {

/// The flag by which OpenSSL leaves the signed data out of the structure.
pub const PKCS7_DETACHED: i32 = 0x40;

/// The flag by which OpenSSL signs the data as they are, line ends
/// included.
pub const PKCS7_BINARY: i32 = 0x80;

/// The flag by which OpenSSL leaves the S/MIME capabilities out of the
/// signed attributes.
pub const PKCS7_NOSMIMECAP: i32 = 0x200;

/// The flags of every signature made here: detached, binary, without
/// S/MIME capabilities, and with the other signed attributes.
pub const SIGN_FLAGS: i32 = PKCS7_DETACHED | PKCS7_BINARY | PKCS7_NOSMIMECAP;

/// The most bytes that OpenSSL takes at once.
pub const BACKEND_MAX_INPUT: usize = 0x7fff_ffff;

/// What a certificate says of itself.
#[derive(Debug, Clone)]
pub struct CertificateInfo {
    pub common_name: String,
    pub organization: Option<String>,
    pub email: Option<String>,
    pub valid_from: String,
    pub valid_until: String,
    pub serial_number: Option<String>,
}

/// A signer: the certificate that goes with its key, the other
/// certificates of the chain, and the key and all certificates in PEM.
/// The providers of OpenSSL that were loaded when the signer was made stay
/// loaded for as long as it lives.
#[allow(dead_code)]
pub struct PdfSigner {
    certificate: Certificate,
    cert_chain: Vec<Certificate>,
    pem_content: Vec<u8>,
    legacy_provider: Option<openssl::provider::Provider>,
    default_provider: Option<openssl::provider::Provider>,
}

/// Whether a text holds a zero byte.
pub fn has_zero_byte(text: &str) -> (b: bool)
    ensures
        b == exists|i: int| 0 <= i < text.spec_bytes().len() && text.spec_bytes()[i] == 0,
{
    let bytes = text.as_bytes();
    let mut i: usize = 0;
    while i < bytes.len()
        invariant
            i <= bytes.len(),
            bytes@ == text.spec_bytes(),
            forall|j: int| 0 <= j < i ==> bytes@[j] != 0,
        decreases bytes.len() - i,
    {
        if bytes[i] == 0 {
            return true;
        }
        i = i + 1;
    }
    false
}

/// A failure to load, with the message of the backend behind its context.
fn certificate_error(context: &str, detail: String) -> (e: PdfSignError)
    ensures
        e is CertificateError,
{
    PdfSignError::CertificateError(context.to_owned().concat(detail.as_str()))
}

/// The pattern by which the clock is written: year, month, day, hour,
/// minute and second, as numbers.
pub open spec fn stamp_pattern() -> Seq<char> {
    "%Y%m%d%H%M%S"@
}

/// `stamp` writes a moment of the clock: some second at or after the start
/// of 1970, in UTC, written by the pattern.
pub open spec fn is_clock_reading(stamp: Seq<u8>) -> bool {
    exists|secs: int|
        0 <= secs <= i64::MAX && #[trigger] utc_time_text(secs, stamp_pattern()) == Some(stamp)
}

/// Reads the clock and writes this moment by the pattern. None where the
/// clock stands before 1970, or at a second that has no date.
fn read_clock() -> (r: Option<Vec<u8>>)
    ensures
        r matches Some(stamp) ==> is_clock_reading(stamp@),
{
    let now = system_time_now();
    let elapsed = match since_unix_epoch(&now) {
        Some(elapsed) => elapsed,
        None => {
            return None;
        },
    };
    let secs = whole_seconds(&elapsed);
    if secs > i64::MAX as u64 {
        return None;
    }
    utc_time_stamp(secs as i64, "%Y%m%d%H%M%S")
}

/// A failure to sign, with the message of the backend behind its context.
fn crypto_error(context: &str, detail: String) -> (e: PdfSignError)
    ensures
        e is CryptoError,
{
    PdfSignError::CryptoError(context.to_owned().concat(detail.as_str()))
}

/// The PEM texts that go to OpenSSL for a chain: for each certificate that
/// is short enough to be armored and whose armor OpenSSL takes at once,
/// its PEM, in the order of the chain.
pub open spec fn pems_for_backend(ders: Seq<Seq<u8>>) -> Seq<Seq<u8>>
    decreases ders.len(),
{
    if ders.len() == 0 {
        Seq::<Seq<u8>>::empty()
    } else if ders.last().len() <= PEM_MAX_INPUT && certificate_pem(ders.last()).len()
        <= BACKEND_MAX_INPUT {
        pems_for_backend(ders.drop_last()).push(certificate_pem(ders.last()))
    } else {
        pems_for_backend(ders.drop_last())
    }
}

/// The certificates of a chain in PEM, as they go to OpenSSL.
pub fn chain_in_pem(chain: &Vec<Certificate>) -> (pems: Vec<Vec<u8>>)
    ensures
        byte_views(pems@) == pems_for_backend(certificate_views(chain@)),
        forall|k: int| 0 <= k < pems@.len() ==> (#[trigger] pems@[k])@.len() <= BACKEND_MAX_INPUT,
{
    let ghost ders = certificate_views(chain@);
    let mut pems: Vec<Vec<u8>> = Vec::new();
    let mut i: usize = 0;
    assert(ders.subrange(0, 0) =~= Seq::<Seq<u8>>::empty());
    assert(byte_views(pems@) =~= pems_for_backend(ders.subrange(0, 0)));
    while i < chain.len()
        invariant
            i <= chain.len(),
            ders == certificate_views(chain@),
            byte_views(pems@) == pems_for_backend(ders.subrange(0, i as int)),
            forall|k: int|
                0 <= k < pems@.len() ==> (#[trigger] pems@[k])@.len() <= BACKEND_MAX_INPUT,
        decreases chain.len() - i,
    {
        let ghost seen = byte_views(pems@);
        proof {
            assert(ders.subrange(0, i + 1).drop_last() =~= ders.subrange(0, i as int));
            assert(ders.subrange(0, i + 1).last() == chain@[i as int]@);
        }
        match pem_certificate(chain[i].der()) {
            Some(pem) => {
                if pem.len() <= BACKEND_MAX_INPUT {
                    pems.push(pem);
                    assert(byte_views(pems@) =~= seen.push(certificate_pem(chain@[i as int]@)));
                }
            },
            None => {},
        }
        i = i + 1;
    }
    assert(ders.subrange(0, chain@.len() as int) =~= ders);
    pems
}

impl PdfSigner {
    /// The key and the certificates of the signer in PEM.
    pub closed spec fn pem(&self) -> Seq<u8> {
        self.pem_content@
    }

    /// The certificate of the signer.
    pub closed spec fn certificate_der(&self) -> Seq<u8> {
        self.certificate@
    }

    /// The entries of the subject of the certificate of the signer, as
    /// they were read when the signer was made.
    pub closed spec fn subject(&self) -> Option<Seq<(int, Option<Seq<char>>)>> {
        self.certificate.subject()
    }

    /// The name that the signature shows: the common name of the
    /// certificate, or `Unknown` where it has none.
    pub open spec fn signer_name(&self) -> Seq<char> {
        match subject_text(self.subject(), NID_COMMON_NAME as int) {
            Some(name) => name,
            None => "Unknown"@,
        }
    }

    /// The texts that the signature dictionary shows for a configuration.
    pub open spec fn texts(&self, config: &SignatureConfig) -> SignatureTexts {
        SignatureTexts {
            reason: vstd::utf8::encode_utf8(config.reason@),
            contact_info: vstd::utf8::encode_utf8(config.contact_info@),
            name: vstd::utf8::encode_utf8(self.signer_name()),
            location: vstd::utf8::encode_utf8(config.location@),
        }
    }

    /// Opens a PKCS#12 archive and takes the key and the certificates out
    /// of it.
    ///
    /// The legacy and the default provider of OpenSSL are loaded first, so
    /// that archives with old ciphers open too, and the signer keeps them.
    /// Fails where the password holds a zero byte, where the archive does
    /// not open, where it holds no key that reads as an RSA key, or where
    /// it holds no certificate or one that is not read. A certificate of
    /// the chain that is not read is left out.
    pub fn from_pfx_bytes_openssl(pfx_data: &[u8], password: &str) -> (r: Result<PdfSigner>)
        ensures
            match r {
                Ok(signer) => x509_certificate_fields(signer.certificate_der()) is Some,
                Err(e) => e is CertificateError,
            },
            (exists|i: int| 0 <= i < password.spec_bytes().len() && password.spec_bytes()[i] == 0)
                ==> r is Err,
    {
        let legacy_provider = load_provider("legacy");
        let default_provider = load_provider("default");
        if has_zero_byte(password) {
            return Err(
                PdfSignError::CertificateError("Senha com byte nulo".to_owned()),
            );
        }
        let archive = match pkcs12_from_der(pfx_data) {
            Ok(archive) => archive,
            Err(e) => {
                return Err(certificate_error("Erro ao parsear PKCS#12: ", describe_error_stack(&e)));
            },
        };
        let parsed = match pkcs12_parse(&archive, password) {
            Ok(parsed) => parsed,
            Err(e) => {
                return Err(
                    certificate_error("Erro ao descriptografar PKCS#12: ", describe_error_stack(&e)),
                );
            },
        };
        let pem_content = match Self::create_pem_from_openssl(&parsed) {
            Ok(pem) => pem,
            Err(e) => {
                return Err(e);
            },
        };
        let private_key_der = match parsed_key(&parsed) {
            Some(key) => match pkey_to_der(key) {
                Ok(der) => der,
                Err(e) => {
                    return Err(
                        certificate_error(
                            "Erro ao exportar chave privada: ",
                            describe_error_stack(&e),
                        ),
                    );
                },
            },
            None => {
                return Err(
                    PdfSignError::CertificateError(
                        "Nenhuma chave privada encontrada no PKCS#12".to_owned(),
                    ),
                );
            },
        };
        let mut cert_ders: Vec<Vec<u8>> = Vec::new();
        match parsed_cert(&parsed) {
            Some(cert) => match x509_to_der(cert) {
                Ok(der) => {
                    cert_ders.push(der);
                },
                Err(e) => {
                    return Err(
                        certificate_error(
                            "Erro ao exportar certificado: ",
                            describe_error_stack(&e),
                        ),
                    );
                },
            },
            None => {},
        }
        match parsed_chain(&parsed) {
            Some(chain) => {
                let mut i: usize = 0;
                while i < chain.len()
                    invariant
                        i <= chain.len(),
                    decreases chain.len() - i,
                {
                    match x509_to_der(&chain[i]) {
                        Ok(der) => {
                            cert_ders.push(der);
                        },
                        Err(e) => {
                            return Err(
                                certificate_error(
                                    "Erro ao exportar certificado da cadeia: ",
                                    describe_error_stack(&e),
                                ),
                            );
                        },
                    }
                    i = i + 1;
                }
            },
            None => {},
        }
        if cert_ders.len() == 0 {
            return Err(
                PdfSignError::CertificateError(
                    "Nenhum certificado encontrado no PKCS#12".to_owned(),
                ),
            );
        }
        // the key has to read as an RSA key, in PKCS#8 or else in PKCS#1
        match rsa_from_pkcs8_der(private_key_der.as_slice()) {
            Some(_) => {},
            None => match rsa_from_pkcs1_der(private_key_der.as_slice()) {
                Ok(_) => {},
                Err(e) => {
                    return Err(
                        certificate_error(
                            "Erro ao decodificar chave privada: ",
                            describe_pkcs1_error(&e),
                        ),
                    );
                },
            },
        }
        let (certificate, cert_chain) = match certificates_from_ders(&cert_ders) {
            Ok(found) => found,
            Err(e) => {
                return Err(e);
            },
        };
        Ok(
            PdfSigner {
                certificate,
                cert_chain,
                pem_content,
                legacy_provider,
                default_provider,
            },
        )
    }

    /// The key and the certificates of a parsed archive in PEM, joined by
    /// `join_pem`: the key, the certificate, the chain, as OpenSSL writes
    /// them. Fails where OpenSSL fails to write one of them.
    fn create_pem_from_openssl(parsed: &openssl::pkcs12::ParsedPkcs12_2) -> (r: Result<Vec<u8>>)
        ensures
            r matches Err(e) ==> e is CertificateError,
    {
        let key_pem = match parsed_key(parsed) {
            Some(key) => match pkey_to_pem(key) {
                Ok(text) => Some(text),
                Err(e) => {
                    return Err(
                        certificate_error(
                            "Erro ao exportar chave privada PEM: ",
                            describe_error_stack(&e),
                        ),
                    );
                },
            },
            None => None,
        };
        let cert_pem = match parsed_cert(parsed) {
            Some(cert) => match x509_to_pem(cert) {
                Ok(text) => Some(text),
                Err(e) => {
                    return Err(
                        certificate_error(
                            "Erro ao exportar certificado PEM: ",
                            describe_error_stack(&e),
                        ),
                    );
                },
            },
            None => None,
        };
        let mut chain_pems: Vec<Vec<u8>> = Vec::new();
        match parsed_chain(parsed) {
            Some(chain) => {
                let mut i: usize = 0;
                while i < chain.len()
                    invariant
                        i <= chain.len(),
                    decreases chain.len() - i,
                {
                    match x509_to_pem(&chain[i]) {
                        Ok(text) => {
                            chain_pems.push(text);
                        },
                        Err(e) => {
                            return Err(
                                certificate_error(
                                    "Erro ao exportar certificado da cadeia PEM: ",
                                    describe_error_stack(&e),
                                ),
                            );
                        },
                    }
                    i = i + 1;
                }
            },
            None => {},
        }
        Ok(join_pem(&key_pem, &cert_pem, &chain_pems))
    }

    /// Makes a detached PKCS#7 signature over `data` with the key and the
    /// certificate of the signer; the certificates of the chain that
    /// OpenSSL reads go into the signature with it.
    ///
    /// Fails with `CryptoError`, and with no other failure. It fails where
    /// `data` or the PEM of the signer is more than OpenSSL takes at once;
    /// else OpenSSL decides: it fails where the key or the certificate is
    /// not read back from the PEM, or where OpenSSL fails to sign.
    fn create_pkcs7_detached(&self, data: &[u8], _config: &SignatureConfig) -> (r: Result<Vec<u8>>)
        ensures
            r matches Err(e) ==> e is CryptoError,
            data@.len() > BACKEND_MAX_INPUT || self.pem().len() > BACKEND_MAX_INPUT ==> r is Err,
    {
        if self.pem_content.len() > BACKEND_MAX_INPUT || data.len() > BACKEND_MAX_INPUT {
            return Err(PdfSignError::CryptoError("Dados grandes demais para assinar".to_owned()));
        }
        let key = match pkey_from_pem(self.pem_content.as_slice()) {
            Ok(key) => key,
            Err(e) => {
                return Err(
                    crypto_error("Erro ao carregar chave privada: ", describe_error_stack(&e)),
                );
            },
        };
        let cert = match x509_from_pem(self.pem_content.as_slice()) {
            Ok(cert) => cert,
            Err(e) => {
                return Err(
                    crypto_error("Erro ao carregar certificado: ", describe_error_stack(&e)),
                );
            },
        };
        let pems = chain_in_pem(&self.cert_chain);
        let mut chain: Vec<openssl::x509::X509> = Vec::new();
        let mut i: usize = 0;
        while i < pems.len()
            invariant
                i <= pems.len(),
                forall|k: int|
                    0 <= k < pems@.len() ==> (#[trigger] pems@[k])@.len() <= BACKEND_MAX_INPUT,
            decreases pems.len() - i,
        {
            match x509_from_pem(pems[i].as_slice()) {
                Ok(link) => {
                    chain.push(link);
                },
                Err(_) => {},
            }
            i = i + 1;
        }
        match pkcs7_sign_der(&cert, &key, chain, data, SIGN_FLAGS) {
            Ok(der) => Ok(der),
            Err(e) => Err(crypto_error("Erro ao criar PKCS#7: ", describe_error_stack(&e))),
        }
    }

    /// Signs a document: lays it out with its update, writes the byte
    /// range, then the date of this moment, signs the bytes outside the
    /// slot and writes the signature into the slot.
    ///
    /// What comes back is a signed document for the date and the signature
    /// that the clock and the signing backend gave, the date made of a
    /// time stamp of 14 digits that writes a moment of the clock, and what
    /// was signed is no longer than `BACKEND_MAX_INPUT`. It fails with
    /// `InvalidPdf` exactly where the document cannot be prepared; else it
    /// may fail with `PlaceholderMismatch`, which it does where the clock
    /// stands before 1970 or gives no such time stamp, with
    /// `SignatureTooLarge` or with `CryptoError`.
    pub fn sign_pdf_bytes(&self, pdf_data: Vec<u8>, config: &SignatureConfig) -> (r: Result<
        Vec<u8>,
    >)
        ensures
            match r {
                Ok(out) => out@.len() <= BACKEND_MAX_INPUT + SIG_SLOT + 2 && exists|
                    stamp: Seq<u8>,
                    cms: Seq<u8>,
                |
                    #![trigger signed_document(pdf_data@, self.texts(config), signing_date(stamp), cms)]
                    is_clock_reading(stamp) && is_time_stamp(stamp) && signed_document(
                        pdf_data@,
                        self.texts(config),
                        signing_date(stamp),
                        cms,
                    ) == Some(out@),
                Err(e) => (e is InvalidPdf <==> prepared(pdf_data@, self.texts(config)) is None)
                    && (e is InvalidPdf || e is PlaceholderMismatch || e is SignatureTooLarge
                    || e is CryptoError),
            },
    {
        let signer_name = match self.certificate.subject_cn() {
            Some(name) => name,
            None => "Unknown".to_owned(),
        };
        let ghost texts = self.texts(config);
        let doc = match PreparedDocument::prepare(
            pdf_data,
            config.reason.as_str().as_bytes(),
            config.contact_info.as_str().as_bytes(),
            signer_name.as_str().as_bytes(),
            config.location.as_str().as_bytes(),
        ) {
            Ok(doc) => doc,
            Err(e) => {
                return Err(e);
            },
        };
        proof {
            law_placeholders_found(pdf_data@, texts);
        }
        let stamp = match read_clock() {
            Some(stamp) => stamp,
            None => {
                return Err(PdfSignError::PlaceholderMismatch);
            },
        };
        let digits = stamp.as_slice();
        if !check_time_stamp(digits) {
            return Err(PdfSignError::PlaceholderMismatch);
        }
        let date = make_signing_date(digits);
        let doc = match doc.stamp(date.as_slice()) {
            Ok(doc) => doc,
            Err(e) => {
                return Err(e);
            },
        };
        let slab = doc.signed_bytes();
        let cms = match self.create_pkcs7_detached(slab.as_slice(), config) {
            Ok(cms) => cms,
            Err(e) => {
                return Err(e);
            },
        };
        let out = match doc.embed(cms.as_slice()) {
            Ok(out) => out,
            Err(e) => {
                return Err(e);
            },
        };
        assert(signed_document(pdf_data@, texts, signing_date(digits@), cms@) == Some(out@));
        assert(slab@.len() + SIG_SLOT + 2 == out@.len());
        Ok(out)
    }

    /// Signs a document; the same as `sign_pdf_bytes`.
    pub fn sign_pdf(&self, pdf_data: Vec<u8>, config: &SignatureConfig) -> (r: Result<Vec<u8>>)
        ensures
            match r {
                Ok(out) => out@.len() <= BACKEND_MAX_INPUT + SIG_SLOT + 2 && exists|
                    stamp: Seq<u8>,
                    cms: Seq<u8>,
                |
                    #![trigger signed_document(pdf_data@, self.texts(config), signing_date(stamp), cms)]
                    is_clock_reading(stamp) && is_time_stamp(stamp) && signed_document(
                        pdf_data@,
                        self.texts(config),
                        signing_date(stamp),
                        cms,
                    ) == Some(out@),
                Err(e) => (e is InvalidPdf <==> prepared(pdf_data@, self.texts(config)) is None)
                    && (e is InvalidPdf || e is PlaceholderMismatch || e is SignatureTooLarge
                    || e is CryptoError),
            },
    {
        self.sign_pdf_bytes(pdf_data, config)
    }

    /// What the certificate of the signer says of itself.
    pub fn get_certificate_info(&self) -> (info: CertificateInfo)
        ensures
            info.common_name@ == (match subject_text(self.subject(), NID_COMMON_NAME as int) {
                Some(name) => name,
                None => Seq::<char>::empty(),
            }),
            text_of(info.organization) == subject_text(
                self.subject(),
                NID_ORGANIZATION_NAME as int,
            ),
            info.email is None,
            x509_certificate_fields(self.certificate_der()) matches Some(fields) && info.valid_from@
                == fields.0 && info.valid_until@ == fields.1 && text_of(info.serial_number)
                == Some(hex_text(fields.2)),
    {
        CertificateInfo {
            common_name: match self.certificate.subject_cn() {
                Some(name) => name,
                None => String::new(),
            },
            organization: self.certificate.subject_org(),
            email: None,
            valid_from: self.certificate.not_before(),
            valid_until: self.certificate.not_after(),
            serial_number: Some(self.certificate.serial_number()),
        }
    }
}

} // verus!
