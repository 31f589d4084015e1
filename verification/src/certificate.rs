//! An X.509 certificate: its DER bytes and the fields read from them once,
//! when the certificate is made.

use crate::backend::{
    entries_model, entry_model, hex_encode, hex_text, parse_x509, read_subject,
    x509_certificate_fields, NameEntry,
};
use crate::error::{PdfSignError, Result};
use vstd::prelude::*;
use vstd::string::*;

verus! {

/// The number by which OpenSSL knows the common name.
pub const NID_COMMON_NAME: i32 = 13;

/// The number by which OpenSSL knows the name of the organization.
pub const NID_ORGANIZATION_NAME: i32 = 17;

/// The text of the first entry at or after `from` that is of kind `nid`
/// and has a text.
pub open spec fn first_text_from(
    entries: Seq<(int, Option<Seq<char>>)>,
    nid: int,
    from: int,
) -> Option<Seq<char>>
    decreases entries.len() - from,
{
    if from < 0 || from >= entries.len() {
        None
    } else if entries[from].0 == nid && entries[from].1 is Some {
        entries[from].1
    } else {
        first_text_from(entries, nid, from + 1)
    }
}

/// The text of the first entry of kind `nid` that has a text in a
/// subject, if the subject was read and has such an entry.
pub open spec fn subject_text(
    subject: Option<Seq<(int, Option<Seq<char>>)>>,
    nid: int,
) -> Option<Seq<char>> {
    match subject {
        None => None,
        Some(entries) => first_text_from(entries, nid, 0),
    }
}

/// The text of an optional string.
pub open spec fn text_of(value: Option<String>) -> Option<Seq<char>> {
    match value {
        Some(text) => Some(text@),
        None => None,
    }
}

/// The text of the first entry of kind `nid` that has a text.
pub fn first_entry_text(entries: &Vec<NameEntry>, nid: i32) -> (r: Option<String>)
    ensures
        text_of(r) == first_text_from(entries_model(entries@), nid as int, 0),
{
    let mut i: usize = 0;
    while i < entries.len()
        invariant
            i <= entries.len(),
            first_text_from(entries_model(entries@), nid as int, 0) == first_text_from(
                entries_model(entries@),
                nid as int,
                i as int,
            ),
        decreases entries.len() - i,
    {
        let entry = &entries[i];
        if entry.nid == nid {
            match &entry.text {
                Some(text) => {
                    return Some(text.clone());
                },
                None => {},
            }
        }
        i = i + 1;
    }
    None
}

/// A copy of the entries of a subject.
pub fn clone_entries(entries: &Vec<NameEntry>) -> (copy: Vec<NameEntry>)
    ensures
        entries_model(copy@) == entries_model(entries@),
{
    let mut copy: Vec<NameEntry> = Vec::new();
    let mut i: usize = 0;
    while i < entries.len()
        invariant
            i <= entries.len(),
            copy@.len() == i,
            forall|j: int| 0 <= j < i ==> entry_model(copy@[j]) == entry_model(entries@[j]),
        decreases entries.len() - i,
    {
        let entry = &entries[i];
        let text = match &entry.text {
            Some(text) => Some(text.clone()),
            None => None,
        };
        copy.push(NameEntry { nid: entry.nid, text });
        i = i + 1;
    }
    assert(entries_model(copy@) =~= entries_model(entries@));
    copy
}

/// A certificate. It owns its DER bytes and holds what was read from
/// them when it was made: the two ends of its validity and its serial
/// number, which the bytes fix, and the entries of its subject as OpenSSL
/// gave them.
pub struct Certificate {
    der_bytes: Vec<u8>,
    valid_from: String,
    valid_until: String,
    serial: Vec<u8>,
    subject: Option<Vec<NameEntry>>,
}

impl View for Certificate {
    type V = Seq<u8>;

    /// The DER bytes of the certificate.
    closed spec fn view(&self) -> Seq<u8> {
        self.der_bytes@
    }
}

impl Clone for Certificate {
    fn clone(&self) -> (copy: Self)
        ensures
            copy@ == self@,
            copy.subject() == self.subject(),
    {
        proof {
            use_type_invariant(self);
        }
        let subject = match &self.subject {
            Some(entries) => Some(clone_entries(entries)),
            None => None,
        };
        Certificate {
            der_bytes: self.der_bytes.clone(),
            valid_from: self.valid_from.clone(),
            valid_until: self.valid_until.clone(),
            serial: self.serial.clone(),
            subject,
        }
    }
}

impl Certificate {
    #[verifier::type_invariant]
    spec fn read_from_der(self) -> bool {
        x509_certificate_fields(self.der_bytes@) == Some(
            (self.valid_from@, self.valid_until@, self.serial@),
        )
    }

    /// The entries of the subject as they were read when the certificate
    /// was made, each with the number of its kind and its text where it
    /// has one; none where the subject was not read.
    pub closed spec fn subject(&self) -> Option<Seq<(int, Option<Seq<char>>)>> {
        match self.subject {
            Some(entries) => Some(entries_model(entries@)),
            None => None,
        }
    }

    /// Reads a certificate from its DER bytes.
    ///
    /// Fails where the bytes are not read as a certificate.
    pub fn from_der(der: Vec<u8>) -> (r: Result<Certificate>)
        ensures
            match r {
                Ok(cert) => cert@ == der@ && x509_certificate_fields(der@) is Some,
                Err(e) => e is CertificateError && x509_certificate_fields(der@) is None,
            },
    {
        let (valid_from, valid_until, serial) = match parse_x509(der.as_slice()) {
            Ok(fields) => fields,
            Err(detail) => {
                return Err(
                    PdfSignError::CertificateError(
                        "Erro ao parsear certificado: ".to_owned().concat(detail.as_str()),
                    ),
                );
            },
        };
        let subject = read_subject(der.as_slice());
        Ok(Certificate { der_bytes: der, valid_from, valid_until, serial, subject })
    }

    /// The DER bytes of the certificate.
    pub fn der(&self) -> (bytes: &[u8])
        ensures
            bytes@ == self@,
    {
        self.der_bytes.as_slice()
    }

    /// The common name of the subject.
    pub fn subject_cn(&self) -> (r: Option<String>)
        ensures
            text_of(r) == subject_text(self.subject(), NID_COMMON_NAME as int),
    {
        match &self.subject {
            Some(entries) => first_entry_text(entries, NID_COMMON_NAME),
            None => None,
        }
    }

    /// The organization of the subject.
    pub fn subject_org(&self) -> (r: Option<String>)
        ensures
            text_of(r) == subject_text(self.subject(), NID_ORGANIZATION_NAME as int),
    {
        match &self.subject {
            Some(entries) => first_entry_text(entries, NID_ORGANIZATION_NAME),
            None => None,
        }
    }

    /// The start of the validity, as text.
    pub fn not_before(&self) -> (r: String)
        ensures
            x509_certificate_fields(self@) matches Some(fields) && r@ == fields.0,
    {
        proof {
            use_type_invariant(self);
        }
        self.valid_from.clone()
    }

    /// The end of the validity, as text.
    pub fn not_after(&self) -> (r: String)
        ensures
            x509_certificate_fields(self@) matches Some(fields) && r@ == fields.1,
    {
        proof {
            use_type_invariant(self);
        }
        self.valid_until.clone()
    }

    /// The serial number in lowercase hexadecimal digits.
    pub fn serial_number(&self) -> (r: String)
        ensures
            x509_certificate_fields(self@) matches Some(fields) && r@ == hex_text(fields.2),
    {
        proof {
            use_type_invariant(self);
        }
        hex_encode(self.serial.as_slice())
    }
}

/// The bytes of each of `ders`.
pub open spec fn der_views(ders: Seq<Vec<u8>>) -> Seq<Seq<u8>> {
    Seq::new(ders.len(), |i: int| ders[i]@)
}

/// The DER bytes of each of `certs`.
pub open spec fn certificate_views(certs: Seq<Certificate>) -> Seq<Seq<u8>> {
    Seq::new(certs.len(), |i: int| certs[i]@)
}

/// Those of `ders` that are read as certificates, in their order.
pub open spec fn readable_certificates(ders: Seq<Seq<u8>>) -> Seq<Seq<u8>>
    decreases ders.len(),
{
    if ders.len() == 0 {
        Seq::<Seq<u8>>::empty()
    } else if x509_certificate_fields(ders.last()) is Some {
        readable_certificates(ders.drop_last()).push(ders.last())
    } else {
        readable_certificates(ders.drop_last())
    }
}

/// The certificate of a signer and its chain, from their DER encodings.
/// The first encoding is that of the signer; the others make the chain,
/// where one that is not read as a certificate is left out.
///
/// Fails where there is no encoding or the first is not read as a
/// certificate.
pub fn certificates_from_ders(ders: &Vec<Vec<u8>>) -> (r: Result<(Certificate, Vec<Certificate>)>)
    ensures
        match r {
            Ok((leaf, chain)) => ders@.len() > 0 && leaf@ == ders@[0]@ && x509_certificate_fields(
                ders@[0]@,
            ) is Some && certificate_views(chain@) == readable_certificates(
                der_views(ders@).skip(1),
            ),
            Err(e) => e is CertificateError && (ders@.len() == 0 || x509_certificate_fields(
                ders@[0]@,
            ) is None),
        },
{
    if ders.len() == 0 {
        return Err(
            PdfSignError::CertificateError("Nenhum certificado encontrado no PKCS#12".to_owned()),
        );
    }
    let leaf = match Certificate::from_der(ders[0].clone()) {
        Ok(leaf) => leaf,
        Err(e) => {
            return Err(e);
        },
    };
    let ghost all = der_views(ders@);
    let mut chain: Vec<Certificate> = Vec::new();
    let mut i: usize = 1;
    assert(all.subrange(1, 1) =~= Seq::<Seq<u8>>::empty());
    while i < ders.len()
        invariant
            1 <= i <= ders.len(),
            all == der_views(ders@),
            certificate_views(chain@) == readable_certificates(all.subrange(1, i as int)),
        decreases ders.len() - i,
    {
        let ghost seen = certificate_views(chain@);
        proof {
            assert(all.subrange(1, i + 1).drop_last() =~= all.subrange(1, i as int));
            assert(all.subrange(1, i + 1).last() == ders@[i as int]@);
        }
        match Certificate::from_der(ders[i].clone()) {
            Ok(link) => {
                chain.push(link);
                assert(certificate_views(chain@) =~= seen.push(ders@[i as int]@));
            },
            Err(_) => {},
        }
        i = i + 1;
    }
    assert(all.subrange(1, ders@.len() as int) =~= all.skip(1));
    Ok((leaf, chain))
}

} // verus!
