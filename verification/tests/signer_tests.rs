use openssl::pkcs7::Pkcs7Flags;
use pdfsigner::backend::NameEntry;
use pdfsigner::certificate::{
    certificates_from_ders, first_entry_text, Certificate, NID_COMMON_NAME,
    NID_ORGANIZATION_NAME,
};
use pdfsigner::error::PdfSignError;
use pdfsigner::bytes::append_all;
use pdfsigner::pem::{join_pem, pem_certificate, push_wrapped_lines};
use pdfsigner::signature_config::SignatureConfig;
use pdfsigner::signer::{
    chain_in_pem, has_zero_byte, PdfSigner, PKCS7_BINARY, PKCS7_DETACHED, PKCS7_NOSMIMECAP, SIGN_FLAGS,
};

const SMALL: &[u8] = b"%PDF-1.4\n1 0 obj\n<<\n/Type /Catalog\n/Pages 2 0 R\n>>\nendobj\n2 0 obj\n<<\n/Type /Pages\n/Kids [3 0 R]\n/Count 1\n>>\nendobj\n3 0 obj\n<<\n/Type /Page\n/Parent 2 0 R\n/MediaBox [0 0 612 792]\n>>\nendobj\nxref\n0 4\n0000000000 65535 f \n0000000009 00000 n \n0000000058 00000 n \n0000000115 00000 n \ntrailer\n<<\n/Size 4\n/Root 1 0 R\n>>\nstartxref\n188\n%%EOF\n";

struct Identity {
    key: openssl::pkey::PKey<openssl::pkey::Private>,
    cert: openssl::x509::X509,
}

fn make_key() -> openssl::pkey::PKey<openssl::pkey::Private> {
    let rsa = openssl::rsa::Rsa::generate(2048).unwrap();
    openssl::pkey::PKey::from_rsa(rsa).unwrap()
}

fn make_identity(common_name: Option<&str>, issuer: Option<&Identity>) -> Identity {
    make_identity_with(make_key(), common_name, issuer)
}

fn make_identity_with(
    key: openssl::pkey::PKey<openssl::pkey::Private>,
    common_name: Option<&str>,
    issuer: Option<&Identity>,
) -> Identity {
    let mut name = openssl::x509::X509NameBuilder::new().unwrap();
    name.append_entry_by_text("C", "BR").unwrap();
    name.append_entry_by_text("O", "Example Org").unwrap();
    if let Some(cn) = common_name {
        name.append_entry_by_text("CN", cn).unwrap();
    }
    let name = name.build();
    let mut builder = openssl::x509::X509Builder::new().unwrap();
    builder.set_version(2).unwrap();
    let serial = openssl::bn::BigNum::from_u32(0x1234abcd).unwrap().to_asn1_integer().unwrap();
    builder.set_serial_number(&serial).unwrap();
    builder.set_subject_name(&name).unwrap();
    match issuer {
        Some(ca) => builder.set_issuer_name(ca.cert.subject_name()).unwrap(),
        None => builder.set_issuer_name(&name).unwrap(),
    }
    builder.set_pubkey(&key).unwrap();
    let start = openssl::asn1::Asn1Time::from_str("20240102030405Z").unwrap();
    let end = openssl::asn1::Asn1Time::from_str("20991231235959Z").unwrap();
    builder.set_not_before(&start).unwrap();
    builder.set_not_after(&end).unwrap();
    let digest = openssl::hash::MessageDigest::sha256();
    match issuer {
        Some(ca) => builder.sign(&ca.key, digest).unwrap(),
        None => builder.sign(&key, digest).unwrap(),
    }
    Identity { key, cert: builder.build() }
}

fn make_pfx(identity: &Identity, chain: &[&Identity], password: &str) -> Vec<u8> {
    let mut builder = openssl::pkcs12::Pkcs12::builder();
    builder.name("signer").pkey(&identity.key).cert(&identity.cert);
    if !chain.is_empty() {
        let mut stack = openssl::stack::Stack::new().unwrap();
        for link in chain {
            stack.push(link.cert.clone()).unwrap();
        }
        builder.ca(stack);
    }
    builder.build2(password).unwrap().to_der().unwrap()
}

fn find(hay: &[u8], needle: &[u8]) -> Option<usize> {
    hay.windows(needle.len()).position(|w| w == needle)
}

fn byte_range(out: &[u8]) -> [usize; 4] {
    let at = find(out, b"/ByteRange [").unwrap() + 12;
    let end = at + out[at..].iter().position(|b| *b == b']').unwrap();
    let text = std::str::from_utf8(&out[at..end]).unwrap();
    let numbers: Vec<usize> = text.split(' ').map(|n| n.parse().unwrap()).collect();
    [numbers[0], numbers[1], numbers[2], numbers[3]]
}

/// The DER structure at the start of the slot, without the zero digits
/// behind it.
fn embedded_cms(out: &[u8]) -> Vec<u8> {
    let [_, a, b, _] = byte_range(out);
    let digits = std::str::from_utf8(&out[a + 1..b - 1]).unwrap();
    let bytes = hex::decode(digits).unwrap();
    assert_eq!(bytes[0], 0x30);
    let total = match bytes[1] {
        0x82 => 4 + ((bytes[2] as usize) << 8) + bytes[3] as usize,
        0x81 => 3 + bytes[2] as usize,
        short => 2 + short as usize,
    };
    assert!(bytes[total..].iter().all(|b| *b == 0));
    bytes[..total].to_vec()
}

#[test]
fn certificate_fields_are_read_from_der() {
    let identity = make_identity(Some("Alice Example"), None);
    let der = identity.cert.to_der().unwrap();
    let cert = Certificate::from_der(der.clone()).unwrap();
    assert_eq!(cert.der(), der.as_slice());
    assert_eq!(cert.subject_cn(), Some("Alice Example".to_string()));
    assert_eq!(cert.subject_org(), Some("Example Org".to_string()));
    assert_eq!(cert.serial_number(), "1234abcd");
    assert_eq!(cert.not_before(), "Jan  2 03:04:05 2024 +00:00");
    assert_eq!(cert.not_after(), "Dec 31 23:59:59 2099 +00:00");
}

#[test]
fn certificate_without_common_name() {
    let identity = make_identity(None, None);
    let cert = Certificate::from_der(identity.cert.to_der().unwrap()).unwrap();
    assert_eq!(cert.subject_cn(), None);
    assert_eq!(cert.subject_org(), Some("Example Org".to_string()));
}

#[test]
fn bytes_that_are_no_certificate_are_refused() {
    assert!(matches!(
        Certificate::from_der(b"not a certificate".to_vec()),
        Err(PdfSignError::CertificateError(_))
    ));
    assert!(matches!(Certificate::from_der(Vec::new()), Err(PdfSignError::CertificateError(_))));
}

#[test]
fn first_entry_of_a_kind_with_a_text_is_taken() {
    let entries = vec![
        NameEntry { nid: 14, text: Some("BR".to_string()) },
        NameEntry { nid: 13, text: None },
        NameEntry { nid: 13, text: Some("First".to_string()) },
        NameEntry { nid: 13, text: Some("Second".to_string()) },
        NameEntry { nid: 17, text: Some("Org".to_string()) },
    ];
    assert_eq!(first_entry_text(&entries, NID_COMMON_NAME), Some("First".to_string()));
    assert_eq!(first_entry_text(&entries, NID_ORGANIZATION_NAME), Some("Org".to_string()));
    assert_eq!(first_entry_text(&entries, 99), None);
    assert_eq!(first_entry_text(&Vec::new(), NID_COMMON_NAME), None);
    assert_eq!(NID_COMMON_NAME, openssl::nid::Nid::COMMONNAME.as_raw());
    assert_eq!(NID_ORGANIZATION_NAME, openssl::nid::Nid::ORGANIZATIONNAME.as_raw());
}

#[test]
fn pem_armor_of_a_certificate() {
    assert_eq!(
        pem_certificate(b"Man").unwrap(),
        b"-----BEGIN CERTIFICATE-----\nTWFu\n-----END CERTIFICATE-----\n"
    );
    assert_eq!(
        pem_certificate(b"Ma").unwrap(),
        b"-----BEGIN CERTIFICATE-----\nTWE=\n-----END CERTIFICATE-----\n"
    );
    assert_eq!(
        pem_certificate(b"M").unwrap(),
        b"-----BEGIN CERTIFICATE-----\nTQ==\n-----END CERTIFICATE-----\n"
    );
    assert_eq!(
        pem_certificate(&[0xfb, 0xff, 0xbe, 0x00, 0x10, 0x83]).unwrap(),
        b"-----BEGIN CERTIFICATE-----\n+/++ABCD\n-----END CERTIFICATE-----\n"
    );
    let identity = make_identity(Some("Alice Example"), None);
    let der = identity.cert.to_der().unwrap();
    let pem = pem_certificate(&der).unwrap();
    assert_eq!(pem, identity.cert.to_pem().unwrap());
    let back = openssl::x509::X509::from_pem(&pem).unwrap();
    assert_eq!(back.to_der().unwrap(), der);
}

#[test]
fn lines_are_wrapped_at_the_width() {
    let wrap = |symbols: &[u8], width: usize| {
        let mut out = b"|".to_vec();
        push_wrapped_lines(&mut out, symbols, width);
        out
    };
    assert_eq!(wrap(b"", 4), b"|");
    assert_eq!(wrap(b"abc", 4), b"|abc");
    assert_eq!(wrap(b"abcd", 4), b"|abcd");
    assert_eq!(wrap(b"abcde", 4), b"|abcd\ne");
    assert_eq!(wrap(b"abcdefgh", 4), b"|abcd\nefgh");
    assert_eq!(wrap(b"abcdefghi", 4), b"|abcd\nefgh\ni");
    assert_eq!(wrap(b"abc", 0), b"|abc");
    assert_eq!(wrap(b"abc", 1), b"|a\nb\nc");
}

#[test]
fn flags_are_those_of_openssl() {
    assert_eq!(PKCS7_DETACHED, Pkcs7Flags::DETACHED.bits());
    assert_eq!(PKCS7_BINARY, Pkcs7Flags::BINARY.bits());
    assert_eq!(PKCS7_NOSMIMECAP, Pkcs7Flags::NOSMIMECAP.bits());
    assert_eq!(SIGN_FLAGS, PKCS7_DETACHED | PKCS7_BINARY | PKCS7_NOSMIMECAP);
    assert_eq!(
        Pkcs7Flags::from_bits_truncate(SIGN_FLAGS),
        Pkcs7Flags::DETACHED | Pkcs7Flags::BINARY | Pkcs7Flags::NOSMIMECAP
    );
}

#[test]
fn zero_bytes_are_seen() {
    assert!(!has_zero_byte("secret"));
    assert!(!has_zero_byte(""));
    assert!(has_zero_byte("sec\0ret"));
    assert!(has_zero_byte("\0"));
}

#[test]
fn archive_that_does_not_open_is_refused() {
    let identity = make_identity(Some("Alice Example"), None);
    let pfx = make_pfx(&identity, &[], "secret");
    let garbage = PdfSigner::from_pfx_bytes_openssl(b"not an archive", "secret");
    assert!(matches!(garbage, Err(PdfSignError::CertificateError(_))));
    let wrong = PdfSigner::from_pfx_bytes_openssl(&pfx, "wrong");
    assert!(matches!(wrong, Err(PdfSignError::CertificateError(_))));
    let zero = PdfSigner::from_pfx_bytes_openssl(&pfx, "sec\0ret");
    assert!(matches!(zero, Err(PdfSignError::CertificateError(_))));
    assert!(PdfSigner::from_pfx_bytes_openssl(&pfx, "secret").is_ok());
}

#[test]
fn certificate_info_of_a_signer() {
    let identity = make_identity(Some("Alice Example"), None);
    let pfx = make_pfx(&identity, &[], "secret");
    let signer = PdfSigner::from_pfx_bytes_openssl(&pfx, "secret").unwrap();
    let info = signer.get_certificate_info();
    assert_eq!(info.common_name, "Alice Example");
    assert_eq!(info.organization, Some("Example Org".to_string()));
    assert_eq!(info.email, None);
    assert_eq!(info.valid_from, "Jan  2 03:04:05 2024 +00:00");
    assert_eq!(info.valid_until, "Dec 31 23:59:59 2099 +00:00");
    assert_eq!(info.serial_number, Some("1234abcd".to_string()));
    let nameless = make_identity(None, None);
    let pfx = make_pfx(&nameless, &[], "secret");
    let signer = PdfSigner::from_pfx_bytes_openssl(&pfx, "secret").unwrap();
    assert_eq!(signer.get_certificate_info().common_name, "");
}

#[test]
fn signed_document_verifies() {
    let identity = make_identity(Some("Alice Example"), None);
    let pfx = make_pfx(&identity, &[], "secret");
    let signer = PdfSigner::from_pfx_bytes_openssl(&pfx, "secret").unwrap();
    let config = SignatureConfig::with_overrides(
        Some("Approval".to_string()),
        Some("Lisbon".to_string()),
        Some("alice@example.org".to_string()),
    );
    let out = signer.sign_pdf_bytes(SMALL.to_vec(), &config).unwrap();
    let stripped = &SMALL[..SMALL.len() - 1];
    assert!(out.starts_with(stripped));
    assert_eq!(&out[stripped.len()..stripped.len() + 9], b"\n4 0 obj\n");
    assert!(find(&out, b"/Reason (Approval)\n").is_some());
    assert!(find(&out, b"/ContactInfo (alice@example.org)\n").is_some());
    assert!(find(&out, b"/Name (Alice Example)\n").is_some());
    assert!(find(&out, b"/Location (Lisbon)\n").is_some());
    assert!(out.ends_with(b"\n%%EOF\n"));
    let [zero, a, b, c] = byte_range(&out);
    assert_eq!(zero, 0);
    assert_eq!(b, a + 16002);
    assert_eq!(b + c, out.len());
    assert_eq!(out[a], b'<');
    assert_eq!(out[b - 1], b'>');
    let mut slab = out[..a].to_vec();
    slab.extend_from_slice(&out[b..]);
    let cms = embedded_cms(&out);
    let pkcs7 = openssl::pkcs7::Pkcs7::from_der(&cms).unwrap();
    let mut store = openssl::x509::store::X509StoreBuilder::new().unwrap();
    store.add_cert(identity.cert.clone()).unwrap();
    let store = store.build();
    let others = openssl::stack::Stack::new().unwrap();
    let flags = openssl::pkcs7::Pkcs7Flags::BINARY | openssl::pkcs7::Pkcs7Flags::NOVERIFY;
    pkcs7.verify(&others, &store, Some(&slab), None, flags).unwrap();
    let mut tampered = slab.clone();
    tampered[20] ^= 1;
    assert!(pkcs7.verify(&others, &store, Some(&tampered), None, flags).is_err());
    let signers = pkcs7.signers(&others, openssl::pkcs7::Pkcs7Flags::empty()).unwrap();
    assert_eq!(signers.len(), 1);
    assert_eq!(signers[0].to_der().unwrap(), identity.cert.to_der().unwrap());
}

#[test]
fn signing_date_is_a_date() {
    let identity = make_identity(Some("Alice Example"), None);
    let pfx = make_pfx(&identity, &[], "secret");
    let signer = PdfSigner::from_pfx_bytes_openssl(&pfx, "secret").unwrap();
    let before = chrono::Utc::now().format("%Y%m%d%H%M%S").to_string();
    let out = signer.sign_pdf(SMALL.to_vec(), &SignatureConfig::default()).unwrap();
    let after = chrono::Utc::now().format("%Y%m%d%H%M%S").to_string();
    let at = find(&out, b"/M (D:").unwrap() + 4;
    let date = std::str::from_utf8(&out[at..at + 17]).unwrap();
    assert!(date.starts_with("D:"));
    assert!(date.ends_with('Z'));
    assert_eq!(out[at + 17], b')');
    let digits = &date[2..16];
    assert!(digits.bytes().all(|b| b.is_ascii_digit()));
    assert!(before.as_str() <= digits);
    assert!(digits <= after.as_str());
    assert!(find(&out, b"D:00000000000000Z").is_none());
    assert!(find(&out, b"/Reason (Assinatura digital conforme ICP-Brasil)\n").is_some());
    assert!(find(&out, b"/Location (Brasil)\n").is_some());
    assert!(find(&out, b"/ContactInfo ()\n").is_some());
}

#[test]
fn chain_certificates_are_embedded() {
    let root = make_identity(Some("Example Root"), None);
    let leaf = make_identity(Some("Alice Example"), Some(&root));
    let pfx = make_pfx(&leaf, &[&root], "secret");
    let signer = PdfSigner::from_pfx_bytes_openssl(&pfx, "secret").unwrap();
    let out = signer.sign_pdf_bytes(SMALL.to_vec(), &SignatureConfig::default()).unwrap();
    let cms = embedded_cms(&out);
    let root_der = root.cert.to_der().unwrap();
    let leaf_der = leaf.cert.to_der().unwrap();
    assert!(find(&cms, &root_der).is_some());
    assert!(find(&cms, &leaf_der).is_some());
    assert!(find(&out, b"/Name (Alice Example)\n").is_some());
    let alone = make_pfx(&leaf, &[], "secret");
    let signer = PdfSigner::from_pfx_bytes_openssl(&alone, "secret").unwrap();
    let out = signer.sign_pdf_bytes(SMALL.to_vec(), &SignatureConfig::default()).unwrap();
    let cms = embedded_cms(&out);
    assert!(find(&cms, &root_der).is_none());
    assert!(find(&cms, &leaf_der).is_some());
}

#[test]
fn signer_without_common_name_is_unknown() {
    let nameless = make_identity(None, None);
    let pfx = make_pfx(&nameless, &[], "secret");
    let signer = PdfSigner::from_pfx_bytes_openssl(&pfx, "secret").unwrap();
    let out = signer.sign_pdf_bytes(SMALL.to_vec(), &SignatureConfig::default()).unwrap();
    assert!(find(&out, b"/Name (Unknown)\n").is_some());
}

#[test]
fn signing_fails_before_any_signature_where_the_document_is_invalid() {
    let identity = make_identity(Some("Alice Example"), None);
    let pfx = make_pfx(&identity, &[], "secret");
    let signer = PdfSigner::from_pfx_bytes_openssl(&pfx, "secret").unwrap();
    let no_page = b"%PDF-1.4\n1 0 obj\n<<\n/Type /Catalog\n/Pages 2 0 R\n>>\nendobj\n2 0 obj\n<< /Type /Pages /Kids [] /Count 0 >>\nendobj\ntrailer\n<< /Root 1 0 R >>\nstartxref\n9\n%%EOF";
    let result = signer.sign_pdf_bytes(no_page.to_vec(), &SignatureConfig::default());
    assert!(matches!(result, Err(PdfSignError::InvalidPdf(_))));
    let result = signer.sign_pdf(b"".to_vec(), &SignatureConfig::default());
    assert!(matches!(result, Err(PdfSignError::InvalidPdf(_))));
}

#[test]
fn signature_of_a_long_chain_is_too_large() {
    let shared = make_key();
    let mut links = Vec::new();
    for i in 0..10 {
        let name = format!("Intermediate {}", i);
        links.push(make_identity_with(shared.clone(), Some(&name), None));
    }
    let leaf = make_identity(Some("Alice Example"), None);
    let chain: Vec<&Identity> = links.iter().collect();
    let pfx = make_pfx(&leaf, &chain, "secret");
    let signer = PdfSigner::from_pfx_bytes_openssl(&pfx, "secret").unwrap();
    let result = signer.sign_pdf_bytes(SMALL.to_vec(), &SignatureConfig::default());
    assert!(matches!(result, Err(PdfSignError::SignatureTooLarge)));
}

#[test]
fn key_that_does_not_match_the_certificate_fails_to_sign() {
    let alice = make_identity(Some("Alice Example"), None);
    let bob = make_identity(Some("Bob Example"), None);
    let mut stack = openssl::stack::Stack::new().unwrap();
    stack.push(bob.cert.clone()).unwrap();
    let mut builder = openssl::pkcs12::Pkcs12::builder();
    builder.name("mixed").pkey(&alice.key).ca(stack);
    let pfx = builder.build2("secret").unwrap().to_der().unwrap();
    let signer = PdfSigner::from_pfx_bytes_openssl(&pfx, "secret").unwrap();
    assert_eq!(signer.get_certificate_info().common_name, "Bob Example");
    let result = signer.sign_pdf_bytes(SMALL.to_vec(), &SignatureConfig::default());
    assert!(matches!(result, Err(PdfSignError::CryptoError(_))));
}

#[test]
fn archive_without_certificate_is_refused() {
    let alice = make_identity(Some("Alice Example"), None);
    let mut builder = openssl::pkcs12::Pkcs12::builder();
    builder.name("bare").pkey(&alice.key);
    let pfx = builder.build2("secret").unwrap().to_der().unwrap();
    let result = PdfSigner::from_pfx_bytes_openssl(&pfx, "secret");
    assert!(matches!(result, Err(PdfSignError::CertificateError(_))));
}

#[test]
fn chain_keeps_the_certificates_that_are_read() {
    let leaf = make_identity(Some("Alice Example"), None).cert.to_der().unwrap();
    let first = make_identity(Some("First Link"), None).cert.to_der().unwrap();
    let second = make_identity(Some("Second Link"), None).cert.to_der().unwrap();
    let ders = vec![leaf.clone(), b"junk".to_vec(), first.clone(), Vec::new(), second.clone()];
    let (signer, chain) = certificates_from_ders(&ders).unwrap();
    assert_eq!(signer.der(), leaf.as_slice());
    assert_eq!(chain.len(), 2);
    assert_eq!(chain[0].der(), first.as_slice());
    assert_eq!(chain[1].der(), second.as_slice());
    assert_eq!(chain[1].subject_cn(), Some("Second Link".to_string()));
    let copy = chain[0].clone();
    assert_eq!(copy.der(), first.as_slice());
    assert_eq!(copy.subject_cn(), Some("First Link".to_string()));
    let (_, none) = certificates_from_ders(&vec![leaf.clone()]).unwrap();
    assert!(none.is_empty());
    assert!(matches!(
        certificates_from_ders(&Vec::new()),
        Err(PdfSignError::CertificateError(_))
    ));
    assert!(matches!(
        certificates_from_ders(&vec![b"junk".to_vec(), leaf]),
        Err(PdfSignError::CertificateError(_))
    ));
}

#[test]
fn pem_texts_are_joined_in_their_order() {
    let key = Some(b"KEY\n".to_vec());
    let cert = Some(b"CERT\n".to_vec());
    let chain = vec![b"ONE\n".to_vec(), Vec::new(), b"TWO\n".to_vec()];
    assert_eq!(join_pem(&key, &cert, &chain), b"KEY\nCERT\nONE\nTWO\n");
    assert_eq!(join_pem(&None, &cert, &chain), b"CERT\nONE\nTWO\n");
    assert_eq!(join_pem(&key, &None, &Vec::new()), b"KEY\n");
    assert_eq!(join_pem(&None, &None, &chain), b"ONE\nTWO\n");
    assert_eq!(join_pem(&None, &None, &Vec::new()), b"");
    let mut out = b">".to_vec();
    append_all(&mut out, &chain);
    assert_eq!(out, b">ONE\nTWO\n");
}

#[test]
fn chain_goes_to_the_backend_in_pem() {
    let first = make_identity(Some("First Link"), None);
    let second = make_identity_with(first.key.clone(), Some("Second Link"), None);
    let chain = vec![
        Certificate::from_der(first.cert.to_der().unwrap()).unwrap(),
        Certificate::from_der(second.cert.to_der().unwrap()).unwrap(),
    ];
    let pems = chain_in_pem(&chain);
    assert_eq!(pems.len(), 2);
    assert_eq!(pems[0], first.cert.to_pem().unwrap());
    assert_eq!(pems[1], second.cert.to_pem().unwrap());
    assert!(chain_in_pem(&Vec::new()).is_empty());
}

#[test]
fn signer_reads_its_key_and_certificates_back_from_the_pem() {
    let root = make_identity(Some("Example Root"), None);
    let leaf = make_identity_with(root.key.clone(), Some("Alice Example"), Some(&root));
    let pfx = make_pfx(&leaf, &[&root], "secret");
    let signer = PdfSigner::from_pfx_bytes_openssl(&pfx, "secret").unwrap();
    let out = signer.sign_pdf_bytes(SMALL.to_vec(), &SignatureConfig::default()).unwrap();
    let cms = embedded_cms(&out);
    let pkcs7 = openssl::pkcs7::Pkcs7::from_der(&cms).unwrap();
    let others = openssl::stack::Stack::new().unwrap();
    let signers = pkcs7.signers(&others, Pkcs7Flags::empty()).unwrap();
    assert_eq!(signers.len(), 1);
    assert_eq!(signers[0].to_der().unwrap(), leaf.cert.to_der().unwrap());
    assert!(find(&cms, &root.cert.to_der().unwrap()).is_some());
}
