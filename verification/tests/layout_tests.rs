use pdfsigner::assembler::{assemble, build_updated_catalog, SIG_SLOT};
use pdfsigner::byterange::{format_byte_range, locate_slot, patch_byte_range};
use pdfsigner::error::PdfSignError;
use pdfsigner::injector::{check_time_stamp, make_signing_date, PreparedDocument};
use pdfsigner::probe::{
    find_catalog_from_trailer, find_pages_ref_in_catalog, find_previous_xref, is_extra,
    locate_coordinates, push_catalog_extras,
};
use pdfsigner::scanner::find_token;

const SMALL: &[u8] = b"%PDF-1.4\n1 0 obj\n<<\n/Type /Catalog\n/Pages 2 0 R\n>>\nendobj\n2 0 obj\n<<\n/Type /Pages\n/Kids [3 0 R]\n/Count 1\n>>\nendobj\n3 0 obj\n<<\n/Type /Page\n/Parent 2 0 R\n/MediaBox [0 0 612 792]\n>>\nendobj\nxref\n0 4\n0000000000 65535 f \n0000000009 00000 n \n0000000058 00000 n \n0000000115 00000 n \ntrailer\n<<\n/Size 4\n/Root 1 0 R\n>>\nstartxref\n188\n%%EOF";

const PLACEHOLDER: &[u8] = b"/ByteRange [0000000 0000000 0000000 0000000]                 ";

const DATE: &[u8] = b"D:20240229123456Z";

/// The signed document written out by hand, for a document whose catalog
/// comes before the new objects.
fn expected(
    stripped: &[u8],
    n: u64,
    catalog: u64,
    pages: u64,
    first_page: u64,
    prev: u64,
    texts: [&str; 4],
    extras: &str,
    date: &str,
    cms: &[u8],
) -> Vec<u8> {
    let [reason, contact, name, location] = texts;
    let mut hex: String = cms.iter().map(|b| format!("{:02x}", b)).collect();
    while hex.len() < 16000 {
        hex.push('0');
    }
    let mut out = stripped.to_vec();
    out.push(b'\n');
    let sig_at = out.len();
    let sig_front = format!(
        "{} 0 obj\n<<\n/Type /Sig\n/Filter /Adobe.PPKLite\n/SubFilter /adbe.pkcs7.detached\n",
        n
    );
    let a = sig_at + sig_front.len() + 61 + "\n/Contents ".len();
    let sig_back = format!(
        "\n/Contents <{}>\n/Reason ({})\n/M ({})\n/ContactInfo ({})\n/Name ({})\n/Location ({})\n/Prop_Build <<\n/Filter <<\n/Name /Adobe.PPKLite\n>>\n>>\n>>\nendobj\n",
        hex, reason, date, contact, name, location
    );
    let acroform_at = sig_at + sig_front.len() + 61 + sig_back.len();
    let acroform = format!(
        "{} 0 obj\n<<\n/Type /AcroForm\n/SigFlags 3\n/Fields [{} 0 R]\n>>\nendobj\n",
        n + 1,
        n + 2
    );
    let widget_at = acroform_at + acroform.len();
    let widget = format!(
        "{} 0 obj\n<<\n/Type /Annot\n/Subtype /Widget\n/FT /Sig\n/Rect [0 0 0 0]\n/V {} 0 R\n/T (Signature1)\n/F 4\n/P {} 0 R\n>>\nendobj\n",
        n + 2,
        n,
        first_page
    );
    let catalog_at = widget_at + widget.len();
    let new_catalog = format!(
        "{} 0 obj\n<<\n/Type /Catalog\n/Pages {} 0 R\n/AcroForm {} 0 R\n{}>>\nendobj\n",
        catalog,
        pages,
        n + 1,
        extras
    );
    let xref_at = catalog_at + new_catalog.len();
    let xref = format!(
        "xref\n0 1\n0000000000 65535 f \n{} 1\n{:010} 00000 n \n{} 3\n{:010} 00000 n \n{:010} 00000 n \n{:010} 00000 n \n",
        catalog, catalog_at, n, sig_at, acroform_at, widget_at
    );
    let trailer = format!(
        "trailer\n<<\n/Size {}\n/Prev {}\n/Root {} 0 R\n>>\nstartxref\n{}\n%%EOF\n",
        n + 3,
        prev,
        catalog,
        xref_at
    );
    let total = xref_at + xref.len() + trailer.len();
    let range = format!("/ByteRange [0 {} {} {}]", a, a + 16002, total - a - 16002);
    let range = format!("{:<61}", range);
    out.extend_from_slice(sig_front.as_bytes());
    out.extend_from_slice(range.as_bytes());
    out.extend_from_slice(sig_back.as_bytes());
    out.extend_from_slice(acroform.as_bytes());
    out.extend_from_slice(widget.as_bytes());
    out.extend_from_slice(new_catalog.as_bytes());
    out.extend_from_slice(xref.as_bytes());
    out.extend_from_slice(trailer.as_bytes());
    assert_eq!(out.len(), total);
    out
}

fn sign_with(pdf: &[u8], texts: [&str; 4], date: &[u8], cms: &[u8]) -> Result<Vec<u8>, PdfSignError> {
    let doc = PreparedDocument::prepare(
        pdf.to_vec(),
        texts[0].as_bytes(),
        texts[1].as_bytes(),
        texts[2].as_bytes(),
        texts[3].as_bytes(),
    )?;
    let doc = doc.stamp(date)?;
    doc.embed(cms)
}

fn count(hay: &[u8], needle: &[u8]) -> usize {
    hay.windows(needle.len()).filter(|w| *w == needle).count()
}

/// The four numbers of the byte range that a signed document holds.
fn parse_byte_range(out: &[u8]) -> [usize; 4] {
    let at = find_token(out, b"/ByteRange [").unwrap() + 12;
    let end = at + out[at..].iter().position(|b| *b == b']').unwrap();
    let text = std::str::from_utf8(&out[at..end]).unwrap();
    let numbers: Vec<usize> = text.split(' ').map(|n| n.parse().unwrap()).collect();
    [numbers[0], numbers[1], numbers[2], numbers[3]]
}

const TEXTS: [&str; 4] = ["Approval", "alice@example.org", "Alice Example", "Lisbon"];

#[test]
fn minimal_single_page_document() {
    let cms = [0x30u8, 0x82, 0x01, 0xab, 0xcd, 0xef];
    let out = sign_with(SMALL, TEXTS, DATE, &cms).unwrap();
    let want = expected(SMALL, 4, 1, 2, 3, 188, TEXTS, "", "D:20240229123456Z", &cms);
    assert_eq!(out, want);
    assert_eq!(count(&out, b"\n4 0 obj\n"), 1);
    assert_eq!(count(&out, b"\n5 0 obj\n"), 1);
    assert_eq!(count(&out, b"\n6 0 obj\n"), 1);
    assert_eq!(count(&out, b"\n1 0 obj\n"), 2);
    let xref_at = find_token(&out[SMALL.len()..], b"xref\n0 1\n").unwrap() + SMALL.len();
    let xref = &out[xref_at..];
    assert!(xref.starts_with(b"xref\n0 1\n0000000000 65535 f \n1 1\n"));
    assert_eq!(&xref[43..53], b" 00000 n \n");
    assert_eq!(&xref[53..57], b"4 3\n");
    let range = parse_byte_range(&out);
    let a = find_token(&out, b"/Contents <").unwrap() + 10;
    assert_eq!(range, [0, a, a + 16002, out.len() - a - 16002]);
}

#[test]
fn xref_offsets_point_at_the_objects() {
    let out = sign_with(SMALL, TEXTS, DATE, &[1, 2, 3]).unwrap();
    let xref_at = find_token(&out[SMALL.len()..], b"xref\n0 1\n").unwrap() + SMALL.len();
    let xref = std::str::from_utf8(&out[xref_at..]).unwrap();
    let lines: Vec<&str> = xref.split('\n').collect();
    assert_eq!(lines[0], "xref");
    assert_eq!(lines[1], "0 1");
    assert_eq!(lines[2], "0000000000 65535 f ");
    assert_eq!(lines[3], "1 1");
    assert_eq!(lines[5], "4 3");
    let offset = |line: &str| -> usize {
        assert_eq!(line.len(), 19);
        assert_eq!(&line[10..], " 00000 n ");
        line[..10].parse().unwrap()
    };
    assert!(out[offset(lines[4])..].starts_with(b"1 0 obj\n<<\n/Type /Catalog\n"));
    assert!(out[offset(lines[6])..].starts_with(b"4 0 obj\n<<\n/Type /Sig\n"));
    assert!(out[offset(lines[7])..].starts_with(b"5 0 obj\n<<\n/Type /AcroForm\n"));
    assert!(out[offset(lines[8])..].starts_with(b"6 0 obj\n<<\n/Type /Annot\n"));
    assert_eq!(lines[9], "trailer");
    let startxref = find_token(&out[xref_at..], b"startxref\n").unwrap() + xref_at + 10;
    let end = startxref + out[startxref..].iter().position(|b| *b == b'\n').unwrap();
    let written: usize = std::str::from_utf8(&out[startxref..end]).unwrap().parse().unwrap();
    assert_eq!(written, xref_at);
}

#[test]
fn catalog_extras_are_preserved() {
    let pdf = b"%PDF-1.4\n1 0 obj\n<<\n/Type /Catalog\n/Pages 2 0 R\n/Metadata 10 0 R\n  /Lang (en-US)  \r\n\n/AcroForm 9 0 R\n/PageLabels 11 0 R\n>>\nendobj\n2 0 obj\n<< /Type /Pages /Kids [3 0 R] >>\nendobj\n3 0 obj\n<< /Type /Page >>\nendobj\ntrailer\n<< /Root 1 0 R >>\nstartxref\n99\n%%EOF";
    let out = sign_with(pdf, TEXTS, DATE, &[9]).unwrap();
    let extras = "/Metadata 10 0 R\n/Lang (en-US)\n/PageLabels 11 0 R\n";
    let want = expected(pdf, 4, 1, 2, 3, 99, TEXTS, extras, "D:20240229123456Z", &[9]);
    assert_eq!(out, want);
    let replacement = b"1 0 obj\n<<\n/Type /Catalog\n/Pages 2 0 R\n/AcroForm 5 0 R\n/Metadata 10 0 R\n/Lang (en-US)\n/PageLabels 11 0 R\n>>\nendobj\n";
    assert_eq!(count(&out, replacement), 1);
}

#[test]
fn updated_catalog_alone() {
    let pdf = b"7 0 obj\n<<\n/Type /Catalog\n/Pages 2 0 R\n/Metadata 10 0 R\n/Lang (en-US)\n>>\nendobj\n";
    let catalog = build_updated_catalog(7, 2, 12, pdf).unwrap();
    assert_eq!(
        catalog,
        b"7 0 obj\n<<\n/Type /Catalog\n/Pages 2 0 R\n/AcroForm 12 0 R\n/Metadata 10 0 R\n/Lang (en-US)\n>>\nendobj\n"
    );
    let plain = build_updated_catalog(8, 2, 12, pdf).unwrap();
    assert_eq!(plain, b"8 0 obj\n<<\n/Type /Catalog\n/Pages 2 0 R\n/AcroForm 12 0 R\n>>\nendobj\n");
    let unopened = build_updated_catalog(7, 2, 12, b"7 0 obj\n/Lang (x)\n>>\nendobj\n").unwrap();
    assert_eq!(unopened, b"7 0 obj\n<<\n/Type /Catalog\n/Pages 2 0 R\n/AcroForm 12 0 R\n>>\nendobj\n");
    let reversed = build_updated_catalog(7, 2, 12, b"7 0 obj\n>>\n/Lang (x)\n<<\nendobj\n").unwrap();
    assert_eq!(reversed, b"7 0 obj\n<<\n/Type /Catalog\n/Pages 2 0 R\n/AcroForm 12 0 R\n>>\nendobj\n");
    let one_line = build_updated_catalog(7, 2, 12, b"7 0 obj\n<< /Type /Catalog /Lang (x) >>\nendobj\n");
    assert_eq!(
        one_line.unwrap(),
        b"7 0 obj\n<<\n/Type /Catalog\n/Pages 2 0 R\n/AcroForm 12 0 R\n>>\nendobj\n"
    );
}

#[test]
fn extras_are_the_lines_that_are_not_rewritten() {
    assert!(is_extra(b"/Metadata 10 0 R"));
    assert!(is_extra(b"/PageLabels 3 0 R"));
    assert!(is_extra(b"anything"));
    assert!(!is_extra(b""));
    assert!(!is_extra(b"/Type /Catalog"));
    assert!(!is_extra(b"/Pages 2 0 R"));
    assert!(!is_extra(b"/AcroForm 5 0 R"));
    assert!(!is_extra(b"/Type"));
    assert!(!is_extra(b"/Type/Catalog"));
    assert!(!is_extra(b"/Pages\t2 0 R"));
    assert!(!is_extra(b"/AcroForm<</Fields []>>"));
    assert!(is_extra(b"/TypeX"));
    assert!(is_extra(b"/PagesTotal 3"));
    assert!(is_extra(b"/AcroForms 5 0 R"));
    assert!(is_extra(b"/Typ"));
    let mut out = b">".to_vec();
    push_catalog_extras(&mut out, b"1 0 obj\n<<\n/A 1\r\n/Type /Catalog\n\n /B 2 \n>>\nendobj", 1);
    assert_eq!(out, b">/A 1\n/B 2\n");
}

#[test]
fn trailing_line_ends_are_stripped() {
    let mut with_tail = SMALL.to_vec();
    with_tail.extend_from_slice(b"\n\n\n");
    let out = sign_with(&with_tail, TEXTS, DATE, &[7, 7]).unwrap();
    assert!(out.starts_with(SMALL));
    assert_eq!(&out[SMALL.len()..SMALL.len() + 9], b"\n4 0 obj\n");
    assert_eq!(out, sign_with(SMALL, TEXTS, DATE, &[7, 7]).unwrap());
}

#[test]
fn signing_ignores_line_feeds_behind_the_document() {
    let plain = sign_with(SMALL, TEXTS, DATE, &[1, 2, 3, 4]).unwrap();
    for tail in ["\n", "\n\n", "\n\n\n\n\n"] {
        let mut longer = SMALL.to_vec();
        longer.extend_from_slice(tail.as_bytes());
        assert_eq!(sign_with(&longer, TEXTS, DATE, &[1, 2, 3, 4]).unwrap(), plain);
    }
    let mut with_returns = SMALL.to_vec();
    with_returns.extend_from_slice(b"\r\r\n");
    assert_eq!(sign_with(&with_returns, TEXTS, DATE, &[1, 2, 3, 4]).unwrap(), plain);
}

#[test]
fn signature_that_just_fits() {
    let cms = vec![0xa5u8; 8000];
    let out = sign_with(SMALL, TEXTS, DATE, &cms).unwrap();
    let a = parse_byte_range(&out)[1];
    assert_eq!(out[a], b'<');
    assert_eq!(out[a + 16001], b'>');
    assert_eq!(&out[a + 1..a + 16001], "a5".repeat(8000).as_bytes());
    let shorter = sign_with(SMALL, TEXTS, DATE, &cms[..7999]).unwrap();
    assert_eq!(&shorter[a + 15999..a + 16002], b"00>");
    assert_eq!(shorter.len(), out.len());
}

#[test]
fn signature_that_is_one_byte_too_long() {
    let cms = vec![0xa5u8; 8001];
    let result = sign_with(SMALL, TEXTS, DATE, &cms);
    assert!(matches!(result, Err(PdfSignError::SignatureTooLarge)));
}

#[test]
fn signature_is_written_in_lowercase_hexadecimal() {
    let out = sign_with(SMALL, TEXTS, DATE, &[0x00, 0x0f, 0xf0, 0xab, 0xCD, 0x19, 0xff]).unwrap();
    let a = parse_byte_range(&out)[1];
    assert_eq!(&out[a..a + 17], b"<000ff0abcd19ff00");
    assert_eq!(SIG_SLOT, 16000);
}

#[test]
fn catalog_is_resolved_through_the_trailer_despite_a_decoy() {
    let pdf = b"%PDF-1.4\n3 0 obj\n<< /Type /Page /Contents 4 0 R >>\nendobj\n4 0 obj\n<< /Length 20 >>\nstream\n(/Type /Catalog) Tj\nendstream\nendobj\n7 0 obj\n<<\n/Type /Catalog\n/Pages 2 0 R\n>>\nendobj\n2 0 obj\n<< /Type /Pages /Kids [3 0 R] >>\nendobj\ntrailer\n<< /Size 8 /Root 7 0 R >>\nstartxref\n55\n%%EOF";
    let out = sign_with(pdf, TEXTS, DATE, &[1]).unwrap();
    let want = expected(pdf, 8, 7, 2, 3, 55, TEXTS, "", "D:20240229123456Z", &[1]);
    assert_eq!(out, want);
    assert_eq!(count(&out, b"/Root 7 0 R"), 2);
}

#[test]
fn document_without_a_page_is_invalid() {
    let pdf = b"%PDF-1.4\n1 0 obj\n<<\n/Type /Catalog\n/Pages 2 0 R\n>>\nendobj\n2 0 obj\n<< /Type /Pages /Kids [] /Count 0 >>\nendobj\ntrailer\n<< /Root 1 0 R >>\nstartxref\n9\n%%EOF";
    let result = PreparedDocument::prepare(pdf.to_vec(), b"r", b"c", b"n", b"l");
    assert!(matches!(result, Err(PdfSignError::InvalidPdf(_))));
    assert!(matches!(assemble(pdf, b"r", b"c", b"n", b"l"), Err(PdfSignError::InvalidPdf(_))));
}

#[test]
fn document_without_a_catalog_is_invalid() {
    let pdf = b"%PDF-1.4\n3 0 obj\n<< /Type /Page >>\nendobj\n%%EOF";
    let result = PreparedDocument::prepare(pdf.to_vec(), b"r", b"c", b"n", b"l");
    assert!(matches!(result, Err(PdfSignError::InvalidPdf(_))));
}

#[test]
fn new_objects_come_first_in_the_xref_where_the_catalog_is_higher() {
    let pdf = b"%PDF-1.4\n3 0 obj\n<< /Type /Page >>\nendobj\ntrailer\n<< /Root 50 0 R >>\nstartxref\n7\n%%EOF";
    let out = sign_with(pdf, TEXTS, DATE, &[1]).unwrap();
    let xref_at = find_token(&out, b"xref\n0 1\n").unwrap();
    let xref = std::str::from_utf8(&out[xref_at..]).unwrap();
    let lines: Vec<&str> = xref.split('\n').collect();
    assert_eq!(lines[3], "4 3");
    assert_eq!(lines[7], "50 1");
    assert!(out[lines[8][..10].parse::<usize>().unwrap()..].starts_with(b"50 0 obj\n"));
    assert!(out[lines[4][..10].parse::<usize>().unwrap()..].starts_with(b"4 0 obj\n"));
    assert_eq!(lines[9], "trailer");
}

#[test]
fn prefix_is_preserved() {
    let out = sign_with(SMALL, TEXTS, DATE, &[1, 2]).unwrap();
    assert_eq!(&out[..SMALL.len()], SMALL);
    assert_eq!(out[SMALL.len()], b'\n');
}

#[test]
fn byte_range_covers_all_but_the_slot() {
    let out = sign_with(SMALL, TEXTS, DATE, &[1, 2]).unwrap();
    let [zero, a, b, c] = parse_byte_range(&out);
    assert_eq!(zero, 0);
    assert_eq!(out[a], b'<');
    assert_eq!(out[b - 1], b'>');
    assert_eq!(b, a + 16002);
    assert_eq!(a + 16002 + c, out.len());
    assert!(out[a + 1..b - 1].iter().all(|d| d.is_ascii_hexdigit()));
}

#[test]
fn placeholders_keep_their_length() {
    let laid = assemble(SMALL, b"Approval", b"alice@example.org", b"Alice Example", b"Lisbon").unwrap();
    let out = sign_with(SMALL, TEXTS, DATE, &[1, 2]).unwrap();
    assert_eq!(laid.len(), out.len());
    let range_at = find_token(&laid, PLACEHOLDER).unwrap();
    let date_at = find_token(&laid, b"D:00000000000000Z").unwrap();
    let slot_at = find_token(&laid, b"/Contents <").unwrap() + 10;
    for i in 0..laid.len() {
        let inside = (range_at..range_at + 61).contains(&i)
            || (date_at..date_at + 17).contains(&i)
            || (slot_at..slot_at + 16002).contains(&i);
        if !inside {
            assert_eq!(laid[i], out[i]);
        }
    }
    assert_eq!(&out[date_at..date_at + 17], DATE);
    assert_eq!(&out[date_at - 4..date_at], b"/M (");
    assert!(out[range_at..range_at + 61].starts_with(b"/ByteRange [0 "));
    assert_eq!(out[range_at + 61], b'\n');
}

#[test]
fn the_update_adds_one_end_of_file_mark() {
    let out = sign_with(SMALL, TEXTS, DATE, &[1, 2]).unwrap();
    assert_eq!(count(&out, b"%%EOF"), 2);
    assert!(out.ends_with(b"\n%%EOF\n"));
    let a = parse_byte_range(&out)[1];
    let old = find_token(&out, b"%%EOF").unwrap();
    assert!(old + 5 <= a);
    let trailer_at = out.len() - 1 - out.iter().rev().position(|b| *b == b't').unwrap();
    assert!(out[..trailer_at].ends_with(b"\nstar"));
    let new_trailer = find_token(&out[SMALL.len()..], b"trailer\n").unwrap() + SMALL.len();
    assert!(new_trailer < out.len() - 6);
}

#[test]
fn probing_the_signed_document_finds_the_update() {
    let out = sign_with(SMALL, TEXTS, DATE, &[1, 2]).unwrap();
    assert_eq!(find_catalog_from_trailer(&out), Some(1));
    assert_eq!(find_pages_ref_in_catalog(&out, 1), Some(2));
    let catalog_at = out.len() - 1
        - out.windows(9).rev().position(|w| w == b"\n1 0 obj\n").unwrap()
        - 8;
    let catalog = &out[catalog_at..];
    assert!(catalog.starts_with(b"\n1 0 obj\n<<\n/Type /Catalog\n/Pages 2 0 R\n/AcroForm 5 0 R\n>>"));
    assert_eq!(count(&out, b"5 0 obj\n<<\n/Type /AcroForm\n/SigFlags 3\n/Fields [6 0 R]\n>>\nendobj\n"), 1);
    assert_eq!(
        count(&out, b"6 0 obj\n<<\n/Type /Annot\n/Subtype /Widget\n/FT /Sig\n/Rect [0 0 0 0]\n/V 4 0 R\n/T (Signature1)\n/F 4\n/P 3 0 R\n>>\nendobj\n"),
        1
    );
}

#[test]
fn date_of_the_wrong_length_is_a_mismatch() {
    let doc = PreparedDocument::prepare(SMALL.to_vec(), b"r", b"c", b"n", b"l").unwrap();
    assert!(matches!(doc.stamp(b"D:2024Z"), Err(PdfSignError::PlaceholderMismatch)));
    let doc = PreparedDocument::prepare(SMALL.to_vec(), b"r", b"c", b"n", b"l").unwrap();
    assert!(matches!(doc.stamp(b"D:+100000101000000Z"), Err(PdfSignError::PlaceholderMismatch)));
}

#[test]
fn date_is_searched_again_after_it_was_written() {
    let doc = PreparedDocument::prepare(SMALL.to_vec(), b"r", b"c", b"n", b"l").unwrap();
    let doc = doc.stamp(DATE).unwrap();
    assert!(matches!(doc.stamp(DATE), Err(PdfSignError::InvalidPdf(_))));
}

#[test]
fn document_that_holds_the_placeholder_texts_is_kept() {
    let mut pdf = b"%PDF-1.4\n(".to_vec();
    pdf.extend_from_slice(PLACEHOLDER);
    pdf.extend_from_slice(b" /Contents <00> D:00000000000000Z)\n");
    pdf.extend_from_slice(&SMALL[9..]);
    let doc = PreparedDocument::prepare(pdf.clone(), b"r", b"c", b"n", b"l").unwrap();
    assert_eq!(doc.contents_len(), 16002);
    assert!(doc.contents_start() > pdf.len());
    assert!(doc.bytes().starts_with(&pdf));
    let out = sign_with(&pdf, TEXTS, DATE, &[0xab, 0xcd]).unwrap();
    assert_eq!(&out[..pdf.len()], pdf.as_slice());
    assert_eq!(&out[pdf.len()..pdf.len() + 9], b"\n4 0 obj\n");
    let want = expected(&pdf, 4, 1, 2, 3, 188, TEXTS, "", "D:20240229123456Z", &[0xab, 0xcd]);
    assert_eq!(out, want);
    let update = &out[pdf.len()..];
    assert_eq!(count(update, PLACEHOLDER), 0);
    assert_eq!(count(update, b"D:00000000000000Z"), 0);
    assert_eq!(count(&out, PLACEHOLDER), 1);
    assert_eq!(count(&out, b"D:00000000000000Z"), 1);
    let range_at = find_token(update, b"/ByteRange [0 ").unwrap() + pdf.len();
    let a = find_token(update, b"/Contents <").unwrap() + pdf.len() + 10;
    let want_range = format!("/ByteRange [0 {} {} {}]", a, a + 16002, out.len() - a - 16002);
    assert_eq!(&out[range_at..range_at + 61], format!("{:<61}", want_range).as_bytes());
    assert_eq!(&out[range_at + 61..range_at + 73], b"\n/Contents <");
    assert_eq!(out[a + 16001], b'>');
}

#[test]
fn signing_ignores_line_ends_behind_the_document() {
    let plain = sign_with(SMALL, TEXTS, DATE, &[1, 2, 3, 4]).unwrap();
    for tail in ["\r\n\r\n", "\n\r", "\r", "\n\r\n\r\r\n", "\r\r\r"] {
        let mut longer = SMALL.to_vec();
        longer.extend_from_slice(tail.as_bytes());
        assert_eq!(sign_with(&longer, TEXTS, DATE, &[1, 2, 3, 4]).unwrap(), plain);
    }
}

#[test]
fn slot_holds_hexadecimal_digits_only() {
    let cms: Vec<u8> = (0..=255u8).collect();
    let out = sign_with(SMALL, TEXTS, DATE, &cms).unwrap();
    let [_, a, b, _] = parse_byte_range(&out);
    assert_eq!(b - a, 16002);
    assert!(out[a + 1..b - 1].iter().all(|d| d.is_ascii_digit() || (b'a'..=b'f').contains(d)));
    assert_eq!(&out[a + 1..a + 9], b"00010203");
    assert_eq!(&out[a + 505..a + 513], b"fcfdfeff");
    assert!(out[a + 513..b - 1].iter().all(|d| *d == b'0'));
}

#[test]
fn signed_bytes_leave_the_slot_out() {
    let doc = PreparedDocument::prepare(SMALL.to_vec(), b"r", b"c", b"n", b"l").unwrap();
    let doc = doc.stamp(DATE).unwrap();
    let a = doc.contents_start();
    let len = doc.contents_len();
    assert_eq!(len, 16002);
    let slab = doc.signed_bytes();
    let all = doc.bytes().to_vec();
    assert_eq!(slab.len(), all.len() - 16002);
    assert_eq!(&slab[..a], &all[..a]);
    assert_eq!(&slab[a..], &all[a + len..]);
    let out = doc.embed(&[0xde, 0xad]).unwrap();
    let mut again = out[..a].to_vec();
    again.extend_from_slice(&out[a + len..]);
    assert_eq!(again, slab);
}

#[test]
fn byte_range_is_padded_to_the_placeholder() {
    assert_eq!(PLACEHOLDER.len(), 61);
    let entry = format_byte_range(100, 16002, 20000).unwrap();
    assert_eq!(entry, format!("{:<61}", "/ByteRange [0 100 16102 3898]").into_bytes());
    let widest = format_byte_range(9999999, 16002, 99999999).unwrap();
    assert_eq!(widest.len(), 61);
    assert!(widest.starts_with(b"/ByteRange [0 9999999 10016001 89983998]"));
    if usize::BITS == 64 {
        let fits = format_byte_range(10usize.pow(14), 1, 10usize.pow(14) * 2).unwrap();
        assert_eq!(fits, b"/ByteRange [0 100000000000000 100000000000001 99999999999999]".to_vec());
        assert_eq!(fits.len(), 61);
        let too_wide = format_byte_range(10usize.pow(14), 1, 10usize.pow(15));
        assert!(matches!(too_wide, Err(PdfSignError::InvalidPdf(_))));
    }
}

#[test]
fn slot_is_located_behind_the_placeholder() {
    let mut buf = b"junk </Contents <zz> ".to_vec();
    let range_at = buf.len();
    buf.extend_from_slice(PLACEHOLDER);
    buf.extend_from_slice(b"\n/Contents <0000>\n/Reason (x)");
    assert!(matches!(locate_slot(&buf, range_at + 1), Err(PdfSignError::InvalidPdf(_))));
    let (found, start, len) = locate_slot(&buf, 5).unwrap();
    assert_eq!(found, range_at);
    assert_eq!(start, range_at + 61 + 11);
    assert_eq!(len, 6);
    let (patched, start2, len2) = patch_byte_range(buf.clone(), range_at).unwrap();
    assert_eq!((start2, len2), (start, len));
    assert_eq!(patched.len(), buf.len());
    let want = format!("/ByteRange [0 {} {} {}]", start, start + 6, buf.len() - start - 6);
    assert_eq!(&patched[range_at..range_at + 61], format!("{:<61}", want).as_bytes());
    assert_eq!(&patched[..range_at], &buf[..range_at]);
    assert_eq!(&patched[range_at + 61..], &buf[range_at + 61..]);
    assert!(matches!(locate_slot(b"no placeholder", 0), Err(PdfSignError::InvalidPdf(_))));
    let mut twice = PLACEHOLDER.to_vec();
    twice.extend_from_slice(b" /Contents <00> ");
    let second = twice.len();
    twice.extend_from_slice(PLACEHOLDER);
    twice.extend_from_slice(b"\n/Contents <0000>");
    assert_eq!(locate_slot(&twice, 0).unwrap(), (0, 72, 4));
    assert_eq!(locate_slot(&twice, 1).unwrap(), (second, second + 72, 6));
    let mut cut = PLACEHOLDER.to_vec();
    cut.extend_from_slice(b"\n/Contents <0000");
    assert!(matches!(locate_slot(&cut, 0), Err(PdfSignError::InvalidPdf(_))));
    let mut keyless = PLACEHOLDER.to_vec();
    keyless.extend_from_slice(b"\n<0000>");
    assert!(matches!(patch_byte_range(keyless, 0), Err(PdfSignError::InvalidPdf(_))));
}

#[test]
fn signing_date_is_framed() {
    assert_eq!(make_signing_date(b"20240229123456"), b"D:20240229123456Z");
    assert_eq!(make_signing_date(b""), b"D:Z");
}

#[test]
fn failures_have_messages() {
    let page = PreparedDocument::prepare(
        b"1 0 obj\n<< /Type /Catalog >>\nendobj\n".to_vec(),
        b"r",
        b"c",
        b"n",
        b"l",
    );
    match page {
        Err(e) => assert_eq!(
            e.message(),
            "PDF inválido: Não foi possível encontrar a primeira página"
        ),
        Ok(_) => panic!("a document without a page was prepared"),
    }
    assert_eq!(
        PdfSignError::PlaceholderMismatch.message(),
        "Placeholder com tamanho diferente do valor"
    );
    assert_eq!(
        PdfSignError::SignatureTooLarge.message(),
        "Assinatura maior que o espaço reservado"
    );
    assert_eq!(PdfSignError::CryptoError("x".to_string()).message(), "Erro ao assinar: x");
    assert_eq!(
        PdfSignError::CertificateError("y".to_string()).message(),
        "Certificado inválido ou senha incorreta: y"
    );
    assert_eq!(PdfSignError::IoError("z".to_string()).message(), "Erro ao ler arquivo: z");
    assert_eq!(PdfSignError::InvalidPdf("w".to_string()).message(), "PDF inválido: w");
}

#[test]
fn coordinates_of_a_small_document() {
    let found = locate_coordinates(SMALL).unwrap();
    assert_eq!(found.catalog_obj, 1);
    assert_eq!(found.pages_ref, 2);
    assert_eq!(found.first_page_obj, 3);
    assert_eq!(found.prev_xref, 188);
    assert_eq!(found.next_obj, 4);
    assert_eq!(found.catalog_extras, b"");
    let with_extras = b"1 0 obj\n<<\n/Type /Catalog\n/Pages 2 0 R\n/Lang (pt-BR)\n>>\nendobj\n3 0 obj\n<< /Type /Page >>\nendobj\ntrailer\n<< /Root 1 0 R >>\n";
    let found = locate_coordinates(with_extras).unwrap();
    assert_eq!(found.catalog_extras, b"/Lang (pt-BR)\n");
    assert_eq!(found.prev_xref, 0);
    assert!(matches!(locate_coordinates(b"nothing"), Err(PdfSignError::InvalidPdf(_))));
}

#[test]
fn texts_that_hold_placeholder_texts_are_kept() {
    let reason = "D:00000000000000Z (D:00000000000000Z";
    let texts = [reason, "D:00000000000000Z", "n", "D:00000000000000Z"];
    let out = sign_with(SMALL, texts, DATE, &[1]).unwrap();
    let want = expected(SMALL, 4, 1, 2, 3, 188, texts, "", "D:20240229123456Z", &[1]);
    assert_eq!(out, want);
    assert_eq!(count(&out, b"/M (D:20240229123456Z)\n"), 1);
    assert_eq!(count(&out, b"/Reason (D:00000000000000Z (D:00000000000000Z)\n"), 1);
    assert_eq!(count(&out, b"D:20240229123456Z"), 1);
    let ranged = "/ByteRange [0000000 0000000 0000000 0000000]                 ";
    let texts = [ranged, ranged, ranged, ranged];
    let out = sign_with(SMALL, texts, DATE, &[1]).unwrap();
    let want = expected(SMALL, 4, 1, 2, 3, 188, texts, "", "D:20240229123456Z", &[1]);
    assert_eq!(out, want);
    assert_eq!(count(&out, PLACEHOLDER), 4);
}

#[test]
fn texts_made_of_marker_bytes_add_no_end_of_file_mark() {
    let texts = ["%%EO", "F%%", "EOF", "%"];
    let out = sign_with(SMALL, texts, b"D:%%EO0229123456Z", &[1, 2]).unwrap();
    let added = &out[SMALL.len()..];
    assert_eq!(count(added, b"%%EOF"), 1);
    assert!(added.ends_with(b"\n%%EOF\n"));
    let with_marker = sign_with(SMALL, ["%%EOF", "c", "n", "l"], DATE, &[1, 2]).unwrap();
    assert_eq!(count(&with_marker[SMALL.len()..], b"%%EOF"), 2);
    assert!(with_marker.ends_with(b"\n%%EOF\n"));
}

#[test]
fn time_stamp_is_fourteen_digits() {
    assert!(check_time_stamp(b"20240229123456"));
    assert!(check_time_stamp(b"00000000000000"));
    assert!(!check_time_stamp(b"2024022912345"));
    assert!(!check_time_stamp(b"202402291234567"));
    assert!(!check_time_stamp(b"2024022912345x"));
    assert!(!check_time_stamp(b"+1000002291234"));
    assert!(!check_time_stamp(b"2024022912345/"));
    assert!(!check_time_stamp(b"2024022912345:"));
    assert!(!check_time_stamp(b""));
}

#[test]
fn catalog_lines_end_at_carriage_returns_too() {
    let mut out = b">".to_vec();
    push_catalog_extras(&mut out, b"1 0 obj\r<<\r/Type /Catalog\r/Pages 2 0 R\r/Lang (pt)\r/A 1\r>>\rendobj", 1);
    assert_eq!(out, b">/Lang (pt)\n/A 1\n");
    let mut out = Vec::new();
    push_catalog_extras(&mut out, b"1 0 obj\r\n<<\r\n/Type /Catalog\r\n/Lang (pt)\r\n>>\r\nendobj", 1);
    assert_eq!(out, b"/Lang (pt)\n");
}

#[test]
fn carried_lines_never_start_with_a_rewritten_key() {
    let mut out = Vec::new();
    push_catalog_extras(
        &mut out,
        b"1 0 obj\n<<\n /Type /Catalog\n\t/Pages 2 0 R \n/AcroForm 9 0 R\n/Typ\ne /X\n/Names 4 0 R\n>>\nendobj",
        1,
    );
    assert_eq!(out, b"/Typ\ne /X\n/Names 4 0 R\n");
    for line in out.split(|b| *b == b'\n') {
        assert!(!line.starts_with(b"/Type"));
        assert!(!line.starts_with(b"/Pages"));
        assert!(!line.starts_with(b"/AcroForm"));
    }
}

#[test]
fn new_objects_take_numbers_that_the_document_does_not_use() {
    let pdf = b"%PDF-1.4\r1 0 obj\r<< /Type /Catalog /Pages 2 0 R >>\rendobj\r2 0 obj\r<< /Type /Pages /Kids [3 0 R] >>\rendobj 9 0 obj\r<< /Type /Page >>\rendobj\rtrailer\r<< /Root 1 0 R >>\rstartxref\r77\r%%EOF";
    let found = locate_coordinates(pdf).unwrap();
    assert_eq!(found.next_obj, 10);
    assert_eq!(found.catalog_obj, 1);
    assert_eq!(found.pages_ref, 2);
    assert_eq!(found.first_page_obj, 9);
    assert_eq!(found.prev_xref, 77);
    let out = sign_with(pdf, TEXTS, DATE, &[1]).unwrap();
    assert_eq!(count(&out, b"\n10 0 obj\n"), 1);
    assert_eq!(count(&out, b"\n11 0 obj\n"), 1);
    assert_eq!(count(&out, b"\n12 0 obj\n"), 1);
    assert_eq!(count(&out, b"/Prev 77\n"), 1);
    assert_eq!(count(&out, b"/Size 13\n"), 1);
}

#[test]
fn entry_with_a_longer_key_is_carried_over() {
    let pdf = b"%PDF-1.4\n1 0 obj\n<<\n/Type /Catalog\n/Pages 2 0 R\n/PagesExtra 8 0 R\n/AcroFormat (x)\n/Type2 /Y\n>>\nendobj\n2 0 obj\n<< /Type /Pages /Kids [3 0 R] >>\nendobj\n3 0 obj\n<< /Type /Page >>\nendobj\ntrailer\n<< /Root 1 0 R >>\nstartxref\n99\n%%EOF";
    let out = sign_with(pdf, TEXTS, DATE, &[9]).unwrap();
    let replacement = b"1 0 obj\n<<\n/Type /Catalog\n/Pages 2 0 R\n/AcroForm 5 0 R\n/PagesExtra 8 0 R\n/AcroFormat (x)\n/Type2 /Y\n>>\nendobj\n";
    assert_eq!(count(&out, replacement), 1);
}

#[test]
fn signed_document_names_its_new_xref() {
    let out = sign_with(SMALL, TEXTS, DATE, &[1, 2]).unwrap();
    let x = find_previous_xref(&out);
    assert!(x > SMALL.len());
    assert!(out[x..].starts_with(b"xref\n0 1\n"));
    assert!(out.ends_with(format!("startxref\n{}\n%%EOF\n", x).as_bytes()));
    let again = sign_with(&out, TEXTS, DATE, &[3]).unwrap();
    assert!(again.starts_with(&out[..out.len() - 1]));
    assert_eq!(count(&again[out.len()..], format!("/Prev {}\n", x).as_bytes()), 1);
    assert_eq!(count(&again[out.len() - 1..], b"\n7 0 obj\n"), 1);
    assert_eq!(count(&again[out.len()..], b"/Size 10\n"), 1);
}
