use pdfsigner::error::PdfSignError;
use pdfsigner::probe::{
    check_catalog_has_acroform, extract_catalog_info, extract_first_page_info,
    find_catalog_by_pattern, find_catalog_from_trailer, find_first_page_by_pattern,
    find_object_section, find_object_start, find_pages_object, find_pages_ref_in_catalog, find_previous_xref,
    get_next_object_number, object_header_bytes, remove_trailing_newline,
    validate_pages_object,
};

const SMALL: &[u8] = b"%PDF-1.4\n1 0 obj\n<<\n/Type /Catalog\n/Pages 2 0 R\n>>\nendobj\n2 0 obj\n<<\n/Type /Pages\n/Kids [3 0 R]\n/Count 1\n>>\nendobj\n3 0 obj\n<<\n/Type /Page\n/Parent 2 0 R\n/MediaBox [0 0 612 792]\n>>\nendobj\nxref\n0 4\n0000000000 65535 f \n0000000009 00000 n \n0000000058 00000 n \n0000000115 00000 n \ntrailer\n<<\n/Size 4\n/Root 1 0 R\n>>\nstartxref\n188\n%%EOF";

#[test]
fn test_remove_trailing_newline() {
    let pdf = b"test\n\n".to_vec();
    let result = remove_trailing_newline(pdf);
    assert_eq!(result, b"test");

    let pdf = b"test\r\n".to_vec();
    let result = remove_trailing_newline(pdf);
    assert_eq!(result, b"test");
}

#[test]
fn test_get_next_object_number() {
    let pdf = b"1 0 obj\n<<\n>>\n5 0 obj\n<<\n>>\n";
    let result = get_next_object_number(pdf).unwrap();
    assert_eq!(result, 6);
}

#[test]
fn trailing_line_ends_are_dropped_in_any_order() {
    assert_eq!(remove_trailing_newline(b"test".to_vec()), b"test");
    assert_eq!(remove_trailing_newline(b"".to_vec()), b"");
    assert_eq!(remove_trailing_newline(b"\n\n".to_vec()), b"");
    assert_eq!(remove_trailing_newline(b"\r\n\r".to_vec()), b"");
    assert_eq!(remove_trailing_newline(b"test\r\r\n\n".to_vec()), b"test");
    assert_eq!(remove_trailing_newline(b"test\n\r".to_vec()), b"test");
    assert_eq!(remove_trailing_newline(b"test\r\n\r\n".to_vec()), b"test");
    assert_eq!(remove_trailing_newline(b"test\n\r\r\n\n\r".to_vec()), b"test");
    assert_eq!(remove_trailing_newline(b"a\nb\n".to_vec()), b"a\nb");
    assert_eq!(remove_trailing_newline(b"a\r\nb \r\n".to_vec()), b"a\r\nb ");
}

#[test]
fn next_object_number_is_one_more_than_the_highest_header() {
    assert_eq!(get_next_object_number(b"").unwrap(), 1);
    assert_eq!(get_next_object_number(b"no objects here").unwrap(), 1);
    assert_eq!(get_next_object_number(SMALL).unwrap(), 4);
    assert_eq!(get_next_object_number(b"  12 0 obj\r\n3 0 obj").unwrap(), 13);
    assert_eq!(get_next_object_number(b"12 1 obj\n3 0 obj").unwrap(), 4);
    assert_eq!(get_next_object_number(b"0 0 obj").unwrap(), 1);
    assert_eq!(get_next_object_number(b"4294967294 0 obj").unwrap(), 4294967295);
}

#[test]
fn header_counts_wherever_it_stands() {
    assert_eq!(get_next_object_number(b"endobj 9 0 obj").unwrap(), 10);
    assert_eq!(get_next_object_number(b"x 12 0 obj\n3 0 obj").unwrap(), 13);
    assert_eq!(get_next_object_number(b"1 0 obj\r<<>>\rendobj\r7 0 obj\r<<>>\rendobj\r").unwrap(), 8);
    assert_eq!(get_next_object_number(b"endobj\t21 0 obj<</Type/Page>>endobj 4 0 obj").unwrap(), 22);
    assert_eq!(get_next_object_number(b">>5 0 obj").unwrap(), 6);
}

#[test]
fn header_number_is_the_whole_run_of_digits() {
    assert_eq!(get_next_object_number(b"11 0 obj").unwrap(), 12);
    assert_eq!(get_next_object_number(b"007 0 obj").unwrap(), 8);
    assert_eq!(get_next_object_number(b"3 0 obj 10 0 obj 2 0 obj").unwrap(), 11);
}

#[test]
fn what_is_no_header_defines_no_object() {
    assert_eq!(get_next_object_number(b"7 trailing 0 obj").unwrap(), 1);
    assert_eq!(get_next_object_number(b" 0 obj").unwrap(), 1);
    assert_eq!(get_next_object_number(b"5 0 R").unwrap(), 1);
    assert_eq!(get_next_object_number(b"5 1 obj").unwrap(), 1);
    assert_eq!(get_next_object_number(b"5  0 obj").unwrap(), 1);
    assert_eq!(get_next_object_number(b"5 0 ob").unwrap(), 1);
    assert_eq!(get_next_object_number(b"+5 0 obj").unwrap(), 6);
    assert_eq!(get_next_object_number(b"5\n0 obj").unwrap(), 1);
}

#[test]
fn next_object_number_that_is_no_u32_is_refused() {
    let result = get_next_object_number(b"4294967295 0 obj\n");
    assert!(matches!(result, Err(PdfSignError::InvalidPdf(_))));
    let result = get_next_object_number(b"1 0 obj\n4294967296 0 obj\n2 0 obj\n");
    assert!(matches!(result, Err(PdfSignError::InvalidPdf(_))));
    let result = get_next_object_number(b"99999999999999999999999999 0 obj");
    assert!(matches!(result, Err(PdfSignError::InvalidPdf(_))));
    assert_eq!(get_next_object_number(b"00000000000000000000000005 0 obj").unwrap(), 6);
}

#[test]
fn catalog_is_found_through_the_last_trailer() {
    assert_eq!(find_catalog_from_trailer(SMALL), Some(1));
    assert_eq!(find_catalog_from_trailer(b"trailer\n<< /Root 7 0 R >>"), Some(7));
    assert_eq!(
        find_catalog_from_trailer(b"trailer\n<< /Root 7 0 R >>\ntrailer\n<< /Root 9 0 R >>"),
        Some(9)
    );
    assert_eq!(find_catalog_from_trailer(b"<< /Root 7 0 R >>"), None);
    assert_eq!(find_catalog_from_trailer(b"trailer << /Size 3 >>"), None);
    assert_eq!(find_catalog_from_trailer(b"trailer << /Root x >>"), None);
    assert_eq!(find_catalog_from_trailer(b"/Root 3 0 R trailer << /Size 3 >>"), None);
}

#[test]
fn catalog_is_found_by_its_type_entry() {
    assert_eq!(find_catalog_by_pattern(SMALL), Some(1));
    assert_eq!(find_catalog_by_pattern(b"12 0 obj\n<</Type/Catalog>>"), Some(12));
    assert_eq!(find_catalog_by_pattern(b"<</Type /Catalog>>"), None);
    assert_eq!(find_catalog_by_pattern(b"12 0 obj\n<</Type /Page>>"), None);
}

#[test]
fn pages_are_found_in_the_catalog_or_by_their_type_entry() {
    assert_eq!(find_pages_ref_in_catalog(SMALL, 1), Some(2));
    assert_eq!(find_pages_ref_in_catalog(SMALL, 3), None);
    assert_eq!(find_pages_ref_in_catalog(SMALL, 9), None);
    assert_eq!(find_pages_object(SMALL), Some(2));
    assert_eq!(find_pages_object(b"8 0 obj <</Type/Pages>>"), Some(8));
    assert_eq!(find_pages_object(b"8 0 obj <</Type/Page>>"), None);
    assert_eq!(validate_pages_object(SMALL, 2), Some(2));
    assert_eq!(validate_pages_object(SMALL, 77), Some(2));
    assert_eq!(validate_pages_object(b"nothing", 77), None);
}

#[test]
fn object_sections_run_from_the_header_to_endobj() {
    assert_eq!(object_header_bytes(12), b"12 0 obj");
    let (start, end) = find_object_section(SMALL, 1).unwrap();
    assert_eq!(&SMALL[start..end], b"1 0 obj\n<<\n/Type /Catalog\n/Pages 2 0 R\n>>\n");
    assert_eq!(find_object_section(SMALL, 4), None);
    assert_eq!(find_object_section(b"1 0 obj << >>", 1), None);
}

#[test]
fn acroform_is_seen_in_the_catalog() {
    assert!(!check_catalog_has_acroform(SMALL, 1));
    let with_form = b"1 0 obj\n<<\n/Type /Catalog\n/Pages 2 0 R\n/AcroForm 5 0 R\n>>\nendobj\n";
    assert!(check_catalog_has_acroform(with_form, 1));
    assert!(!check_catalog_has_acroform(with_form, 2));
    let elsewhere = b"1 0 obj\n<<\n/Type /Catalog\n>>\nendobj\n2 0 obj\n<< /AcroForm >>\nendobj\n";
    assert!(!check_catalog_has_acroform(elsewhere, 1));
}

#[test]
fn catalog_info_of_a_small_document() {
    let info = extract_catalog_info(SMALL).unwrap();
    assert_eq!(info.catalog_obj, 1);
    assert_eq!(info.pages_ref, 2);
    assert!(!info.has_acroform);
}

#[test]
fn catalog_info_falls_back_to_the_type_entry() {
    let pdf = b"4 0 obj\n<<\n/Type /Catalog\n/Pages 5 0 R\n>>\nendobj\n5 0 obj\n<< /Type /Pages >>\nendobj\n";
    let info = extract_catalog_info(pdf).unwrap();
    assert_eq!(info.catalog_obj, 4);
    assert_eq!(info.pages_ref, 5);
}

#[test]
fn catalog_info_takes_the_pages_object_where_the_catalog_names_none() {
    let pdf = b"4 0 obj\n<<\n/Type /Catalog\n>>\nendobj\n9 0 obj\n<< /Type /Pages >>\nendobj\ntrailer\n<< /Root 4 0 R >>\n";
    let info = extract_catalog_info(pdf).unwrap();
    assert_eq!(info.catalog_obj, 4);
    assert_eq!(info.pages_ref, 9);
    let bare = b"4 0 obj\n<<\n/Type /Catalog\n>>\nendobj\ntrailer\n<< /Root 4 0 R >>\n";
    assert_eq!(extract_catalog_info(bare).unwrap().pages_ref, 1);
}

#[test]
fn document_without_catalog_is_invalid() {
    let result = extract_catalog_info(b"%PDF-1.4\nnothing to see\n%%EOF");
    assert!(matches!(result, Err(PdfSignError::InvalidPdf(_))));
}

#[test]
fn first_page_skips_the_page_tree() {
    assert_eq!(find_first_page_by_pattern(SMALL), Some(3));
    assert_eq!(extract_first_page_info(SMALL).unwrap().first_page_obj, 3);
    assert_eq!(find_first_page_by_pattern(b"6 0 obj <</Type/Page>>"), Some(6));
    assert_eq!(find_first_page_by_pattern(b"6 0 obj <</Type /Pages>>"), None);
    assert_eq!(
        find_first_page_by_pattern(b"/Type /Page\n6 0 obj <</Type /Page /Parent 2 0 R>>"),
        Some(6)
    );
    assert_eq!(
        find_first_page_by_pattern(b"5 0 obj <</Type/Page>> 6 0 obj <</Type /Page>>"),
        Some(6)
    );
    assert_eq!(find_first_page_by_pattern(b"6 0 obj <</Type /Page"), Some(6));
}

#[test]
fn previous_xref_is_read_after_the_last_startxref() {
    assert_eq!(find_previous_xref(SMALL), 188);
    assert_eq!(find_previous_xref(b"startxref\n12\n%%EOF\nstartxref\n  345 \r\n%%EOF"), 345);
    assert_eq!(find_previous_xref(b"startxref\n345"), 345);
    assert_eq!(find_previous_xref(b"startxref\nabc\n%%EOF"), 0);
    assert_eq!(find_previous_xref(b"startxref\nabc\n345\n%%EOF"), 0);
    assert_eq!(find_previous_xref(b"startxref 345\n%%EOF"), 345);
    assert_eq!(find_previous_xref(b"startxref"), 0);
    assert_eq!(find_previous_xref(b"startxref \n\t "), 0);
    assert_eq!(find_previous_xref(b"no keyword"), 0);
}

#[test]
fn previous_xref_is_read_whatever_ends_the_lines() {
    assert_eq!(find_previous_xref(b"startxref\r\n7\r\n"), 7);
    assert_eq!(find_previous_xref(b"startxref\r\n188\r\n%%EOF"), 188);
    assert_eq!(find_previous_xref(b"startxref\r188\r%%EOF"), 188);
    assert_eq!(find_previous_xref(b"xref\r\ntrailer\r\nstartxref\r\n+42\r\n%%EOF\r\n"), 42);
    assert_eq!(find_previous_xref(b"startxref\n18446744073709551615\n"), 18446744073709551615);
    assert_eq!(find_previous_xref(b"startxref\n18446744073709551616\n"), 0);
}

#[test]
fn object_header_is_not_taken_from_the_end_of_another() {
    let d = b"11 0 obj\n<< /Type /Pages /Count 0 >>\nendobj\n1 0 obj\n<< /Type /Catalog /Pages 11 0 R >>\nendobj\n";
    assert_eq!(find_object_start(d, 1), Some(44));
    assert_eq!(find_object_start(d, 11), Some(0));
    assert_eq!(find_object_start(d, 2), None);
    assert_eq!(find_pages_ref_in_catalog(d, 1), Some(11));
    let (start, end) = find_object_section(d, 1).unwrap();
    assert_eq!(&d[start..end], b"1 0 obj\n<< /Type /Catalog /Pages 11 0 R >>\n");
    assert!(!check_catalog_has_acroform(d, 1));
    assert_eq!(validate_pages_object(d, 11), Some(11));
    assert_eq!(validate_pages_object(b"21 0 obj\n<< >>\nendobj\n", 1), None);
    assert_eq!(find_object_start(b"x1 0 obj", 1), Some(1));
    assert_eq!(find_object_start(b"21 0 obj 1 0 obj", 1), Some(9));
    assert_eq!(find_object_start(b"21 0 obj", 1), None);
    assert_eq!(find_object_start(b"", 1), None);
    let with_form = b"31 0 obj\n<< /AcroForm 9 0 R >>\nendobj\n1 0 obj\n<< /Type /Catalog >>\nendobj\n";
    assert!(!check_catalog_has_acroform(with_form, 1));
    assert!(check_catalog_has_acroform(with_form, 31));
}
