use mangadl_rs::chapter::{canonical_ordinal_text, cur_path_name_from_page, path_name_from_capture, reading_page_url, Chapter, ChapterInfo, ResolveError};

fn chapter(ordinal: &str, pages: &str, dir: &str) -> Chapter {
    Chapter { Chapter: ordinal.to_string(), Page: pages.to_string(), Directory: dir.to_string() }
}

#[test]
fn canonical_ordinals_of_sample_encodings() {
    assert_eq!(canonical_ordinal_text("1000"), "100");
    assert_eq!(canonical_ordinal_text("1005"), "100.5");
    assert_eq!(canonical_ordinal_text("9990"), "999");
}

#[test]
fn canonical_ordinal_edge_cases() {
    assert_eq!(canonical_ordinal_text(""), "");
    assert_eq!(canonical_ordinal_text("0"), "");
    assert_eq!(canonical_ordinal_text("7"), ".7");
    assert_eq!(canonical_ordinal_text("100010"), "10001");
}

#[test]
fn chapter_and_info_share_the_ordinal_rule() {
    let c = chapter("1005", "3", "");
    let info = ChapterInfo { Chapter: "1005".to_string(), Type: "Chapter".to_string(), Date: serde_json::Value::Null };
    assert_eq!(c.to_url_id(), "100.5");
    assert_eq!(info.to_url_id(), "100.5");
}

#[test]
fn directory_is_empty_or_slashed() {
    assert_eq!(chapter("1000", "3", "").directory(), "");
    assert_eq!(chapter("1000", "3", "S2").directory(), "/S2");
}

#[test]
fn page_count_twenty_yields_nineteen_pages() {
    let v = chapter("1000", "20", "").page_addresses("host.example", "Title").unwrap();
    assert_eq!(v.len(), 19);
    assert_eq!(v[0], "https://host.example/manga/Title/0100-001.png");
    assert_eq!(v[18], "https://host.example/manga/Title/0100-019.png");
}

#[test]
fn page_addresses_are_padded_and_numbered_from_one() {
    let v = chapter("1005", "4", "S2").page_addresses("h", "T").unwrap();
    assert_eq!(
        v,
        vec![
            "https://h/manga/T/S2/100.5-001.png".to_string(),
            "https://h/manga/T/S2/100.5-002.png".to_string(),
            "https://h/manga/T/S2/100.5-003.png".to_string(),
        ]
    );
}

#[test]
fn page_number_wider_than_three_digits_is_not_cut() {
    let v = chapter("10", "1002", "").page_addresses("h", "T").unwrap();
    assert_eq!(v.len(), 1001);
    assert_eq!(v[999], "https://h/manga/T/0001-1000.png");
    assert_eq!(v[1000], "https://h/manga/T/0001-1001.png");
}

#[test]
fn page_count_zero_or_one_yields_no_pages() {
    assert_eq!(chapter("1000", "0", "").page_addresses("h", "T").unwrap().len(), 0);
    assert_eq!(chapter("1000", "1", "").page_addresses("h", "T").unwrap().len(), 0);
    assert_eq!(chapter("1000", "+3", "").page_addresses("h", "T").unwrap().len(), 2);
}

#[test]
fn malformed_page_count_is_refused() {
    assert!(chapter("1000", "", "").page_addresses("h", "T").is_none());
    assert!(chapter("1000", "12a", "").page_addresses("h", "T").is_none());
    assert!(chapter("1000", "-3", "").page_addresses("h", "T").is_none());
    assert!(chapter("1000", "99999999999999999999999", "").page_addresses("h", "T").is_none());
}

#[test]
fn reading_page_address_uses_canonical_ordinal() {
    assert_eq!(reading_page_url("Title", "1005"), "https://mangasee123.com/read-online/Title-chapter-100.5.html");
    assert_eq!(chapter("1000", "3", "").reading_url("Title"), "https://mangasee123.com/read-online/Title-chapter-100.html");
}

#[test]
fn path_name_is_trimmed_and_unquoted() {
    assert_eq!(path_name_from_capture("  \"scans.example.org\"\t"), "scans.example.org");
    assert_eq!(path_name_from_capture("\u{3000}a\"b\u{a0}"), "ab");
    assert_eq!(path_name_from_capture("   "), "");
}

#[test]
fn path_name_is_found_in_the_reading_page() {
    let page = "<script>\n vm.IndexName = \"x\";\n vm.CurPathName = \"scans.example.org\";\n vm.Other = 1;\n</script>";
    assert_eq!(cur_path_name_from_page(page), Some("scans.example.org".to_string()));
    assert_eq!(cur_path_name_from_page("no data here"), None);
}

#[test]
fn resolve_reports_each_failure() {
    let c = chapter("1000", "3", "");
    assert_eq!(c.resolve("nothing", "T"), Err(ResolveError::MissingPathName));
    let bad = chapter("1000", "x", "");
    assert_eq!(bad.resolve("vm.CurPathName = \"h\";", "T"), Err(ResolveError::BadPageCount));
    assert_eq!(
        c.resolve("vm.CurPathName = \"h\";", "T"),
        Ok(vec!["https://h/manga/T/0100-001.png".to_string(), "https://h/manga/T/0100-002.png".to_string()])
    );
}

#[test]
fn addresses_sort_by_chapter_then_page() {
    let a = chapter("0990", "1000", "").page_addresses("h", "T").unwrap();
    let b = chapter("1000", "3", "").page_addresses("h", "T").unwrap();
    assert!(a[998] < b[0]);
    assert!(a[8] < a[9]);
    assert!(a[98] < a[99]);
    assert_eq!(a[998], "https://h/manga/T/0099-999.png");
}
