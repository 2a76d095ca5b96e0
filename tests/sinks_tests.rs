use mangadl_rs::sinks::{address_list_file_name, address_list_lines, address_list_text, chapter_document_name, document_name, image_path, page_file_name, split_by_chapter};

fn strings(v: &[&str]) -> Vec<String> {
    v.iter().map(|s| s.to_string()).collect()
}

#[test]
fn address_list_has_one_line_per_address() {
    let urls = strings(&["https://h/a/0100-001.png", "https://h/a/0100-002.png"]);
    let text = address_list_text(&urls);
    assert_eq!(text, "https://h/a/0100-001.png\nhttps://h/a/0100-002.png\n");
    assert_eq!(text.matches('\n').count(), urls.len());
    assert_eq!(address_list_lines(&text), urls);
}

#[test]
fn empty_address_list() {
    assert_eq!(address_list_text(&Vec::new()), "");
    assert_eq!(address_list_lines(""), Vec::<String>::new());
}

#[test]
fn reading_lines_keeps_a_last_unterminated_line_and_empty_lines() {
    assert_eq!(address_list_lines("a\n\nb"), strings(&["a", "", "b"]));
    assert_eq!(address_list_lines("\n"), strings(&[""]));
}

#[test]
fn address_list_file_is_named_after_the_title() {
    assert_eq!(address_list_file_name("123"), "123.txt");
}

#[test]
fn image_paths_flat_and_by_chapter() {
    let url = "https://h/manga/T/S2/0100-003.png";
    assert_eq!(page_file_name(url), "0100-003.png");
    assert_eq!(image_path(false, "T", url), "T/0100-003.png");
    assert_eq!(image_path(true, "T", url), "T/0100/003.png");
    assert_eq!(image_path(true, "T", "plain"), "T/plain/plain");
}

#[test]
fn document_names() {
    assert_eq!(document_name("T"), "T.pdf");
    assert_eq!(chapter_document_name("T", "0100"), "T-0100.pdf");
}

#[test]
fn split_gives_one_group_per_chapter_in_page_order() {
    let pages = vec![
        ("0100-001.png".to_string(), 'a'),
        ("0100-002.png".to_string(), 'b'),
        ("0100.5-001.png".to_string(), 'c'),
        ("0101-001.png".to_string(), 'd'),
        ("0101-002.png".to_string(), 'e'),
    ];
    let groups = split_by_chapter(pages);
    assert_eq!(groups.len(), 3);
    assert_eq!(groups[0].0, "0100");
    assert_eq!(groups[0].1.iter().map(|p| p.1).collect::<String>(), "ab");
    assert_eq!(groups[1].0, "0100.5");
    assert_eq!(groups[1].1.iter().map(|p| p.1).collect::<String>(), "c");
    assert_eq!(groups[2].0, "0101");
    assert_eq!(groups[2].1.iter().map(|p| p.1).collect::<String>(), "de");
}

#[test]
fn split_gathers_a_chapter_that_is_not_contiguous() {
    let pages = vec![
        ("1-1".to_string(), 1u8),
        ("2-1".to_string(), 2),
        ("1-2".to_string(), 3),
    ];
    let groups = split_by_chapter(pages);
    assert_eq!(groups.len(), 2);
    assert_eq!(groups[0].1, vec![("1-1".to_string(), 1), ("1-2".to_string(), 3)]);
    assert_eq!(groups[1].1, vec![("2-1".to_string(), 2)]);
    assert!(split_by_chapter(Vec::<(String, u8)>::new()).is_empty());
}
