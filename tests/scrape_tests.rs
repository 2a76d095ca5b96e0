use mangadl_rs::scrape::{chapter_info_json, chapter_list_json, directory_json, embedded, manga_url, search_url};

#[test]
fn embedded_data_is_the_first_assignment() {
    let page = "vm.CHAPTERS = [{\"Chapter\":\"100010\"}];\nvm.CHAPTERS = [];";
    assert_eq!(chapter_list_json(page), Some("[{\"Chapter\":\"100010\"}]".to_string()));
}

#[test]
fn embedded_data_runs_to_the_last_semicolon_of_its_line() {
    let page = "vm.Chapters = [1];[2]; x\nmore;";
    assert_eq!(chapter_info_json(page), Some("[1];[2]".to_string()));
}

#[test]
fn missing_or_invalid_pattern_gives_nothing() {
    assert_eq!(directory_json("vm.Chapters = [];"), None);
    assert_eq!(directory_json("vm.Directory = [\"a\"];"), Some("[\"a\"]".to_string()));
    assert_eq!(embedded("(", "anything"), None);
}

#[test]
fn site_addresses() {
    assert_eq!(search_url(), "https://mangasee123.com/search/");
    assert_eq!(manga_url("One-Piece"), "https://mangasee123.com/manga/One-Piece");
}
