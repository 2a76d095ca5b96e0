//! Locating the data that the remote pages embed as `vm.<Name> = <value>;`
//! assignments, and the addresses of those pages.
use vstd::prelude::*;
use crate::text::push_text;

verus! {

/// The first capture group of the leftmost match of `pattern` in `haystack`,
/// or `None` when `pattern` does not compile or does not match.
pub uninterp spec fn regex_first_group(pattern: Seq<char>, haystack: Seq<char>) -> Option<Seq<char>>;

/// Relies on `regex::Regex::new` and `regex::Regex::captures`: the text of
/// group 1 of the leftmost-first match, which depends on the two strings alone.
#[verifier::external_body]
fn first_group(pattern: &str, haystack: &str) -> (r: Option<String>)
    ensures
        r is None ==> regex_first_group(pattern@, haystack@) is None,
        r matches Some(g) ==> regex_first_group(pattern@, haystack@) == Some(g@),
{
    let re = regex::Regex::new(pattern).ok()?;
    let caps = re.captures(haystack)?;
    caps.get(1).map(|m| m.as_str().to_string())
}

/// The site that serves the catalogue, the chapter lists and the pages.
pub const SITE: &'static str = "https://mangasee123.com/";

pub const CHAPTER_INFO_PATTERN: &'static str = r#"vm\.Chapters = (.*);"#;
pub const CHAPTER_LIST_PATTERN: &'static str = r#"vm\.CHAPTERS = (.*);"#;
pub const CUR_PATH_PATTERN: &'static str = r#"vm\.CurPathName = (.*);"#;
pub const DIRECTORY_PATTERN: &'static str = r#"vm\.Directory = (.*);"#;

/// The text captured by `pattern` in `page`, as an owned value.
pub fn embedded(pattern: &str, page: &str) -> (r: Option<String>)
    ensures
        r is None <==> regex_first_group(pattern@, page@) is None,
        r matches Some(g) ==> regex_first_group(pattern@, page@) == Some(g@),
{
    first_group(pattern, page)
}

/// The JSON list of chapter summaries that a title's page embeds.
pub fn chapter_info_json(page: &str) -> (r: Option<String>)
    ensures
        r is None <==> regex_first_group(CHAPTER_INFO_PATTERN@, page@) is None,
        r matches Some(g) ==> regex_first_group(CHAPTER_INFO_PATTERN@, page@) == Some(g@),
{
    embedded(CHAPTER_INFO_PATTERN, page)
}

/// The JSON list of chapters that a chapter's reading page embeds.
pub fn chapter_list_json(page: &str) -> (r: Option<String>)
    ensures
        r is None <==> regex_first_group(CHAPTER_LIST_PATTERN@, page@) is None,
        r matches Some(g) ==> regex_first_group(CHAPTER_LIST_PATTERN@, page@) == Some(g@),
{
    embedded(CHAPTER_LIST_PATTERN, page)
}

/// The JSON catalogue of titles that the search page embeds.
pub fn directory_json(page: &str) -> (r: Option<String>)
    ensures
        r is None <==> regex_first_group(DIRECTORY_PATTERN@, page@) is None,
        r matches Some(g) ==> regex_first_group(DIRECTORY_PATTERN@, page@) == Some(g@),
{
    embedded(DIRECTORY_PATTERN, page)
}

/// The address of the page that lists every title.
pub fn search_url() -> (r: String)
    ensures
        r@ == SITE@ + "search/"@,
{
    let mut r = String::new();
    push_text(&mut r, SITE);
    push_text(&mut r, "search/");
    assert(r@ =~= SITE@ + "search/"@);
    r
}

/// The address of the page of the title `manga_id`.
pub fn manga_url(manga_id: &str) -> (r: String)
    ensures
        r@ == SITE@ + "manga/"@ + manga_id@,
{
    let mut r = String::new();
    push_text(&mut r, SITE);
    push_text(&mut r, "manga/");
    push_text(&mut r, manga_id);
    assert(r@ =~= SITE@ + "manga/"@ + manga_id@);
    r
}

} // verus!
