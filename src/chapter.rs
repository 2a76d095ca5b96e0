//! Chapters of a title: their canonical ordinals and the page addresses they
//! resolve to.
use vstd::prelude::*;
use crate::scrape::{regex_first_group, SITE, CUR_PATH_PATTERN, embedded};
use crate::text::{
    all_digits, digits_value, lemma_decimal_digits, lemma_pad_digits, lemma_text_le_antisymmetric,
    lemma_text_le_digits, lemma_text_le_prefix, lemma_text_le_reflexive, lemma_text_le_same_length,
    text_le, chars_of, decimal, is_unsigned_text, pad_left, parse_unsigned, push_char, push_decimal, push_text,
    push_zero_padded, string_of_range, trim_and_remove, trimmed, unsigned_value, without,
};

verus! {

/// Declares `serde_json::Value`, which holds fields that the site reports
/// without a fixed shape; the library only carries such values.
#[verifier::external_type_specification]
#[verifier::external_body]
pub struct ExJsonValue(serde_json::Value);

/// The canonical ordinal of a raw chapter encoding: the last character is a
/// fractional sub-index, dropped when it is `0` and written after a `.`
/// otherwise (`"1000"` is `"100"`, `"1005"` is `"100.5"`).
pub open spec fn canonical_ordinal(raw: Seq<char>) -> Seq<char> {
    if raw.len() == 0 {
        raw
    } else if raw.last() == '0' {
        raw.drop_last()
    } else {
        raw.drop_last().push('.').push(raw.last())
    }
}

/// Computes `canonical_ordinal`.
pub fn canonical_ordinal_text(raw: &str) -> (r: String)
    ensures
        r@ == canonical_ordinal(raw@),
{
    let cs = chars_of(raw);
    if cs.len() == 0 {
        return String::new();
    }
    let last = cs[cs.len() - 1];
    let mut r = string_of_range(&cs, 0, cs.len() - 1);
    assert(cs@.subrange(0, cs.len() - 1) =~= cs@.drop_last());
    if last != '0' {
        push_char(&mut r, '.');
        push_char(&mut r, last);
    }
    r
}

/// The sub-directory part of a page address: empty, or `/` and the directory.
pub open spec fn subdirectory(dir: Seq<char>) -> Seq<char> {
    if dir.len() == 0 { dir } else { seq!['/'] + dir }
}

/// The address of page `page` of a chapter with raw ordinal `ordinal` and
/// directory `dir`, of the title `manga_id`, served from `host`.
pub open spec fn page_address(
    host: Seq<char>,
    manga_id: Seq<char>,
    dir: Seq<char>,
    ordinal: Seq<char>,
    page: nat,
) -> Seq<char> {
    "https://"@ + host + "/manga/"@ + manga_id + subdirectory(dir) + "/"@
        + pad_left(canonical_ordinal(ordinal), 4, '0') + "-"@ + pad_left(decimal(page), 3, '0')
        + ".png"@
}

/// The value of a raw ordinal's canonical form, read as decimal digits.
pub open spec fn ordinal_value(ordinal: Seq<char>) -> nat {
    digits_value(canonical_ordinal(ordinal))
}

/// Page addresses of one title and directory sort by chapter, then by page:
/// for canonical ordinals of at most four digits and pages below 1000, one
/// address comes before another exactly when its ordinal is smaller, or the
/// ordinals are equal and its page is at most the other's.
pub proof fn lemma_page_address_order(
    host: Seq<char>,
    manga_id: Seq<char>,
    dir: Seq<char>,
    o1: Seq<char>,
    p1: nat,
    o2: Seq<char>,
    p2: nat,
)
    requires
        all_digits(canonical_ordinal(o1)),
        canonical_ordinal(o1).len() <= 4,
        all_digits(canonical_ordinal(o2)),
        canonical_ordinal(o2).len() <= 4,
        p1 < 1000,
        p2 < 1000,
    ensures
        text_le(page_address(host, manga_id, dir, o1, p1), page_address(host, manga_id, dir, o2, p2))
            <==> (ordinal_value(o1) < ordinal_value(o2)
                || (ordinal_value(o1) == ordinal_value(o2) && p1 <= p2)),
{
    let pre = "https://"@ + host + "/manga/"@ + manga_id + subdirectory(dir) + "/"@;
    let c1 = canonical_ordinal(o1);
    let c2 = canonical_ordinal(o2);
    let a1 = pad_left(c1, 4, '0');
    let a2 = pad_left(c2, 4, '0');
    let b1 = pad_left(decimal(p1), 3, '0');
    let b2 = pad_left(decimal(p2), 3, '0');
    let t1 = "-"@ + (b1 + ".png"@);
    let t2 = "-"@ + (b2 + ".png"@);
    assert(page_address(host, manga_id, dir, o1, p1) =~= pre + (a1 + t1));
    assert(page_address(host, manga_id, dir, o2, p2) =~= pre + (a2 + t2));
    lemma_text_le_prefix(pre, a1 + t1, a2 + t2);
    lemma_pad_digits(c1, 4);
    lemma_pad_digits(c2, 4);
    lemma_decimal_digits(p1);
    lemma_decimal_digits(p2);
    lemma_pad_digits(decimal(p1), 3);
    lemma_pad_digits(decimal(p2), 3);
    lemma_text_le_digits(a1, a2);
    lemma_text_le_digits(a2, a1);
    if a1 != a2 {
        lemma_text_le_same_length(a1, t1, a2, t2);
        if ordinal_value(o1) == ordinal_value(o2) {
            lemma_text_le_antisymmetric(a1, a2);
        }
    } else {
        lemma_text_le_prefix(a1, t1, t2);
        lemma_text_le_prefix("-"@, b1 + ".png"@, b2 + ".png"@);
        lemma_text_le_digits(b1, b2);
        if b1 != b2 {
            lemma_text_le_same_length(b1, ".png"@, b2, ".png"@);
        } else {
            lemma_text_le_reflexive(b1 + ".png"@);
        }
    }
}

/// How many pages a chapter whose page field reads `n` has: pages are
/// numbered from 1 up to, but not including, `n`.
pub open spec fn page_total(n: nat) -> nat {
    if n == 0 { 0 } else { (n - 1) as nat }
}

/// The address of the reading page of the chapter with raw ordinal `ordinal`
/// of the title `manga_id`.
pub open spec fn reading_url(manga_id: Seq<char>, ordinal: Seq<char>) -> Seq<char> {
    SITE@ + "read-online/"@ + manga_id + "-chapter-"@ + canonical_ordinal(ordinal) + ".html"@
}

/// Computes `reading_url`.
pub fn reading_page_url(manga_id: &str, ordinal: &str) -> (r: String)
    ensures
        r@ == reading_url(manga_id@, ordinal@),
{
    let mut r = String::new();
    push_text(&mut r, SITE);
    push_text(&mut r, "read-online/");
    push_text(&mut r, manga_id);
    push_text(&mut r, "-chapter-");
    let id = canonical_ordinal_text(ordinal);
    push_text(&mut r, id.as_str());
    push_text(&mut r, ".html");
    assert(r@ =~= reading_url(manga_id@, ordinal@));
    r
}

/// The host of a chapter's pages as its reading page writes it: the text
/// after `vm.CurPathName = `, without surrounding white space and quotes.
pub fn path_name_from_capture(capture: &str) -> (r: String)
    ensures
        r@ == without(trimmed(capture@), '"'),
{
    trim_and_remove(capture, '"')
}

/// The host of a chapter's pages, found in the chapter's reading page.
pub fn cur_path_name_from_page(page: &str) -> (r: Option<String>)
    ensures
        r is None <==> regex_first_group(CUR_PATH_PATTERN@, page@) is None,
        r matches Some(h) ==> h@ == without(trimmed(regex_first_group(CUR_PATH_PATTERN@, page@)->0), '"'),
{
    match embedded(CUR_PATH_PATTERN, page) {
        None => None,
        Some(g) => Some(path_name_from_capture(g.as_str())),
    }
}

/// Why a chapter could not be resolved to its page addresses.
#[derive(Clone, Copy, Debug, PartialEq, Eq, Structural)]
pub enum ResolveError {
    /// The reading page does not say where the pages are served from.
    MissingPathName,
    /// The chapter's page field is not an unsigned number.
    BadPageCount,
}

/// A chapter as the reading page lists it: its raw ordinal, its page field,
/// and the sub-directory its pages are served from (possibly empty).
#[derive(Clone, Debug)]
pub struct Chapter {
    pub Chapter: String,
    pub Page: String,
    pub Directory: String,
}

impl Chapter {
    /// The chapter's canonical ordinal, as it appears in addresses.
    #[must_use]
    pub fn to_url_id(&self) -> (r: String)
        ensures
            r@ == canonical_ordinal(self.Chapter@),
    {
        canonical_ordinal_text(self.Chapter.as_str())
    }

    /// The sub-directory part of the chapter's page addresses.
    #[must_use]
    pub fn directory(&self) -> (r: String)
        ensures
            r@ == subdirectory(self.Directory@),
    {
        let mut r = String::new();
        if self.Directory.as_str().unicode_len() > 0 {
            push_char(&mut r, '/');
            push_text(&mut r, self.Directory.as_str());
        }
        assert(r@ =~= subdirectory(self.Directory@));
        r
    }

    /// The address of the chapter's reading page.
    pub fn reading_url(&self, manga_id: &str) -> (r: String)
        ensures
            r@ == reading_url(manga_id@, self.Chapter@),
    {
        reading_page_url(manga_id, self.Chapter.as_str())
    }

    /// The addresses of the chapter's pages, served from `host`, in page
    /// order; `None` when the page field is not an unsigned number.
    pub fn page_addresses(&self, host: &str, manga_id: &str) -> (r: Option<Vec<String>>)
        ensures
            r is Some <==> is_unsigned_text(self.Page@) && unsigned_value(self.Page@) <= usize::MAX,
            r matches Some(v) ==> {
                &&& v.len() == page_total(unsigned_value(self.Page@))
                &&& forall|k: int| 0 <= k < v.len() ==> (#[trigger] v[k])@ == page_address(
                    host@, manga_id@, self.Directory@, self.Chapter@, (k + 1) as nat)
            },
    {
        let n = match parse_unsigned(self.Page.as_str(), usize::MAX) {
            None => return None,
            Some(n) => n,
        };
        let dir = self.directory();
        let id = self.to_url_id();
        let mut v: Vec<String> = Vec::new();
        let mut page: usize = 1;
        while page < n
            invariant
                1 <= page,
                n == unsigned_value(self.Page@),
                page <= n || page == 1,
                v.len() == page - 1,
                dir@ == subdirectory(self.Directory@),
                id@ == canonical_ordinal(self.Chapter@),
                forall|k: int| 0 <= k < v.len() ==> (#[trigger] v[k])@ == page_address(
                    host@, manga_id@, self.Directory@, self.Chapter@, (k + 1) as nat),
            decreases n - page,
        {
            let mut a = String::new();
            push_text(&mut a, "https://");
            push_text(&mut a, host);
            push_text(&mut a, "/manga/");
            push_text(&mut a, manga_id);
            push_text(&mut a, dir.as_str());
            push_text(&mut a, "/");
            push_zero_padded(&mut a, id.as_str(), 4);
            push_text(&mut a, "-");
            let mut num = String::new();
            push_decimal(&mut num, page);
            assert(num@ =~= decimal(page as nat));
            push_zero_padded(&mut a, num.as_str(), 3);
            push_text(&mut a, ".png");
            assert(a@ =~= page_address(host@, manga_id@, self.Directory@, self.Chapter@, page as nat));
            v.push(a);
            page = page + 1;
        }
        Some(v)
    }

    /// Resolves the chapter from its reading page `page`: the host that the
    /// page names, then the addresses of the chapter's pages on that host.
    pub fn resolve(&self, page: &str, manga_id: &str) -> (r: Result<Vec<String>, ResolveError>)
        ensures
            regex_first_group(CUR_PATH_PATTERN@, page@) is None
                ==> r == Err::<Vec<String>, ResolveError>(ResolveError::MissingPathName),
            regex_first_group(CUR_PATH_PATTERN@, page@) is Some
                && !(is_unsigned_text(self.Page@) && unsigned_value(self.Page@) <= usize::MAX)
                ==> r == Err::<Vec<String>, ResolveError>(ResolveError::BadPageCount),
            regex_first_group(CUR_PATH_PATTERN@, page@) is Some
                && is_unsigned_text(self.Page@) && unsigned_value(self.Page@) <= usize::MAX
                ==> r is Ok,
            r matches Ok(v) ==> {
                let host = without(trimmed(regex_first_group(CUR_PATH_PATTERN@, page@)->0), '"');
                &&& regex_first_group(CUR_PATH_PATTERN@, page@) is Some
                &&& is_unsigned_text(self.Page@) && unsigned_value(self.Page@) <= usize::MAX
                &&& v.len() == page_total(unsigned_value(self.Page@))
                &&& forall|k: int| 0 <= k < v.len() ==> (#[trigger] v[k])@ == page_address(
                    host, manga_id@, self.Directory@, self.Chapter@, (k + 1) as nat)
            },
    {
        match cur_path_name_from_page(page) {
            None => Err(ResolveError::MissingPathName),
            Some(host) => match self.page_addresses(host.as_str(), manga_id) {
                None => Err(ResolveError::BadPageCount),
                Some(v) => Ok(v),
            },
        }
    }
}

/// A chapter as a title's page summarises it: its raw ordinal, its kind, and
/// its release date as the site writes it.
#[derive(Debug)]
pub struct ChapterInfo {
    pub Chapter: String,
    pub Type: String,
    pub Date: serde_json::Value,
}

impl ChapterInfo {
    /// The chapter's canonical ordinal, as it appears in addresses.
    pub fn to_url_id(&self) -> (r: String)
        ensures
            r@ == canonical_ordinal(self.Chapter@),
    {
        canonical_ordinal_text(self.Chapter.as_str())
    }
}

} // verus!
