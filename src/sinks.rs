//! What the output sinks compute before they write: the address list and
//! its reading back, image file paths, document names, and the split of
//! fetched pages by chapter.
use vstd::prelude::*;
use crate::lanes::{keys, texts};
use crate::text::text_order;
use vstd::relations::sorted_by;
use crate::text::{
    after_last, before_first, chars_of, first_index_from, push_char, push_text, string_of_range,
    text_after_last, text_before_first, same_text,
};

verus! {

// ------------------------------------------------------------ address list

/// The address list as a file holds it: each line followed by a line feed.
pub open spec fn list_text(lines: Seq<Seq<char>>) -> Seq<char>
    decreases lines.len(),
{
    if lines.len() == 0 {
        Seq::empty()
    } else {
        lines[0] + seq!['\n'] + list_text(lines.drop_first())
    }
}

/// The lines of a text: the runs of characters ended by a line feed or by
/// the end of the text; a final empty run is no line.
pub open spec fn split_lines(t: Seq<char>) -> Seq<Seq<char>>
    decreases t.len(),
{
    if t.len() == 0 {
        Seq::empty()
    } else {
        let k = first_index_from(t, '\n', 0);
        if k < 0 || k >= t.len() {
            seq![t]
        } else {
            seq![t.subrange(0, k)] + split_lines(t.subrange(k + 1, t.len() as int))
        }
    }
}

proof fn lemma_list_text_push(lines: Seq<Seq<char>>, x: Seq<char>)
    ensures
        list_text(lines.push(x)) == list_text(lines) + x + seq!['\n'],
    decreases lines.len(),
{
    if lines.len() == 0 {
        assert(lines.push(x).drop_first() =~= Seq::<Seq<char>>::empty());
        assert(list_text(Seq::<Seq<char>>::empty()) =~= Seq::<char>::empty());
        assert(lines =~= Seq::<Seq<char>>::empty());
        assert(lines.push(x)[0] == x);
        assert(list_text(lines.push(x)) =~= list_text(lines) + x + seq!['\n']);
    } else {
        lemma_list_text_push(lines.drop_first(), x);
        assert(lines.push(x).drop_first() =~= lines.drop_first().push(x));
        assert(list_text(lines.push(x)) =~= list_text(lines) + x + seq!['\n']);
    }
}

/// The name of the address-list file of the title `manga_id`.
pub fn address_list_file_name(manga_id: &str) -> (r: String)
    ensures
        r@ == manga_id@ + ".txt"@,
{
    let mut r = String::new();
    push_text(&mut r, manga_id);
    push_text(&mut r, ".txt");
    r
}

/// The contents of the address-list file: every address on a line of its own.
pub fn address_list_text(urls: &Vec<String>) -> (r: String)
    ensures
        r@ == list_text(texts(urls@)),
{
    let mut r = String::new();
    let mut i: usize = 0;
    while i < urls.len()
        invariant
            i <= urls.len(),
            r@ == list_text(texts(urls@.subrange(0, i as int))),
        decreases urls.len() - i,
    {
        proof {
            lemma_list_text_push(texts(urls@.subrange(0, i as int)), urls@[i as int]@);
            assert(texts(urls@.subrange(0, i + 1)) =~= texts(urls@.subrange(0, i as int)).push(urls@[i as int]@));
        }
        push_text(&mut r, urls[i].as_str());
        push_char(&mut r, '\n');
        i = i + 1;
    }
    assert(urls@.subrange(0, urls@.len() as int) =~= urls@);
    r
}

proof fn lemma_first_index_shift(t: Seq<char>, c: char, a: int, i: int)
    requires
        0 <= a <= i <= t.len(),
    ensures
        first_index_from(t.subrange(a, t.len() as int), c, i - a) == first_index_from(t, c, i) - a,
    decreases t.len() - i,
{
    if i < t.len() && t[i] != c {
        lemma_first_index_shift(t, c, a, i + 1);
    }
}

proof fn lemma_first_index_range(t: Seq<char>, c: char, i: int)
    requires
        0 <= i <= t.len(),
    ensures
        i <= first_index_from(t, c, i) <= t.len(),
        first_index_from(t, c, i) < t.len() ==> t[first_index_from(t, c, i)] == c,
    decreases t.len() - i,
{
    if i < t.len() && t[i] != c {
        lemma_first_index_range(t, c, i + 1);
    }
}

/// The index of the first `c` in `cs` at or after `from`, or its length.
fn find_from(cs: &Vec<char>, c: char, from: usize) -> (r: usize)
    requires
        from <= cs.len(),
    ensures
        r == first_index_from(cs@, c, from as int),
{
    let mut i: usize = from;
    while i < cs.len() && cs[i] != c
        invariant
            from <= i <= cs.len(),
            first_index_from(cs@, c, from as int) == first_index_from(cs@, c, i as int),
        decreases cs.len() - i,
    {
        i = i + 1;
    }
    i
}

/// The addresses that an address-list file holds: its lines.
pub fn address_list_lines(text: &str) -> (r: Vec<String>)
    ensures
        texts(r@) == split_lines(text@),
{
    let cs = chars_of(text);
    let mut r: Vec<String> = Vec::new();
    let mut start: usize = 0;
    assert(cs@.subrange(0, cs@.len() as int) =~= cs@);
    while start < cs.len()
        invariant
            start <= cs.len(),
            cs@ == text@,
            texts(r@) + split_lines(cs@.subrange(start as int, cs@.len() as int)) == split_lines(cs@),
        decreases cs.len() - start,
    {
        let k = find_from(&cs, '\n', start);
        let ghost rest = cs@.subrange(start as int, cs@.len() as int);
        proof {
            lemma_first_index_shift(cs@, '\n', start as int, start as int);
            lemma_first_index_range(cs@, '\n', start as int);
            assert(rest.subrange(0, k - start) =~= cs@.subrange(start as int, k as int));
        }
        let line = string_of_range(&cs, start, k);
        r.push(line);
        proof {
            if k < cs.len() {
                assert(rest.subrange(k + 1 - start, rest.len() as int)
                    =~= cs@.subrange(k + 1, cs@.len() as int));
            }
        }
        if k < cs.len() {
            start = k + 1;
        } else {
            start = cs.len();
        }
        proof {
            assert(texts(r@) =~= texts(r@.drop_last()).push(r@.last()@));
            if start == cs.len() {
                assert(cs@.subrange(start as int, cs@.len() as int) =~= Seq::<char>::empty());
            }
        }
    }
    assert(cs@.subrange(start as int, cs@.len() as int) =~= Seq::<char>::empty());
    assert(texts(r@) + Seq::<Seq<char>>::empty() =~= texts(r@));
    r
}

proof fn lemma_first_index_of_line(line: Seq<char>, rest: Seq<char>, i: int)
    requires
        0 <= i <= line.len(),
        !line.contains('\n'),
    ensures
        first_index_from(line + seq!['\n'] + rest, '\n', i) == line.len(),
    decreases line.len() - i,
{
    let t = line + seq!['\n'] + rest;
    if i < line.len() {
        assert(t[i] == line[i]);
        lemma_first_index_of_line(line, rest, i + 1);
    } else {
        assert(t[i] == '\n');
    }
}

/// Writing addresses as a list and reading the list back gives the same
/// addresses, in the same order, one line per address; this holds for any
/// addresses that hold no line feed.
pub proof fn lemma_address_list_round_trip(lines: Seq<Seq<char>>)
    requires
        forall|i: int| 0 <= i < lines.len() ==> !(#[trigger] lines[i]).contains('\n'),
    ensures
        split_lines(list_text(lines)) == lines,
        split_lines(list_text(lines)).len() == lines.len(),
    decreases lines.len(),
{
    if lines.len() > 0 {
        let t = list_text(lines);
        let l0 = lines[0];
        let rest = list_text(lines.drop_first());
        assert(t == l0 + seq!['\n'] + rest);
        lemma_first_index_of_line(l0, rest, 0);
        assert(t.subrange(0, l0.len() as int) =~= l0);
        assert(t.subrange(l0.len() as int + 1, t.len() as int) =~= rest);
        assert forall|i: int| 0 <= i < lines.drop_first().len() implies
            !(#[trigger] lines.drop_first()[i]).contains('\n') by {
            assert(lines.drop_first()[i] == lines[i + 1]);
        }
        lemma_address_list_round_trip(lines.drop_first());
        assert(seq![l0] + lines.drop_first() =~= lines);
    } else {
        assert(list_text(lines) =~= Seq::<char>::empty());
    }
}

// ------------------------------------------------------------- image files

/// The last path segment of an address: the page's file name.
pub open spec fn file_name_of(url: Seq<char>) -> Seq<char> {
    after_last(url, '/')
}

/// The chapter part of a page's file name: what comes before its first `-`.
pub open spec fn chapter_of(file: Seq<char>) -> Seq<char> {
    before_first(file, '-')
}

/// Where an image fetched from `url` is saved: under a folder named after
/// the title, and, when `by_chapter`, in a sub-folder named after the chapter
/// with the page part of the file name as its name.
pub open spec fn image_path_of(by_chapter: bool, manga_id: Seq<char>, url: Seq<char>) -> Seq<char> {
    if by_chapter {
        manga_id + seq!['/'] + chapter_of(file_name_of(url)) + seq!['/']
            + after_last(file_name_of(url), '-')
    } else {
        manga_id + seq!['/'] + file_name_of(url)
    }
}

/// The file name of the page at `url`, which sorts pages in address order.
pub fn page_file_name(url: &str) -> (r: String)
    ensures
        r@ == file_name_of(url@),
{
    text_after_last(url, '/')
}

/// Computes `image_path_of`.
pub fn image_path(by_chapter: bool, manga_id: &str, url: &str) -> (r: String)
    ensures
        r@ == image_path_of(by_chapter, manga_id@, url@),
{
    let file = page_file_name(url);
    let mut r = String::new();
    push_text(&mut r, manga_id);
    push_char(&mut r, '/');
    if by_chapter {
        let chapter = text_before_first(file.as_str(), '-');
        let page = text_after_last(file.as_str(), '-');
        push_text(&mut r, chapter.as_str());
        push_char(&mut r, '/');
        push_text(&mut r, page.as_str());
    } else {
        push_text(&mut r, file.as_str());
    }
    assert(r@ =~= image_path_of(by_chapter, manga_id@, url@));
    r
}

// -------------------------------------------------------------- documents

/// The name and title of the single document of the title `manga_id`.
pub fn document_name(manga_id: &str) -> (r: String)
    ensures
        r@ == manga_id@ + ".pdf"@,
{
    let mut r = String::new();
    push_text(&mut r, manga_id);
    push_text(&mut r, ".pdf");
    r
}

/// The name and title of the document of chapter `chapter` of the title `manga_id`.
pub fn chapter_document_name(manga_id: &str, chapter: &str) -> (r: String)
    ensures
        r@ == manga_id@ + "-"@ + chapter@ + ".pdf"@,
{
    let mut r = String::new();
    push_text(&mut r, manga_id);
    push_text(&mut r, "-");
    push_text(&mut r, chapter);
    push_text(&mut r, ".pdf");
    assert(r@ =~= manga_id@ + "-"@ + chapter@ + ".pdf"@);
    r
}

// ------------------------------------------------------- split by chapter

/// The pages of `pages` whose file name belongs to chapter `chapter`, in
/// their order in `pages`.
pub open spec fn pages_of<P>(pages: Seq<(String, P)>, chapter: Seq<char>) -> Seq<(String, P)>
    decreases pages.len(),
{
    if pages.len() == 0 {
        Seq::empty()
    } else if chapter_of(pages.last().0@) == chapter {
        pages_of(pages.drop_last(), chapter).push(pages.last())
    } else {
        pages_of(pages.drop_last(), chapter)
    }
}

/// `groups` splits `pages` by chapter: one group per chapter that occurs,
/// each holding exactly that chapter's pages, in their order in `pages`.
pub open spec fn is_chapter_split<P>(pages: Seq<(String, P)>, groups: Seq<(String, Vec<(String, P)>)>) -> bool {
    &&& forall|g: int, h: int| 0 <= g < h < groups.len() ==> (#[trigger] groups[g]).0@ != (#[trigger] groups[h]).0@
    &&& forall|m: int| 0 <= m < pages.len() ==>
        exists|g: int| 0 <= g < groups.len() && (#[trigger] groups[g]).0@ == chapter_of((#[trigger] pages[m]).0@)
    &&& forall|g: int| 0 <= g < groups.len() ==> {
        &&& (#[trigger] groups[g]).1@ == pages_of(pages, groups[g].0@)
        &&& groups[g].1@.len() > 0
    }
}

proof fn lemma_pages_of_absent<P>(pages: Seq<(String, P)>, chapter: Seq<char>)
    requires
        forall|m: int| 0 <= m < pages.len() ==> chapter_of((#[trigger] pages[m]).0@) != chapter,
    ensures
        pages_of(pages, chapter) == Seq::<(String, P)>::empty(),
    decreases pages.len(),
{
    if pages.len() > 0 {
        assert(chapter_of(pages[pages.len() - 1].0@) != chapter);
        lemma_pages_of_absent(pages.drop_last(), chapter);
    }
}

/// Finds the group of chapter `chapter`.
fn find_group<P>(groups: &Vec<(String, Vec<(String, P)>)>, chapter: &str) -> (r: Option<usize>)
    ensures
        r matches Some(g) ==> g < groups.len() && groups@[g as int].0@ == chapter@,
        r is None ==> forall|g: int| 0 <= g < groups.len() ==> (#[trigger] groups@[g]).0@ != chapter@,
{
    let mut g: usize = 0;
    while g < groups.len()
        invariant
            g <= groups.len(),
            forall|h: int| 0 <= h < g ==> (#[trigger] groups@[h]).0@ != chapter@,
        decreases groups.len() - g,
    {
        if same_text(groups[g].0.as_str(), chapter) {
            return Some(g);
        }
        g = g + 1;
    }
    None
}

/// Splits fetched pages, keyed by file name, into one group per chapter,
/// in the order in which the chapters first occur; each group holds that
/// chapter's pages in their order in `pages`.
pub fn split_by_chapter<P>(pages: Vec<(String, P)>) -> (groups: Vec<(String, Vec<(String, P)>)>)
    ensures
        is_chapter_split(pages@, groups@),
{
    let ghost s = pages@;
    let mut groups: Vec<(String, Vec<(String, P)>)> = Vec::new();
    for item in it: pages.into_iter()
        invariant
            it.seq() == s,
            it.index() <= s.len(),
            is_chapter_split(s.subrange(0, it.index() as int), groups@),
    {
        assert(it.index() < it.seq().len());
        let ghost i = it.index() as int;
        let ghost before = groups@;
        assert(s[i] == item);
        let chapter = text_before_first(item.0.as_str(), '-');
        let ghost prefix = s.subrange(0, i);
        let ghost next = s.subrange(0, i + 1);
        assert(next.drop_last() =~= prefix);
        assert(next.last() == item);
        match find_group(&groups, chapter.as_str()) {
            Some(g) => {
                groups[g].1.push(item);
                proof {
                    assert forall|h: int| 0 <= h < groups@.len() implies {
                        &&& (#[trigger] groups@[h]).1@ == pages_of(next, groups@[h].0@)
                        &&& groups@[h].1@.len() > 0
                    } by {
                        assert(groups@[h].0@ == before[h].0@);
                    }
                    assert forall|m: int| 0 <= m < next.len() implies
                        exists|h: int| 0 <= h < groups@.len() && (#[trigger] groups@[h]).0@ == chapter_of((#[trigger] next[m]).0@) by {
                        if m < i {
                            assert(next[m] == prefix[m]);
                            let h = choose|h: int| 0 <= h < before.len() && (#[trigger] before[h]).0@ == chapter_of((#[trigger] prefix[m]).0@);
                            assert(groups@[h].0@ == before[h].0@);
                        } else {
                            assert(groups@[g as int].0@ == chapter_of(next[m].0@));
                        }
                    }
                    assert forall|a: int, b: int| 0 <= a < b < groups@.len() implies (#[trigger] groups@[a]).0@ != (#[trigger] groups@[b]).0@ by {
                        assert(groups@[a].0@ == before[a].0@);
                        assert(groups@[b].0@ == before[b].0@);
                    }
                }
            }
            None => {
                proof {
                    assert forall|m: int| 0 <= m < prefix.len() implies chapter_of((#[trigger] prefix[m]).0@) != chapter@ by {
                        let h = choose|h: int| 0 <= h < before.len() && (#[trigger] before[h]).0@ == chapter_of((#[trigger] prefix[m]).0@);
                    }
                    lemma_pages_of_absent(prefix, chapter@);
                }
                let ghost chapter_view = chapter@;
                let mut group: Vec<(String, P)> = Vec::new();
                group.push(item);
                groups.push((chapter, group));
                proof {
                    let last = groups@.len() - 1;
                    assert(groups@[last].0@ == chapter_view);
                    assert(groups@[last].1@ =~= pages_of(next, chapter_view));
                    assert forall|h: int| 0 <= h < groups@.len() implies {
                        &&& (#[trigger] groups@[h]).1@ == pages_of(next, groups@[h].0@)
                        &&& groups@[h].1@.len() > 0
                    } by {
                        if h < last {
                            assert(groups@[h] == before[h]);
                        }
                    }
                    assert forall|m: int| 0 <= m < next.len() implies
                        exists|h: int| 0 <= h < groups@.len() && (#[trigger] groups@[h]).0@ == chapter_of((#[trigger] next[m]).0@) by {
                        if m < i {
                            assert(next[m] == prefix[m]);
                            let h = choose|h: int| 0 <= h < before.len() && (#[trigger] before[h]).0@ == chapter_of((#[trigger] prefix[m]).0@);
                            assert(groups@[h] == before[h]);
                        } else {
                            assert(groups@[last].0@ == chapter_of(next[m].0@));
                        }
                    }
                    assert forall|a: int, b: int| 0 <= a < b < groups@.len() implies (#[trigger] groups@[a]).0@ != (#[trigger] groups@[b]).0@ by {
                        assert(groups@[a] == before[a]);
                        if b < last {
                            assert(groups@[b] == before[b]);
                        }
                    }
                }
            }
        }
    }
    assert(s.subrange(0, s.len() as int) =~= s);
    groups
}

proof fn lemma_pages_of_members<P>(pages: Seq<(String, P)>, chapter: Seq<char>)
    ensures
        forall|j: int| 0 <= j < pages_of(pages, chapter).len() ==>
            exists|m: int| 0 <= m < pages.len() && #[trigger] pages_of(pages, chapter)[j] == #[trigger] pages[m],
        forall|j: int| 0 <= j < pages_of(pages, chapter).len() ==>
            chapter_of((#[trigger] pages_of(pages, chapter)[j]).0@) == chapter,
    decreases pages.len(),
{
    if pages.len() > 0 {
        let prev = pages.drop_last();
        lemma_pages_of_members(prev, chapter);
        let r = pages_of(pages, chapter);
        assert forall|j: int| 0 <= j < r.len() implies
            exists|m: int| 0 <= m < pages.len() && #[trigger] r[j] == #[trigger] pages[m] by {
            if j < pages_of(prev, chapter).len() {
                let m = choose|m: int| 0 <= m < prev.len() && #[trigger] pages_of(prev, chapter)[j] == #[trigger] prev[m];
                assert(r[j] == pages[m]);
            } else {
                assert(r[j] == pages[pages.len() - 1]);
            }
        }
    }
}

/// The split puts into a chapter's group only that chapter's pages, and
/// when the fetched pages ascend by file name, as aggregation leaves them,
/// each group's pages ascend by file name too, which is ascending page
/// order within the chapter.
pub proof fn lemma_chapter_pages_ascend<P>(pages: Seq<(String, P)>, chapter: Seq<char>)
    requires
        sorted_by(keys(pages), text_order()),
    ensures
        sorted_by(keys(pages_of(pages, chapter)), text_order()),
        forall|j: int| 0 <= j < pages_of(pages, chapter).len() ==>
            chapter_of((#[trigger] pages_of(pages, chapter)[j]).0@) == chapter,
    decreases pages.len(),
{
    lemma_pages_of_members(pages, chapter);
    if pages.len() > 0 {
        let prev = pages.drop_last();
        assert(keys(prev) =~= keys(pages).drop_last());
        lemma_chapter_pages_ascend(prev, chapter);
        lemma_pages_of_members(prev, chapter);
        let r = pages_of(pages, chapter);
        let q = pages_of(prev, chapter);
        if chapter_of(pages.last().0@) == chapter {
            assert forall|a: int, b: int| 0 <= a < b < keys(r).len() implies
                #[trigger] text_order()(keys(r)[a], keys(r)[b]) by {
                if b < q.len() {
                    assert(keys(r)[a] == keys(q)[a]);
                    assert(keys(r)[b] == keys(q)[b]);
                } else {
                    let m = choose|m: int| 0 <= m < prev.len() && #[trigger] q[a] == #[trigger] prev[m];
                    assert(keys(pages)[m] == keys(r)[a]);
                    assert(keys(pages)[pages.len() - 1] == keys(r)[b]);
                }
            }
        }
    }
}

/// Split after aggregation, each chapter's document holds only that
/// chapter's pages, in ascending order of file name, which is ascending page
/// order within the chapter.
pub proof fn lemma_split_documents_ascend<P>(
    pages: Seq<(String, P)>,
    groups: Seq<(String, Vec<(String, P)>)>,
)
    requires
        sorted_by(keys(pages), text_order()),
        is_chapter_split(pages, groups),
    ensures
        forall|g: int| 0 <= g < groups.len() ==> sorted_by(keys((#[trigger] groups[g]).1@), text_order()),
        forall|g: int, j: int| 0 <= g < groups.len() && 0 <= j < groups[g].1@.len() ==>
            chapter_of((#[trigger] groups[g].1@[j]).0@) == groups[g].0@,
{
    assert forall|g: int| 0 <= g < groups.len() implies sorted_by(keys((#[trigger] groups[g]).1@), text_order()) by {
        lemma_chapter_pages_ascend(pages, groups[g].0@);
    }
    assert forall|g: int, j: int| 0 <= g < groups.len() && 0 <= j < groups[g].1@.len() implies
        chapter_of((#[trigger] groups[g].1@[j]).0@) == groups[g].0@ by {
        lemma_chapter_pages_ascend(pages, groups[g].0@);
        assert(groups[g].1@[j] == pages_of(pages, groups[g].0@)[j]);
    }
}

} // verus!
