//! Titles of the catalogue: filtering by genre, the list of genres, and how
//! a title is shown.
use vstd::prelude::*;
use crate::lanes::texts;
use crate::text::{push_text, same_text};

verus! {

/// A title of the catalogue, with the site's own field names: `i` its id,
/// `s` its name, `al` its alternative names, `l` its latest chapter, `g` its
/// genres, and the rest as the site reports them.
#[derive(Debug)]
pub struct Manga {
    pub i: String,
    pub s: String,
    pub o: String,
    pub ss: String,
    pub ps: String,
    pub t: String,
    pub v: String,
    pub vm: String,
    pub y: String,
    pub a: Vec<String>,
    pub al: Vec<String>,
    pub l: String,
    pub lt: i128,
    pub ls: serde_json::Value,
    pub g: Vec<String>,
    pub h: bool,
}

/// Whether `list` holds a string with the text `x`.
pub open spec fn holds_text(list: Seq<String>, x: Seq<char>) -> bool {
    exists|j: int| 0 <= j < list.len() && (#[trigger] list[j])@ == x
}

/// Whether a title with genres `own` has every genre of `wanted`.
pub open spec fn has_genres(own: Seq<String>, wanted: Seq<String>) -> bool {
    forall|k: int| 0 <= k < wanted.len() ==> holds_text(own, (#[trigger] wanted[k])@)
}

/// The titles of `manga` that have every genre of `genres`, in their order.
pub open spec fn with_genres(manga: Seq<Manga>, genres: Seq<String>) -> Seq<Manga>
    decreases manga.len(),
{
    if manga.len() == 0 {
        Seq::empty()
    } else if has_genres(manga.last().g@, genres) {
        with_genres(manga.drop_last(), genres).push(manga.last())
    } else {
        with_genres(manga.drop_last(), genres)
    }
}

/// The genres of `manga`, title after title.
pub open spec fn all_genres(manga: Seq<Manga>) -> Seq<Seq<char>>
    decreases manga.len(),
{
    if manga.len() == 0 {
        Seq::empty()
    } else {
        all_genres(manga.drop_last()) + texts(manga.last().g@)
    }
}

/// `s` without repetitions, each text where it first occurs.
pub open spec fn first_occurrences(s: Seq<Seq<char>>) -> Seq<Seq<char>>
    decreases s.len(),
{
    if s.len() == 0 {
        Seq::empty()
    } else if first_occurrences(s.drop_last()).contains(s.last()) {
        first_occurrences(s.drop_last())
    } else {
        first_occurrences(s.drop_last()).push(s.last())
    }
}

/// `parts` joined with `sep` between neighbours.
pub open spec fn joined_with(parts: Seq<Seq<char>>, sep: Seq<char>) -> Seq<char>
    decreases parts.len(),
{
    if parts.len() == 0 {
        Seq::empty()
    } else if parts.len() == 1 {
        parts[0]
    } else {
        joined_with(parts.drop_last(), sep) + sep + parts.last()
    }
}

/// How a title is shown: its name, then its alternative names in brackets
/// when it has any.
pub open spec fn label_of(name: Seq<char>, alternatives: Seq<String>) -> Seq<char> {
    if alternatives.len() == 0 {
        name
    } else {
        name + " ("@ + joined_with(texts(alternatives), ", "@) + ")"@
    }
}

fn find_text(list: &Vec<String>, x: &str) -> (r: bool)
    ensures
        r == holds_text(list@, x@),
{
    let mut j: usize = 0;
    while j < list.len()
        invariant
            j <= list.len(),
            forall|h: int| 0 <= h < j ==> (#[trigger] list@[h])@ != x@,
        decreases list.len() - j,
    {
        if same_text(list[j].as_str(), x) {
            return true;
        }
        j = j + 1;
    }
    false
}

fn has_all_genres(own: &Vec<String>, wanted: &Vec<String>) -> (r: bool)
    ensures
        r == has_genres(own@, wanted@),
{
    let mut k: usize = 0;
    while k < wanted.len()
        invariant
            k <= wanted.len(),
            forall|h: int| 0 <= h < k ==> holds_text(own@, (#[trigger] wanted@[h])@),
        decreases wanted.len() - k,
    {
        if !find_text(own, wanted[k].as_str()) {
            return false;
        }
        k = k + 1;
    }
    true
}

impl Manga {
    /// The titles of `manga` that have every genre of `genres`, in their order.
    #[must_use]
    pub fn filter_manga(genres: Vec<String>, manga: Vec<Manga>) -> (r: Option<Vec<Manga>>)
        ensures
            r matches Some(v) && v@ == with_genres(manga@, genres@),
    {
        let ghost s = manga@;
        let mut kept: Vec<Manga> = Vec::new();
        for m in it: manga.into_iter()
            invariant
                it.seq() == s,
                it.index() <= s.len(),
                kept@ == with_genres(s.subrange(0, it.index() as int), genres@),
        {
            assert(it.index() < it.seq().len());
            let ghost k = it.index() as int;
            assert(s.subrange(0, k + 1).drop_last() =~= s.subrange(0, k));
            assert(s.subrange(0, k + 1).last() == m);
            if has_all_genres(&m.g, &genres) {
                kept.push(m);
            }
        }
        assert(s.subrange(0, s.len() as int) =~= s);
        Some(kept)
    }

    /// Every genre of `manga`, once each, in the order of first occurrence.
    pub fn find_all_genre(manga: &Vec<Manga>) -> (r: Vec<String>)
        ensures
            texts(r@) == first_occurrences(all_genres(manga@)),
    {
        let mut genres: Vec<String> = Vec::new();
        let mut i: usize = 0;
        while i < manga.len()
            invariant
                i <= manga.len(),
                texts(genres@) == first_occurrences(all_genres(manga@.subrange(0, i as int))),
            decreases manga.len() - i,
        {
            let g = &manga[i].g;
            let ghost base = all_genres(manga@.subrange(0, i as int));
            assert(manga@.subrange(0, i + 1).drop_last() =~= manga@.subrange(0, i as int));
            let mut j: usize = 0;
            while j < g.len()
                invariant
                    i < manga.len(),
                    g == manga@[i as int].g,
                    j <= g.len(),
                    texts(genres@) == first_occurrences(base + texts(g@.subrange(0, j as int))),
                decreases g.len() - j,
            {
                let ghost before = base + texts(g@.subrange(0, j as int));
                let ghost after = base + texts(g@.subrange(0, j + 1));
                assert(after =~= before.push(g@[j as int]@));
                assert(after.drop_last() =~= before);
                if !find_text(&genres, g[j].as_str()) {
                    proof {
                        assert forall|h: int| 0 <= h < texts(genres@).len() implies
                            texts(genres@)[h] != g@[j as int]@ by {
                            assert(texts(genres@)[h] == genres@[h]@);
                        }
                    }
                    genres.push(g[j].clone());
                    proof {
                        assert(texts(genres@) =~= texts(genres@.drop_last()).push(g@[j as int]@));
                    }
                } else {
                    proof {
                        let h = choose|h: int| 0 <= h < genres@.len() && (#[trigger] genres@[h])@ == g@[j as int]@;
                        assert(texts(genres@)[h] == g@[j as int]@);
                    }
                }
                j = j + 1;
            }
            assert(texts(g@.subrange(0, g@.len() as int)) =~= texts(g@));
            i = i + 1;
        }
        assert(manga@.subrange(0, manga@.len() as int) =~= manga@);
        genres
    }

    /// How the title is shown: its name, then its alternative names in
    /// brackets when it has any.
    pub fn label(&self) -> (r: String)
        ensures
            r@ == label_of(self.s@, self.al@),
    {
        let mut r = String::new();
        push_text(&mut r, self.s.as_str());
        if self.al.len() > 0 {
            push_text(&mut r, " (");
            let mut k: usize = 0;
            let ghost start = r@;
            while k < self.al.len()
                invariant
                    k <= self.al.len(),
                    r@ == start + joined_with(texts(self.al@.subrange(0, k as int)), ", "@),
                decreases self.al.len() - k,
            {
                let ghost parts = texts(self.al@.subrange(0, k + 1));
                assert(parts.drop_last() =~= texts(self.al@.subrange(0, k as int)));
                if k > 0 {
                    push_text(&mut r, ", ");
                }
                push_text(&mut r, self.al[k].as_str());
                proof {
                    if k == 0 {
                        assert(parts =~= seq![self.al@[0]@]);
                        assert(r@ =~= start + joined_with(parts, ", "@));
                    } else {
                        assert(r@ =~= start + joined_with(parts, ", "@));
                    }
                }
                k = k + 1;
            }
            push_text(&mut r, ")");
            assert(self.al@.subrange(0, self.al@.len() as int) =~= self.al@);
        }
        assert(r@ =~= label_of(self.s@, self.al@));
        r
    }
}

} // verus!
