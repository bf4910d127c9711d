//! The word list a puzzle is built from: filtered by length, upper-cased and
//! held in a random order.

use crate::random::{random_below, shuffle};
use crate::text::{lines_of, split_lines, to_upper, upper_of};
use vstd::prelude::*;
use vstd::seq_lib::{to_multiset_contains, to_multiset_remove};

verus! {

/// Words shorter than this are never used.
pub const MIN_WORD_LENGTH: usize = 3;

/// The usable words of `items`, upper-cased, in their original order: those of
/// `MIN_WORD_LENGTH` to `max_word_length` characters.
pub open spec fn candidates(items: Seq<Seq<char>>, max_word_length: nat) -> Seq<Seq<char>>
    decreases items.len(),
{
    if items.len() == 0 {
        Seq::empty()
    } else {
        let rest = candidates(items.drop_last(), max_word_length);
        let w = items.last();
        if MIN_WORD_LENGTH <= w.len() <= max_word_length {
            rest.push(upper_of(w))
        } else {
            rest
        }
    }
}

/// The character sequences of a list of strings.
pub open spec fn views(v: Seq<String>) -> Seq<Seq<char>> {
    v.map_values(|w: String| w@)
}

/// Two orderings of the same strings have their texts in the same multiplicities.
pub proof fn lemma_views_permuted(s1: Seq<String>, s2: Seq<String>)
    requires
        s1.to_multiset() == s2.to_multiset(),
    ensures
        views(s1).to_multiset() == views(s2).to_multiset(),
    decreases s1.len(),
{
    s1.to_multiset_ensures();
    s2.to_multiset_ensures();
    views(s1).to_multiset_ensures();
    views(s2).to_multiset_ensures();
    if s1.len() > 0 {
        let a = s1.last();
        to_multiset_contains(s1, a);
        to_multiset_contains(s2, a);
        let j = choose|j: int| 0 <= j < s2.len() && s2[j] == a;
        let s1r = s1.drop_last();
        let s2r = s2.remove(j);
        assert(s1r.to_multiset() =~= s1.to_multiset().remove(a)) by {
            to_multiset_remove(s1, s1.len() - 1);
            assert(s1.remove(s1.len() - 1) =~= s1r);
        }
        to_multiset_remove(s2, j);
        lemma_views_permuted(s1r, s2r);
        assert(views(s1) =~= views(s1r).push(a@));
        assert(views(s2r) =~= views(s2).remove(j));
        to_multiset_remove(views(s2), j);
        to_multiset_contains(views(s2), a@);
        assert(views(s2)[j] == a@);
        views(s1r).to_multiset_ensures();
        assert(views(s1).to_multiset() =~= views(s1r).to_multiset().insert(a@));
        assert(views(s2r).to_multiset() =~= views(s2).to_multiset().remove(a@));
        broadcast use vstd::multiset::group_multiset_axioms;
        assert(views(s1).to_multiset() =~= views(s2).to_multiset());
    }
}

/// The words a puzzle may use, in a random order fixed when it is built.
pub struct Dictionary {
    words: Vec<String>,
}

impl View for Dictionary {
    type V = Seq<Seq<char>>;

    /// The words, in their stored order.
    closed spec fn view(&self) -> Seq<Seq<char>> {
        views(self.words@)
    }
}

/// A copy of a list of strings.
fn copy_words(items: &Vec<String>) -> (r: Vec<String>)
    ensures
        views(r@) == views(items@),
{
    let mut r: Vec<String> = Vec::new();
    let mut i: usize = 0;
    while i < items.len()
        invariant
            i <= items@.len(),
            r@.len() == i,
            views(r@) == views(items@).take(i as int),
        decreases items@.len() - i,
    {
        let w = items[i].clone();
        r.push(w);
        assert(views(r@) =~= views(items@).take(i + 1));
        i = i + 1;
    }
    assert(views(items@).take(i as int) =~= views(items@));
    r
}

impl Dictionary {
    /// Keeps the words of `items` whose length lies between `MIN_WORD_LENGTH`
    /// and `max_word_length`, upper-cases them, and stores them in a random order.
    pub fn from_words(items: Vec<String>, max_word_length: usize, rng: &mut rand::rngs::StdRng) -> (d:
        Dictionary)
        ensures
            d@.to_multiset() == candidates(views(items@), max_word_length as nat).to_multiset(),
    {
        let ghost src = views(items@);
        let mut filtered_items: Vec<String> = Vec::new();
        let mut i: usize = 0;
        while i < items.len()
            invariant
                src == views(items@),
                i <= items@.len(),
                views(filtered_items@) == candidates(src.take(i as int), max_word_length as nat),
            decreases items@.len() - i,
        {
            assert(src.take(i + 1).drop_last() =~= src.take(i as int));
            let len = items[i].as_str().unicode_len();
            if MIN_WORD_LENGTH <= len && len <= max_word_length {
                let upper = to_upper(items[i].as_str());
                filtered_items.push(upper);
                assert(views(filtered_items@) =~= candidates(
                    src.take(i as int),
                    max_word_length as nat,
                ).push(upper@));
            }
            i = i + 1;
        }
        assert(src.take(i as int) =~= src);
        let ghost before = filtered_items@;
        shuffle(&mut filtered_items, rng);
        proof {
            lemma_views_permuted(filtered_items@, before);
        }
        Dictionary { words: filtered_items }
    }

    /// Builds the dictionary from a borrowed list, as `from_words` does.
    pub fn from_word_list(items: &Vec<String>, max_word_length: usize, rng: &mut rand::rngs::StdRng) -> (d:
        Dictionary)
        ensures
            d@.to_multiset() == candidates(views(items@), max_word_length as nat).to_multiset(),
    {
        Dictionary::from_words(copy_words(items), max_word_length, rng)
    }

    /// Builds the dictionary from a word list given as text, one word per line.
    pub fn from_text(text: &str, max_word_length: usize, rng: &mut rand::rngs::StdRng) -> (d:
        Dictionary)
        ensures
            d@.to_multiset() == candidates(lines_of(text@), max_word_length as nat).to_multiset(),
    {
        Dictionary::from_words(split_lines(text), max_word_length, rng)
    }

    /// Number of stored words.
    pub fn len(&self) -> (n: usize)
        ensures
            n == self@.len(),
    {
        self.words.len()
    }

    /// The stored words, in their stored order.
    pub fn iterate(&self) -> (r: &Vec<String>)
        ensures
            views(r@) == self@,
    {
        &self.words
    }

    /// A word drawn at random from the list; the same word may come again later.
    pub fn get_random_word(&self, rng: &mut rand::rngs::StdRng) -> (w: String)
        requires
            self@.len() > 0,
        ensures
            self@.contains(w@),
    {
        let idx = random_below(rng, self.words.len());
        let w = self.words[idx].clone();
        assert(self@[idx as int] == w@);
        w
    }
}

} // verus!
