//! The vocabulary table: an ordered list of words addressed by integer index.
//!
//! The table is a caller-supplied resource, not data of this crate: the codec
//! borrows it for the duration of one call.  Lookup is by exact string
//! equality, and a word that occurs twice is resolved to its first position.

use crate::error::Error;
use vstd::prelude::*;

verus! {

/// The character sequences of a list of words.
pub open spec fn word_views(words: Seq<String>) -> Seq<Seq<char>> {
    words.map_values(|w: String| w@)
}

/// Whether `w` occurs in the table `wl`.
pub open spec fn list_has_word(wl: Seq<Seq<char>>, w: Seq<char>) -> bool {
    exists|i: int| 0 <= i < wl.len() && wl[i] == w
}

/// The position of the first occurrence of `w` in `wl`, or `wl.len()` if `w`
/// does not occur at all.
pub open spec fn first_index(wl: Seq<Seq<char>>, w: Seq<char>) -> int
    decreases wl.len(),
{
    if wl.len() == 0 {
        0
    } else if wl[0] == w {
        0
    } else {
        1 + first_index(wl.drop_first(), w)
    }
}

/// Whether no word occurs twice in the table.
pub open spec fn distinct_words(wl: Seq<Seq<char>>) -> bool {
    forall|i: int, j: int| 0 <= i < j < wl.len() ==> wl[i] != wl[j]
}

/// `first_index` is what its name says: it stays within the table, lands on
/// an occurrence of `w` when there is one, and nothing before it is one.
pub proof fn lemma_first_index(wl: Seq<Seq<char>>, w: Seq<char>)
    ensures
        list_has_word(wl, w) ==> {
            let f = first_index(wl, w);
            &&& 0 <= f < wl.len()
            &&& wl[f] == w
            &&& forall|j: int| 0 <= j < f ==> wl[j] != w
        },
        !list_has_word(wl, w) ==> first_index(wl, w) == wl.len(),
    decreases wl.len(),
{
    if wl.len() == 0 {
    } else if wl[0] == w {
    } else {
        let tail = wl.drop_first();
        lemma_first_index(tail, w);
        assert(forall|i: int| 0 <= i < tail.len() ==> tail[i] == wl[i + 1]);
        if list_has_word(wl, w) {
            let i = choose|i: int| 0 <= i < wl.len() && wl[i] == w;
            assert(tail[i - 1] == w);
            assert(list_has_word(tail, w));
            let f = first_index(wl, w);
            assert(f == 1 + first_index(tail, w));
            assert(wl[f] == tail[f - 1]);
            assert(forall|j: int| 1 <= j < f ==> #[trigger] tail[j - 1] != w);
            assert(forall|j: int| 1 <= j < f ==> #[trigger] wl[j] == tail[j - 1]);
        } else {
            assert(forall|i: int| 0 <= i < tail.len() ==> tail[i] == wl[i + 1] && tail[i] != w);
            assert(!list_has_word(tail, w));
        }
    }
}

/// A word found at position `j`, with no occurrence before it, has
/// `first_index` exactly `j`.
pub proof fn lemma_first_index_is(wl: Seq<Seq<char>>, w: Seq<char>, j: int)
    requires
        0 <= j < wl.len(),
        wl[j] == w,
        forall|k: int| 0 <= k < j ==> wl[k] != w,
    ensures
        list_has_word(wl, w),
        first_index(wl, w) == j,
{
    assert(list_has_word(wl, w));
    lemma_first_index(wl, w);
    let f = first_index(wl, w);
    if f < j {
        assert(wl[f] != w);
    } else if f > j {
        assert(wl[j] != w);
    }
}

/// In a table without repeated words, a word taken from position `k` resolves
/// back to `k`.
pub proof fn lemma_first_index_of_member(wl: Seq<Seq<char>>, k: int)
    requires
        distinct_words(wl),
        0 <= k < wl.len(),
    ensures
        list_has_word(wl, wl[k]),
        first_index(wl, wl[k]) == k,
{
    assert(forall|j: int| 0 <= j < k ==> wl[j] != wl[k]);
    lemma_first_index_is(wl, wl[k], k);
}

/// The position of `word` in the vocabulary table, by linear scan and exact
/// string equality; `InvalidWord` if `word` is absent.
pub fn get_word_idx(word: &str, wordlist: &Vec<String>) -> (r: Result<usize, Error>)
    ensures
        ({
            let wl = word_views(wordlist@);
            &&& (r matches Ok(i) ==> list_has_word(wl, word@) && i == first_index(wl, word@))
            &&& (r matches Err(e) ==> !list_has_word(wl, word@) && (e matches Error::InvalidWord(
                w,
            ) && w@ == word@))
        }),
{
    let target: String = word.to_owned();
    let mut j: usize = 0;
    while j < wordlist.len()
        invariant
            j <= wordlist@.len(),
            target@ == word@,
            forall|k: int| 0 <= k < j ==> word_views(wordlist@)[k] != word@,
        decreases wordlist@.len() - j,
    {
        assert(word_views(wordlist@)[j as int] == wordlist@[j as int]@);
        if wordlist[j] == target {
            proof {
                lemma_first_index_is(word_views(wordlist@), word@, j as int);
            }
            return Ok(j);
        }
        j = j + 1;
    }
    proof {
        if list_has_word(word_views(wordlist@), word@) {
            let i = choose|i: int|
                0 <= i < word_views(wordlist@).len() && word_views(wordlist@)[i] == word@;
            assert(word_views(wordlist@)[i] != word@);
        }
    }
    Err(Error::InvalidWord(target))
}

} // verus!
