//! The word / token-id vocabulary.

use vstd::prelude::*;

use crate::{AFFIX, EOS, PAD, SOS};

verus! {

/// Id of `w` in the word table `words`: the index at which `w` is stored,
/// or `None` when `w` is not registered.  When the table holds no duplicates
/// (see [`TokenMap::wf`]) the index is unique.
pub open spec fn word_id(words: Seq<Seq<char>>, w: Seq<char>) -> Option<int> {
    if words.contains(w) {
        Some(words.index_of(w))
    } else {
        None
    }
}

/// A duplicate-free word table, the invariant `word_id` relies on.
pub open spec fn distinct_words(words: Seq<Seq<char>>) -> bool {
    forall|i: int, j: int| 0 <= i < j < words.len() ==> words[i] != words[j]
}

/// In a duplicate-free table, holding the word at index `i` pins `word_id`.
pub proof fn lemma_word_id_unique(words: Seq<Seq<char>>, w: Seq<char>, i: int)
    requires
        distinct_words(words),
        0 <= i < words.len(),
        words[i] == w,
    ensures
        word_id(words, w) == Some(i),
{
    assert(words.contains(w));
    let j = words.index_of(w);
    assert(0 <= j < words.len() && words[j] == w);
    if i < j {
        assert(words[i] != words[j]);
    }
    if j < i {
        assert(words[j] != words[i]);
    }
}

/// Bidirectional mapping between surface words and integer token ids.
///
/// Ids are dense: the word with id `i` is stored at index `i`, so the table
/// is a single vector.  The four control words occupy ids `0` through `3`
/// permanently; `add_word` appends above them and never renumbers, so ids,
/// once assigned, are stable for the life of the vocabulary.
#[derive(Debug, Clone, PartialEq, Eq)]
pub struct TokenMap {
    words: Vec<String>,
}

impl View for TokenMap {
    type V = Seq<Seq<char>>;

    closed spec fn view(&self) -> Seq<Seq<char>> {
        self.words.deep_view()
    }
}

/// First index at which `needle` is stored in `words`, if any.
fn find_word(words: &Vec<String>, needle: &String) -> (r: Option<usize>)
    ensures
        match r {
            Some(i) => i < words.deep_view().len() && words.deep_view()[i as int] == needle@,
            None => !words.deep_view().contains(needle@),
        },
{
    let mut i: usize = 0;
    while i < words.len()
        invariant
            i <= words@.len(),
            forall|j: int| 0 <= j < i ==> words.deep_view()[j] != needle@,
        decreases words@.len() - i,
    {
        if words[i] == *needle {
            proof {
                assert(words.deep_view()[i as int] == words@[i as int]@);
            }
            return Some(i);
        }
        proof {
            assert(words.deep_view()[i as int] == words@[i as int]@);
        }
        i = i + 1;
    }
    proof {
        if words.deep_view().contains(needle@) {
            let j = choose|j: int|
                0 <= j < words.deep_view().len() && words.deep_view()[j] == needle@;
            assert(words.deep_view()[j] != needle@);
        }
    }
    None
}

impl TokenMap {
    /// Well-formed vocabulary: the four reserved control words sit at their
    /// fixed ids and no word is registered twice.
    pub open spec fn wf(&self) -> bool {
        &&& self@.len() >= 4
        &&& self@[SOS as int] == "[SOS]"@
        &&& self@[EOS as int] == "[EOS]"@
        &&& self@[PAD as int] == "[PAD]"@
        &&& self@[AFFIX as int] == "[AFFIX]"@
        &&& distinct_words(self@)
    }

    /// Number of registered words: the current vocabulary size `V`.
    pub fn len(&self) -> (n: usize)
        ensures
            n == self@.len(),
    {
        self.words.len()
    }

    /// The id assigned to `s`, if `s` is registered.
    pub fn id_of(&self, s: &str) -> (r: Option<usize>)
        ensures
            match r {
                Some(i) => i < self@.len() && self@[i as int] == s@,
                None => !self@.contains(s@),
            },
    {
        let needle: String = s.to_owned();
        find_word(&self.words, &needle)
    }

    /// The word that id `id` stands for, if an id that low has been handed
    /// out.
    pub fn word_of(&self, id: usize) -> (r: Option<String>)
        ensures
            match r {
                Some(w) => id < self@.len() && w@ == self@[id as int],
                None => id >= self@.len(),
            },
    {
        if id < self.words.len() {
            let w = self.words[id].clone();
            proof {
                assert(self@[id as int] == self.words@[id as int]@);
            }
            Some(w)
        } else {
            None
        }
    }

    /// The whole word table, in id order: the word with id `i` at index
    /// `i`.
    pub fn words(&self) -> (r: &Vec<String>)
        ensures
            r.deep_view() == self@,
    {
        &self.words
    }

    /// Registers `s`, assigning it the next unused id; a no-op when `s`
    /// already has one.
    pub fn add_word(&mut self, s: &str)
        requires
            old(self).wf(),
        ensures
            final(self).wf(),
            old(self)@.contains(s@) ==> final(self)@ == old(self)@,
            !old(self)@.contains(s@) ==> final(self)@ == old(self)@.push(s@),
    {
        let needle: String = s.to_owned();
        match find_word(&self.words, &needle) {
            Some(i) => {
                proof {
                    assert(self@[i as int] == s@);
                    assert(self@.contains(s@));
                }
            },
            None => {
                self.words.push(needle);
                proof {
                    assert(self@ =~= old(self)@.push(s@));
                }
            },
        }
    }
}

impl Default for TokenMap {
    /// The initial vocabulary: exactly the four reserved control words.
    fn default() -> (r: TokenMap)
        ensures
            r.wf(),
            r@.len() == 4,
    {
        let mut words: Vec<String> = Vec::new();
        words.push(String::from_str("[SOS]"));
        words.push(String::from_str("[EOS]"));
        words.push(String::from_str("[PAD]"));
        words.push(String::from_str("[AFFIX]"));
        let r = TokenMap { words };
        proof {
            reveal_strlit("[SOS]");
            reveal_strlit("[EOS]");
            reveal_strlit("[PAD]");
            reveal_strlit("[AFFIX]");
            assert(r@.len() == 4);
            assert(r@[0] == "[SOS]"@ && r@[1] == "[EOS]"@ && r@[2] == "[PAD]"@ && r@[3]
                == "[AFFIX]"@);
            assert("[SOS]"@[1] == 'S' && "[EOS]"@[1] == 'E' && "[PAD]"@[1] == 'P' && "[AFFIX]"@[1]
                == 'A');
            assert(r@[1] != r@[0] && r@[2] != r@[0] && r@[3] != r@[0]);
            assert(r@[2] != r@[1] && r@[3] != r@[1] && r@[3] != r@[2]);
        }
        r
    }
}

} // verus!
