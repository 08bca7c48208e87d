//! Structured lexical content: the items a token sequence encodes and the
//! continuations the grammar oracle answers with.

use vstd::prelude::*;

verus! {

/// One lexical item of a structured sequence: either a single morpheme, or a
/// word realized across several adjacent morphemes (a stem plus its affixes).
#[derive(Debug, Clone, PartialEq, Eq)]
pub enum LexicalItem {
    Normal(String),
    Affixed(Vec<String>),
}

/// Mathematical model of a [`LexicalItem`]: the same shape over character
/// sequences.
pub enum LexItemModel {
    Normal(Seq<char>),
    Affixed(Seq<Seq<char>>),
}

impl DeepView for LexicalItem {
    type V = LexItemModel;

    open spec fn deep_view(&self) -> LexItemModel {
        match self {
            LexicalItem::Normal(w) => LexItemModel::Normal(w@),
            LexicalItem::Affixed(ws) => LexItemModel::Affixed(ws.deep_view()),
        }
    }
}

/// One legal next step the grammar admits after a prefix: a whole word, a
/// word spread over several morphemes, or the end of the sentence.
#[derive(Debug, Clone, PartialEq, Eq)]
pub enum Continuation {
    Word(String),
    AffixedWord(Vec<String>),
    EndOfSentence,
}

/// Mathematical model of a [`Continuation`].
pub enum ContModel {
    Word(Seq<char>),
    AffixedWord(Seq<Seq<char>>),
    EndOfSentence,
}

impl DeepView for Continuation {
    type V = ContModel;

    open spec fn deep_view(&self) -> ContModel {
        match self {
            Continuation::Word(w) => ContModel::Word(w@),
            Continuation::AffixedWord(ws) => ContModel::AffixedWord(ws.deep_view()),
            Continuation::EndOfSentence => ContModel::EndOfSentence,
        }
    }
}

impl Continuation {
    /// Builds the continuation a surface form names; the end marker's own
    /// surface form stands for the end of the sentence.
    pub fn new(s: &str) -> (r: Continuation)
        ensures
            s@ == "[EOS]"@ ==> r.deep_view() == ContModel::EndOfSentence,
            s@ != "[EOS]"@ ==> r.deep_view() == ContModel::Word(s@),
    {
        let owned: String = s.to_owned();
        let marker: String = String::from_str("[EOS]");
        if owned == marker {
            Continuation::EndOfSentence
        } else {
            Continuation::Word(owned)
        }
    }

    /// The end-of-sentence continuation.
    pub fn eos() -> (r: Continuation)
        ensures
            r.deep_view() == ContModel::EndOfSentence,
    {
        Continuation::EndOfSentence
    }

    /// Whether this continuation ends the sentence.
    pub fn is_end_of_string(&self) -> (r: bool)
        ensures
            r == (self.deep_view() is EndOfSentence),
    {
        matches!(self, Continuation::EndOfSentence)
    }

    /// Whether this continuation is a single whole word.
    pub fn is_word(&self) -> (r: bool)
        ensures
            r == (self.deep_view() is Word),
    {
        matches!(self, Continuation::Word(_))
    }
}

} // verus!
