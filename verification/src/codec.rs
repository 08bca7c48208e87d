//! Strict encoding and decoding between token-id sequences and structured
//! lexical content, and the lenient id-to-string mapping.

use vstd::prelude::*;

use crate::items::{ContModel, Continuation, LexItemModel, LexicalItem};
use crate::vocab::{lemma_word_id_unique, word_id, TokenMap};
use crate::{AFFIX, EOS, PAD, SOS};

verus! {

/// The ways a strict encode or decode can fail.
#[derive(Debug, Clone, Copy, PartialEq, Eq)]
pub enum CodecError {
    /// The input holds no tokens at all.
    EmptyInput,
    /// The first token is not the start marker.
    MissingStartSymbol,
    /// No end marker precedes the trailing padding.
    MissingEndSymbol,
    /// A token id resolves to no registered word.
    OutOfVocabularyToken,
    /// A morpheme-join marker stands where none may, or one is left open.
    MalformedAffixRun,
    /// A word to encode has no assigned id.
    UnknownWord,
}

/// `s` with its trailing run of padding tokens removed.
pub open spec fn trim_pads(s: Seq<usize>) -> Seq<usize>
    decreases s.len(),
{
    if s.len() > 0 && s.last() == PAD {
        trim_pads(s.drop_last())
    } else {
        s
    }
}

/// The decoder's scan over the interior tokens `u` (those strictly between
/// the start and end markers), from position `i`, with `acc` the morphemes
/// of the affixed word currently open and `out` the items already decoded.
pub open spec fn decode_body(
    u: Seq<usize>,
    words: Seq<Seq<char>>,
    i: int,
    acc: Seq<Seq<char>>,
    out: Seq<LexItemModel>,
) -> Result<Seq<LexItemModel>, CodecError>
    decreases u.len() - i + 1,
{
    if i < 0 || i >= u.len() {
        if acc.len() > 0 {
            Err(CodecError::MalformedAffixRun)
        } else {
            Ok(out)
        }
    } else {
        let c = u[i];
        if c == AFFIX {
            Err(CodecError::MalformedAffixRun)
        } else if c >= words.len() {
            Err(CodecError::OutOfVocabularyToken)
        } else {
            let w = words[c as int];
            if i + 1 < u.len() && u[i + 1] == AFFIX {
                decode_body(u, words, i + 2, acc.push(w), out)
            } else if acc.len() > 0 {
                decode_body(
                    u,
                    words,
                    i + 1,
                    Seq::empty(),
                    out.push(LexItemModel::Affixed(acc.push(w))),
                )
            } else {
                decode_body(u, words, i + 1, acc, out.push(LexItemModel::Normal(w)))
            }
        }
    }
}

/// What strict decoding of `s` against the word table `words` yields: the
/// structured items, or the first failure found.  Failures take this
/// precedence: an empty input, then a missing start marker, then a missing
/// end marker, then the scan's own failures in scan order.
pub open spec fn spec_decode(s: Seq<usize>, words: Seq<Seq<char>>) -> Result<
    Seq<LexItemModel>,
    CodecError,
> {
    if s.len() == 0 {
        Err(CodecError::EmptyInput)
    } else if s[0] != SOS {
        Err(CodecError::MissingStartSymbol)
    } else {
        let t = trim_pads(s);
        if t.len() < 2 || t.last() != EOS {
            Err(CodecError::MissingEndSymbol)
        } else {
            decode_body(t.subrange(1, t.len() - 1), words, 0, Seq::empty(), Seq::empty())
        }
    }
}

/// Strict decoder: trailing padding is trimmed, the start and end markers
/// are required, and the interior is scanned into items, a bare join marker
/// or an unclosed affix run failing the whole call.
pub fn to_phon_content(s: &Vec<usize>, vocab: &TokenMap) -> (r: Result<Vec<LexicalItem>, CodecError>)
    ensures
        match r {
            Ok(v) => spec_decode(s@, vocab@) == Ok::<Seq<LexItemModel>, CodecError>(v.deep_view()),
            Err(e) => spec_decode(s@, vocab@) == Err::<Seq<LexItemModel>, CodecError>(e),
        },
{
    if s.len() == 0 {
        return Err(CodecError::EmptyInput);
    }
    if s[0] != SOS {
        return Err(CodecError::MissingStartSymbol);
    }
    let mut end: usize = s.len();
    proof {
        assert(s@.take(end as int) =~= s@);
    }
    while end > 0 && s[end - 1] == PAD
        invariant
            1 <= end <= s@.len(),
            s@[0] == SOS,
            trim_pads(s@) == trim_pads(s@.take(end as int)),
        decreases end,
    {
        proof {
            assert(s@.take(end as int).last() == PAD);
            assert(s@.take(end as int).drop_last() =~= s@.take(end - 1));
        }
        end = end - 1;
    }
    proof {
        assert(trim_pads(s@.take(end as int)) == s@.take(end as int));
        assert(trim_pads(s@) == s@.take(end as int));
        assert(trim_pads(s@).len() == end);
    }
    if s[end - 1] != EOS {
        proof {
            assert(trim_pads(s@).last() == s@[end - 1]);
            assert(trim_pads(s@).len() < 2 || trim_pads(s@).last() != EOS);
        }
        return Err(CodecError::MissingEndSymbol);
    }
    proof {
        assert(end >= 2) by {
            assert(s@.take(end as int)[0] == s@[0]);
        }
        assert(trim_pads(s@).last() == s@[end - 1]);
    }
    let eos_idx: usize = end - 1;
    let ghost u: Seq<usize> = s@.subrange(1, eos_idx as int);
    proof {
        assert(trim_pads(s@).subrange(1, trim_pads(s@).len() - 1) =~= u);
    }
    let mut acc: Vec<String> = Vec::new();
    let mut out: Vec<LexicalItem> = Vec::new();
    proof {
        assert(acc.deep_view() =~= Seq::<Seq<char>>::empty());
        assert(out.deep_view() =~= Seq::<LexItemModel>::empty());
        assert(spec_decode(s@, vocab@) == decode_body(
            u,
            vocab@,
            0,
            Seq::empty(),
            Seq::empty(),
        ));
    }
    let mut i: usize = 1;
    while i < eos_idx
        invariant
            1 <= i <= eos_idx < s@.len(),
            s@[eos_idx as int] == EOS,
            u == s@.subrange(1, eos_idx as int),
            spec_decode(s@, vocab@) == decode_body(
                u,
                vocab@,
                i - 1,
                acc.deep_view(),
                out.deep_view(),
            ),
        decreases eos_idx - i,
    {
        let c = s[i];
        proof {
            assert(u[i - 1] == s@[i as int]);
        }
        if c == AFFIX {
            return Err(CodecError::MalformedAffixRun);
        }
        let w = match vocab.word_of(c) {
            None => {
                return Err(CodecError::OutOfVocabularyToken);
            },
            Some(w) => w,
        };
        let next_affix = s[i + 1] == AFFIX;
        proof {
            if i + 1 == eos_idx {
                assert(s@[i + 1] == EOS);
            } else {
                assert(u[i as int] == s@[i + 1]);
            }
            assert(next_affix == (i - 1 + 1 < u.len() && u[i - 1 + 1] == AFFIX));
        }
        if next_affix {
            let ghost acc0 = acc.deep_view();
            acc.push(w);
            proof {
                assert(acc.deep_view() =~= acc0.push(w@));
            }
            i = i + 2;
        } else if acc.len() > 0 {
            let ghost acc0 = acc.deep_view();
            let ghost out0 = out.deep_view();
            acc.push(w);
            proof {
                assert(acc.deep_view() =~= acc0.push(w@));
            }
            out.push(LexicalItem::Affixed(acc));
            acc = Vec::new();
            proof {
                assert(acc.deep_view() =~= Seq::<Seq<char>>::empty());
                assert(out.deep_view() =~= out0.push(LexItemModel::Affixed(acc0.push(w@))));
            }
            i = i + 1;
        } else {
            let ghost out0 = out.deep_view();
            out.push(LexicalItem::Normal(w));
            proof {
                assert(out.deep_view() =~= out0.push(LexItemModel::Normal(w@)));
            }
            i = i + 1;
        }
    }
    if acc.len() > 0 {
        proof {
            assert(acc.deep_view().len() > 0);
        }
        return Err(CodecError::MalformedAffixRun);
    }
    proof {
        assert(acc.deep_view().len() == 0);
    }
    Ok(out)
}

/// The interleaved encoding of one affixed word: the morphemes' ids joined
/// by the morpheme-join marker, with no trailing marker.
pub open spec fn encode_affixed(words: Seq<Seq<char>>, ws: Seq<Seq<char>>) -> Result<
    Seq<usize>,
    CodecError,
>
    decreases ws.len(),
{
    if ws.len() == 0 {
        Ok(Seq::empty())
    } else {
        match word_id(words, ws[0]) {
            None => Err(CodecError::UnknownWord),
            Some(id) => {
                if ws.len() == 1 {
                    Ok(seq![id as usize])
                } else {
                    match encode_affixed(words, ws.drop_first()) {
                        Ok(rest) => Ok(seq![id as usize, AFFIX] + rest),
                        Err(e) => Err(e),
                    }
                }
            },
        }
    }
}

/// The body encoding of one item: one id for a plain word, the interleaved
/// form for an affixed word.
pub open spec fn encode_item(words: Seq<Seq<char>>, it: LexItemModel) -> Result<
    Seq<usize>,
    CodecError,
> {
    match it {
        LexItemModel::Normal(w) => match word_id(words, w) {
            Some(id) => Ok(seq![id as usize]),
            None => Err(CodecError::UnknownWord),
        },
        LexItemModel::Affixed(ws) => encode_affixed(words, ws),
    }
}

/// The concatenated body encoding of a structured sequence.
pub open spec fn encode_body(words: Seq<Seq<char>>, items: Seq<LexItemModel>) -> Result<
    Seq<usize>,
    CodecError,
>
    decreases items.len(),
{
    if items.len() == 0 {
        Ok(Seq::empty())
    } else {
        match encode_item(words, items[0]) {
            Err(e) => Err(e),
            Ok(first) => match encode_body(words, items.drop_first()) {
                Err(e) => Err(e),
                Ok(rest) => Ok(first + rest),
            },
        }
    }
}

/// What strict encoding yields: the body framed by the start and end
/// markers, unpadded, or `UnknownWord` when some word has no id.
pub open spec fn spec_encode(words: Seq<Seq<char>>, items: Seq<LexItemModel>) -> Result<
    Seq<usize>,
    CodecError,
> {
    match encode_body(words, items) {
        Err(e) => Err(e),
        Ok(body) => Ok(seq![SOS] + body + seq![EOS]),
    }
}

/// Strict encoder: each plain word becomes its id, each affixed word its
/// interleaved form, the whole framed by the start and end markers.  A word
/// with no assigned id fails the whole call.
#[verifier::loop_isolation(false)]
pub fn tokens(items: &Vec<LexicalItem>, vocab: &TokenMap) -> (r: Result<Vec<usize>, CodecError>)
    requires
        vocab.wf(),
    ensures
        match r {
            Ok(v) => spec_encode(vocab@, items.deep_view()) == Ok::<Seq<usize>, CodecError>(v@),
            Err(e) => spec_encode(vocab@, items.deep_view()) == Err::<Seq<usize>, CodecError>(e),
        },
{
    let ghost itemsd: Seq<LexItemModel> = items.deep_view();
    let mut out: Vec<usize> = Vec::new();
    out.push(SOS);
    let ghost body0: Seq<usize> = Seq::empty();
    proof {
        assert(itemsd.skip(0) =~= itemsd);
        assert(out@ =~= seq![SOS] + body0);
    }
    let mut ii: usize = 0;
    while ii < items.len()
        invariant
            vocab.wf(),
            ii <= items@.len(),
            itemsd == items.deep_view(),
            itemsd.len() == items@.len(),
            out@.len() >= 1,
            out@ == seq![SOS] + out@.skip(1),
            encode_body(vocab@, itemsd) == match encode_body(vocab@, itemsd.skip(ii as int)) {
                Ok(rest) => Ok::<Seq<usize>, CodecError>(out@.skip(1) + rest),
                Err(e) => Err::<Seq<usize>, CodecError>(e),
            },
        decreases items@.len() - ii,
    {
        let ghost built: Seq<usize> = out@.skip(1);
        proof {
            assert(itemsd.skip(ii as int)[0] == itemsd[ii as int]);
            assert(itemsd.skip(ii as int).drop_first() =~= itemsd.skip(ii + 1));
        }
        match &items[ii] {
            LexicalItem::Normal(w) => {
                match vocab.id_of(w.as_str()) {
                    None => {
                        proof {
                            assert(itemsd[ii as int] == LexItemModel::Normal(w@));
                        }
                        return Err(CodecError::UnknownWord);
                    },
                    Some(id) => {
                        proof {
                            lemma_word_id_unique(vocab@, w@, id as int);
                            assert(itemsd[ii as int] == LexItemModel::Normal(w@));
                        }
                        out.push(id);
                        proof {
                            assert(out@.skip(1) =~= built + seq![id]);
                            assert(out@ =~= seq![SOS] + out@.skip(1));
                            if let Ok(rest) = encode_body(vocab@, itemsd.skip(ii + 1)) {
                                assert((built + seq![id]) + rest =~= built + (seq![id as usize]
                                    + rest));
                            }
                        }
                    },
                }
            },
            LexicalItem::Affixed(ws) => {
                let ghost wsd: Seq<Seq<char>> = ws.deep_view();
                proof {
                    assert(itemsd[ii as int] == LexItemModel::Affixed(wsd));
                    assert(wsd.skip(0) =~= wsd);
                }
                let mut wi: usize = 0;
                while wi < ws.len()
                    invariant
                        vocab.wf(),
                        wi <= ws@.len(),
                        wsd == ws.deep_view(),
                        wsd.len() == ws@.len(),
                        out@.len() >= 1,
                        out@ == seq![SOS] + out@.skip(1),
                        encode_affixed(vocab@, wsd) == match encode_affixed(
                            vocab@,
                            wsd.skip(wi as int),
                        ) {
                            Ok(rest) => Ok::<Seq<usize>, CodecError>(
                                out@.skip(1).skip(built.len() as int) + rest,
                            ),
                            Err(e) => Err::<Seq<usize>, CodecError>(e),
                        },
                        out@.skip(1) == built + out@.skip(1).skip(built.len() as int),
                        built.len() <= out@.skip(1).len(),
                        built == out@.skip(1).take(built.len() as int),
                    decreases ws@.len() - wi,
                {
                    proof {
                        assert(wsd.skip(wi as int)[0] == wsd[wi as int]);
                        assert(wsd.skip(wi as int).drop_first() =~= wsd.skip(wi + 1));
                        assert(wsd[wi as int] == ws@[wi as int]@);
                    }
                    let ghost seg: Seq<usize> = out@.skip(1).skip(built.len() as int);
                    match vocab.id_of(ws[wi].as_str()) {
                        None => {
                            proof {
                                assert(word_id(vocab@, wsd.skip(wi as int)[0]) is None);
                                assert(encode_affixed(vocab@, wsd.skip(wi as int)) == Err::<
                                    Seq<usize>,
                                    CodecError,
                                >(CodecError::UnknownWord));
                                assert(encode_affixed(vocab@, wsd) == Err::<
                                    Seq<usize>,
                                    CodecError,
                                >(CodecError::UnknownWord));
                                assert(encode_item(vocab@, itemsd[ii as int]) == Err::<
                                    Seq<usize>,
                                    CodecError,
                                >(CodecError::UnknownWord));
                                assert(encode_body(vocab@, itemsd.skip(ii as int)) == Err::<
                                    Seq<usize>,
                                    CodecError,
                                >(CodecError::UnknownWord));
                                assert(encode_body(vocab@, itemsd) == Err::<
                                    Seq<usize>,
                                    CodecError,
                                >(CodecError::UnknownWord));
                            }
                            return Err(CodecError::UnknownWord);
                        },
                        Some(id) => {
                            proof {
                                lemma_word_id_unique(vocab@, ws@[wi as int]@, id as int);
                            }
                            out.push(id);
                            if wi + 1 < ws.len() {
                                out.push(AFFIX);
                                proof {
                                    assert(out@.skip(1).skip(built.len() as int) =~= seg + seq![
                                        id,
                                        AFFIX,
                                    ]);
                                    assert(out@.skip(1) =~= built + out@.skip(1).skip(
                                        built.len() as int,
                                    ));
                                    assert(out@ =~= seq![SOS] + out@.skip(1));
                                    assert(built =~= out@.skip(1).take(built.len() as int));
                                    if let Ok(restp) = encode_affixed(vocab@, wsd.skip(wi + 1)) {
                                        assert((seg + seq![id, AFFIX]) + restp =~= seg + (seq![
                                            id as usize,
                                            AFFIX,
                                        ] + restp));
                                    }
                                }
                            } else {
                                proof {
                                    assert(wsd.skip(wi as int).len() == 1);
                                    assert(wsd.skip(wi + 1) =~= Seq::<Seq<char>>::empty());
                                    assert((seg + seq![id as usize]) + Seq::<usize>::empty() =~= seg
                                        + seq![id as usize]);
                                    assert(out@.skip(1).skip(built.len() as int) =~= seg + seq![
                                        id,
                                    ]);
                                    assert(out@.skip(1) =~= built + out@.skip(1).skip(
                                        built.len() as int,
                                    ));
                                    assert(out@ =~= seq![SOS] + out@.skip(1));
                                    assert(built =~= out@.skip(1).take(built.len() as int));
                                }
                            }
                        },
                    }
                    wi = wi + 1;
                }
                proof {
                    assert(wsd.skip(ws@.len() as int) =~= Seq::<Seq<char>>::empty());
                    assert(encode_affixed(vocab@, wsd.skip(ws@.len() as int)) == Ok::<
                        Seq<usize>,
                        CodecError,
                    >(Seq::empty()));
                    assert(out@.skip(1).skip(built.len() as int) + Seq::<usize>::empty() =~= out@.skip(
                        1,
                    ).skip(built.len() as int));
                    assert(out@.skip(1) =~= built + out@.skip(1).skip(built.len() as int));
                    let segf = out@.skip(1).skip(built.len() as int);
                    assert(encode_affixed(vocab@, wsd) == Ok::<Seq<usize>, CodecError>(segf));
                    if let Ok(rest) = encode_body(vocab@, itemsd.skip(ii + 1)) {
                        assert((built + segf) + rest =~= built + (segf + rest));
                    }
                }
            },
        }
        ii = ii + 1;
    }
    proof {
        assert(itemsd.skip(itemsd.len() as int) =~= Seq::<LexItemModel>::empty());
        assert(out@.skip(1) + Seq::<usize>::empty() =~= out@.skip(1));
    }
    let ghost body: Seq<usize> = out@.skip(1);
    out.push(EOS);
    proof {
        assert(out@ =~= seq![SOS] + body + seq![EOS]);
    }
    Ok(out)
}

/// A word that can stand in a round-trippable item: registered, and not the
/// morpheme-join marker itself, whose id would re-read as a join marker.
pub open spec fn encodable_word(words: Seq<Seq<char>>, w: Seq<char>) -> bool {
    word_id(words, w) is Some && word_id(words, w) != Some(AFFIX as int)
}

/// An item the round trip preserves: every word encodable, and an affixed
/// group holding at least two morphemes.
pub open spec fn encodable_item(words: Seq<Seq<char>>, it: LexItemModel) -> bool {
    match it {
        LexItemModel::Normal(w) => encodable_word(words, w),
        LexItemModel::Affixed(ws) => ws.len() >= 2 && forall|k: int|
            0 <= k < ws.len() ==> encodable_word(words, ws[k]),
    }
}

/// A structured sequence the round trip preserves.
pub open spec fn encodable_seq(words: Seq<Seq<char>>, items: Seq<LexItemModel>) -> bool {
    forall|n: int| 0 <= n < items.len() ==> encodable_item(words, #[trigger] items[n])
}

/// A registered word sits in the table where its id says.
proof fn lemma_word_id_props(words: Seq<Seq<char>>, w: Seq<char>)
    requires
        word_id(words, w) is Some,
    ensures
        0 <= word_id(words, w)->Some_0 < words.len(),
        words[word_id(words, w)->Some_0] == w,
{
    assert(words.contains(w));
    let j = words.index_of(w);
    assert(0 <= j < words.len() && words[j] == w);
}

/// Encoding an affixed group of encodable words succeeds, and its first
/// token is a word id, never the join marker.
proof fn lemma_encode_affixed_ok(words: Seq<Seq<char>>, ws: Seq<Seq<char>>)
    requires
        words.len() <= usize::MAX,
        ws.len() >= 1,
        forall|k: int| 0 <= k < ws.len() ==> encodable_word(words, #[trigger] ws[k]),
    ensures
        encode_affixed(words, ws) matches Ok(seg) && seg.len() >= 1 && seg[0] != AFFIX,
    decreases ws.len(),
{
    lemma_word_id_props(words, ws[0]);
    if ws.len() > 1 {
        assert(forall|k: int|
            0 <= k < ws.drop_first().len() ==> encodable_word(
                words,
                #[trigger] ws.drop_first()[k],
            ));
        lemma_encode_affixed_ok(words, ws.drop_first());
    }
}

/// Encoding a sequence of encodable items succeeds; a non-empty sequence
/// yields a non-empty body whose first token is a word id.
proof fn lemma_encode_body_ok(words: Seq<Seq<char>>, items: Seq<LexItemModel>)
    requires
        words.len() <= usize::MAX,
        encodable_seq(words, items),
    ensures
        encode_body(words, items) matches Ok(body) && (body.len() == 0 <==> items.len() == 0) && (
        items.len() > 0 ==> body[0] != AFFIX),
    decreases items.len(),
{
    if items.len() > 0 {
        assert(encodable_item(words, items[0]));
        match items[0] {
            LexItemModel::Normal(w) => {
                lemma_word_id_props(words, w);
            },
            LexItemModel::Affixed(ws) => {
                lemma_encode_affixed_ok(words, ws);
            },
        }
        assert(forall|n: int|
            0 <= n < items.drop_first().len() ==> encodable_item(
                words,
                #[trigger] items.drop_first()[n],
            ));
        lemma_encode_body_ok(words, items.drop_first());
    }
}

/// The decoder's scan from position `i` equals the scan of the suffix from
/// its start: the scan never looks back.
proof fn lemma_decode_body_shift(
    u: Seq<usize>,
    words: Seq<Seq<char>>,
    i: int,
    acc: Seq<Seq<char>>,
    out: Seq<LexItemModel>,
)
    requires
        0 <= i <= u.len(),
    ensures
        decode_body(u, words, i, acc, out) == decode_body(u.skip(i), words, 0, acc, out),
    decreases u.len() - i,
{
    if i == 0 {
        assert(u.skip(0) =~= u);
    } else if i == u.len() {
        assert(u.skip(i).len() == 0);
    } else {
        let v = u.skip(i);
        assert(v[0] == u[i]);
        let c = u[i];
        if c == AFFIX || c >= words.len() {
        } else {
            assert(i + 1 < u.len() ==> v[1] == u[i + 1]);
            if i + 1 < u.len() && u[i + 1] == AFFIX {
                lemma_decode_body_shift(u, words, i + 2, acc.push(words[c as int]), out);
                lemma_decode_body_shift(v, words, 2, acc.push(words[c as int]), out);
                assert(v.skip(2) =~= u.skip(i + 2));
            } else if acc.len() > 0 {
                let out2 = out.push(LexItemModel::Affixed(acc.push(words[c as int])));
                lemma_decode_body_shift(u, words, i + 1, Seq::empty(), out2);
                lemma_decode_body_shift(v, words, 1, Seq::empty(), out2);
                assert(v.skip(1) =~= u.skip(i + 1));
            } else {
                let out2 = out.push(LexItemModel::Normal(words[c as int]));
                lemma_decode_body_shift(u, words, i + 1, acc, out2);
                lemma_decode_body_shift(v, words, 1, acc, out2);
                assert(v.skip(1) =~= u.skip(i + 1));
            }
        }
    }
}

/// Decoding the interleaved form of an affixed group, followed by anything
/// that does not begin with a join marker, closes exactly that group.
proof fn lemma_decode_affix_run(
    words: Seq<Seq<char>>,
    ws: Seq<Seq<char>>,
    tail: Seq<usize>,
    acc: Seq<Seq<char>>,
    out: Seq<LexItemModel>,
)
    requires
        words.len() <= usize::MAX,
        ws.len() >= 1,
        forall|k: int| 0 <= k < ws.len() ==> encodable_word(words, #[trigger] ws[k]),
        tail.len() == 0 || tail[0] != AFFIX,
        ws.len() == 1 ==> acc.len() >= 1,
    ensures
        encode_affixed(words, ws) matches Ok(seg) && decode_body(seg + tail, words, 0, acc, out)
            == decode_body(
            tail,
            words,
            0,
            Seq::empty(),
            out.push(LexItemModel::Affixed(acc + ws)),
        ),
    decreases ws.len(),
{
    lemma_word_id_props(words, ws[0]);
    let id = word_id(words, ws[0])->Some_0;
    if ws.len() == 1 {
        let seg = seq![id as usize];
        let u = seg + tail;
        assert(u[0] == id as usize);
        assert(u[0] != AFFIX && u[0] < words.len());
        assert(words[u[0] as int] == ws[0]);
        assert(1 < u.len() ==> u[1] == tail[0]);
        assert(!(1 < u.len() && u[1] == AFFIX));
        let out2 = out.push(LexItemModel::Affixed(acc.push(ws[0])));
        lemma_decode_body_shift(u, words, 1, Seq::empty(), out2);
        assert(u.skip(1) =~= tail);
        assert(acc.push(ws[0]) =~= acc + ws);
    } else {
        assert(forall|k: int|
            0 <= k < ws.drop_first().len() ==> encodable_word(
                words,
                #[trigger] ws.drop_first()[k],
            ));
        lemma_decode_affix_run(words, ws.drop_first(), tail, acc.push(ws[0]), out);
        let segrest = encode_affixed(words, ws.drop_first())->Ok_0;
        let seg = seq![id as usize, AFFIX] + segrest;
        let u = seg + tail;
        assert(u[0] == id as usize && u[1] == AFFIX);
        assert(u[0] != AFFIX && u[0] < words.len());
        assert(words[u[0] as int] == ws[0]);
        lemma_decode_body_shift(u, words, 2, acc.push(ws[0]), out);
        assert(u.skip(2) =~= segrest + tail);
        assert(acc.push(ws[0]) + ws.drop_first() =~= acc + ws);
    }
}

/// Decoding the body of an encodable sequence, followed by anything that
/// does not begin with a join marker, yields exactly that sequence.
proof fn lemma_decode_encode_body(
    words: Seq<Seq<char>>,
    items: Seq<LexItemModel>,
    tail: Seq<usize>,
    out: Seq<LexItemModel>,
)
    requires
        words.len() <= usize::MAX,
        encodable_seq(words, items),
        tail.len() == 0 || tail[0] != AFFIX,
    ensures
        encode_body(words, items) matches Ok(body) && decode_body(body + tail, words, 0, Seq::empty(), out)
            == decode_body(tail, words, 0, Seq::empty(), out + items),
    decreases items.len(),
{
    lemma_encode_body_ok(words, items);
    if items.len() == 0 {
        assert(Seq::<usize>::empty() + tail =~= tail);
        assert(out + items =~= out);
    } else {
        assert(encodable_item(words, items[0]));
        assert(forall|n: int|
            0 <= n < items.drop_first().len() ==> encodable_item(
                words,
                #[trigger] items.drop_first()[n],
            ));
        lemma_encode_body_ok(words, items.drop_first());
        let bodyrest = encode_body(words, items.drop_first())->Ok_0;
        let tail3 = bodyrest + tail;
        if bodyrest.len() == 0 {
            assert(tail3 =~= tail);
        }
        match items[0] {
            LexItemModel::Normal(w) => {
                lemma_word_id_props(words, w);
                let id = word_id(words, w)->Some_0;
                let body = seq![id as usize] + bodyrest;
                let u = body + tail;
                assert(u =~= seq![id as usize] + tail3);
                assert(u[0] == id as usize);
                assert(u[0] != AFFIX && u[0] < words.len());
                assert(words[u[0] as int] == w);
                assert(1 < u.len() ==> u[1] == tail3[0]);
                assert(!(1 < u.len() && u[1] == AFFIX));
                let out2 = out.push(LexItemModel::Normal(w));
                lemma_decode_body_shift(u, words, 1, Seq::empty(), out2);
                assert(u.skip(1) =~= tail3);
                lemma_decode_encode_body(words, items.drop_first(), tail, out2);
                assert(out2 + items.drop_first() =~= out + items);
            },
            LexItemModel::Affixed(ws) => {
                lemma_decode_affix_run(words, ws, tail3, Seq::empty(), out);
                let seg = encode_affixed(words, ws)->Ok_0;
                let body = seg + bodyrest;
                let u = body + tail;
                assert(u =~= seg + tail3);
                assert(Seq::<Seq<char>>::empty() + ws =~= ws);
                let out2 = out.push(LexItemModel::Affixed(ws));
                lemma_decode_encode_body(words, items.drop_first(), tail, out2);
                assert(out2 + items.drop_first() =~= out + items);
            },
        }
    }
}

/// Round trip: strictly encoding a structured sequence and strictly
/// decoding the result gives back exactly the sequence, for any sequence
/// whose words are registered and are not the join marker itself, with
/// affixed groups of at least two morphemes.
pub proof fn lemma_round_trip(words: Seq<Seq<char>>, items: Seq<LexItemModel>)
    requires
        words.len() <= usize::MAX,
        encodable_seq(words, items),
    ensures
        spec_encode(words, items) matches Ok(enc) && spec_decode(enc, words) == Ok::<
            Seq<LexItemModel>,
            CodecError,
        >(items),
{
    lemma_encode_body_ok(words, items);
    let body = encode_body(words, items)->Ok_0;
    let enc = seq![SOS] + body + seq![EOS];
    assert(enc[0] == SOS);
    assert(enc.last() == EOS);
    assert(enc.len() >= 2);
    assert(trim_pads(enc) == enc);
    assert(enc.subrange(1, enc.len() - 1) =~= body + Seq::<usize>::empty());
    lemma_decode_encode_body(words, items, Seq::empty(), Seq::empty());
    assert(decode_body(Seq::empty(), words, 0, Seq::empty(), Seq::empty() + items) == Ok::<
        Seq<LexItemModel>,
        CodecError,
    >(Seq::empty() + items));
    assert(Seq::<LexItemModel>::empty() + items =~= items);
}

/// The lenient word for one id: the registered word, or the out-of-vocabulary
/// marker when the id is unassigned.
pub open spec fn detok_word(words: Seq<Seq<char>>, id: usize) -> Seq<char> {
    if id < words.len() {
        words[id as int]
    } else {
        "[OOV]"@
    }
}

/// Lenient decoder: maps every id to its word, unknown ids to the
/// out-of-vocabulary marker, and never fails.
pub fn detokenize(vocab: &TokenMap, s: &Vec<usize>) -> (r: Vec<String>)
    ensures
        r.deep_view().len() == s@.len(),
        forall|k: int| 0 <= k < s@.len() ==> r.deep_view()[k] == detok_word(vocab@, s@[k]),
{
    let mut r: Vec<String> = Vec::new();
    let mut i: usize = 0;
    while i < s.len()
        invariant
            i <= s@.len(),
            r.deep_view().len() == i,
            forall|k: int| 0 <= k < i ==> r.deep_view()[k] == detok_word(vocab@, s@[k]),
        decreases s@.len() - i,
    {
        let ghost r0 = r.deep_view();
        match vocab.word_of(s[i]) {
            Some(w) => {
                r.push(w);
            },
            None => {
                r.push(String::from_str("[OOV]"));
            },
        }
        proof {
            assert(r.deep_view() =~= r0.push(r@[i as int]@));
        }
        i = i + 1;
    }
    r
}

/// A word with an id above the reserved control range: the words actual
/// lexical content is made of.
pub open spec fn content_word(words: Seq<Seq<char>>, w: Seq<char>) -> bool {
    match word_id(words, w) {
        Some(id) => id >= 4,
        None => false,
    }
}

/// An item made of content words, an affixed group holding at least two
/// morphemes.
pub open spec fn content_item(words: Seq<Seq<char>>, it: LexItemModel) -> bool {
    match it {
        LexItemModel::Normal(w) => content_word(words, w),
        LexItemModel::Affixed(ws) => ws.len() >= 2 && forall|k: int|
            0 <= k < ws.len() ==> content_word(words, ws[k]),
    }
}

/// A structured sequence made of content words.
pub open spec fn content_seq(words: Seq<Seq<char>>, items: Seq<LexItemModel>) -> bool {
    forall|n: int| 0 <= n < items.len() ==> content_item(words, #[trigger] items[n])
}

/// A well-formed body region: every token is a content-word id or the join
/// marker, and every join marker stands strictly between two such ids.
pub open spec fn body_wf(b: Seq<usize>) -> bool {
    &&& forall|m: int| 0 <= m < b.len() ==> ((#[trigger] b[m]) == AFFIX || b[m] >= 4)
    &&& forall|m: int|
        0 <= m < b.len() && (#[trigger] b[m]) == AFFIX ==> 1 <= m < b.len() - 1 && b[m - 1]
            != AFFIX && b[m + 1] != AFFIX
}

/// The interleaved form of an affixed group of content words alternates
/// word ids and join markers, starting and ending on a word id.
proof fn lemma_encode_affixed_shape(words: Seq<Seq<char>>, ws: Seq<Seq<char>>)
    requires
        words.len() <= usize::MAX,
        ws.len() >= 1,
        forall|k: int| 0 <= k < ws.len() ==> content_word(words, #[trigger] ws[k]),
    ensures
        encode_affixed(words, ws) matches Ok(seg) && seg.len() == 2 * ws.len() - 1 && (forall|
            m: int,
        |
            0 <= m < seg.len() ==> (if m % 2 == 0 {
                (#[trigger] seg[m]) >= 4
            } else {
                seg[m] == AFFIX
            })),
    decreases ws.len(),
{
    lemma_word_id_props(words, ws[0]);
    if ws.len() > 1 {
        assert(forall|k: int|
            0 <= k < ws.drop_first().len() ==> content_word(words, #[trigger] ws.drop_first()[k]));
        lemma_encode_affixed_shape(words, ws.drop_first());
        let id = word_id(words, ws[0])->Some_0;
        let segrest = encode_affixed(words, ws.drop_first())->Ok_0;
        let seg = seq![id as usize, AFFIX] + segrest;
        assert forall|m: int| 0 <= m < seg.len() implies (if m % 2 == 0 {
            (#[trigger] seg[m]) >= 4
        } else {
            seg[m] == AFFIX
        }) by {
            if m >= 2 {
                assert(seg[m] == segrest[m - 2]);
                assert(if (m - 2) % 2 == 0 {
                    segrest[m - 2] >= 4
                } else {
                    segrest[m - 2] == AFFIX
                });
            }
        }
    }
}

/// A well-formed body followed by a well-formed body is well-formed: join
/// markers never touch a junction, both bodies keeping theirs interior.
proof fn lemma_body_wf_concat(a: Seq<usize>, b: Seq<usize>)
    requires
        body_wf(a),
        body_wf(b),
    ensures
        body_wf(a + b),
{
    let c = a + b;
    assert forall|m: int| 0 <= m < c.len() implies ((#[trigger] c[m]) == AFFIX || c[m] >= 4) by {
        if m < a.len() {
            assert(c[m] == a[m]);
        } else {
            assert(c[m] == b[m - a.len()]);
        }
    }
    assert forall|m: int| 0 <= m < c.len() && (#[trigger] c[m]) == AFFIX implies 1 <= m < c.len()
        - 1 && c[m - 1] != AFFIX && c[m + 1] != AFFIX by {
        if m < a.len() {
            assert(c[m] == a[m]);
            assert(1 <= m < a.len() - 1);
            assert(c[m - 1] == a[m - 1] && c[m + 1] == a[m + 1]);
        } else {
            let r = m - a.len();
            assert(c[m] == b[r]);
            assert(1 <= r < b.len() - 1);
            assert(c[m - 1] == b[r - 1] && c[m + 1] == b[r + 1]);
        }
    }
}

/// The body of a content sequence is well-formed.
proof fn lemma_encode_body_wf(words: Seq<Seq<char>>, items: Seq<LexItemModel>)
    requires
        words.len() <= usize::MAX,
        content_seq(words, items),
    ensures
        encode_body(words, items) matches Ok(body) && body_wf(body),
    decreases items.len(),
{
    if items.len() > 0 {
        assert(content_item(words, items[0]));
        assert(forall|n: int|
            0 <= n < items.drop_first().len() ==> content_item(
                words,
                #[trigger] items.drop_first()[n],
            ));
        lemma_encode_body_wf(words, items.drop_first());
        let bodyrest = encode_body(words, items.drop_first())->Ok_0;
        match items[0] {
            LexItemModel::Normal(w) => {
                lemma_word_id_props(words, w);
                let id = word_id(words, w)->Some_0;
                assert(body_wf(seq![id as usize])) by {
                    assert(seq![id as usize][0] == id as usize);
                }
                lemma_body_wf_concat(seq![id as usize], bodyrest);
            },
            LexItemModel::Affixed(ws) => {
                lemma_encode_affixed_shape(words, ws);
                let seg = encode_affixed(words, ws)->Ok_0;
                assert(body_wf(seg)) by {
                    assert forall|m: int| 0 <= m < seg.len() && (#[trigger] seg[m])
                        == AFFIX implies 1 <= m < seg.len() - 1 && seg[m - 1] != AFFIX && seg[m + 1]
                        != AFFIX by {
                        assert(m % 2 == 1);
                        assert((m - 1) % 2 == 0 && (m + 1) % 2 == 0);
                        assert(seg[m - 1] >= 4 && seg[m + 1] >= 4);
                    }
                }
                lemma_body_wf_concat(seg, bodyrest);
            },
        }
    }
}

/// The structural invariants of an encoded sequence: the start marker
/// exactly at the front, the single end marker exactly at the back, no
/// padding anywhere, and every join marker strictly inside the body with a
/// word id on either side — so none at positions `0` or `1`, none repeated,
/// and none left unmatched at the end.
pub proof fn lemma_encoding_invariants(words: Seq<Seq<char>>, items: Seq<LexItemModel>)
    requires
        words.len() <= usize::MAX,
        content_seq(words, items),
    ensures
        spec_encode(words, items) matches Ok(enc) && {
            &&& enc.len() >= 2
            &&& enc[0] == SOS
            &&& enc.last() == EOS
            &&& forall|m: int| 1 <= m < enc.len() ==> (#[trigger] enc[m]) != SOS
            &&& forall|m: int| 0 <= m < enc.len() ==> (#[trigger] enc[m]) != PAD
            &&& forall|m: int| 0 <= m < enc.len() - 1 ==> (#[trigger] enc[m]) != EOS
            &&& forall|m: int|
                0 <= m < enc.len() && (#[trigger] enc[m]) == AFFIX ==> 2 <= m < enc.len() - 2
                    && enc[m - 1] != AFFIX && enc[m + 1] != AFFIX
        },
{
    lemma_encode_body_wf(words, items);
    let body = encode_body(words, items)->Ok_0;
    let enc = seq![SOS] + body + seq![EOS];
    assert(enc[0] == SOS && enc.last() == EOS);
    assert forall|m: int| 1 <= m < enc.len() implies (#[trigger] enc[m]) != SOS by {
        if m < enc.len() - 1 {
            assert(enc[m] == body[m - 1]);
        }
    }
    assert forall|m: int| 0 <= m < enc.len() implies (#[trigger] enc[m]) != PAD by {
        if 1 <= m < enc.len() - 1 {
            assert(enc[m] == body[m - 1]);
        }
    }
    assert forall|m: int| 0 <= m < enc.len() - 1 implies (#[trigger] enc[m]) != EOS by {
        if 1 <= m {
            assert(enc[m] == body[m - 1]);
        }
    }
    assert forall|m: int| 0 <= m < enc.len() && (#[trigger] enc[m]) == AFFIX implies 2 <= m
        < enc.len() - 2 && enc[m - 1] != AFFIX && enc[m + 1] != AFFIX by {
        assert(1 <= m < enc.len() - 1);
        assert(enc[m] == body[m - 1]);
        assert(1 <= m - 1 < body.len() - 1);
        assert(enc[m - 1] == body[m - 2] && enc[m + 1] == body[m]);
    }
}

/// The characters the blank test recognizes: the same set Rust's `trim`
/// strips, the Unicode white-space characters.
pub open spec fn whitespace_char(c: char) -> bool {
    ||| c == ' '
    ||| c == '\t'
    ||| c == '\n'
    ||| c == '\u{b}'
    ||| c == '\u{c}'
    ||| c == '\r'
    ||| c == '\u{85}'
    ||| c == '\u{a0}'
    ||| c == '\u{1680}'
    ||| c == '\u{2000}'
    ||| c == '\u{2001}'
    ||| c == '\u{2002}'
    ||| c == '\u{2003}'
    ||| c == '\u{2004}'
    ||| c == '\u{2005}'
    ||| c == '\u{2006}'
    ||| c == '\u{2007}'
    ||| c == '\u{2008}'
    ||| c == '\u{2009}'
    ||| c == '\u{200a}'
    ||| c == '\u{2028}'
    ||| c == '\u{2029}'
    ||| c == '\u{202f}'
    ||| c == '\u{205f}'
    ||| c == '\u{3000}'
}

/// A string of nothing but white space (or nothing at all).
pub open spec fn blank(s: Seq<char>) -> bool {
    forall|m: int| 0 <= m < s.len() ==> whitespace_char(#[trigger] s[m])
}

/// The pieces of `s` between occurrences of the separator `c`: empty
/// pieces kept, and one (possibly empty) piece even for an empty string.
pub open spec fn split_char(s: Seq<char>, c: char) -> Seq<Seq<char>>
    decreases s.len(),
{
    if s.len() == 0 {
        seq![s]
    } else if s[0] == c {
        seq![Seq::<char>::empty()] + split_char(s.drop_first(), c)
    } else {
        let rest = split_char(s.drop_first(), c);
        seq![seq![s[0]] + rest[0]] + rest.drop_first()
    }
}

/// Splitting never yields an empty piece list.
proof fn lemma_split_char_nonempty(s: Seq<char>, c: char)
    ensures
        split_char(s, c).len() >= 1,
    decreases s.len(),
{
    if s.len() > 0 && s[0] != c {
        lemma_split_char_nonempty(s.drop_first(), c);
    }
}

/// Splitting at the first separator: with no separator among the first `k`
/// characters, the split is the first `k` characters followed by the split
/// of what comes after the separator at `k` — or just the whole string
/// when no separator occurs at all.
proof fn lemma_split_at_sep(s: Seq<char>, c: char, k: int)
    requires
        0 <= k <= s.len(),
        forall|m: int| 0 <= m < k ==> s[m] != c,
        k < s.len() ==> s[k] == c,
    ensures
        k == s.len() ==> split_char(s, c) == seq![s],
        k < s.len() ==> split_char(s, c) == seq![s.take(k)] + split_char(
            s.skip(k + 1),
            c,
        ),
    decreases k,
{
    if k == 0 {
        if s.len() > 0 {
            assert(s.take(0) =~= Seq::<char>::empty());
            assert(s.skip(1) =~= s.drop_first());
        }
    } else {
        assert(s[0] != c);
        let d = s.drop_first();
        assert(forall|m: int| 0 <= m < k - 1 ==> #[trigger] d[m] == s[m + 1]);
        lemma_split_at_sep(d, c, k - 1);
        let rest = split_char(d, c);
        lemma_split_char_nonempty(d, c);
        if k == s.len() {
            assert(rest == seq![d]);
            assert(seq![s[0]] + rest[0] =~= s);
            assert(rest.drop_first() =~= Seq::<Seq<char>>::empty());
            assert(seq![seq![s[0]] + rest[0]] + rest.drop_first() =~= seq![s]);
        } else {
            assert(rest == seq![d.take(k - 1)] + split_char(d.skip(k as int), c));
            assert(d.skip(k as int) =~= s.skip(k + 1));
            assert(rest[0] == d.take(k - 1));
            assert(seq![s[0]] + rest[0] =~= s.take(k));
            assert(rest.drop_first() =~= split_char(s.skip(k + 1), c));
            assert(seq![seq![s[0]] + rest[0]] + rest.drop_first() =~= seq![s.take(k)]
                + split_char(s.skip(k + 1), c));
        }
    }
}

/// Whether `c` is one of the white-space characters `trim` strips.
fn is_whitespace_char(c: char) -> (r: bool)
    ensures
        r == whitespace_char(c),
{
    c == ' ' || c == '\t' || c == '\n' || c == '\u{b}' || c == '\u{c}' || c == '\r' || c == '\u{85}'
        || c == '\u{a0}' || c == '\u{1680}' || c == '\u{2000}' || c == '\u{2001}' || c == '\u{2002}'
        || c == '\u{2003}' || c == '\u{2004}' || c == '\u{2005}' || c == '\u{2006}' || c
        == '\u{2007}' || c == '\u{2008}' || c == '\u{2009}' || c == '\u{200a}' || c == '\u{2028}'
        || c == '\u{2029}' || c == '\u{202f}' || c == '\u{205f}' || c == '\u{3000}'
}

/// Splits `s` at every occurrence of `sep`, keeping empty pieces.
#[verifier::loop_isolation(false)]
fn split_on(s: &str, sep: char) -> (r: Vec<String>)
    ensures
        r.deep_view() == split_char(s@, sep),
{
    let n = s.unicode_len();
    let mut r: Vec<String> = Vec::new();
    let mut seg_start: usize = 0;
    let mut i: usize = 0;
    proof {
        assert(s@.skip(0) =~= s@);
        assert(r.deep_view() =~= Seq::<Seq<char>>::empty());
        assert(Seq::<Seq<char>>::empty() + split_char(s@, sep) =~= split_char(s@, sep));
    }
    while i < n
        invariant
            seg_start <= i <= n,
            n == s@.len(),
            forall|m: int| seg_start <= m < i ==> s@[m] != sep,
            split_char(s@, sep) == r.deep_view() + split_char(s@.skip(seg_start as int), sep),
        decreases n - i,
    {
        if s.get_char(i) == sep {
            let ghost r0 = r.deep_view();
            let piece = s.substring_char(seg_start, i).to_owned();
            r.push(piece);
            proof {
                assert(forall|m: int|
                    0 <= m < i - seg_start ==> #[trigger] s@.skip(seg_start as int)[m] == s@[m
                        + seg_start]);
                lemma_split_at_sep(s@.skip(seg_start as int), sep, i - seg_start);
                assert(s@.skip(seg_start as int).take(i - seg_start) =~= s@.subrange(
                    seg_start as int,
                    i as int,
                ));
                assert(s@.skip(seg_start as int).skip(i - seg_start + 1) =~= s@.skip(i + 1));
                assert(r.deep_view() =~= r0.push(s@.subrange(seg_start as int, i as int)));
                assert((r0 + (seq![s@.subrange(seg_start as int, i as int)] + split_char(
                    s@.skip(i + 1),
                    sep,
                ))) =~= r.deep_view() + split_char(s@.skip(i + 1), sep));
            }
            seg_start = i + 1;
        }
        i = i + 1;
    }
    let ghost r0 = r.deep_view();
    let piece = s.substring_char(seg_start, n).to_owned();
    r.push(piece);
    proof {
        assert(forall|m: int|
            0 <= m < n - seg_start ==> #[trigger] s@.skip(seg_start as int)[m] == s@[m
                + seg_start]);
        lemma_split_at_sep(s@.skip(seg_start as int), sep, n - seg_start);
        assert(s@.skip(seg_start as int) =~= s@.subrange(seg_start as int, n as int));
        assert(r.deep_view() =~= r0.push(s@.subrange(seg_start as int, n as int)));
        assert(r0 + seq![s@.skip(seg_start as int)] =~= r.deep_view());
        assert(split_char(s@, sep) =~= r.deep_view());
    }
    r
}

/// The item one space-separated piece stands for: hyphens join the
/// morphemes of one affixed word.
pub open spec fn piece_item(piece: Seq<char>) -> LexItemModel {
    let parts = split_char(piece, '-');
    if parts.len() == 1 {
        LexItemModel::Normal(parts[0])
    } else {
        LexItemModel::Affixed(parts)
    }
}

/// What parsing a surface string yields: nothing for a blank string, else
/// one item per space-separated piece.
pub open spec fn spec_map_string(s: Seq<char>) -> Seq<LexItemModel> {
    if blank(s) {
        Seq::empty()
    } else {
        split_char(s, ' ').map_values(|piece: Seq<char>| piece_item(piece))
    }
}

/// Parses a surface string into structured items: words separated by
/// spaces, the morphemes of an affixed word joined by hyphens.  A blank
/// string holds no items at all.
#[verifier::loop_isolation(false)]
pub fn map_string(s: &str) -> (r: Vec<LexicalItem>)
    ensures
        r.deep_view() == spec_map_string(s@),
{
    let n = s.unicode_len();
    let mut i: usize = 0;
    let mut all_blank = true;
    while i < n
        invariant
            i <= n,
            n == s@.len(),
            all_blank == (forall|m: int| 0 <= m < i ==> whitespace_char(#[trigger] s@[m])),
        decreases n - i,
    {
        if !is_whitespace_char(s.get_char(i)) {
            all_blank = false;
        }
        i = i + 1;
    }
    if all_blank {
        let r: Vec<LexicalItem> = Vec::new();
        proof {
            assert(r.deep_view() =~= spec_map_string(s@));
        }
        return r;
    }
    let pieces = split_on(s, ' ');
    let mut r: Vec<LexicalItem> = Vec::new();
    let mut q: usize = 0;
    while q < pieces.len()
        invariant
            q <= pieces@.len(),
            pieces.deep_view().len() == pieces@.len(),
            r.deep_view().len() == q,
            forall|m: int|
                0 <= m < q ==> r.deep_view()[m] == piece_item(#[trigger] pieces.deep_view()[m]),
        decreases pieces@.len() - q,
    {
        let ghost r0 = r.deep_view();
        let mut parts = split_on(pieces[q].as_str(), '-');
        proof {
            assert(pieces@[q as int]@ == pieces.deep_view()[q as int]);
        }
        if parts.len() == 1 {
            let w = match parts.pop() {
                Some(w) => w,
                None => {
                    proof {
                        assert(false);
                    }
                    String::new()
                },
            };
            proof {
                assert(w@ == split_char(pieces.deep_view()[q as int], '-')[0]);
            }
            r.push(LexicalItem::Normal(w));
            proof {
                assert(r.deep_view() =~= r0.push(
                    LexItemModel::Normal(split_char(pieces.deep_view()[q as int], '-')[0]),
                ));
            }
        } else {
            let ghost partsd = parts.deep_view();
            r.push(LexicalItem::Affixed(parts));
            proof {
                assert(r.deep_view() =~= r0.push(LexItemModel::Affixed(partsd)));
            }
        }
        q = q + 1;
    }
    proof {
        assert(!blank(s@));
        assert(r.deep_view() =~= split_char(s@, ' ').map_values(
            |piece: Seq<char>| piece_item(piece),
        ));
    }
    r
}

/// The pieces joined by the separator: the inverse shape of `split_char`.
pub open spec fn join_chars(parts: Seq<Seq<char>>, sep: Seq<char>) -> Seq<char>
    decreases parts.len(),
{
    if parts.len() == 0 {
        Seq::empty()
    } else if parts.len() == 1 {
        parts[0]
    } else {
        parts[0] + sep + join_chars(parts.drop_first(), sep)
    }
}

/// Joining one more piece appends a separator and the piece.
proof fn lemma_join_chars_snoc(parts: Seq<Seq<char>>, sep: Seq<char>, x: Seq<char>)
    ensures
        parts.len() == 0 ==> join_chars(parts.push(x), sep) == x,
        parts.len() > 0 ==> join_chars(parts.push(x), sep) == join_chars(parts, sep) + sep + x,
    decreases parts.len(),
{
    if parts.len() == 0 {
        assert(join_chars(parts.push(x), sep) == parts.push(x)[0]);
    } else if parts.len() == 1 {
        assert(parts.push(x).drop_first() =~= parts.drop_first().push(x));
        assert(parts.drop_first().push(x) =~= seq![x]);
        assert(join_chars(seq![x], sep) == x);
    } else {
        assert(parts.push(x).drop_first() =~= parts.drop_first().push(x));
        lemma_join_chars_snoc(parts.drop_first(), sep, x);
        assert(parts.push(x)[0] == parts[0]);
        assert(parts[0] + sep + (join_chars(parts.drop_first(), sep) + sep + x) =~= (parts[0] + sep
            + join_chars(parts.drop_first(), sep)) + sep + x);
    }
}

/// Joins the pieces with the separator.
#[verifier::loop_isolation(false)]
fn join_with(parts: &Vec<String>, sep: &str) -> (r: String)
    ensures
        r@ == join_chars(parts.deep_view(), sep@),
{
    let mut r = String::new();
    let mut i: usize = 0;
    proof {
        assert(parts.deep_view().take(0) =~= Seq::<Seq<char>>::empty());
    }
    while i < parts.len()
        invariant
            i <= parts@.len(),
            r@ == join_chars(parts.deep_view().take(i as int), sep@),
        decreases parts@.len() - i,
    {
        if i > 0 {
            r.append(sep);
        }
        r.append(parts[i].as_str());
        proof {
            assert(parts.deep_view().take(i + 1) =~= parts.deep_view().take(i as int).push(
                parts.deep_view()[i as int],
            ));
            lemma_join_chars_snoc(
                parts.deep_view().take(i as int),
                sep@,
                parts.deep_view()[i as int],
            );
        }
        i = i + 1;
    }
    proof {
        assert(parts.deep_view().take(parts@.len() as int) =~= parts.deep_view());
    }
    r
}

/// The surface form of one item: the word itself, or the morphemes joined
/// by hyphens.
pub open spec fn item_surface(it: LexItemModel) -> Seq<char> {
    match it {
        LexItemModel::Normal(w) => w,
        LexItemModel::Affixed(ws) => join_chars(ws, "-"@),
    }
}

/// The surface form of a structured sequence: item surfaces joined by
/// single spaces.
pub open spec fn spec_surface(items: Seq<LexItemModel>) -> Seq<char> {
    join_chars(items.map_values(|it: LexItemModel| item_surface(it)), " "@)
}

/// Renders a structured sequence back to a surface string: words separated
/// by spaces, the morphemes of an affixed word joined by hyphens.
#[verifier::loop_isolation(false)]
pub fn surface_string(items: &Vec<LexicalItem>) -> (r: String)
    ensures
        r@ == spec_surface(items.deep_view()),
{
    let mut parts: Vec<String> = Vec::new();
    let mut i: usize = 0;
    proof {
        assert(parts.deep_view() =~= Seq::<Seq<char>>::empty());
    }
    while i < items.len()
        invariant
            i <= items@.len(),
            parts.deep_view() =~= items.deep_view().take(i as int).map_values(
                (|it: LexItemModel| item_surface(it)),
            ),
        decreases items@.len() - i,
    {
        let ghost parts0 = parts.deep_view();
        match &items[i] {
            LexicalItem::Normal(w) => {
                parts.push(w.clone());
            },
            LexicalItem::Affixed(ws) => {
                parts.push(join_with(ws, "-"));
            },
        }
        proof {
            assert(parts.deep_view() =~= parts0.push(item_surface(items.deep_view()[i as int])));
            assert(parts.deep_view() =~= items.deep_view().take(i + 1).map_values(
                (|it: LexItemModel| item_surface(it)),
            ));
        }
        i = i + 1;
    }
    proof {
        assert(items.deep_view().take(items@.len() as int) =~= items.deep_view());
    }
    join_with(&parts, " ")
}

/// The surface form of one continuation: the word, the hyphen-joined
/// morphemes, or the end marker's own surface form.
pub open spec fn cont_surface(c: ContModel) -> Seq<char> {
    match c {
        ContModel::Word(w) => w,
        ContModel::AffixedWord(ws) => join_chars(ws, "-"@),
        ContModel::EndOfSentence => "[EOS]"@,
    }
}

/// Renders one continuation to its surface form.
pub fn continuation_surface(c: &Continuation) -> (r: String)
    ensures
        r@ == cont_surface(c.deep_view()),
{
    match c {
        Continuation::Word(w) => w.clone(),
        Continuation::AffixedWord(ws) => join_with(ws, "-"),
        Continuation::EndOfSentence => String::from_str("[EOS]"),
    }
}

/// Lenient decoding of a whole batch, row by row.
pub fn detokenize_batch(vocab: &TokenMap, batch: &Vec<Vec<usize>>) -> (r: Vec<Vec<String>>)
    ensures
        r@.len() == batch@.len(),
        forall|b: int| #![auto] 0 <= b < batch@.len() ==> {
            &&& r@[b].deep_view().len() == batch@[b]@.len()
            &&& forall|k: int|
                0 <= k < batch@[b]@.len() ==> r@[b].deep_view()[k] == detok_word(
                    vocab@,
                    batch@[b]@[k],
                )
        },
{
    let mut r: Vec<Vec<String>> = Vec::new();
    let mut b: usize = 0;
    while b < batch.len()
        invariant
            b <= batch@.len(),
            r@.len() == b,
            forall|q: int| #![auto] 0 <= q < b ==> {
                &&& r@[q].deep_view().len() == batch@[q]@.len()
                &&& forall|k: int|
                    0 <= k < batch@[q]@.len() ==> r@[q].deep_view()[k] == detok_word(
                        vocab@,
                        batch@[q]@[k],
                    )
            },
        decreases batch@.len() - b,
    {
        let decoded = detokenize(vocab, &batch[b]);
        r.push(decoded);
        b = b + 1;
    }
    r
}

} // verus!

