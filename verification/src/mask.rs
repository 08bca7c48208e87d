//! The continuation-mask engine: projecting the grammar oracle's answers,
//! position by position, onto a boolean legality tensor over the vocabulary.

use vstd::prelude::*;

use vstd::arithmetic::div_mod::{lemma_fundamental_div_mod, lemma_mod_bound};

use crate::items::{ContModel, Continuation, LexicalItem, LexItemModel};
use crate::scan::{plan_matches, queried, queried_prefix, row_query_plan, scan_state, lemma_stopped_stays, ScanState};
use crate::vocab::{lemma_word_id_unique, word_id, TokenMap};
use crate::{AFFIX, EOS, SOS};

verus! {

/// Whole-call failures of the mask engine.  Structural anomalies inside a
/// row never raise these: they silently truncate that row instead.
#[derive(Debug, Clone, PartialEq, Eq)]
pub enum MaskError {
    /// The input tensor's shape has no dimensions at all.
    EmptyShape,
    /// The leading dimensions multiply to zero rows.
    ZeroSizedBatch,
    /// The grammar oracle failed; the message wraps the underlying failure.
    OracleError(String),
}

/// The product of a sequence of tensor dimensions.
pub open spec fn dims_product(dims: Seq<usize>) -> int
    decreases dims.len(),
{
    if dims.len() == 0 {
        1
    } else {
        dims[0] * dims_product(dims.drop_first())
    }
}

/// Appending a dimension multiplies the product by it.
proof fn lemma_dims_product_snoc(dims: Seq<usize>, x: usize)
    ensures
        dims_product(dims.push(x)) == dims_product(dims) * x,
    decreases dims.len(),
{
    if dims.len() == 0 {
        assert(dims.push(x).drop_first() =~= Seq::<usize>::empty());
        assert(dims.push(x)[0] == x);
        assert(dims_product(dims.push(x)) == x * dims_product(Seq::<usize>::empty()));
    } else {
        assert(dims.push(x).drop_first() =~= dims.drop_first().push(x));
        lemma_dims_product_snoc(dims.drop_first(), x);
        assert(dims[0] * (dims_product(dims.drop_first()) * x) == (dims[0] * dims_product(
            dims.drop_first(),
        )) * x) by (nonlinear_arith);
    }
}

/// A product of dimensions is never negative.
proof fn lemma_dims_product_nonneg(dims: Seq<usize>)
    ensures
        dims_product(dims) >= 0,
    decreases dims.len(),
{
    if dims.len() > 0 {
        lemma_dims_product_nonneg(dims.drop_first());
        assert(dims[0] * dims_product(dims.drop_first()) >= 0) by (nonlinear_arith)
            requires
                dims[0] >= 0,
                dims_product(dims.drop_first()) >= 0,
        ;
    }
}

/// One cell of a row mask laid out row-major: position `p`, token `t`, with
/// `v` tokens per position.
pub open spec fn mask_cell(mask: Seq<bool>, v: int, p: int, t: int) -> bool {
    mask[p * v + t]
}

/// Cell indices are unique per (position, token) pair.
proof fn lemma_mask_idx_inj(v: int, p1: int, t1: int, p2: int, t2: int)
    requires
        v > 0,
        0 <= t1 < v,
        0 <= t2 < v,
        0 <= p1,
        0 <= p2,
        p1 * v + t1 == p2 * v + t2,
    ensures
        p1 == p2 && t1 == t2,
{
    assert(p1 == p2 && t1 == t2) by (nonlinear_arith)
        requires
            v > 0,
            0 <= t1 < v,
            0 <= t2 < v,
            0 <= p1,
            0 <= p2,
            p1 * v + t1 == p2 * v + t2,
    ;
}

/// A cell index is within a mask of `l` positions.
proof fn lemma_mask_idx_bound(v: int, l: int, p: int, t: int)
    requires
        0 <= t < v,
        0 <= p < l,
    ensures
        0 <= p * v + t < l * v,
{
    assert(0 <= p * v + t < l * v) by (nonlinear_arith)
        requires
            0 <= t < v,
            0 <= p < l,
    ;
}

/// The token at offset `k` of the interleaved id path an affixed
/// continuation predicts: word ids at even offsets, the join marker at odd
/// ones; `None` where the word at that offset has no id.
pub open spec fn affix_path_tok(words: Seq<Seq<char>>, ws: Seq<Seq<char>>, k: int) -> Option<int> {
    if k % 2 == 1 {
        Some(AFFIX as int)
    } else {
        word_id(words, ws[k / 2])
    }
}

/// The walk along the predicted path is still intact at offset `k`: every
/// path token up to `k` resolved, and the row's actual tokens so far kept
/// following the path (the token at `j + m + 1` being the path token `m`).
pub open spec fn affix_walk_ok(
    words: Seq<Seq<char>>,
    row: Seq<usize>,
    j: int,
    ws: Seq<Seq<char>>,
    k: int,
) -> bool {
    &&& forall|m: int| 0 <= m <= k ==> (#[trigger] affix_path_tok(words, ws, m)) is Some
    &&& forall|m: int|
        0 <= m < k ==> j + m + 1 < row.len() && #[trigger] affix_path_tok(words, ws, m) == Some(
            row[j + m + 1] as int,
        )
}

/// Whether one continuation, answered at position `j`, marks the cell
/// `(p, t)`: a word or the end marker mark only position `j` itself; an
/// affixed word marks its path's offsets for as long as the row's actual
/// tokens follow that path.
pub open spec fn cont_marks(
    words: Seq<Seq<char>>,
    row: Seq<usize>,
    j: int,
    c: ContModel,
    p: int,
    t: int,
) -> bool {
    match c {
        ContModel::Word(w) => p == j && word_id(words, w) == Some(t),
        ContModel::EndOfSentence => p == j && t == EOS as int,
        ContModel::AffixedWord(ws) => exists|k: int|
            #![trigger affix_path_tok(words, ws, k)]
            {
                &&& 0 <= k < 2 * ws.len() - 1
                &&& p == j + k
                &&& affix_walk_ok(words, row, j, ws, k)
                &&& affix_path_tok(words, ws, k) == Some(t)
            },
    }
}

/// The marks an affixed continuation has placed from offsets below `kmax`.
pub open spec fn affix_marks_below(
    words: Seq<Seq<char>>,
    row: Seq<usize>,
    j: int,
    ws: Seq<Seq<char>>,
    kmax: int,
    p: int,
    t: int,
) -> bool {
    exists|k: int|
        #![trigger affix_path_tok(words, ws, k)]
        {
            &&& 0 <= k < kmax
            &&& k < 2 * ws.len() - 1
            &&& p == j + k
            &&& affix_walk_ok(words, row, j, ws, k)
            &&& affix_path_tok(words, ws, k) == Some(t)
        }
}

/// Once every offset from `k` on is dead — its walk broken or its word
/// unresolved — the marks below `k` are all the marks there are.
proof fn lemma_marks_freeze(
    words: Seq<Seq<char>>,
    row: Seq<usize>,
    j: int,
    ws: Seq<Seq<char>>,
    k: int,
    p: int,
    t: int,
)
    requires
        0 <= k,
        forall|kk: int|
            k <= kk < 2 * ws.len() - 1 ==> !(#[trigger] affix_walk_ok(words, row, j, ws, kk))
                || affix_path_tok(words, ws, kk) is None,
    ensures
        cont_marks(words, row, j, ContModel::AffixedWord(ws), p, t) == affix_marks_below(
            words,
            row,
            j,
            ws,
            k,
            p,
            t,
        ),
{
    if cont_marks(words, row, j, ContModel::AffixedWord(ws), p, t) {
        let kk = choose|kk: int|
            #![trigger affix_path_tok(words, ws, kk)]
            {
                &&& 0 <= kk < 2 * ws.len() - 1
                &&& p == j + kk
                &&& affix_walk_ok(words, row, j, ws, kk)
                &&& affix_path_tok(words, ws, kk) == Some(t)
            };
        if kk >= k {
            assert(!affix_walk_ok(words, row, j, ws, kk) || affix_path_tok(words, ws, kk) is None);
            assert(false);
        }
        assert(affix_marks_below(words, row, j, ws, k, p, t));
    }
    if affix_marks_below(words, row, j, ws, k, p, t) {
        let kk = choose|kk: int|
            #![trigger affix_path_tok(words, ws, kk)]
            {
                &&& 0 <= kk < k
                &&& kk < 2 * ws.len() - 1
                &&& p == j + kk
                &&& affix_walk_ok(words, row, j, ws, kk)
                &&& affix_path_tok(words, ws, kk) == Some(t)
            };
        assert(cont_marks(words, row, j, ContModel::AffixedWord(ws), p, t));
    }
}

/// Projects one oracle answer onto the row's mask at query position `j`:
/// sets every cell the continuation marks, and touches nothing else.  A
/// continuation word with no id marks nothing from the point it fails to
/// resolve.
#[verifier::loop_isolation(false)]
pub fn apply_continuation(
    vocab: &TokenMap,
    row: &Vec<usize>,
    j: usize,
    cont: &Continuation,
    mask: &mut Vec<bool>,
)
    requires
        vocab.wf(),
        j < row@.len(),
        old(mask)@.len() == row@.len() * vocab@.len(),
        row@.len() * vocab@.len() <= usize::MAX,
    ensures
        final(mask)@.len() == old(mask)@.len(),
        forall|p: int, t: int|
            0 <= p < row@.len() && 0 <= t < vocab@.len() ==> #[trigger] mask_cell(
                final(mask)@,
                vocab@.len() as int,
                p,
                t,
            ) == (mask_cell(old(mask)@, vocab@.len() as int, p, t) || cont_marks(
                vocab@,
                row@,
                j as int,
                cont.deep_view(),
                p,
                t,
            )),
{
    let v = vocab.len();
    let l = row.len();
    let ghost vi: int = v as int;
    let ghost m0: Seq<bool> = mask@;
    let ghost contd: ContModel = cont.deep_view();
    match cont {
        Continuation::Word(w) => {
            match vocab.id_of(w.as_str()) {
                Some(id) => {
                    proof {
                        lemma_word_id_unique(vocab@, w@, id as int);
                        lemma_mask_idx_bound(vi, l as int, j as int, id as int);
                    }
                    mask.set(j * v + id, true);
                    proof {
                        assert forall|p: int, t: int| 0 <= p < l && 0 <= t < v implies #[trigger] mask_cell(
                            mask@,
                            vi,
                            p,
                            t,
                        ) == (mask_cell(m0, vi, p, t) || cont_marks(
                            vocab@,
                            row@,
                            j as int,
                            contd,
                            p,
                            t,
                        )) by {
                            lemma_mask_idx_bound(vi, l as int, p, t);
                            if p == j && t == id {
                                assert(mask_cell(mask@, vi, p, t));
                                assert(cont_marks(vocab@, row@, j as int, contd, p, t));
                            } else {
                                if p * vi + t == j * vi + id {
                                    lemma_mask_idx_inj(vi, p, t, j as int, id as int);
                                }
                                assert(mask_cell(mask@, vi, p, t) == mask_cell(m0, vi, p, t));
                                assert(!cont_marks(vocab@, row@, j as int, contd, p, t));
                            }
                        }
                    }
                },
                None => {
                    proof {
                        assert(word_id(vocab@, w@) is None);
                        assert(forall|p: int, t: int|
                            !cont_marks(vocab@, row@, j as int, contd, p, t));
                    }
                },
            }
        },
        Continuation::EndOfSentence => {
            proof {
                lemma_mask_idx_bound(vi, l as int, j as int, EOS as int);
            }
            mask.set(j * v + EOS, true);
            proof {
                assert forall|p: int, t: int| 0 <= p < l && 0 <= t < v implies #[trigger] mask_cell(
                    mask@,
                    vi,
                    p,
                    t,
                ) == (mask_cell(m0, vi, p, t) || cont_marks(
                    vocab@,
                    row@,
                    j as int,
                    contd,
                    p,
                    t,
                )) by {
                    lemma_mask_idx_bound(vi, l as int, p, t);
                    if p == j && t == EOS {
                        assert(mask_cell(mask@, vi, p, t));
                        assert(cont_marks(vocab@, row@, j as int, contd, p, t));
                    } else {
                        if p * vi + t == j * vi + EOS {
                            lemma_mask_idx_inj(vi, p, t, j as int, EOS as int);
                        }
                        assert(mask_cell(mask@, vi, p, t) == mask_cell(m0, vi, p, t));
                        assert(!cont_marks(vocab@, row@, j as int, contd, p, t));
                    }
                }
            }
        },
        Continuation::AffixedWord(ws) => {
            let ghost wsd: Seq<Seq<char>> = ws.deep_view();
            proof {
                assert(l < usize::MAX) by (nonlinear_arith)
                    requires
                        (l as int) * (v as int) <= usize::MAX as int,
                        v >= 4,
                ;
            }
            let nw = ws.len();
            let mut k: usize = 0;
            let mut prev: usize = 0;
            let mut go: bool = nw > 0;
            proof {
                assert(contd == ContModel::AffixedWord(wsd));
                if nw == 0 {
                    assert(forall|p: int, t: int|
                        !cont_marks(vocab@, row@, j as int, contd, p, t));
                }
            }
            while go
                invariant
                    go ==> nw > 0,
                    go ==> k < 2 * nw,
                    go ==> j + k <= l,
                    go && k > 0 ==> affix_walk_ok(vocab@, row@, j as int, wsd, k - 1)
                        && affix_path_tok(vocab@, wsd, k - 1) == Some(prev as int),
                    mask@.len() == m0.len(),
                    go ==> forall|p: int, t: int|
                        0 <= p < l && 0 <= t < v ==> #[trigger] mask_cell(mask@, vi, p, t) == (
                        mask_cell(m0, vi, p, t) || affix_marks_below(
                            vocab@,
                            row@,
                            j as int,
                            wsd,
                            k as int,
                            p,
                            t,
                        )),
                    !go ==> forall|p: int, t: int|
                        0 <= p < l && 0 <= t < v ==> #[trigger] mask_cell(mask@, vi, p, t) == (
                        mask_cell(m0, vi, p, t) || cont_marks(
                            vocab@,
                            row@,
                            j as int,
                            contd,
                            p,
                            t,
                        )),
                decreases 2 * nw - k + (if go {
                    1int
                } else {
                    0int
                }),
            {
                let tok: usize;
                if k % 2 == 1 {
                    if (k + 1) / 2 >= nw {
                        go = false;
                        proof {
                            assert(k as int == 2 * wsd.len() - 1);
                            assert forall|p: int, t: int| 0 <= p < l && 0 <= t < v implies #[trigger] mask_cell(
                                mask@,
                                vi,
                                p,
                                t,
                            ) == (mask_cell(m0, vi, p, t) || cont_marks(
                                vocab@,
                                row@,
                                j as int,
                                contd,
                                p,
                                t,
                            )) by {
                                lemma_marks_freeze(vocab@, row@, j as int, wsd, k as int, p, t);
                            }
                        }
                        continue;
                    }
                    tok = AFFIX;
                    proof {
                        assert(affix_path_tok(vocab@, wsd, k as int) == Some(AFFIX as int));
                    }
                } else {
                    let wi = k / 2;
                    proof {
                        assert(wi < nw);
                        assert(wsd[wi as int] == ws@[wi as int]@);
                    }
                    match vocab.id_of(ws[wi].as_str()) {
                        None => {
                            go = false;
                            proof {
                                assert(affix_path_tok(vocab@, wsd, k as int) is None);
                                assert forall|kk: int|
                                    k <= kk < 2 * wsd.len() - 1 implies !(#[trigger] affix_walk_ok(
                                    vocab@,
                                    row@,
                                    j as int,
                                    wsd,
                                    kk,
                                )) || affix_path_tok(vocab@, wsd, kk) is None by {
                                    if affix_walk_ok(vocab@, row@, j as int, wsd, kk) {
                                        assert(affix_path_tok(vocab@, wsd, k as int) is Some);
                                    }
                                }
                                assert forall|p: int, t: int| 0 <= p < l && 0 <= t < v implies #[trigger] mask_cell(
                                    mask@,
                                    vi,
                                    p,
                                    t,
                                ) == (mask_cell(m0, vi, p, t) || cont_marks(
                                    vocab@,
                                    row@,
                                    j as int,
                                    contd,
                                    p,
                                    t,
                                )) by {
                                    lemma_marks_freeze(vocab@, row@, j as int, wsd, k as int, p, t);
                                }
                            }
                            continue;
                        },
                        Some(id) => {
                            proof {
                                lemma_word_id_unique(vocab@, ws@[wi as int]@, id as int);
                                assert(affix_path_tok(vocab@, wsd, k as int) == Some(id as int));
                            }
                            tok = id;
                        },
                    }
                }
                // the walk must still be on the path to mark offset k
                if k > 0 {
                    if j + k >= l {
                        go = false;
                        proof {
                            assert forall|kk: int|
                                k <= kk < 2 * wsd.len() - 1 implies !(#[trigger] affix_walk_ok(
                                vocab@,
                                row@,
                                j as int,
                                wsd,
                                kk,
                            )) || affix_path_tok(vocab@, wsd, kk) is None by {
                                if affix_walk_ok(vocab@, row@, j as int, wsd, kk) {
                                    assert(affix_path_tok(vocab@, wsd, k - 1) == Some(
                                        row@[j + k] as int,
                                    ));
                                }
                            }
                            assert forall|p: int, t: int| 0 <= p < l && 0 <= t < v implies #[trigger] mask_cell(
                                mask@,
                                vi,
                                p,
                                t,
                            ) == (mask_cell(m0, vi, p, t) || cont_marks(
                                vocab@,
                                row@,
                                j as int,
                                contd,
                                p,
                                t,
                            )) by {
                                lemma_marks_freeze(vocab@, row@, j as int, wsd, k as int, p, t);
                            }
                        }
                        continue;
                    }
                    if row[j + k] != prev {
                        go = false;
                        proof {
                            assert forall|kk: int|
                                k <= kk < 2 * wsd.len() - 1 implies !(#[trigger] affix_walk_ok(
                                vocab@,
                                row@,
                                j as int,
                                wsd,
                                kk,
                            )) || affix_path_tok(vocab@, wsd, kk) is None by {
                                if affix_walk_ok(vocab@, row@, j as int, wsd, kk) {
                                    assert(affix_path_tok(vocab@, wsd, k - 1) == Some(
                                        row@[j + k] as int,
                                    ));
                                }
                            }
                            assert forall|p: int, t: int| 0 <= p < l && 0 <= t < v implies #[trigger] mask_cell(
                                mask@,
                                vi,
                                p,
                                t,
                            ) == (mask_cell(m0, vi, p, t) || cont_marks(
                                vocab@,
                                row@,
                                j as int,
                                contd,
                                p,
                                t,
                            )) by {
                                lemma_marks_freeze(vocab@, row@, j as int, wsd, k as int, p, t);
                            }
                        }
                        continue;
                    }
                }
                proof {
                    assert(affix_walk_ok(vocab@, row@, j as int, wsd, k as int));
                    assert((k as int) < 2 * wsd.len() - 1);
                    assert(tok < v);
                    lemma_mask_idx_bound(vi, l as int, j + k, tok as int);
                }
                let ghost mpre: Seq<bool> = mask@;
                mask.set((j + k) * v + tok, true);
                proof {
                    assert forall|p: int, t: int| 0 <= p < l && 0 <= t < v implies #[trigger] mask_cell(
                        mask@,
                        vi,
                        p,
                        t,
                    ) == (mask_cell(m0, vi, p, t) || affix_marks_below(
                        vocab@,
                        row@,
                        j as int,
                        wsd,
                        k + 1,
                        p,
                        t,
                    )) by {
                        lemma_mask_idx_bound(vi, l as int, p, t);
                        if p == j + k && t == tok {
                            assert(mask_cell(mask@, vi, p, t));
                            assert(affix_path_tok(vocab@, wsd, k as int) == Some(t));
                            assert(affix_marks_below(vocab@, row@, j as int, wsd, k + 1, p, t));
                        } else {
                            if p * vi + t == (j + k) * vi + tok {
                                lemma_mask_idx_inj(vi, p, t, j + k, tok as int);
                            }
                            assert(mask_cell(mask@, vi, p, t) == mask_cell(mpre, vi, p, t));
                            assert(affix_marks_below(vocab@, row@, j as int, wsd, k + 1, p, t)
                                == affix_marks_below(vocab@, row@, j as int, wsd, k as int, p, t))
                                by {
                                if affix_marks_below(vocab@, row@, j as int, wsd, k + 1, p, t) {
                                    let kk = choose|kk: int|
                                        #![trigger affix_path_tok(vocab@, wsd, kk)]
                                        {
                                            &&& 0 <= kk < k + 1
                                            &&& kk < 2 * wsd.len() - 1
                                            &&& p == j + kk
                                            &&& affix_walk_ok(vocab@, row@, j as int, wsd, kk)
                                            &&& affix_path_tok(vocab@, wsd, kk) == Some(t)
                                        };
                                    assert(kk != k);
                                    assert(affix_marks_below(
                                        vocab@,
                                        row@,
                                        j as int,
                                        wsd,
                                        k as int,
                                        p,
                                        t,
                                    ));
                                }
                            }
                        }
                    }
                }
                prev = tok;
                k = k + 1;
            }
        },
    }
}

/// The marks placed at cell `(p, t)` by the answers strictly before the
/// `i`-th continuation of position `jj`, in scan order.
pub open spec fn row_marks_upto(
    words: Seq<Seq<char>>,
    row: Seq<usize>,
    answers: Seq<Seq<ContModel>>,
    jj: int,
    i: int,
    p: int,
    t: int,
) -> bool {
    exists|a: int, b: int|
        #![trigger cont_marks(words, row, a, answers[a][b], p, t)]
        {
            &&& 0 <= a < answers.len()
            &&& 0 <= b < answers[a].len()
            &&& (a < jj || (a == jj && b < i))
            &&& cont_marks(words, row, a, answers[a][b], p, t)
        }
}

/// What the finished mask of one row holds at `(p, t)`: some continuation
/// of some position's answer marks that cell.
pub open spec fn row_mask_cell(
    words: Seq<Seq<char>>,
    row: Seq<usize>,
    answers: Seq<Seq<ContModel>>,
    p: int,
    t: int,
) -> bool {
    row_marks_upto(words, row, answers, answers.len() as int, 0, p, t)
}

/// Applying one more continuation extends the marks by exactly its own.
proof fn lemma_marks_upto_step(
    words: Seq<Seq<char>>,
    row: Seq<usize>,
    answers: Seq<Seq<ContModel>>,
    jj: int,
    i: int,
    p: int,
    t: int,
)
    requires
        0 <= jj < answers.len(),
        0 <= i < answers[jj].len(),
    ensures
        row_marks_upto(words, row, answers, jj, i + 1, p, t) == (row_marks_upto(
            words,
            row,
            answers,
            jj,
            i,
            p,
            t,
        ) || cont_marks(words, row, jj, answers[jj][i], p, t)),
{
    if row_marks_upto(words, row, answers, jj, i + 1, p, t) {
        let (a, b) = choose|a: int, b: int|
            #![trigger cont_marks(words, row, a, answers[a][b], p, t)]
            {
                &&& 0 <= a < answers.len()
                &&& 0 <= b < answers[a].len()
                &&& (a < jj || (a == jj && b < i + 1))
                &&& cont_marks(words, row, a, answers[a][b], p, t)
            };
        if a == jj && b == i {
        } else {
            assert(row_marks_upto(words, row, answers, jj, i, p, t));
        }
    }
    if row_marks_upto(words, row, answers, jj, i, p, t) {
        let (a, b) = choose|a: int, b: int|
            #![trigger cont_marks(words, row, a, answers[a][b], p, t)]
            {
                &&& 0 <= a < answers.len()
                &&& 0 <= b < answers[a].len()
                &&& (a < jj || (a == jj && b < i))
                &&& cont_marks(words, row, a, answers[a][b], p, t)
            };
        assert(row_marks_upto(words, row, answers, jj, i + 1, p, t));
    }
    if cont_marks(words, row, jj, answers[jj][i], p, t) {
        assert(row_marks_upto(words, row, answers, jj, i + 1, p, t));
    }
}

/// Finishing one position's answer is the same as standing at the start of
/// the next position's.
proof fn lemma_marks_upto_row_end(
    words: Seq<Seq<char>>,
    row: Seq<usize>,
    answers: Seq<Seq<ContModel>>,
    jj: int,
    p: int,
    t: int,
)
    requires
        0 <= jj < answers.len(),
    ensures
        row_marks_upto(words, row, answers, jj + 1, 0, p, t) == row_marks_upto(
            words,
            row,
            answers,
            jj,
            answers[jj].len() as int,
            p,
            t,
        ),
{
    if row_marks_upto(words, row, answers, jj + 1, 0, p, t) {
        let (a, b) = choose|a: int, b: int|
            #![trigger cont_marks(words, row, a, answers[a][b], p, t)]
            {
                &&& 0 <= a < answers.len()
                &&& 0 <= b < answers[a].len()
                &&& (a < jj + 1 || (a == jj + 1 && b < 0))
                &&& cont_marks(words, row, a, answers[a][b], p, t)
            };
        assert(row_marks_upto(words, row, answers, jj, answers[jj].len() as int, p, t));
    }
    if row_marks_upto(words, row, answers, jj, answers[jj].len() as int, p, t) {
        let (a, b) = choose|a: int, b: int|
            #![trigger cont_marks(words, row, a, answers[a][b], p, t)]
            {
                &&& 0 <= a < answers.len()
                &&& 0 <= b < answers[a].len()
                &&& (a < jj || (a == jj && b < answers[jj].len()))
                &&& cont_marks(words, row, a, answers[a][b], p, t)
            };
        assert(row_marks_upto(words, row, answers, jj + 1, 0, p, t));
    }
}

/// The mask of one row: for each position, the cells its answered
/// continuations mark, everything else `false`.  A row shorter than its
/// answer list is not accepted; positions past the answers keep their
/// default.
#[verifier::loop_isolation(false)]
pub fn row_mask_from_answers(
    vocab: &TokenMap,
    row: &Vec<usize>,
    answers: &Vec<Vec<Continuation>>,
) -> (mask: Vec<bool>)
    requires
        vocab.wf(),
        answers@.len() <= row@.len(),
        row@.len() * vocab@.len() <= usize::MAX,
    ensures
        mask@.len() == row@.len() * vocab@.len(),
        forall|p: int, t: int|
            0 <= p < row@.len() && 0 <= t < vocab@.len() ==> #[trigger] mask_cell(
                mask@,
                vocab@.len() as int,
                p,
                t,
            ) == row_mask_cell(vocab@, row@, answers.deep_view(), p, t),
{
    let v = vocab.len();
    let l = row.len();
    let ghost vi: int = v as int;
    let ghost ansd: Seq<Seq<ContModel>> = answers.deep_view();
    let total = l * v;
    let mut mask: Vec<bool> = Vec::new();
    while mask.len() < total
        invariant
            mask@.len() <= total,
            forall|q: int| 0 <= q < mask@.len() ==> !(#[trigger] mask@[q]),
        decreases total - mask@.len(),
    {
        mask.push(false);
    }
    proof {
        assert forall|p: int, t: int| 0 <= p < l && 0 <= t < v implies #[trigger] mask_cell(
            mask@,
            vi,
            p,
            t,
        ) == row_marks_upto(vocab@, row@, ansd, 0, 0, p, t) by {
            lemma_mask_idx_bound(vi, l as int, p, t);
            assert(!mask@[p * vi + t]);
            assert(!row_marks_upto(vocab@, row@, ansd, 0, 0, p, t));
        }
    }
    let mut jj: usize = 0;
    while jj < answers.len()
        invariant
            jj <= ansd.len(),
            ansd.len() == answers@.len(),
            mask@.len() == total,
            forall|p: int, t: int|
                0 <= p < l && 0 <= t < v ==> #[trigger] mask_cell(mask@, vi, p, t)
                    == row_marks_upto(vocab@, row@, ansd, jj as int, 0, p, t),
        decreases ansd.len() - jj,
    {
        proof {
            assert(ansd[jj as int] == answers@[jj as int].deep_view());
        }
        let mut i: usize = 0;
        while i < answers[jj].len()
            invariant
                0 <= jj < ansd.len(),
                i <= ansd[jj as int].len(),
                ansd[jj as int].len() == answers@[jj as int]@.len(),
                mask@.len() == total,
                forall|p: int, t: int|
                    0 <= p < l && 0 <= t < v ==> #[trigger] mask_cell(mask@, vi, p, t)
                        == row_marks_upto(vocab@, row@, ansd, jj as int, i as int, p, t),
            decreases ansd[jj as int].len() - i,
        {
            let ghost mbefore: Seq<bool> = mask@;
            proof {
                assert(ansd[jj as int][i as int] == answers@[jj as int]@[i as int].deep_view());
            }
            apply_continuation(vocab, row, jj, &answers[jj][i], &mut mask);
            proof {
                assert forall|p: int, t: int| 0 <= p < l && 0 <= t < v implies #[trigger] mask_cell(
                    mask@,
                    vi,
                    p,
                    t,
                ) == row_marks_upto(vocab@, row@, ansd, jj as int, i + 1, p, t) by {
                    lemma_marks_upto_step(vocab@, row@, ansd, jj as int, i as int, p, t);
                }
            }
            i = i + 1;
        }
        proof {
            assert forall|p: int, t: int| 0 <= p < l && 0 <= t < v implies #[trigger] mask_cell(
                mask@,
                vi,
                p,
                t,
            ) == row_marks_upto(vocab@, row@, ansd, jj + 1, 0, p, t) by {
                lemma_marks_upto_row_end(vocab@, row@, ansd, jj as int, p, t);
            }
        }
        jj = jj + 1;
    }
    mask
}

/// How many rows a tensor shape flattens to: the product of every
/// dimension but the last.
pub open spec fn batch_rows(shape: Seq<usize>) -> int {
    dims_product(shape.take(shape.len() - 1))
}

/// Row `r` of the flattened batch: `l` consecutive tokens of the data.
pub open spec fn row_seq(data: Seq<usize>, l: int, r: int) -> Seq<usize> {
    data.subrange(r * l, r * l + l)
}

/// One cell of the batched mask laid out row-major over (row, position,
/// token).
pub open spec fn batch_cell(mask: Seq<bool>, v: int, l: int, r: int, p: int, t: int) -> bool {
    mask[(r * l + p) * v + t]
}

/// Validates the shape and computes the flattened row count and row length.
#[verifier::loop_isolation(false)]
fn batch_layout(data: &Vec<usize>, shape: &Vec<usize>) -> (r: Result<(usize, usize), MaskError>)
    requires
        shape@.len() > 0 ==> dims_product(shape@) == data@.len(),
        shape@.len() > 0 ==> forall|k: int|
            0 <= k < shape@.len() ==> dims_product(#[trigger] shape@.take(k)) <= usize::MAX,
    ensures
        match r {
            Err(e) => (shape@.len() == 0 && e == MaskError::EmptyShape) || (shape@.len() > 0
                && batch_rows(shape@) == 0 && e == MaskError::ZeroSizedBatch),
            Ok((d, l)) => {
                &&& shape@.len() > 0
                &&& d == batch_rows(shape@)
                &&& d > 0
                &&& l == shape@.last()
                &&& d * l == data@.len()
            },
        },
{
    if shape.len() == 0 {
        return Err(MaskError::EmptyShape);
    }
    let n = shape.len();
    let l = shape[n - 1];
    let mut d: usize = 1;
    let mut k: usize = 0;
    proof {
        assert(shape@.take(0) =~= Seq::<usize>::empty());
    }
    while k < n - 1
        invariant
            k <= n - 1,
            d == dims_product(shape@.take(k as int)),
        decreases n - 1 - k,
    {
        proof {
            assert(shape@.take(k + 1) =~= shape@.take(k as int).push(shape@[k as int]));
            lemma_dims_product_snoc(shape@.take(k as int), shape@[k as int]);
            assert(dims_product(shape@.take(k + 1)) <= usize::MAX);
        }
        d = d * shape[k];
        k = k + 1;
    }
    proof {
        assert(d == batch_rows(shape@));
        assert(shape@.take(n - 1).push(shape@[n - 1]) =~= shape@);
        lemma_dims_product_snoc(shape@.take(n - 1), shape@[n - 1]);
        assert((d as int) * (l as int) == data@.len());
    }
    if d == 0 {
        return Err(MaskError::ZeroSizedBatch);
    }
    Ok((d, l))
}

/// Copies row `r` of the flattened batch out of the data.
#[verifier::loop_isolation(false)]
fn copy_row(data: &Vec<usize>, l: usize, d: usize, r: usize) -> (row: Vec<usize>)
    requires
        r < d,
        d * l == data@.len(),
    ensures
        row@.len() == l,
        row@ == row_seq(data@, l as int, r as int),
{
    let dn = data.len();
    proof {
        assert((r as int) * (l as int) + l <= (d as int) * (l as int)) by (nonlinear_arith)
            requires
                0 <= r < d,
                0 <= l,
        ;
        assert((r as int) * (l as int) + l <= dn);
    }
    let mut row: Vec<usize> = Vec::new();
    let base = r * l;
    let mut jj: usize = 0;
    while jj < l
        invariant
            jj <= l,
            row@.len() == jj,
            forall|q: int| 0 <= q < jj ==> row@[q] == data@[base + q],
        decreases l - jj,
    {
        row.push(data[base + jj]);
        jj = jj + 1;
    }
    proof {
        assert(row@ =~= row_seq(data@, l as int, r as int));
    }
    row
}

/// The query plans of a whole batch: the input tensor is flattened to rows,
/// and each row gets the plan of [`row_query_plan`].  Only the tensor's
/// shape can fail the call: a shape with no dimensions at all, or one whose
/// leading dimensions multiply to zero rows.
#[verifier::loop_isolation(false)]
pub fn continuation_queries(vocab: &TokenMap, data: &Vec<usize>, shape: &Vec<usize>) -> (r: Result<
    Vec<Vec<Vec<LexicalItem>>>,
    MaskError,
>)
    requires
        shape@.len() > 0 ==> dims_product(shape@) == data@.len(),
        shape@.len() > 0 ==> forall|k: int|
            0 <= k < shape@.len() ==> dims_product(#[trigger] shape@.take(k)) <= usize::MAX,
    ensures
        match r {
            Err(e) => (shape@.len() == 0 && e == MaskError::EmptyShape) || (shape@.len() > 0
                && batch_rows(shape@) == 0 && e == MaskError::ZeroSizedBatch),
            Ok(plans) => {
                &&& shape@.len() > 0
                &&& batch_rows(shape@) > 0
                &&& plans@.len() == batch_rows(shape@)
                &&& forall|rr: int|
                    0 <= rr < plans@.len() ==> plan_matches(
                        row_seq(data@, shape@.last() as int, rr),
                        vocab@,
                        (#[trigger] plans@[rr]).deep_view(),
                    )
            },
        },
{
    let (d, l) = match batch_layout(data, shape) {
        Err(e) => {
            return Err(e);
        },
        Ok(dl) => dl,
    };
    let mut plans: Vec<Vec<Vec<LexicalItem>>> = Vec::new();
    let mut rr: usize = 0;
    while rr < d
        invariant
            rr <= d,
            plans@.len() == rr,
            forall|r2: int|
                0 <= r2 < rr ==> plan_matches(
                    row_seq(data@, l as int, r2),
                    vocab@,
                    (#[trigger] plans@[r2]).deep_view(),
                ),
        decreases d - rr,
    {
        let row = copy_row(data, l, d, rr);
        let plan = row_query_plan(vocab, &row);
        plans.push(plan);
        rr = rr + 1;
    }
    Ok(plans)
}

/// What the mask of a batch must hold, given the tensor, its shape, the
/// vocabulary and the oracle's answers: each cell of each row's slice says
/// whether some answered continuation marks it.
pub open spec fn mask_matches(
    mask: Seq<bool>,
    words: Seq<Seq<char>>,
    data: Seq<usize>,
    shape: Seq<usize>,
    answers: Seq<Seq<Seq<ContModel>>>,
) -> bool {
    &&& mask.len() == data.len() * words.len()
    &&& forall|rr: int, p: int, t: int|
        0 <= rr < batch_rows(shape) && 0 <= p < shape.last() && 0 <= t < words.len()
            ==> #[trigger] batch_cell(mask, words.len() as int, shape.last() as int, rr, p, t)
            == row_mask_cell(words, row_seq(data, shape.last() as int, rr), answers[rr], p, t)
}

/// The mask of a whole batch: the input tensor is flattened to rows, each
/// row's answers are projected onto its slice of the mask, and every cell
/// no continuation marks stays `false` — in particular everything after a
/// truncated row's stopping point.  Only the tensor's shape can fail the
/// call.
#[verifier::loop_isolation(false)]
pub fn token_continuations(
    vocab: &TokenMap,
    data: &Vec<usize>,
    shape: &Vec<usize>,
    answers: &Vec<Vec<Vec<Continuation>>>,
) -> (r: Result<Vec<bool>, MaskError>)
    requires
        vocab.wf(),
        shape@.len() > 0 ==> dims_product(shape@) == data@.len(),
        shape@.len() > 0 ==> forall|k: int|
            0 <= k < shape@.len() ==> dims_product(#[trigger] shape@.take(k)) <= usize::MAX,
        shape@.len() > 0 ==> data@.len() * vocab@.len() <= usize::MAX,
        shape@.len() > 0 && batch_rows(shape@) > 0 ==> answers@.len() == batch_rows(shape@),
        forall|rr: int| 0 <= rr < answers@.len() ==> (#[trigger] answers@[rr])@.len()
            <= shape@.last(),
    ensures
        match r {
            Err(e) => (shape@.len() == 0 && e == MaskError::EmptyShape) || (shape@.len() > 0
                && batch_rows(shape@) == 0 && e == MaskError::ZeroSizedBatch),
            Ok(mask) => {
                &&& shape@.len() > 0
                &&& batch_rows(shape@) > 0
                &&& mask_matches(mask@, vocab@, data@, shape@, answers.deep_view())
            },
        },
{
    let v = vocab.len();
    let ghost vi: int = v as int;
    let (d, l) = match batch_layout(data, shape) {
        Err(e) => {
            return Err(e);
        },
        Ok(dl) => dl,
    };
    let ghost li: int = l as int;
    proof {
        assert((d as int) * li * vi == data@.len() * vi) by (nonlinear_arith)
            requires
                (d as int) * li == data@.len(),
        ;
        assert(li * vi <= (d as int) * (li * vi)) by (nonlinear_arith)
            requires
                d >= 1,
                li >= 0,
                vi >= 0,
        ;
        assert((d as int) * (li * vi) == (d as int) * li * vi) by (nonlinear_arith);
    }
    let row_cells = l * v;
    let mut mask: Vec<bool> = Vec::new();
    let mut rr: usize = 0;
    while rr < d
        invariant
            rr <= d,
            mask@.len() == rr * (row_cells as int),
            row_cells == li * vi,
            forall|r2: int, p: int, t: int|
                0 <= r2 < rr && 0 <= p < l && 0 <= t < v ==> #[trigger] batch_cell(
                    mask@,
                    vi,
                    li,
                    r2,
                    p,
                    t,
                ) == row_mask_cell(
                    vocab@,
                    row_seq(data@, li, r2),
                    answers@[r2].deep_view(),
                    p,
                    t,
                ),
        decreases d - rr,
    {
        let row = copy_row(data, l, d, rr);
        proof {
            assert(answers@.len() == batch_rows(shape@));
            assert(shape@.last() == l);
            assert(0 <= rr < answers@.len());
            assert((answers@[rr as int])@.len() <= shape@.last());
            assert(answers@[rr as int]@.len() <= l);
            assert(row@.len() == l);
            assert(row@.len() * vocab@.len() == li * vi);
        }
        let mut rmask = row_mask_from_answers(vocab, &row, &answers[rr]);
        let ghost mask0: Seq<bool> = mask@;
        let ghost rmaskd: Seq<bool> = rmask@;
        proof {
            assert(rmaskd.len() == li * vi);
            assert(rr * (li * vi) + (li * vi) <= (d as int) * (li * vi)) by (nonlinear_arith)
                requires
                    0 <= (rr as int) < d as int,
                    0 <= li * vi,
            ;
            assert(mask@.len() + rmaskd.len() <= usize::MAX);
        }
        mask.append(&mut rmask);
        proof {
            assert(mask@ == mask0 + rmaskd);
            assert(mask@.len() == mask0.len() + rmaskd.len());
            assert(mask0.len() == rr * (li * vi));
            assert(mask@.len() == rr * (li * vi) + li * vi);
            assert(mask@.len() == (rr + 1) * (li * vi)) by (nonlinear_arith)
                requires
                    mask@.len() == rr * (li * vi) + li * vi,
            ;
            assert forall|r2: int, p: int, t: int|
                0 <= r2 < rr + 1 && 0 <= p < l && 0 <= t < v implies #[trigger] batch_cell(
                mask@,
                vi,
                li,
                r2,
                p,
                t,
            ) == row_mask_cell(
                vocab@,
                row_seq(data@, li, r2),
                answers@[r2].deep_view(),
                p,
                t,
            ) by {
                lemma_mask_idx_bound(vi, li, p, t);
                assert((r2 * li + p) * vi + t == r2 * (li * vi) + (p * vi + t)) by (nonlinear_arith);
                if r2 < rr {
                    assert(r2 * (li * vi) + (p * vi + t) < rr * (li * vi)) by (nonlinear_arith)
                        requires
                            0 <= p * vi + t < li * vi,
                            0 <= r2 < rr as int,
                    ;
                    assert(mask@[(r2 * li + p) * vi + t] == mask0[(r2 * li + p) * vi + t]);
                    assert(batch_cell(mask0, vi, li, r2, p, t) == row_mask_cell(
                        vocab@,
                        row_seq(data@, li, r2),
                        answers@[r2].deep_view(),
                        p,
                        t,
                    ));
                    assert(batch_cell(mask@, vi, li, r2, p, t) == batch_cell(
                        mask0,
                        vi,
                        li,
                        r2,
                        p,
                        t,
                    ));
                } else {
                    assert(r2 == rr);
                    assert(0 <= p * vi + t < li * vi);
                    assert(mask@[r2 * (li * vi) + (p * vi + t)] == rmaskd[p * vi + t]);
                    assert(batch_cell(mask@, vi, li, r2, p, t) == mask_cell(rmaskd, vi, p, t));
                    assert(mask_cell(rmaskd, vi, p, t) == row_mask_cell(
                        vocab@,
                        row@,
                        answers@[rr as int].deep_view(),
                        p,
                        t,
                    ));
                    assert(row@ == row_seq(data@, li, r2));
                }
            }
        }
        rr = rr + 1;
    }
    proof {
        assert(mask@.len() == (d as int) * (li * vi));
        assert(mask@.len() == data@.len() * vi);
        assert forall|r2: int, p: int, t: int|
            0 <= r2 < batch_rows(shape@) && 0 <= p < shape@.last() && 0 <= t
                < vocab@.len() implies #[trigger] batch_cell(
            mask@,
            vocab@.len() as int,
            shape@.last() as int,
            r2,
            p,
            t,
        ) == row_mask_cell(
            vocab@,
            row_seq(data@, shape@.last() as int, r2),
            answers.deep_view()[r2],
            p,
            t,
        ) by {
            assert(answers.deep_view()[r2] == answers@[r2].deep_view());
            assert(batch_cell(mask@, vi, li, r2, p, t) == row_mask_cell(
                vocab@,
                row_seq(data@, li, r2),
                answers@[r2].deep_view(),
                p,
                t,
            ));
        }
    }
    Ok(mask)
}

/// Determinism: any two masks that the engine's contract admits for the
/// same vocabulary, tensor, shape and oracle answers are bit-identical.
/// Two engine calls on identical inputs therefore produce identical masks.
pub proof fn lemma_mask_deterministic(
    words: Seq<Seq<char>>,
    data: Seq<usize>,
    shape: Seq<usize>,
    answers: Seq<Seq<Seq<ContModel>>>,
    m1: Seq<bool>,
    m2: Seq<bool>,
)
    requires
        words.len() > 0,
        shape.len() > 0,
        dims_product(shape) == data.len(),
        mask_matches(m1, words, data, shape, answers),
        mask_matches(m2, words, data, shape, answers),
    ensures
        m1 == m2,
{
    let v = words.len() as int;
    let l = shape.last() as int;
    let d = batch_rows(shape);
    assert(shape.take(shape.len() - 1).push(shape.last()) =~= shape);
    lemma_dims_product_snoc(shape.take(shape.len() - 1), shape.last());
    assert(d * l == data.len());
    if data.len() * words.len() == 0 {
        assert(m1.len() == 0 && m2.len() == 0);
        assert(m1 =~= m2);
    } else {
        lemma_dims_product_nonneg(shape.take(shape.len() - 1));
        assert(d > 0 && l > 0) by (nonlinear_arith)
            requires
                d >= 0,
                l >= 0,
                d * l == data.len() as int,
                data.len() * words.len() != 0,
                v == words.len() as int,
        ;
        assert(m1.len() == (d * l) * v) by (nonlinear_arith)
            requires
                m1.len() == data.len() * words.len(),
                d * l == data.len() as int,
                v == words.len() as int,
        ;
        assert forall|idx: int| 0 <= idx < m1.len() implies m1[idx] == m2[idx] by {
            let pos = idx / v;
            let t = idx % v;
            lemma_fundamental_div_mod(idx, v);
            lemma_mod_bound(idx, v);
            assert(0 <= pos < d * l) by (nonlinear_arith)
                requires
                    idx == v * pos + t,
                    0 <= t < v,
                    0 <= idx < (d * l) * v,
            ;
            let rr = pos / l;
            let p = pos % l;
            lemma_fundamental_div_mod(pos, l);
            lemma_mod_bound(pos, l);
            assert(0 <= rr < d) by (nonlinear_arith)
                requires
                    pos == l * rr + p,
                    0 <= p < l,
                    0 <= pos < d * l,
            ;
            assert(idx == (rr * l + p) * v + t) by (nonlinear_arith)
                requires
                    idx == v * pos + t,
                    pos == l * rr + p,
            ;
            assert(0 <= rr < batch_rows(shape));
            assert(0 <= p < shape.last());
            assert(0 <= t < words.len());
            assert(batch_cell(m1, v, l, rr, p, t) == row_mask_cell(
                words,
                row_seq(data, l, rr),
                answers[rr],
                p,
                t,
            ));
            assert(batch_cell(m2, v, l, rr, p, t) == row_mask_cell(
                words,
                row_seq(data, l, rr),
                answers[rr],
                p,
                t,
            ));
        }
        assert(m1 =~= m2);
    }
}

/// The token a continuation admits at the query position itself: its first
/// id on the path, or the end marker.
pub open spec fn first_tok(words: Seq<Seq<char>>, c: ContModel, t: int) -> bool {
    match c {
        ContModel::Word(w) => word_id(words, w) == Some(t),
        ContModel::EndOfSentence => t == EOS as int,
        ContModel::AffixedWord(ws) => ws.len() >= 1 && word_id(words, ws[0]) == Some(t),
    }
}

/// Truncation law: in a row that opens with the start marker, carries one
/// word and then ends, exactly two positions are queried — the empty
/// prefix, then the one-word prefix; the mask's first position holds
/// exactly the first answer's admitted tokens, and every position from the
/// end marker on stays all `false`.  The one proviso: no affixed
/// continuation answered at the word's position may begin with the word
/// stored at the end marker's own id, since the engine would read the end
/// marker as that word's continuation.
pub proof fn lemma_truncation_property(
    words: Seq<Seq<char>>,
    row: Seq<usize>,
    answers: Seq<Seq<ContModel>>,
)
    requires
        row.len() >= 3,
        row[0] == SOS,
        row[2] == EOS,
        4 <= row[1] < words.len(),
        answers.len() == 2,
        forall|i: int|
            0 <= i < answers[1].len() ==> ((#[trigger] answers[1][i]) matches
                ContModel::AffixedWord(ws) ==> ws.len() == 0 || word_id(words, ws[0]) != Some(
                EOS as int,
            )),
    ensures
        queried(row, words, 0) && queried_prefix(row, words, 0) == Seq::<LexItemModel>::empty(),
        queried(row, words, 1) && queried_prefix(row, words, 1) == seq![
            LexItemModel::Normal(words[row[1] as int]),
        ],
        forall|jq: int| 2 <= jq < row.len() ==> !queried(row, words, jq),
        forall|t: int|
            #![trigger row_mask_cell(words, row, answers, 0, t)]
            row_mask_cell(words, row, answers, 0, t) == (exists|i: int|
                0 <= i < answers[0].len() && first_tok(words, #[trigger] answers[0][i], t)),
        forall|p: int, t: int|
            #![trigger row_mask_cell(words, row, answers, p, t)]
            p >= 2 ==> !row_mask_cell(words, row, answers, p, t),
{
    assert(scan_state(row, words, 0) == (ScanState::Active {
        prefix: Seq::<LexItemModel>::empty(),
        pending: false,
    }));
    assert(scan_state(row, words, 1) == (ScanState::Active {
        prefix: Seq::<LexItemModel>::empty(),
        pending: false,
    }));
    assert(scan_state(row, words, 2) == (ScanState::Active {
        prefix: Seq::<LexItemModel>::empty().push(LexItemModel::Normal(words[row[1] as int])),
        pending: false,
    }));
    assert(scan_state(row, words, 3) is Stopped);
    assert(queried_prefix(row, words, 1) == seq![LexItemModel::Normal(words[row[1] as int])]) by {
        assert(Seq::<LexItemModel>::empty().push(LexItemModel::Normal(words[row[1] as int])) =~= seq![
            LexItemModel::Normal(words[row[1] as int]),
        ]);
    }
    assert forall|jq: int| 2 <= jq < row.len() implies !queried(row, words, jq) by {
        lemma_stopped_stays(row, words, 3, jq + 1);
    }
    assert forall|t: int|
        row_mask_cell(words, row, answers, 0, t) == (exists|i: int|
            0 <= i < answers[0].len() && first_tok(words, #[trigger] answers[0][i], t)) by {
        if row_mask_cell(words, row, answers, 0, t) {
            let (a, b) = choose|a: int, b: int|
                #![trigger cont_marks(words, row, a, answers[a][b], 0, t)]
                {
                    &&& 0 <= a < answers.len()
                    &&& 0 <= b < answers[a].len()
                    &&& (a < 2 || (a == 2 && b < 0))
                    &&& cont_marks(words, row, a, answers[a][b], 0, t)
                };
            match answers[a][b] {
                ContModel::Word(w) => {
                    assert(a == 0);
                    assert(first_tok(words, answers[0][b], t));
                },
                ContModel::EndOfSentence => {
                    assert(a == 0);
                    assert(first_tok(words, answers[0][b], t));
                },
                ContModel::AffixedWord(ws) => {
                    let k = choose|k: int|
                        #![trigger affix_path_tok(words, ws, k)]
                        {
                            &&& 0 <= k < 2 * ws.len() - 1
                            &&& 0 == a + k
                            &&& affix_walk_ok(words, row, a, ws, k)
                            &&& affix_path_tok(words, ws, k) == Some(t)
                        };
                    assert(a == 0 && k == 0);
                    assert(affix_path_tok(words, ws, 0) == word_id(words, ws[0]));
                    assert(first_tok(words, answers[0][b], t));
                },
            }
        }
        if exists|i: int| 0 <= i < answers[0].len() && first_tok(words, #[trigger] answers[0][i], t) {
            let i = choose|i: int| 0 <= i < answers[0].len() && first_tok(
                words,
                #[trigger] answers[0][i],
                t,
            );
            match answers[0][i] {
                ContModel::Word(w) => {
                    assert(cont_marks(words, row, 0, answers[0][i], 0, t));
                },
                ContModel::EndOfSentence => {
                    assert(cont_marks(words, row, 0, answers[0][i], 0, t));
                },
                ContModel::AffixedWord(ws) => {
                    assert(affix_path_tok(words, ws, 0) == Some(t));
                    assert(affix_walk_ok(words, row, 0, ws, 0));
                    assert(cont_marks(words, row, 0, answers[0][i], 0, t));
                },
            }
            assert(row_mask_cell(words, row, answers, 0, t));
        }
    }
    assert forall|p: int, t: int| p >= 2 implies !row_mask_cell(words, row, answers, p, t) by {
        if row_mask_cell(words, row, answers, p, t) {
            let (a, b) = choose|a: int, b: int|
                #![trigger cont_marks(words, row, a, answers[a][b], p, t)]
                {
                    &&& 0 <= a < answers.len()
                    &&& 0 <= b < answers[a].len()
                    &&& (a < 2 || (a == 2 && b < 0))
                    &&& cont_marks(words, row, a, answers[a][b], p, t)
                };
            match answers[a][b] {
                ContModel::Word(w) => {
                    assert(p == a && a <= 1);
                    assert(false);
                },
                ContModel::EndOfSentence => {
                    assert(p == a && a <= 1);
                    assert(false);
                },
                ContModel::AffixedWord(ws) => {
                    let k = choose|k: int|
                        #![trigger affix_path_tok(words, ws, k)]
                        {
                            &&& 0 <= k < 2 * ws.len() - 1
                            &&& p == a + k
                            &&& affix_walk_ok(words, row, a, ws, k)
                            &&& affix_path_tok(words, ws, k) == Some(t)
                        };
                    if a == 0 {
                        assert(k >= 2);
                        assert(affix_path_tok(words, ws, 1) == Some(row[2] as int));
                        assert(false);
                    } else {
                        assert(a == 1 && k >= 1);
                        assert(affix_path_tok(words, ws, 0) == Some(row[2] as int));
                        assert(ws.len() >= 1);
                        assert(word_id(words, ws[0]) == Some(EOS as int));
                        assert(false);
                    }
                },
            }
        }
    }
}

/// Affix-path law, marking half: when an affixed two-morpheme word is
/// answered at a queried position and the row really continues along its
/// path — the first morpheme's id, then the join marker — the three path
/// cells are all marked.
pub proof fn lemma_affix_path_marked(
    words: Seq<Seq<char>>,
    row: Seq<usize>,
    answers: Seq<Seq<ContModel>>,
    j: int,
    i: int,
    ws: Seq<Seq<char>>,
)
    requires
        0 <= j < answers.len(),
        0 <= i < answers[j].len(),
        answers[j][i] == ContModel::AffixedWord(ws),
        ws.len() == 2,
        word_id(words, ws[0]) is Some,
        word_id(words, ws[1]) is Some,
        j + 2 < row.len(),
        word_id(words, ws[0]) == Some(row[j + 1] as int),
        row[j + 2] == AFFIX,
    ensures
        row_mask_cell(words, row, answers, j, word_id(words, ws[0])->Some_0),
        row_mask_cell(words, row, answers, j + 1, AFFIX as int),
        row_mask_cell(words, row, answers, j + 2, word_id(words, ws[1])->Some_0),
{
    assert(affix_path_tok(words, ws, 0) == word_id(words, ws[0]));
    assert(affix_path_tok(words, ws, 1) == Some(AFFIX as int));
    assert(affix_path_tok(words, ws, 2) == word_id(words, ws[1]));
    assert(affix_walk_ok(words, row, j, ws, 0));
    assert(affix_walk_ok(words, row, j, ws, 1));
    assert(affix_walk_ok(words, row, j, ws, 2));
    assert(cont_marks(words, row, j, answers[j][i], j, word_id(words, ws[0])->Some_0));
    assert(cont_marks(words, row, j, answers[j][i], j + 1, AFFIX as int));
    assert(cont_marks(words, row, j, answers[j][i], j + 2, word_id(words, ws[1])->Some_0));
    assert(row_mask_cell(words, row, answers, j, word_id(words, ws[0])->Some_0));
    assert(row_mask_cell(words, row, answers, j + 1, AFFIX as int));
    assert(row_mask_cell(words, row, answers, j + 2, word_id(words, ws[1])->Some_0));
}

/// Affix-path law, divergence half: the moment the row's next token is not
/// the first morpheme's id, an affixed continuation marks nothing beyond
/// the query position itself, and there only its first morpheme's id.
pub proof fn lemma_affix_path_divergence(
    words: Seq<Seq<char>>,
    row: Seq<usize>,
    j: int,
    ws: Seq<Seq<char>>,
    p: int,
    t: int,
)
    requires
        j + 1 < row.len() ==> word_id(words, ws[0]) != Some(row[j + 1] as int),
        cont_marks(words, row, j, ContModel::AffixedWord(ws), p, t),
    ensures
        p == j && word_id(words, ws[0]) == Some(t),
{
    let k = choose|k: int|
        #![trigger affix_path_tok(words, ws, k)]
        {
            &&& 0 <= k < 2 * ws.len() - 1
            &&& p == j + k
            &&& affix_walk_ok(words, row, j, ws, k)
            &&& affix_path_tok(words, ws, k) == Some(t)
        };
    if k >= 1 {
        assert(j + 1 < row.len() && affix_path_tok(words, ws, 0) == Some(row[j + 1] as int));
        assert(false);
    }
    assert(affix_path_tok(words, ws, 0) == word_id(words, ws[0]));
}

} // verus!
