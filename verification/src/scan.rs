//! The per-row scan of the continuation-mask engine: reconstructing, token
//! by token, the structured prefix a row implies, under the lenient policy
//! that truncates a row at its first structural anomaly.

use vstd::prelude::*;

use crate::items::{LexItemModel, LexicalItem};
use crate::vocab::TokenMap;
use crate::{AFFIX, EOS, PAD, SOS};

verus! {

/// The scan's state between positions: still accumulating a prefix, or
/// silently stopped for the rest of the row.
pub enum ScanState {
    Active { prefix: Seq<LexItemModel>, pending: bool },
    Stopped,
}

/// One step of the scan at position `j`: how the state after the positions
/// before `j` turns into the state after `j`.
///
/// A padding or end token stops the row; a start token is legal only at
/// position `0`; a join marker is legal only from position `2` on and never
/// twice in a row, and sets the pending flag; a word id out of vocabulary
/// stops the row; a word otherwise extends the open affixed group (pending),
/// opens one (the next token being a join marker), or stands alone.
pub open spec fn scan_step(st: ScanState, row: Seq<usize>, words: Seq<Seq<char>>, j: int) -> ScanState {
    match st {
        ScanState::Stopped => ScanState::Stopped,
        ScanState::Active { prefix, pending } => {
            let c = row[j];
            if c == PAD || c == EOS {
                ScanState::Stopped
            } else if c == SOS {
                if j != 0 {
                    ScanState::Stopped
                } else {
                    ScanState::Active { prefix, pending }
                }
            } else if c == AFFIX {
                if pending || j == 0 || j == 1 {
                    ScanState::Stopped
                } else {
                    ScanState::Active { prefix, pending: true }
                }
            } else if c >= words.len() {
                ScanState::Stopped
            } else {
                let w = words[c as int];
                let next_affix = j + 1 < row.len() && row[j + 1] == AFFIX;
                if pending {
                    if prefix.len() > 0 && prefix.last() is Affixed {
                        ScanState::Active {
                            prefix: prefix.update(
                                prefix.len() - 1,
                                LexItemModel::Affixed(prefix.last()->Affixed_0.push(w)),
                            ),
                            pending: false,
                        }
                    } else {
                        ScanState::Stopped
                    }
                } else if next_affix {
                    ScanState::Active {
                        prefix: prefix.push(LexItemModel::Affixed(seq![w])),
                        pending: false,
                    }
                } else {
                    ScanState::Active { prefix: prefix.push(LexItemModel::Normal(w)), pending: false }
                }
            }
        },
    }
}

/// The scan's state after the first `j` positions of `row`.
pub open spec fn scan_state(row: Seq<usize>, words: Seq<Seq<char>>, j: int) -> ScanState
    decreases j,
{
    if j <= 0 {
        ScanState::Active { prefix: Seq::empty(), pending: false }
    } else {
        scan_step(scan_state(row, words, j - 1), row, words, j - 1)
    }
}

/// Whether the grammar oracle is consulted at position `j`: the scan
/// consumed the token there without stopping.
pub open spec fn queried(row: Seq<usize>, words: Seq<Seq<char>>, j: int) -> bool {
    0 <= j < row.len() && scan_state(row, words, j + 1) is Active
}

/// The structured prefix handed to the oracle at position `j`.
pub open spec fn queried_prefix(row: Seq<usize>, words: Seq<Seq<char>>, j: int) -> Seq<
    LexItemModel,
> {
    scan_state(row, words, j + 1)->prefix
}

/// Once stopped, a row's scan stays stopped.
pub proof fn lemma_stopped_stays(row: Seq<usize>, words: Seq<Seq<char>>, j1: int, j2: int)
    requires
        0 <= j1 <= j2,
        scan_state(row, words, j1) is Stopped,
    ensures
        scan_state(row, words, j2) is Stopped,
    decreases j2 - j1,
{
    if j1 < j2 {
        lemma_stopped_stays(row, words, j1, j2 - 1);
    }
}

/// One entry of a query plan is correct: position `jj` is queried and the
/// plan holds exactly the prefix queried there.
pub open spec fn plan_entry_ok(
    row: Seq<usize>,
    words: Seq<Seq<char>>,
    plan: Seq<Seq<LexItemModel>>,
    jj: int,
) -> bool {
    queried(row, words, jj) && plan[jj] == queried_prefix(row, words, jj)
}

/// A query plan is correct for a row when it lists, in order, exactly the
/// prefixes the oracle is to be asked about: one for each position up to the
/// row's truncation point.
pub open spec fn plan_matches(
    row: Seq<usize>,
    words: Seq<Seq<char>>,
    plan: Seq<Seq<LexItemModel>>,
) -> bool {
    &&& plan.len() <= row.len()
    &&& forall|j: int| 0 <= j < plan.len() ==> #[trigger] plan_entry_ok(row, words, plan, j)
    &&& forall|j: int| plan.len() <= j < row.len() ==> !(#[trigger] queried(row, words, j))
}

/// An element-wise copy of a structured sequence.
fn copy_items(v: &Vec<LexicalItem>) -> (r: Vec<LexicalItem>)
    ensures
        r.deep_view() == v.deep_view(),
{
    let mut r: Vec<LexicalItem> = Vec::new();
    let mut i: usize = 0;
    while i < v.len()
        invariant
            i <= v@.len(),
            r.deep_view() =~= v.deep_view().take(i as int),
        decreases v@.len() - i,
    {
        let ghost r0 = r.deep_view();
        match &v[i] {
            LexicalItem::Normal(w) => {
                r.push(LexicalItem::Normal(w.clone()));
            },
            LexicalItem::Affixed(ws) => {
                let mut g: Vec<String> = Vec::new();
                let mut k: usize = 0;
                while k < ws.len()
                    invariant
                        k <= ws@.len(),
                        g.deep_view() =~= ws.deep_view().take(k as int),
                    decreases ws@.len() - k,
                {
                    let ghost g0 = g.deep_view();
                    g.push(ws[k].clone());
                    proof {
                        assert(g.deep_view() =~= g0.push(ws@[k as int]@));
                        assert(g.deep_view() =~= ws.deep_view().take(k + 1));
                    }
                    k = k + 1;
                }
                proof {
                    assert(g.deep_view() =~= ws.deep_view());
                }
                r.push(LexicalItem::Affixed(g));
            },
        }
        proof {
            assert(r.deep_view() =~= r0.push(v@[i as int].deep_view()));
            assert(r.deep_view() =~= v.deep_view().take(i + 1));
        }
        i = i + 1;
    }
    proof {
        assert(r.deep_view() =~= v.deep_view());
    }
    r
}

/// Extending a correct partial plan by the prefix queried at its next
/// position keeps it correct.
proof fn lemma_plan_extend(
    row: Seq<usize>,
    words: Seq<Seq<char>>,
    plan0: Seq<Seq<LexItemModel>>,
    plan1: Seq<Seq<LexItemModel>>,
    j: int,
)
    requires
        0 <= j < row.len(),
        plan0.len() == j,
        forall|jj: int| 0 <= jj < j ==> #[trigger] plan_entry_ok(row, words, plan0, jj),
        plan1 == plan0.push(queried_prefix(row, words, j)),
        queried(row, words, j),
    ensures
        forall|jj: int| 0 <= jj < j + 1 ==> #[trigger] plan_entry_ok(row, words, plan1, jj),
{
    assert forall|jj: int| 0 <= jj < j + 1 implies #[trigger] plan_entry_ok(
        row,
        words,
        plan1,
        jj,
    ) by {
        if jj < j {
            assert(plan_entry_ok(row, words, plan0, jj));
            assert(plan1[jj] == plan0[jj]);
        } else {
            assert(plan1[jj] == queried_prefix(row, words, j));
        }
    }
}

/// Appends a copy of the current prefix to the plan.
fn push_prefix(plan: &mut Vec<Vec<LexicalItem>>, v: &Vec<LexicalItem>)
    ensures
        final(plan).deep_view() == old(plan).deep_view().push(v.deep_view()),
{
    let copied = copy_items(v);
    plan.push(copied);
    proof {
        assert(plan.deep_view() =~= old(plan).deep_view().push(v.deep_view()));
    }
}

/// The query plan of one row: the structured prefix to hand the oracle at
/// each position, in position order, up to the row's truncation point.
///
/// The policy is lenient: a structural anomaly — padding or an end marker,
/// a misplaced start or join marker, an id no word is registered under —
/// truncates the plan there rather than failing.
#[verifier::loop_isolation(false)]
pub fn row_query_plan(vocab: &TokenMap, row: &Vec<usize>) -> (plan: Vec<Vec<LexicalItem>>)
    ensures
        plan_matches(row@, vocab@, plan.deep_view()),
{
    let mut plan: Vec<Vec<LexicalItem>> = Vec::new();
    let mut v: Vec<LexicalItem> = Vec::new();
    let mut pending: bool = false;
    let mut j: usize = 0;
    let mut stopped: bool = false;
    proof {
        assert(v.deep_view() =~= Seq::<LexItemModel>::empty());
    }
    while j < row.len() && !stopped
        invariant
            j <= row@.len(),
            plan.deep_view().len() == j,
            forall|jj: int| 0 <= jj < j ==> #[trigger] plan_entry_ok(row@, vocab@, plan.deep_view(), jj),
            !stopped ==> scan_state(row@, vocab@, j as int) == (ScanState::Active {
                prefix: v.deep_view(),
                pending,
            }),
            stopped ==> j < row@.len() && scan_state(row@, vocab@, j + 1) is Stopped,
        decreases row@.len() - j + (if stopped {
            0int
        } else {
            1int
        }),
    {
        let ghost st0 = scan_state(row@, vocab@, j as int);
        let ghost plan0 = plan.deep_view();
        proof {
            assert(scan_state(row@, vocab@, j + 1) == scan_step(st0, row@, vocab@, j as int));
        }
        let c = row[j];
        if c == PAD || c == EOS {
            stopped = true;
        } else if c == SOS {
            if j != 0 {
                stopped = true;
            } else {
                push_prefix(&mut plan, &v);
                proof {
                    assert(plan.deep_view() == plan0.push(v.deep_view()));
                    assert(queried_prefix(row@, vocab@, j as int) == v.deep_view());
                    assert(queried(row@, vocab@, j as int));
                    lemma_plan_extend(row@, vocab@, plan0, plan.deep_view(), j as int);
                }
                j = j + 1;
            }
        } else if c == AFFIX {
            if pending || j == 0 || j == 1 {
                stopped = true;
            } else {
                pending = true;
                push_prefix(&mut plan, &v);
                proof {
                    assert(plan.deep_view() == plan0.push(v.deep_view()));
                    assert(queried_prefix(row@, vocab@, j as int) == v.deep_view());
                    assert(queried(row@, vocab@, j as int));
                    lemma_plan_extend(row@, vocab@, plan0, plan.deep_view(), j as int);
                }
                j = j + 1;
            }
        } else {
            match vocab.word_of(c) {
                None => {
                    stopped = true;
                },
                Some(w) => {
                    let next_affix = j + 1 < row.len() && row[j + 1] == AFFIX;
                    proof {
                        assert(next_affix == (j + 1 < row@.len() && row@[j + 1] == AFFIX));
                    }
                    if pending {
                        let n = v.len();
                        let last_is_affixed = n > 0 && matches!(&v[n - 1], LexicalItem::Affixed(_));
                        proof {
                            if n > 0 {
                                assert(v.deep_view()[n - 1] == v@[n - 1].deep_view());
                            }
                            assert(last_is_affixed == (v.deep_view().len() > 0
                                && v.deep_view().last() is Affixed));
                        }
                        if !last_is_affixed {
                            stopped = true;
                        } else {
                            let ghost pre = v.deep_view();
                            match v.pop() {
                                Some(LexicalItem::Affixed(mut ws)) => {
                                    let ghost ws0 = ws.deep_view();
                                    ws.push(w);
                                    proof {
                                        assert(ws.deep_view() =~= ws0.push(w@));
                                        assert(ws0 == pre.last()->Affixed_0);
                                    }
                                    v.push(LexicalItem::Affixed(ws));
                                    proof {
                                        assert(v.deep_view() =~= pre.update(
                                            pre.len() - 1,
                                            LexItemModel::Affixed(pre.last()->Affixed_0.push(w@)),
                                        ));
                                    }
                                },
                                _ => {
                                    proof {
                                        assert(false);
                                    }
                                },
                            }
                            pending = false;
                            push_prefix(&mut plan, &v);
                            proof {
                                assert(plan.deep_view() == plan0.push(v.deep_view()));
                                assert(queried_prefix(row@, vocab@, j as int) == v.deep_view());
                                assert(queried(row@, vocab@, j as int));
                                lemma_plan_extend(row@, vocab@, plan0, plan.deep_view(), j as int);
                            }
                            j = j + 1;
                        }
                    } else if next_affix {
                        let mut g: Vec<String> = Vec::new();
                        g.push(w);
                        let ghost pre = v.deep_view();
                        proof {
                            assert(g.deep_view() =~= seq![w@]);
                        }
                        v.push(LexicalItem::Affixed(g));
                        proof {
                            assert(v.deep_view() =~= pre.push(LexItemModel::Affixed(seq![w@])));
                        }
                        push_prefix(&mut plan, &v);
                        proof {
                            assert(plan.deep_view() == plan0.push(v.deep_view()));
                            assert(queried_prefix(row@, vocab@, j as int) == v.deep_view());
                            assert(queried(row@, vocab@, j as int));
                            lemma_plan_extend(row@, vocab@, plan0, plan.deep_view(), j as int);
                        }
                        j = j + 1;
                    } else {
                        let ghost pre = v.deep_view();
                        v.push(LexicalItem::Normal(w));
                        proof {
                            assert(v.deep_view() =~= pre.push(LexItemModel::Normal(w@)));
                        }
                        push_prefix(&mut plan, &v);
                        proof {
                            assert(plan.deep_view() == plan0.push(v.deep_view()));
                            assert(queried_prefix(row@, vocab@, j as int) == v.deep_view());
                            assert(queried(row@, vocab@, j as int));
                            lemma_plan_extend(row@, vocab@, plan0, plan.deep_view(), j as int);
                        }
                        j = j + 1;
                    }
                },
            }
        }
    }
    proof {
        if j < row@.len() {
            assert forall|jj: int| plan.deep_view().len() <= jj < row@.len() implies !queried(
                row@,
                vocab@,
                jj,
            ) by {
                lemma_stopped_stays(row@, vocab@, j + 1, jj + 1);
            }
        }
    }
    plan
}

} // verus!
