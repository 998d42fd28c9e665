//! Q7: the highest bid of each tumbling window. Both stages of the operator
//! — the worker-local pre-reduction and the single global reduction — keep a
//! per-window running maximum and emit it when the window's notification
//! fires, so one state machine serves both.

use vstd::prelude::*;
use std::collections::HashMap;

verus! {

broadcast use vstd::std_specs::hash::group_hash_axioms;

/// Folding one price into a window's running maximum.
pub open spec fn max_step(cur: Option<usize>, price: usize) -> Option<usize> {
    match cur {
        None => Some(price),
        Some(m) => if price > m {
            Some(price)
        } else {
            Some(m)
        },
    }
}

/// The running maximum of window `w` after a batch of `(window, price)`
/// pairs, starting from `cur`.
pub open spec fn fold_window_max(
    cur: Option<usize>,
    pairs: Seq<(usize, usize)>,
    w: usize,
) -> Option<usize>
    decreases pairs.len(),
{
    if pairs.len() == 0 {
        cur
    } else {
        let prev = fold_window_max(cur, pairs.drop_last(), w);
        if pairs.last().0 == w {
            max_step(prev, pairs.last().1)
        } else {
            prev
        }
    }
}

/// The Q7 law: starting from nothing, the folded value for window `w` is
/// `Some` of the greatest price among the batch's pairs for `w` — present
/// exactly when such a pair exists. So the value emitted for a window is the
/// maximum price over all bids assigned to it.
pub proof fn lemma_fold_window_max_is_max(pairs: Seq<(usize, usize)>, w: usize)
    ensures
        match fold_window_max(None, pairs, w) {
            None => forall|i: int| 0 <= i < pairs.len() ==> (#[trigger] pairs[i]).0 != w,
            Some(m) => {
                &&& exists|i: int|
                    0 <= i < pairs.len() && #[trigger] pairs[i] == (w, m)
                &&& forall|i: int|
                    0 <= i < pairs.len() && (#[trigger] pairs[i]).0 == w ==> pairs[i].1 <= m
            },
        },
    decreases pairs.len(),
{
    if pairs.len() > 0 {
        lemma_fold_window_max_is_max(pairs.drop_last(), w);
        let pre = pairs.drop_last();
        match fold_window_max(None, pairs, w) {
            None => {
                assert forall|i: int|
                    0 <= i < pairs.len() implies (#[trigger] pairs[i]).0 != w by {
                    if i < pre.len() {
                        assert(pre[i] == pairs[i]);
                    }
                }
            },
            Some(m) => {
                match fold_window_max(None, pre, w) {
                    None => {
                        assert(pairs.last() == (w, m));
                        assert(pairs[pairs.len() - 1] == (w, m));
                        assert forall|i: int|
                            0 <= i < pairs.len() && (#[trigger] pairs[i]).0 == w implies pairs[i].1
                            <= m by {
                            if i < pre.len() {
                                assert(pre[i] == pairs[i]);
                            }
                        }
                    },
                    Some(m0) => {
                        let i0 = choose|i0: int| 0 <= i0 < pre.len() && #[trigger] pre[i0] == (w, m0);
                        if pairs.last().0 == w && pairs.last().1 > m0 {
                            assert(pairs[pairs.len() - 1] == (w, m));
                        } else {
                            assert(pairs[i0] == (w, m));
                        }
                        assert forall|i: int|
                            0 <= i < pairs.len() && (#[trigger] pairs[i]).0 == w implies pairs[i].1
                            <= m by {
                            if i < pre.len() {
                                assert(pre[i] == pairs[i]);
                            }
                        }
                    },
                }
            },
        }
    }
}

/// Replay determinism: the observable state of the operator after a batch
/// is a function of the input history alone, so re-running the same
/// deterministic workload reproduces the same per-window values — and with
/// them the same emissions.
pub proof fn lemma_replay_deterministic(s1: WindowMax, s2: WindowMax, h: Seq<(usize, usize)>)
    requires
        forall|w: usize| #[trigger] s1.max_at(w) == fold_window_max(None, h, w),
        forall|w: usize| #[trigger] s2.max_at(w) == fold_window_max(None, h, w),
    ensures
        forall|w: usize| #[trigger] s1.max_at(w) == s2.max_at(w),
{
}

/// One stage of Q7: the running maximum price per window.
pub struct WindowMax {
    state: HashMap<usize, usize>,
}

impl WindowMax {
    /// The running maximum recorded for window `w`, if any price arrived.
    pub closed spec fn max_at(self, w: usize) -> Option<usize> {
        if self.state@.contains_key(w) {
            Some(self.state@[w])
        } else {
            None
        }
    }

    pub fn new() -> (s: WindowMax)
        ensures
            forall|w: usize| s.max_at(w) is None,
    {
        WindowMax { state: HashMap::new() }
    }

    /// Folds one price into its window's running maximum.
    pub fn on_price(&mut self, w: usize, price: usize)
        ensures
            final(self).max_at(w) == max_step(old(self).max_at(w), price),
            forall|v: usize| v != w ==> final(self).max_at(v) == old(self).max_at(v),
    {
        let cur = match self.state.get(&w) {
            Some(m) => Some(*m),
            None => None,
        };
        match cur {
            None => {
                self.state.insert(w, price);
            },
            Some(m) => {
                if price > m {
                    self.state.insert(w, price);
                } else {
                    proof {
                        assert(self.state@ =~= old(self).state@);
                    }
                }
            },
        }
    }

    /// Folds a whole batch of `(window, price)` pairs.
    pub fn on_prices(&mut self, pairs: &Vec<(usize, usize)>)
        ensures
            forall|w: usize|
                #[trigger] final(self).max_at(w) == fold_window_max(
                    old(self).max_at(w),
                    pairs@,
                    w,
                ),
    {
        let n = pairs.len();
        let mut j: usize = 0;
        while j < n
            invariant
                n == pairs@.len(),
                j <= n,
                forall|w: usize|
                    #[trigger] self.max_at(w) == fold_window_max(
                        old(self).max_at(w),
                        pairs@.take(j as int),
                        w,
                    ),
            decreases n - j,
        {
            let (w, price) = pairs[j];
            self.on_price(w, price);
            proof {
                assert forall|v: usize|
                    self.max_at(v) == fold_window_max(
                        old(self).max_at(v),
                        pairs@.take(j + 1 as int),
                        v,
                    ) by {
                    assert(pairs@.take(j + 1 as int).drop_last() =~= pairs@.take(j as int));
                    assert(pairs@.take(j + 1 as int).last() == (w, price));
                }
            }
            j = j + 1;
        }
        proof {
            assert(pairs@.take(n as int) =~= pairs@);
        }
    }

    /// The window's notification: emit and forget its maximum. Nothing is
    /// emitted for a window that saw no price.
    pub fn emit(&mut self, w: usize) -> (r: Option<usize>)
        ensures
            r == old(self).max_at(w),
            final(self).max_at(w) is None,
            forall|v: usize| v != w ==> final(self).max_at(v) == old(self).max_at(v),
    {
        self.state.remove(&w)
    }
}

} // verus!
