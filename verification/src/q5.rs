//! Q5, hot items: which auction received the most bids over the sliding
//! window ending at each slide boundary.
//!
//! Stage 1 keeps one count table per slide, keyed by the slide's end
//! timestamp; at a window end it folds the `slice_count` slides of the window
//! and emits the auction with the greatest summed count. Stage 2 is the
//! global reduction: all stage-1 emissions for a timestamp meet in a single
//! reducer that keeps the hottest and emits it when the timestamp closes.

use vstd::prelude::*;
use std::collections::HashMap;
use crate::counts::CountTable;

verus! {

broadcast use vstd::std_specs::hash::group_hash_axioms;

/// `r` is what a hot-items emission must be when auction `a` has `totals(a)`
/// bids in the window: nothing when every total is zero, otherwise the
/// greatest total, ties resolved towards the greatest auction id.
pub open spec fn is_hot_item(totals: spec_fn(usize) -> int, r: Option<(usize, usize)>) -> bool {
    match r {
        None => forall|a: usize| #[trigger] totals(a) == 0,
        Some(p) => {
            &&& totals(p.0) == p.1
            &&& p.1 >= 1
            &&& forall|a: usize| #[trigger] totals(a) < p.1 || (totals(a) == p.1 && a <= p.0)
        },
    }
}

/// Any two emissions that both satisfy the hot-item characterisation for the
/// same totals are equal: the emitted pair is uniquely determined by the
/// counts, however the counts are stored.
pub proof fn lemma_hot_item_unique(
    totals: spec_fn(usize) -> int,
    r1: Option<(usize, usize)>,
    r2: Option<(usize, usize)>,
)
    requires
        is_hot_item(totals, r1),
        is_hot_item(totals, r2),
    ensures
        r1 == r2,
{
    match (r1, r2) {
        (None, None) => {},
        (None, Some(p)) => {
            assert(totals(p.0) == 0);
        },
        (Some(p), None) => {
            assert(totals(p.0) == 0);
        },
        (Some(p1), Some(p2)) => {
            assert(totals(p1.0) < p2.1 || (totals(p1.0) == p2.1 && p1.0 <= p2.0));
            assert(totals(p2.0) < p1.1 || (totals(p2.0) == p1.1 && p2.0 <= p1.0));
        },
    }
}

/// Stage-1 state: a count table per slide, keyed by slide end timestamp.
pub struct Q5State {
    pre_reduce: HashMap<usize, CountTable>,
}

impl Q5State {
    pub closed spec fn wf(self) -> bool {
        forall|s: usize|
            self.pre_reduce@.contains_key(s) ==> (#[trigger] self.pre_reduce@[s]).wf()
    }

    /// How many bids on auction `a` the slide ending at `s` has recorded.
    pub closed spec fn slide_count(self, s: usize, a: usize) -> usize {
        if self.pre_reduce@.contains_key(s) {
            self.pre_reduce@[s].count(a)
        } else {
            0
        }
    }

    /// Total bids on auction `a` over the `n` slides of the window ending at
    /// `w_end`.
    pub open spec fn window_total(self, w_end: int, n: int, slide: int, a: usize) -> int
        decreases n,
    {
        if n <= 0 {
            0
        } else {
            self.window_total(w_end, n - 1, slide, a) + self.slide_count(
                (w_end - (n - 1) * slide) as usize,
                a,
            )
        }
    }

    pub proof fn lemma_window_total_mono(self, w_end: int, n1: int, n2: int, slide: int, a: usize)
        requires
            0 <= n1 <= n2,
        ensures
            self.window_total(w_end, n1, slide, a) <= self.window_total(w_end, n2, slide, a),
        decreases n2,
    {
        if n2 > n1 {
            self.lemma_window_total_mono(w_end, n1, n2 - 1, slide, a);
        }
    }

    pub fn new() -> (s: Q5State)
        ensures
            s.wf(),
            forall|sl: usize, a: usize| s.slide_count(sl, a) == 0,
    {
        Q5State { pre_reduce: HashMap::new() }
    }

    pub fn slide_count_at(&self, s: usize, a: usize) -> (c: usize)
        requires
            self.wf(),
        ensures
            c == self.slide_count(s, a),
    {
        match self.pre_reduce.get(&s) {
            Some(t) => t.count_at(a),
            None => 0,
        }
    }

    /// Records one bid on `auction` in the slide ending at `a_time`.
    pub fn on_bid(&mut self, auction: usize, a_time: usize)
        requires
            old(self).wf(),
            old(self).slide_count(a_time, auction) < usize::MAX,
        ensures
            final(self).wf(),
            forall|s: usize, a: usize|
                #[trigger] final(self).slide_count(s, a) == old(self).slide_count(s, a) + if s
                    == a_time && a == auction {
                    1int
                } else {
                    0int
                },
    {
        let mut table = match self.pre_reduce.remove(&a_time) {
            Some(t) => t,
            None => CountTable::new(),
        };
        table.bump(auction, 1);
        self.pre_reduce.insert(a_time, table);
        proof {
            assert forall|s: usize, a: usize|
                self.slide_count(s, a) == old(self).slide_count(s, a) + if s == a_time && a
                    == auction {
                    1int
                } else {
                    0int
                } by {
                if s != a_time {
                    assert(self.pre_reduce@.contains_key(s) == old(
                        self,
                    ).pre_reduce@.contains_key(s));
                    if self.pre_reduce@.contains_key(s) {
                        assert(self.pre_reduce@[s] == old(self).pre_reduce@[s]);
                    }
                }
            }
        }
    }

    /// The hottest auction of the window of `slice_count` slides ending at
    /// `window_end`, with its summed count.
    pub fn hot_item(&self, window_end: usize, slice_count: usize, slide: usize) -> (r: Option<
        (usize, usize),
    >)
        requires
            self.wf(),
            slide >= 1,
            slice_count >= 1,
            window_end >= (slice_count - 1) * slide,
            forall|a: usize|
                #![auto]
                self.window_total(window_end as int, slice_count as int, slide as int, a)
                    <= usize::MAX,
        ensures
            is_hot_item(
                (|a: usize|
                    self.window_total(window_end as int, slice_count as int, slide as int, a)),
                r,
            ),
    {
        let mut acc = CountTable::new();
        let mut i: usize = 0;
        while i < slice_count
            invariant
                self.wf(),
                slide >= 1,
                slice_count >= 1,
                i <= slice_count,
                window_end >= (slice_count - 1) * slide,
                acc.wf(),
                forall|a: usize|
                    #![auto]
                    self.window_total(window_end as int, slice_count as int, slide as int, a)
                        <= usize::MAX,
                forall|a: usize|
                    #[trigger] acc.count(a) == self.window_total(
                        window_end as int,
                        i as int,
                        slide as int,
                        a,
                    ),
            decreases slice_count - i,
        {
            proof {
                assert(i * slide <= (slice_count - 1) * slide) by (nonlinear_arith)
                    requires
                        0 <= i <= slice_count - 1,
                        slide >= 1,
                ;
            }
            let s = window_end - i * slide;
            proof {
                assert forall|a: usize|
                    acc.count(a) + self.slide_count(s, a) <= usize::MAX by {
                    self.lemma_window_total_mono(
                        window_end as int,
                        i + 1 as int,
                        slice_count as int,
                        slide as int,
                        a,
                    );
                }
            }
            match self.pre_reduce.get(&s) {
                Some(t) => {
                    acc.add_all(t);
                },
                None => {},
            }
            i = i + 1;
        }
        let r = acc.max_entry();
        proof {
            let totals = (|a: usize|
                self.window_total(window_end as int, slice_count as int, slide as int, a));
            match r {
                None => {
                    assert forall|a: usize| #[trigger] totals(a) == 0 by {
                        assert(acc.count(a) == 0);
                    }
                },
                Some(p) => {
                    assert(acc.count(p.0) == p.1);
                    assert(totals(p.0) == p.1);
                    assert forall|a: usize|
                        #[trigger] totals(a) < p.1 || (totals(a) == p.1 && a <= p.0) by {
                        assert(acc.count(a) < p.1 || (acc.count(a) == p.1 && a <= p.0));
                        assert(totals(a) == acc.count(a));
                    }
                },
            }
            assert(is_hot_item(totals, r));
        }
        r
    }

    /// Drops the slide ending at `s`: its bids have left every window.
    pub fn expire_slide(&mut self, s: usize)
        requires
            old(self).wf(),
        ensures
            final(self).wf(),
            forall|sl: usize, a: usize|
                #[trigger] final(self).slide_count(sl, a) == if sl == s {
                    0usize
                } else {
                    old(self).slide_count(sl, a)
                },
    {
        self.pre_reduce.remove(&s);
        proof {
            assert forall|sl: usize, a: usize|
                self.slide_count(sl, a) == if sl == s {
                    0usize
                } else {
                    old(self).slide_count(sl, a)
                } by {
                if sl != s {
                    assert(self.pre_reduce@.contains_key(sl) == old(
                        self,
                    ).pre_reduce@.contains_key(sl));
                    if self.pre_reduce@.contains_key(sl) {
                        assert(self.pre_reduce@[sl] == old(self).pre_reduce@[sl]);
                    }
                }
            }
        }
    }

    /// Notification at a window end: emit the hottest auction of the window,
    /// then drop the slide that has just left every window.
    pub fn on_window_end(&mut self, window_end: usize, slice_count: usize, slide: usize) -> (r:
        Option<(usize, usize)>)
        requires
            old(self).wf(),
            slide >= 1,
            slice_count >= 1,
            window_end >= slice_count * slide,
            forall|a: usize|
                #![auto]
                old(self).window_total(window_end as int, slice_count as int, slide as int, a)
                    <= usize::MAX,
        ensures
            final(self).wf(),
            is_hot_item(
                (|a: usize|
                    old(self).window_total(
                        window_end as int,
                        slice_count as int,
                        slide as int,
                        a,
                    )),
                r,
            ),
            forall|sl: usize, a: usize|
                #[trigger] final(self).slide_count(sl, a) == if sl == window_end - slice_count
                    * slide {
                    0usize
                } else {
                    old(self).slide_count(sl, a)
                },
    {
        proof {
            assert((slice_count - 1) * slide <= slice_count * slide) by (nonlinear_arith)
                requires
                    slice_count >= 1,
                    slide >= 1,
            ;
        }
        let r = self.hot_item(window_end, slice_count, slide);
        self.expire_slide(window_end - slice_count * slide);
        r
    }
}

/// What the stage-2 reducer keeps for a timestamp after folding a batch in:
/// the incoming pair replaces the current one only with a strictly greater
/// count.
pub open spec fn fold_hottest(
    cur: Option<(usize, usize)>,
    items: Seq<(usize, usize)>,
) -> Option<(usize, usize)>
    decreases items.len(),
{
    if items.len() == 0 {
        cur
    } else {
        let prev = fold_hottest(cur, items.drop_last());
        let p = items.last();
        match prev {
            None => Some(p),
            Some(c) => if p.1 > c.1 {
                Some(p)
            } else {
                Some(c)
            },
        }
    }
}

/// Stage 2: the single global reducer. Every stage-1 emission for a
/// timestamp is routed here; the hottest survives and is emitted when the
/// timestamp's notification fires.
pub struct HotItems {
    state: HashMap<usize, (usize, usize)>,
}

impl HotItems {
    pub closed spec fn entry(self, t: usize) -> Option<(usize, usize)> {
        if self.state@.contains_key(t) {
            Some(self.state@[t])
        } else {
            None
        }
    }

    pub fn new() -> (h: HotItems)
        ensures
            forall|t: usize| h.entry(t) is None,
    {
        HotItems { state: HashMap::new() }
    }

    /// Folds a batch of stage-1 emissions for timestamp `time` into the kept
    /// hottest pair.
    pub fn on_input(&mut self, time: usize, items: &Vec<(usize, usize)>)
        ensures
            final(self).entry(time) == fold_hottest(old(self).entry(time), items@),
            forall|t: usize| t != time ==> final(self).entry(t) == old(self).entry(t),
    {
        let n = items.len();
        let mut j: usize = 0;
        while j < n
            invariant
                n == items@.len(),
                j <= n,
                self.entry(time) == fold_hottest(old(self).entry(time), items@.take(j as int)),
                forall|t: usize| t != time ==> self.entry(t) == old(self).entry(t),
            decreases n - j,
        {
            let p = items[j];
            let cur = match self.state.get(&time) {
                Some(c) => Some(*c),
                None => None,
            };
            match cur {
                None => {
                    self.state.insert(time, p);
                },
                Some(c) => {
                    if p.1 > c.1 {
                        self.state.insert(time, p);
                    }
                },
            }
            proof {
                assert(items@.take(j + 1 as int).drop_last() =~= items@.take(j as int));
                assert(items@.take(j + 1 as int).last() == p);
            }
            j = j + 1;
        }
        proof {
            assert(items@.take(n as int) =~= items@);
        }
    }

    /// Notification at `time`: emit and forget the kept pair's auction.
    pub fn emit(&mut self, time: usize) -> (r: Option<usize>)
        ensures
            match old(self).entry(time) {
                Some(p) => r == Some(p.0),
                None => r is None,
            },
            final(self).entry(time) is None,
            forall|t: usize| t != time ==> final(self).entry(t) == old(self).entry(t),
    {
        match self.state.remove(&time) {
            Some(p) => Some(p.0),
            None => None,
        }
    }
}

} // verus!
