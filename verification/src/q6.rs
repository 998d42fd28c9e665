//! Q6: the rolling average of the last ten closing prices per bidder. Fed by
//! the auction-close operator with `(bidder, price)` pairs, it keeps a
//! bounded price buffer per bidder — newest price first — and emits the
//! buffer's average after each update.

use vstd::prelude::*;
use std::collections::HashMap;

verus! {

broadcast use vstd::std_specs::hash::group_hash_axioms;

/// How many recent prices contribute to the average.
pub open spec fn q6_window() -> int {
    10
}

/// The sum of a price sequence.
pub open spec fn seq_sum(s: Seq<usize>) -> int
    decreases s.len(),
{
    if s.len() == 0 {
        0
    } else {
        seq_sum(s.drop_last()) + s.last()
    }
}

/// Pushing a price onto a full buffer drops the oldest one.
pub open spec fn rolling_push(s: Seq<usize>, p: usize) -> Seq<usize> {
    if s.len() >= q6_window() {
        seq![p] + s.drop_last()
    } else {
        seq![p] + s
    }
}

/// The buffer that a price history leaves behind: the newest
/// `min(len, 10)` prices, newest first.
pub open spec fn recent_prices(h: Seq<usize>) -> Seq<usize> {
    Seq::new(vstd::math::min(q6_window(), h.len() as int) as nat, |i: int| h[h.len() - 1 - i])
}

/// The rolling buffer tracks the history: feeding one more price into the
/// buffer of a history is the buffer of the extended history. So after `N`
/// updates for a bidder the kept prices are exactly the last `min(N, 10)`
/// ones, and the emitted average is their sum divided by their number.
pub proof fn lemma_rolling_push_tracks_history(h: Seq<usize>, p: usize)
    ensures
        rolling_push(recent_prices(h), p) == recent_prices(h.push(p)),
{
    let lhs = rolling_push(recent_prices(h), p);
    let rhs = recent_prices(h.push(p));
    assert(lhs =~= rhs);
}

pub struct RollingAverages {
    state: HashMap<usize, Vec<usize>>,
}

impl RollingAverages {
    /// The retained prices of a bidder, newest first.
    pub closed spec fn prices(self, bidder: usize) -> Seq<usize> {
        if self.state@.contains_key(bidder) {
            self.state@[bidder]@
        } else {
            Seq::empty()
        }
    }

    pub closed spec fn wf(self) -> bool {
        forall|b: usize|
            self.state@.contains_key(b) ==> (#[trigger] self.state@[b])@.len() <= q6_window()
    }

    pub fn new() -> (s: RollingAverages)
        ensures
            s.wf(),
            forall|b: usize| s.prices(b) == Seq::<usize>::empty(),
    {
        RollingAverages { state: HashMap::new() }
    }

    /// Folds one closing price into the bidder's buffer and emits the
    /// bidder's new rolling average, rounded down.
    pub fn on_closed_auction(&mut self, bidder: usize, price: usize) -> (r: (usize, usize))
        requires
            old(self).wf(),
            seq_sum(old(self).prices(bidder)) + price <= usize::MAX,
        ensures
            final(self).wf(),
            final(self).prices(bidder) == rolling_push(old(self).prices(bidder), price),
            forall|b: usize| b != bidder ==> final(self).prices(b) == old(self).prices(b),
            r.0 == bidder,
            r.1 == seq_sum(final(self).prices(bidder)) / final(self).prices(bidder).len() as int,
    {
        let ghost pre = self.prices(bidder);
        let mut buf = match self.state.remove(&bidder) {
            Some(v) => v,
            None => Vec::new(),
        };
        if buf.len() >= 10 {
            buf.pop();
        }
        buf.insert(0, price);
        proof {
            assert(buf@ =~= rolling_push(pre, price));
            lemma_sum_prefix_bound(pre, price);
        }
        let mut sum: usize = 0;
        let n = buf.len();
        let mut i: usize = 0;
        while i < n
            invariant
                n == buf@.len(),
                i <= n,
                sum == seq_sum(buf@.take(i as int)),
                seq_sum(buf@) + 0 <= usize::MAX,
                forall|k: int| 0 <= k <= n ==> seq_sum(buf@.take(k)) <= seq_sum(buf@),
            decreases n - i,
        {
            proof {
                assert(buf@.take(i + 1 as int).drop_last() =~= buf@.take(i as int));
                assert(buf@.take(i + 1 as int).last() == buf@[i as int]);
            }
            sum = sum + buf[i];
            i = i + 1;
        }
        proof {
            assert(buf@.take(n as int) =~= buf@);
        }
        let avg = sum / n;
        self.state.insert(bidder, buf);
        proof {
            assert forall|b: usize| b != bidder implies self.prices(b) == old(self).prices(b) by {
                assert(self.state@.contains_key(b) == old(self).state@.contains_key(b));
                if self.state@.contains_key(b) {
                    assert(self.state@[b] == old(self).state@[b]);
                }
            }
        }
        (bidder, avg)
    }
}

/// The sum after a rolling push is bounded by the old sum plus the new
/// price, and every prefix sum is bounded by the whole.
proof fn lemma_sum_prefix_bound(pre: Seq<usize>, price: usize)
    ensures
        seq_sum(rolling_push(pre, price)) <= seq_sum(pre) + price,
        forall|k: int|
            0 <= k <= rolling_push(pre, price).len() ==> seq_sum(
                #[trigger] rolling_push(pre, price).take(k),
            ) <= seq_sum(rolling_push(pre, price)),
{
    let s = rolling_push(pre, price);
    lemma_sum_drop(pre, price);
    lemma_sum_take_mono(s);
}

/// Dropping the last element cannot increase the sum.
proof fn lemma_sum_drop(pre: Seq<usize>, price: usize)
    ensures
        seq_sum(rolling_push(pre, price)) <= seq_sum(pre) + price,
{
    if pre.len() >= q6_window() {
        lemma_sum_front(pre.drop_last(), price);
        lemma_sum_last_bound(pre);
    } else {
        lemma_sum_front(pre, price);
    }
}

/// The sum with a price prepended.
proof fn lemma_sum_front(s: Seq<usize>, price: usize)
    ensures
        seq_sum(seq![price] + s) == price + seq_sum(s),
    decreases s.len(),
{
    if s.len() == 0 {
        assert(seq![price] + s =~= seq![price]);
        assert(seq_sum(seq![price]) == seq_sum((seq![price]).drop_last()) + price);
        assert((seq![price]).drop_last() =~= Seq::<usize>::empty());
    } else {
        lemma_sum_front(s.drop_last(), price);
        assert((seq![price] + s).drop_last() =~= seq![price] + s.drop_last());
        assert((seq![price] + s).last() == s.last());
    }
}

/// The sum without the last element is the sum minus it.
proof fn lemma_sum_last_bound(s: Seq<usize>)
    requires
        s.len() > 0,
    ensures
        seq_sum(s.drop_last()) <= seq_sum(s),
{
}

/// Every prefix sum is at most the whole sum.
proof fn lemma_sum_take_mono(s: Seq<usize>)
    ensures
        forall|k: int| 0 <= k <= s.len() ==> seq_sum(#[trigger] s.take(k)) <= seq_sum(s),
    decreases s.len(),
{
    assert forall|k: int| 0 <= k <= s.len() implies seq_sum(#[trigger] s.take(k)) <= seq_sum(
        s,
    ) by {
        lemma_sum_take_le(s, k);
    }
}

proof fn lemma_sum_take_le(s: Seq<usize>, k: int)
    requires
        0 <= k <= s.len(),
    ensures
        seq_sum(s.take(k)) <= seq_sum(s),
    decreases s.len() - k,
{
    if k == s.len() {
        assert(s.take(k) =~= s);
    } else {
        lemma_sum_take_le(s, k + 1);
        assert(s.take(k + 1).drop_last() =~= s.take(k));
        assert(seq_sum(s.take(k + 1)) == seq_sum(s.take(k)) + s[k]);
    }
}

} // verus!
