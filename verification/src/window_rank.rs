//! The generic windowed RANK operator: the records of each sliding window
//! are kept per window; when the window's end passes, its auction ids are
//! emitted in ascending order with standard competition ranking — equal ids
//! share a rank, and the next distinct id's rank advances by the size of the
//! tied group, so a rank is always one more than the number of strictly
//! smaller ids in the window.

use vstd::prelude::*;
use std::collections::HashMap;
use crate::windows::{aligned, assign_windows, window_contains};
use vstd::multiset::Multiset;

verus! {

broadcast use {vstd::std_specs::hash::group_hash_axioms, vstd::seq_lib::group_to_multiset_ensures};

/// A window's record list after a record: extended when the record hit the
/// window, untouched otherwise.
pub open spec fn appended(pre: Seq<usize>, hit: bool, auction: usize) -> Seq<usize> {
    if hit {
        pre.push(auction)
    } else {
        pre
    }
}

/// Record-list-per-window state.
pub struct WindowRecords {
    buckets: HashMap<usize, Vec<usize>>,
}

impl WindowRecords {
    /// The auction ids recorded for the window starting at `w`, in arrival
    /// order.
    pub closed spec fn records_at(self, w: usize) -> Seq<usize> {
        if self.buckets@.contains_key(w) {
            self.buckets@[w]@
        } else {
            Seq::empty()
        }
    }

    pub fn new() -> (s: WindowRecords)
        ensures
            forall|w: usize| s.records_at(w) == Seq::<usize>::empty(),
    {
        WindowRecords { buckets: HashMap::new() }
    }

    /// Files one record into every window containing its event time, and
    /// returns the window ends at which notifications are due.
    pub fn on_record(&mut self, auction: usize, t: usize, slide: usize, size: usize) -> (notify:
        Vec<usize>)
        requires
            slide > 0,
            size > 0,
            t + size <= usize::MAX,
        ensures
            forall|w: usize|
                #![trigger final(self).records_at(w)]
                final(self).records_at(w) == appended(
                    old(self).records_at(w),
                    aligned(w as int, slide as int) && window_contains(
                        w as int,
                        size as int,
                        t as int,
                    ),
                    auction,
                ),
            forall|j: int|
                0 <= j < notify@.len() ==> aligned(#[trigger] notify@[j] - size, slide as int)
                    && window_contains(notify@[j] - size, size as int, t as int),
            forall|w: usize|
                #![auto]
                aligned(w as int, slide as int) && window_contains(
                    w as int,
                    size as int,
                    t as int,
                ) ==> notify@.contains((w + size) as usize),
    {
        let wins = assign_windows(t, slide, size);
        let mut notify: Vec<usize> = Vec::new();
        let n = wins.len();
        let mut j: usize = 0;
        while j < n
            invariant
                n == wins@.len(),
                slide > 0,
                size > 0,
                t + size <= usize::MAX,
                forall|i: int|
                    0 <= i < wins@.len() ==> aligned(#[trigger] wins@[i] as int, slide as int)
                        && window_contains(wins@[i] as int, size as int, t as int),
                forall|w: usize|
                    #![auto]
                    aligned(w as int, slide as int) && window_contains(
                        w as int,
                        size as int,
                        t as int,
                    ) ==> wins@.contains(w),
                forall|i1: int, i2: int| 0 <= i1 < i2 < wins@.len() ==> wins@[i1] != wins@[i2],
                j <= n,
                notify@.len() == j,
                forall|i: int| 0 <= i < j ==> #[trigger] notify@[i] == wins@[i] + size,
                forall|w: usize|
                    #![trigger old(self).records_at(w)]
                    self.records_at(w) == appended(
                        old(self).records_at(w),
                        wins@.take(j as int).contains(w),
                        auction,
                    ),
            decreases n - j,
        {
            let ghost sp = self.buckets@;
            let w = wins[j];
            proof {
                assert(!wins@.take(j as int).contains(w)) by {
                    if wins@.take(j as int).contains(w) {
                        let i0 = choose|i0: int|
                            0 <= i0 < j && #[trigger] wins@.take(j as int)[i0] == w;
                        assert(wins@[i0] == wins@[j as int]);
                    }
                }
                assert(self.records_at(w) == old(self).records_at(w));
            }
            let mut bucket = match self.buckets.remove(&w) {
                Some(b) => b,
                None => Vec::new(),
            };
            bucket.push(auction);
            self.buckets.insert(w, bucket);
            notify.push(w + size);
            proof {
                assert forall|q: usize|
                    self.records_at(q) == appended(
                        old(self).records_at(q),
                        wins@.take(j + 1 as int).contains(q),
                        auction,
                    ) by {
                    if q == w {
                        assert(wins@.take(j + 1 as int)[j as int] == w);
                        assert(wins@.take(j + 1 as int).contains(q));
                    } else {
                        assert(self.buckets@.contains_key(q) == sp.contains_key(q));
                        assert(sp.contains_key(q) ==> self.buckets@[q] == sp[q]);
                        assert(self.records_at(q) == appended(
                            old(self).records_at(q),
                            wins@.take(j as int).contains(q),
                            auction,
                        ));
                        if wins@.take(j as int).contains(q) {
                            let i0 = choose|i0: int|
                                0 <= i0 < j && #[trigger] wins@.take(j as int)[i0] == q;
                            assert(wins@.take(j + 1 as int)[i0] == q);
                        }
                        if wins@.take(j + 1 as int).contains(q) {
                            let i0 = choose|i0: int|
                                0 <= i0 < j + 1 && #[trigger] wins@.take(j + 1 as int)[i0] == q;
                            assert(i0 != j);
                            assert(wins@.take(j as int)[i0] == q);
                        }
                    }
                }
            }
            j = j + 1;
        }
        proof {
            assert(wins@.take(n as int) =~= wins@);
            assert forall|w: usize|
                #![auto]
                aligned(w as int, slide as int) && window_contains(
                    w as int,
                    size as int,
                    t as int,
                ) implies notify@.contains((w + size) as usize) by {
                assert(wins@.contains(w));
                let i0 = choose|i0: int| 0 <= i0 < wins@.len() && wins@[i0] == w;
                assert(notify@[i0] == wins@[i0] + size);
            }
        }
        notify
    }

    /// The notification at a window end: emit `(end, auction, rank)` for
    /// every record of the window that ends here, auctions ascending with
    /// competition ranking, and drop the window.
    pub fn on_notify(&mut self, cap_time: usize, size: usize) -> (r: Vec<(usize, usize, usize)>)
        requires
            cap_time >= size,
        ensures
            final(self).records_at((cap_time - size) as usize) == Seq::<usize>::empty(),
            forall|w: usize|
                w != cap_time - size ==> final(self).records_at(w) == old(self).records_at(w),
            r@.len() == old(self).records_at((cap_time - size) as usize).len(),
            forall|j: int| 0 <= j < r@.len() ==> (#[trigger] r@[j]).0 == cap_time,
            forall|j: int, k: int| 0 <= j < k < r@.len() ==> r@[j].1 <= r@[k].1,
            r@.map_values(|e: (usize, usize, usize)| e.1).to_multiset() == old(self).records_at(
                (cap_time - size) as usize,
            ).to_multiset(),
            // competition ranking: a rank points at the first position
            // holding its auction id
            forall|j: int|
                0 <= j < r@.len() ==> 1 <= (#[trigger] r@[j]).2 <= j + 1 && r@[r@[j].2 - 1].1
                    == r@[j].1 && (r@[j].2 == 1 || r@[r@[j].2 - 2].1 < r@[j].1),
    {
        let bucket = match self.buckets.remove(&(cap_time - size)) {
            Some(b) => b,
            None => Vec::new(),
        };
        let ghost orig = bucket@;
        let sorted = sort_ids(bucket);
        let mut r: Vec<(usize, usize, usize)> = Vec::new();
        let n = sorted.len();
        if n == 0 {
            proof {
                assert(r@.map_values(|e: (usize, usize, usize)| e.1) =~= Seq::<usize>::empty());
                assert(r@.map_values(|e: (usize, usize, usize)| e.1).to_multiset()
                    =~= orig.to_multiset());
            }
            return r;
        }
        let mut rank: usize = 1;
        let mut count: usize = 0;
        let mut current: usize = sorted[0];
        let mut j: usize = 0;
        while j < n
            invariant
                n == sorted@.len(),
                n > 0,
                j <= n,
                forall|j1: int, k1: int| 0 <= j1 < k1 < n ==> sorted@[j1] <= sorted@[k1],
                r@.len() == j,
                forall|i: int| 0 <= i < j ==> (#[trigger] r@[i]).0 == cap_time,
                forall|i: int| 0 <= i < j ==> (#[trigger] r@[i]).1 == sorted@[i],
                forall|i: int|
                    0 <= i < j ==> 1 <= (#[trigger] r@[i]).2 <= i + 1 && sorted@[r@[i].2 - 1]
                        == sorted@[i] && (r@[i].2 == 1 || sorted@[r@[i].2 - 2] < sorted@[i]),
                count <= j,
                j > 0 ==> count >= 1,
                j > 0 ==> current == sorted@[j - 1],
                j > 0 ==> rank == j - count + 1,
                j > 0 ==> forall|i: int| j - count <= i < j ==> sorted@[i] == current,
                j > 0 ==> (j - count == 0 || sorted@[j - count - 1] < current),
                j == 0 ==> rank == 1 && count == 0 && current == sorted@[0],
            decreases n - j,
        {
            let a = sorted[j];
            if a != current {
                rank = rank + count;
                count = 0;
                current = a;
            }
            count = count + 1;
            r.push((cap_time, a, rank));
            proof {
                assert(r@[j as int] == (cap_time, a, rank));
                assert(sorted@[rank - 1] == sorted@[j as int]);
                assert(rank == 1 || sorted@[rank - 2] < sorted@[j as int]);
            }
            j = j + 1;
        }
        proof {
            assert forall|i: int|
                0 <= i < r@.len() implies 1 <= (#[trigger] r@[i]).2 <= i + 1 && r@[r@[i].2 - 1].1
                == r@[i].1 && (r@[i].2 == 1 || r@[r@[i].2 - 2].1 < r@[i].1) by {
                assert(r@[i].1 == sorted@[i]);
                assert(sorted@[r@[i].2 - 1] == sorted@[i]);
            }
            assert(r@.map_values(|e: (usize, usize, usize)| e.1) =~= sorted@);
            assert(sorted@.to_multiset() == orig.to_multiset());
        }
        r
    }
}

/// Sorts auction ids ascending, keeping exactly the same ids.
fn sort_ids(v: Vec<usize>) -> (out: Vec<usize>)
    ensures
        out@.len() == v@.len(),
        forall|j: int, k: int| 0 <= j < k < out@.len() ==> out@[j] <= out@[k],
        out@.to_multiset() == v@.to_multiset(),
{
    let ghost orig = v@;
    let mut rest = v;
    let mut out: Vec<usize> = Vec::new();
    while rest.len() > 0
        invariant
            out@.to_multiset().add(rest@.to_multiset()) =~= orig.to_multiset(),
            forall|j: int, k: int| 0 <= j < k < out@.len() ==> out@[j] <= out@[k],
            forall|j: int, k: int|
                0 <= j < out@.len() && 0 <= k < rest@.len() ==> out@[j] <= rest@[k],
            out@.len() + rest@.len() == orig.len(),
        decreases rest@.len(),
    {
        let mut m: usize = 0;
        let rn = rest.len();
        let mut i: usize = 1;
        while i < rn
            invariant
                rn == rest@.len(),
                m < rn,
                i <= rn,
                forall|k: int| 0 <= k < i ==> rest@[m as int] <= rest@[k],
            decreases rn - i,
        {
            if rest[i] < rest[m] {
                m = i;
            }
            i = i + 1;
        }
        let ghost pre_rest = rest@;
        let x = rest.remove(m);
        proof {
            assert(x == pre_rest[m as int]);
            assert(rest@ == pre_rest.remove(m as int));
            assert(rest@.to_multiset() =~= pre_rest.to_multiset().remove(x));
            assert(out@.push(x).to_multiset() =~= out@.to_multiset().insert(x));
            assert(pre_rest.to_multiset().count(x) >= 1) by {
                assert(pre_rest.contains(x)) by {
                    assert(pre_rest[m as int] == x);
                }
            }
            assert forall|k: int| 0 <= k < rest@.len() implies x <= rest@[k] by {
                if k < m {
                    assert(rest@[k] == pre_rest[k]);
                } else {
                    assert(rest@[k] == pre_rest[k + 1]);
                }
            }
        }
        out.push(x);
        proof {
            assert(out@.to_multiset().add(rest@.to_multiset()) =~= orig.to_multiset());
        }
    }
    proof {
        assert(rest@.to_multiset() =~= Multiset::<usize>::empty());
        assert(out@.to_multiset().add(Multiset::<usize>::empty()) =~= out@.to_multiset());
        assert(out@.len() == out@.to_multiset().len());
        assert(orig.len() == orig.to_multiset().len());
    }
    out
}

} // verus!
