//! The generic windowed COUNT operator: one counter per sliding window,
//! bumped for every window a record falls into, emitted and dropped when the
//! window's end passes.
//!
//! Two storage strategies: the plain one creates a window's counter at its
//! first record; the merge-friendly one pre-installs a zero for every new
//! slide before merging, as stores whose merge needs an initial put require.
//! Both emit the same counts for every window that received a record; see
//! [`lemma_count_strategies_agree`].

use vstd::prelude::*;
use std::collections::HashMap;
use crate::windows::{aligned, assign_windows, window_contains};

verus! {

broadcast use vstd::std_specs::hash::group_hash_axioms;

/// Counter-per-window state, counters created on first record.
pub struct WindowCounts {
    buckets: HashMap<usize, usize>,
}

/// A window's counter after a record: bumped — created at one — when the
/// record hit the window, untouched otherwise.
pub open spec fn counted(pre: Option<usize>, hit: bool) -> Option<usize> {
    if hit {
        match pre {
            Some(c) => Some((c + 1) as usize),
            None => Some(1usize),
        }
    } else {
        pre
    }
}

impl WindowCounts {
    /// The counter of the window starting at `w`, if it was ever touched.
    pub closed spec fn count_at(self, w: usize) -> Option<usize> {
        if self.buckets@.contains_key(w) {
            Some(self.buckets@[w])
        } else {
            None
        }
    }

    /// The counter of the window starting at `w`, zero when untouched.
    pub open spec fn count_or_zero(self, w: usize) -> usize {
        match self.count_at(w) {
            Some(c) => c,
            None => 0,
        }
    }

    pub fn new() -> (s: WindowCounts)
        ensures
            forall|w: usize| s.count_at(w) is None,
    {
        WindowCounts { buckets: HashMap::new() }
    }

    /// Counts one record with event time `t` into every window containing
    /// it, and returns the window ends at which notifications are due.
    pub fn on_record(&mut self, t: usize, slide: usize, size: usize) -> (notify: Vec<usize>)
        requires
            slide > 0,
            size > 0,
            t + size <= usize::MAX,
            forall|w: usize| #[trigger] old(self).count_or_zero(w) < usize::MAX,
        ensures
            forall|w: usize|
                #![trigger final(self).count_at(w)]
                final(self).count_at(w) == counted(
                    old(self).count_at(w),
                    aligned(w as int, slide as int) && window_contains(
                        w as int,
                        size as int,
                        t as int,
                    ),
                ),
            forall|j: int|
                0 <= j < notify@.len() ==> aligned(#[trigger] notify@[j] - size, slide as int)
                    && window_contains(notify@[j] - size, size as int, t as int),
            forall|w: usize|
                #![auto]
                aligned(w as int, slide as int) && window_contains(
                    w as int,
                    size as int,
                    t as int,
                ) ==> notify@.contains((w + size) as usize),
    {
        let wins = assign_windows(t, slide, size);
        let mut notify: Vec<usize> = Vec::new();
        let n = wins.len();
        let mut j: usize = 0;
        while j < n
            invariant
                n == wins@.len(),
                slide > 0,
                size > 0,
                t + size <= usize::MAX,
                forall|w: usize| #[trigger] old(self).count_or_zero(w) < usize::MAX,
                forall|i: int|
                    0 <= i < wins@.len() ==> aligned(#[trigger] wins@[i] as int, slide as int)
                        && window_contains(wins@[i] as int, size as int, t as int),
                forall|w: usize|
                    #![auto]
                    aligned(w as int, slide as int) && window_contains(
                        w as int,
                        size as int,
                        t as int,
                    ) ==> wins@.contains(w),
                forall|i1: int, i2: int| 0 <= i1 < i2 < wins@.len() ==> wins@[i1] != wins@[i2],
                j <= n,
                notify@.len() == j,
                forall|i: int| 0 <= i < j ==> #[trigger] notify@[i] == wins@[i] + size,
                forall|w: usize|
                    #![trigger old(self).count_at(w)]
                    self.count_at(w) == counted(
                        old(self).count_at(w),
                        wins@.take(j as int).contains(w),
                    ),
            decreases n - j,
        {
            let ghost sp = self.buckets@;
            let w = wins[j];
            proof {
                assert(!wins@.take(j as int).contains(w)) by {
                    if wins@.take(j as int).contains(w) {
                        let i0 = choose|i0: int|
                            0 <= i0 < j && #[trigger] wins@.take(j as int)[i0] == w;
                        assert(wins@[i0] == wins@[j as int]);
                    }
                }
            }
            proof {
                assert(self.count_at(w) == old(self).count_at(w));
                assert(old(self).count_or_zero(w) < usize::MAX);
            }
            let cur = match self.buckets.get(&w) {
                Some(c) => Some(*c),
                None => None,
            };
            match cur {
                Some(c) => {
                    self.buckets.insert(w, c + 1);
                },
                None => {
                    self.buckets.insert(w, 1);
                },
            }
            notify.push(w + size);
            proof {
                assert forall|q: usize|
                    self.count_at(q) == counted(
                        old(self).count_at(q),
                        wins@.take(j + 1 as int).contains(q),
                    ) by {
                    if q == w {
                        assert(wins@.take(j + 1 as int)[j as int] == w);
                        assert(wins@.take(j + 1 as int).contains(q));
                        match cur {
                            Some(c) => {
                                assert(old(self).count_at(w) == Some(c));
                                assert(self.buckets@ == sp.insert(w, (c + 1) as usize));
                                assert(self.count_at(q) == Some((c + 1) as usize));
                            },
                            None => {
                                assert(old(self).count_at(w) is None);
                                assert(self.buckets@ == sp.insert(w, 1usize));
                                assert(self.count_at(q) == Some(1usize));
                            },
                        }
                    } else {
                        assert(self.buckets@.contains_key(q) == sp.contains_key(q));
                        assert(sp.contains_key(q) ==> self.buckets@[q] == sp[q]);
                        assert(self.count_at(q) == counted(
                            old(self).count_at(q),
                            wins@.take(j as int).contains(q),
                        ));
                        if wins@.take(j as int).contains(q) {
                            let i0 = choose|i0: int|
                                0 <= i0 < j && #[trigger] wins@.take(j as int)[i0] == q;
                            assert(wins@.take(j + 1 as int)[i0] == q);
                        }
                        if wins@.take(j + 1 as int).contains(q) {
                            let i0 = choose|i0: int|
                                0 <= i0 < j + 1 && #[trigger] wins@.take(j + 1 as int)[i0] == q;
                            assert(i0 != j);
                            assert(wins@.take(j as int)[i0] == q);
                        }
                    }
                }
            }
            j = j + 1;
        }
        proof {
            assert(wins@.take(n as int) =~= wins@);
            assert forall|w: usize|
                #![auto]
                aligned(w as int, slide as int) && window_contains(
                    w as int,
                    size as int,
                    t as int,
                ) implies notify@.contains((w + size) as usize) by {
                assert(wins@.contains(w));
                let i0 = choose|i0: int| 0 <= i0 < wins@.len() && wins@[i0] == w;
                assert(notify@[i0] == wins@[i0] + size);
            }
        }
        notify
    }

    /// Installs an explicit zero for an untouched window.
    pub fn ensure_zero(&mut self, w: usize)
        ensures
            final(self).count_at(w) == match old(self).count_at(w) {
                None => Some(0usize),
                Some(c) => Some(c),
            },
            forall|q: usize| q != w ==> final(self).count_at(q) == old(self).count_at(q),
    {
        let present = self.buckets.contains_key(&w);
        if !present {
            self.buckets.insert(w, 0);
        } else {
            proof {
                assert(self.buckets@ =~= old(self).buckets@);
            }
        }
        proof {
            assert forall|q: usize|
                q != w implies self.count_at(q) == old(self).count_at(q) by {
                assert(self.buckets@.contains_key(q) == old(self).buckets@.contains_key(q));
                if self.buckets@.contains_key(q) {
                    assert(self.buckets@[q] == old(self).buckets@[q]);
                }
            }
        }
    }

    /// The notification at a window end: emit `(end, count)` for the window
    /// that ends here and drop its counter. Nothing is emitted for a window
    /// that was never touched.
    pub fn on_notify(&mut self, cap_time: usize, size: usize) -> (r: Option<(usize, usize)>)
        requires
            cap_time >= size,
        ensures
            r == match old(self).count_at((cap_time - size) as usize) {
                Some(c) => Some((cap_time, c)),
                None => None::<(usize, usize)>,
            },
            final(self).count_at((cap_time - size) as usize) is None,
            forall|w: usize|
                w != cap_time - size ==> final(self).count_at(w) == old(self).count_at(w),
    {
        match self.buckets.remove(&(cap_time - size)) {
            Some(c) => Some((cap_time, c)),
            None => None,
        }
    }
}


/// The two storage strategies stay compatible: the merge-friendly flavour
/// may hold an explicit zero where the plain one holds nothing, and is
/// otherwise identical.
pub open spec fn counts_agree(a: Option<usize>, b: Option<usize>) -> bool {
    b == a || (a is None && b == Some(0usize))
}

/// Recording a record into compatible counters keeps them compatible.
pub proof fn lemma_counted_preserves_agreement(a: Option<usize>, b: Option<usize>, hit: bool)
    requires
        counts_agree(a, b),
    ensures
        counts_agree(counted(a, hit), counted(b, hit)),
{
}

/// Pre-installing a zero keeps the counters compatible.
pub proof fn lemma_zero_init_preserves_agreement(a: Option<usize>, b: Option<usize>)
    requires
        counts_agree(a, b),
    ensures
        counts_agree(
            a,
            match b {
                None => Some(0usize),
                Some(c) => Some(c),
            },
        ),
{
}

/// The strategies agree on emissions: a window end whose window received a
/// record — the only kind the operator is notified at — emits the same
/// `(end, count)` pair under both storage strategies.
pub proof fn lemma_count_strategies_agree(a: Option<usize>, b: Option<usize>, cap_time: usize)
    requires
        counts_agree(a, b),
        a is Some,
    ensures
        match a {
            Some(c) => b == Some(c),
            None => true,
        },
{
}

/// Counter-per-window state for merge-only stores: a zero is installed for
/// every new slide before any merge touches it, so a merge never meets an
/// absent key.
pub struct WindowCountsInit {
    counts: WindowCounts,
    max_window_seen: usize,
}

impl WindowCountsInit {
    pub closed spec fn count_at(self, w: usize) -> Option<usize> {
        self.counts.count_at(w)
    }

    pub open spec fn count_or_zero(self, w: usize) -> usize {
        match self.count_at(w) {
            Some(c) => c,
            None => 0,
        }
    }

    /// The lowest slide boundary no zero has been installed for yet.
    pub closed spec fn seen(self) -> usize {
        self.max_window_seen
    }

    pub fn new() -> (s: WindowCountsInit)
        ensures
            forall|w: usize| s.count_at(w) is None,
            s.seen() == 0,
    {
        WindowCountsInit { counts: WindowCounts::new(), max_window_seen: 0 }
    }

    /// Installs a zero for every window start from the highest slide seen so
    /// far up to (excluding) `batch_slide`, stepping by the slide length.
    pub fn advance_slides(&mut self, batch_slide: usize, slide: usize)
        requires
            slide > 0,
            batch_slide + slide <= usize::MAX,
        ensures
            forall|w: usize|
                #![trigger final(self).count_at(w)]
                final(self).count_at(w) == if w >= old(self).seen() && (w - old(self).seen()) % (
                slide as int) == 0 && w < batch_slide && old(self).count_at(w) is None {
                    Some(0usize)
                } else {
                    old(self).count_at(w)
                },
            old(self).seen() >= batch_slide ==> final(self).seen() == old(self).seen(),
            old(self).seen() < batch_slide ==> final(self).seen() >= batch_slide,
    {
        let ghost m0 = old(self).seen();
        let ghost k: int = 0;
        while self.max_window_seen < batch_slide
            invariant
                slide > 0,
                batch_slide + slide <= usize::MAX,
                0 <= k,
                self.max_window_seen == m0 + k * slide,
                self.max_window_seen >= m0,
                m0 >= batch_slide ==> self.max_window_seen == m0,
                forall|w: usize|
                    #![trigger self.count_at(w)]
                    self.count_at(w) == if w >= m0 && (w - m0) % (slide as int) == 0 && w
                        < self.max_window_seen && w < batch_slide && old(
                        self,
                    ).count_at(w) is None {
                        Some(0usize)
                    } else {
                        old(self).count_at(w)
                    },
            decreases batch_slide + slide - self.max_window_seen,
        {
            let ghost pre = *self;
            let w = self.max_window_seen;
            self.counts.ensure_zero(w);
            proof {
                assert((k + 1) * slide == k * slide + slide) by (nonlinear_arith);
                assert((w - m0) % (slide as int) == 0) by (nonlinear_arith)
                    requires
                        slide > 0,
                        w == m0 + k * slide,
                ;
            }
            self.max_window_seen = self.max_window_seen + slide;
            proof {
                assert forall|q: usize|
                    self.count_at(q) == if q >= m0 && (q - m0) % (slide as int) == 0 && q
                        < self.max_window_seen && q < batch_slide && old(
                        self,
                    ).count_at(q) is None {
                        Some(0usize)
                    } else {
                        old(self).count_at(q)
                    } by {
                    if q != w {
                        assert(self.count_at(q) == pre.count_at(q));
                        if q >= m0 && (q - m0) % (slide as int) == 0 && q
                            < self.max_window_seen {
                            assert(q < w || q > w);
                            if q > w {
                                assert(false) by (nonlinear_arith)
                                    requires
                                        slide > 0,
                                        (q - m0) % (slide as int) == 0,
                                        q > m0 + k * slide,
                                        q < m0 + (k + 1) * slide,
                                        q >= m0,
                                ;
                            }
                        }
                    }
                }
            }
            proof {
                k = k + 1int;
            }
        }
    }

    /// Counts one record, exactly as the plain strategy does.
    pub fn on_record(&mut self, t: usize, slide: usize, size: usize) -> (notify: Vec<usize>)
        requires
            slide > 0,
            size > 0,
            t + size <= usize::MAX,
            forall|w: usize| #[trigger] old(self).count_or_zero(w) < usize::MAX,
        ensures
            forall|w: usize|
                #![trigger final(self).count_at(w)]
                final(self).count_at(w) == counted(
                    old(self).count_at(w),
                    aligned(w as int, slide as int) && window_contains(
                        w as int,
                        size as int,
                        t as int,
                    ),
                ),
            final(self).seen() == old(self).seen(),
            forall|j: int|
                0 <= j < notify@.len() ==> aligned(#[trigger] notify@[j] - size, slide as int)
                    && window_contains(notify@[j] - size, size as int, t as int),
            forall|w: usize|
                #![auto]
                aligned(w as int, slide as int) && window_contains(
                    w as int,
                    size as int,
                    t as int,
                ) ==> notify@.contains((w + size) as usize),
    {
        proof {
            assert forall|w: usize|
                #[trigger] self.counts.count_or_zero(w) < usize::MAX by {
                assert(old(self).count_or_zero(w) < usize::MAX);
            }
        }
        self.counts.on_record(t, slide, size)
    }

    /// Emits and drops the counter of the window ending now, exactly as the
    /// plain strategy does.
    pub fn on_notify(&mut self, cap_time: usize, size: usize) -> (r: Option<(usize, usize)>)
        requires
            cap_time >= size,
        ensures
            r == match old(self).count_at((cap_time - size) as usize) {
                Some(c) => Some((cap_time, c)),
                None => None::<(usize, usize)>,
            },
            final(self).count_at((cap_time - size) as usize) is None,
            forall|w: usize|
                w != cap_time - size ==> final(self).count_at(w) == old(self).count_at(w),
            final(self).seen() == old(self).seen(),
    {
        self.counts.on_notify(cap_time, size)
    }
}

} // verus!
