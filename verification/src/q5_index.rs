//! Q5, hot items, indexed flavour: the same operator as [`crate::q5`] but
//! with flat storage. Counts live under a composite `(slide, auction)` key,
//! and a per-slide index lists the auctions seen in that slide, so no nested
//! table is ever stored. Emissions agree with the per-slide-table flavour;
//! see [`lemma_variants_agree`].

use vstd::prelude::*;
use std::collections::HashMap;
use crate::counts::CountTable;
use crate::q5::{is_hot_item, lemma_hot_item_unique, Q5State};

verus! {

broadcast use vstd::std_specs::hash::group_hash_axioms;

/// One more than the greatest auction id: the radix of the composite key.
pub open spec fn spec_comp_base() -> u128 {
    0x1_0000_0000_0000_0000u128
}

/// The composite key of slide end `s` and auction `a`.
pub open spec fn comp(s: usize, a: usize) -> u128 {
    (s as u128 * spec_comp_base() + a as u128) as u128
}

proof fn lemma_usize_fits()
    ensures
        usize::MAX < spec_comp_base(),
{
}

/// The composite key never truncates: its value is `s * base + a` exactly.
proof fn lemma_comp_value(s: usize, a: usize)
    ensures
        comp(s, a) == s * spec_comp_base() + a,
{
    lemma_usize_fits();
    assert(0 <= s as u128 * spec_comp_base() + a as u128 <= u128::MAX) by (nonlinear_arith)
        requires
            s < spec_comp_base(),
            a < spec_comp_base(),
    ;
}

/// Composite keys collide only when both parts are equal.
proof fn lemma_comp_injective(s1: usize, a1: usize, s2: usize, a2: usize)
    requires
        comp(s1, a1) == comp(s2, a2),
    ensures
        s1 == s2 && a1 == a2,
{
    lemma_usize_fits();
    lemma_comp_value(s1, a1);
    lemma_comp_value(s2, a2);
    assert(s1 == s2 && a1 == a2) by (nonlinear_arith)
        requires
            s1 * spec_comp_base() + a1 == s2 * spec_comp_base() + a2,
            a1 < spec_comp_base(),
            a2 < spec_comp_base(),
            s1 >= 0,
            s2 >= 0,
    ;
}

/// Stage-1 state of the indexed flavour.
pub struct Q5IndexState {
    index: HashMap<usize, Vec<usize>>,
    counts: HashMap<u128, usize>,
}

impl Q5IndexState {
    pub closed spec fn wf(self) -> bool {
        &&& forall|s: usize|
            self.index@.contains_key(s) ==> {
                let l = (#[trigger] self.index@[s])@;
                forall|i: int, j: int| 0 <= i < j < l.len() ==> l[i] != l[j]
            }
        &&& forall|s: usize, a: usize|
            #![trigger self.counts@.contains_key(comp(s, a))]
            self.counts@.contains_key(comp(s, a)) <==> (self.index@.contains_key(s)
                && self.index@[s]@.contains(a))
        &&& forall|k: u128|
            #[trigger] self.counts@.contains_key(k) ==> self.counts@[k] >= 1 && (
            k / spec_comp_base()) <= usize::MAX && comp(
                (k / spec_comp_base()) as usize,
                (k % spec_comp_base()) as usize,
            ) == k
    }

    /// How many bids on auction `a` the slide ending at `s` has recorded.
    pub closed spec fn slide_count(self, s: usize, a: usize) -> usize {
        if self.counts@.contains_key(comp(s, a)) {
            self.counts@[comp(s, a)]
        } else {
            0
        }
    }

    /// Total bids on auction `a` over the `n` slides of the window ending at
    /// `w_end`.
    pub open spec fn window_total(self, w_end: int, n: int, slide: int, a: usize) -> int
        decreases n,
    {
        if n <= 0 {
            0
        } else {
            self.window_total(w_end, n - 1, slide, a) + self.slide_count(
                (w_end - (n - 1) * slide) as usize,
                a,
            )
        }
    }

    pub proof fn lemma_window_total_mono(self, w_end: int, n1: int, n2: int, slide: int, a: usize)
        requires
            0 <= n1 <= n2,
        ensures
            self.window_total(w_end, n1, slide, a) <= self.window_total(w_end, n2, slide, a),
        decreases n2,
    {
        if n2 > n1 {
            self.lemma_window_total_mono(w_end, n1, n2 - 1, slide, a);
        }
    }

    pub fn new() -> (s: Q5IndexState)
        ensures
            s.wf(),
            forall|sl: usize, a: usize| s.slide_count(sl, a) == 0,
    {
        Q5IndexState { index: HashMap::new(), counts: HashMap::new() }
    }

    pub fn slide_count_at(&self, s: usize, a: usize) -> (c: usize)
        requires
            self.wf(),
        ensures
            c == self.slide_count(s, a),
    {
        let key = comp_key(s, a);
        match self.counts.get(&key) {
            Some(v) => *v,
            None => 0,
        }
    }

    /// Records one bid on `auction` in the slide ending at `a_time`.
    pub fn on_bid(&mut self, auction: usize, a_time: usize)
        requires
            old(self).wf(),
            old(self).slide_count(a_time, auction) < usize::MAX,
        ensures
            final(self).wf(),
            forall|s: usize, a: usize|
                #[trigger] final(self).slide_count(s, a) == old(self).slide_count(s, a) + if s
                    == a_time && a == auction {
                    1int
                } else {
                    0int
                },
    {
        let key = comp_key(a_time, auction);
        let cur = match self.counts.get(&key) {
            Some(v) => Some(*v),
            None => None,
        };
        match cur {
            Some(v) => {
                proof {
                    assert(self.index@.contains_key(a_time) && self.index@[a_time]@.contains(
                        auction,
                    ));
                }
                self.counts.insert(key, v + 1);
                proof {
                    assert(self.index@ == old(self).index@);
                    assert forall|s: usize, a: usize|
                        #[trigger] self.counts@.contains_key(comp(s, a)) <==> (
                        self.index@.contains_key(s) && self.index@[s]@.contains(a)) by {
                        if comp(s, a) != key {
                            assert(self.counts@.contains_key(comp(s, a)) == old(
                                self,
                            ).counts@.contains_key(comp(s, a)));
                        }
                    }
                    assert forall|k: u128|
                        #[trigger] self.counts@.contains_key(k) implies self.counts@[k] >= 1 && (
                    k / spec_comp_base()) <= usize::MAX && comp(
                        (k / spec_comp_base()) as usize,
                        (k % spec_comp_base()) as usize,
                    ) == k by {
                        if k != key {
                            assert(old(self).counts@.contains_key(k));
                        } else {
                            assert(old(self).counts@.contains_key(key));
                        }
                    }
                }
            },
            None => {
                let mut list = match self.index.remove(&a_time) {
                    Some(l) => l,
                    None => Vec::new(),
                };
                proof {
                    assert(!list@.contains(auction)) by {
                        if old(self).index@.contains_key(a_time) {
                            if list@.contains(auction) {
                                assert(old(self).counts@.contains_key(comp(a_time, auction)));
                            }
                        }
                    }
                }
                let ghost pre_list = list@;
                list.push(auction);
                self.index.insert(a_time, list);
                self.counts.insert(key, 1);
                proof {
                    lemma_usize_fits();
                    lemma_comp_value(a_time, auction);
                    assert(key / spec_comp_base() == a_time && key % spec_comp_base() == auction)
                        by (nonlinear_arith)
                        requires
                            key == a_time * spec_comp_base() + auction,
                            0 <= auction < spec_comp_base(),
                            a_time >= 0,
                    ;
                    assert forall|s: usize, a: usize|
                        #[trigger] self.counts@.contains_key(comp(s, a)) <==> (
                        self.index@.contains_key(s) && self.index@[s]@.contains(a)) by {
                        if comp(s, a) == key {
                            lemma_comp_injective(s, a, a_time, auction);
                            assert(self.index@[a_time]@.last() == auction);
                        } else {
                            assert(self.counts@.contains_key(comp(s, a)) == old(
                                self,
                            ).counts@.contains_key(comp(s, a)));
                            if s == a_time {
                                assert(a != auction) by {
                                    if a == auction {
                                        assert(comp(s, a) == key);
                                    }
                                }
                                assert(self.index@[s]@ == pre_list.push(auction));
                                assert(pre_list.contains(a) <==> self.index@[s]@.contains(
                                    a,
                                )) by {
                                    if pre_list.contains(a) {
                                        let i = choose|i: int|
                                            0 <= i < pre_list.len() && pre_list[i] == a;
                                        assert(self.index@[s]@[i] == a);
                                    }
                                    if self.index@[s]@.contains(a) {
                                        let i = choose|i: int|
                                            0 <= i < self.index@[s]@.len() && self.index@[s]@[i]
                                                == a;
                                        assert(i < pre_list.len());
                                        assert(pre_list[i] == a);
                                    }
                                }
                                assert(old(self).index@.contains_key(s) ==> old(
                                    self,
                                ).index@[s]@ == pre_list);
                                assert(!old(self).index@.contains_key(s) ==> pre_list
                                    == Seq::<usize>::empty());
                            }
                        }
                    }
                    assert forall|s: usize|
                        self.index@.contains_key(s) implies {
                        let l = (#[trigger] self.index@[s])@;
                        forall|i: int, j: int| 0 <= i < j < l.len() ==> l[i] != l[j]
                    } by {
                        if s == a_time {
                            let l = self.index@[s]@;
                            assert forall|i: int, j: int|
                                0 <= i < j < l.len() implies l[i] != l[j] by {
                                if j == l.len() - 1 {
                                    assert(l[i] == pre_list[i]);
                                    if l[i] == auction {
                                        assert(pre_list.contains(auction));
                                    }
                                } else {
                                    assert(l[i] == pre_list[i]);
                                    assert(l[j] == pre_list[j]);
                                }
                            }
                        }
                    }
                }
            },
        }
        proof {
            assert forall|s: usize, a: usize|
                #[trigger] self.slide_count(s, a) == old(self).slide_count(s, a) + if s == a_time
                    && a == auction {
                    1int
                } else {
                    0int
                } by {
                if s == a_time && a == auction {
                } else {
                    assert(comp(s, a) != key) by {
                        if comp(s, a) == key {
                            lemma_comp_injective(s, a, a_time, auction);
                        }
                    }
                    assert(self.counts@.contains_key(comp(s, a)) == old(
                        self,
                    ).counts@.contains_key(comp(s, a)));
                }
            }
        }
    }

    /// The hottest auction of the window of `slice_count` slides ending at
    /// `window_end`, with its summed count.
    pub fn hot_item(&self, window_end: usize, slice_count: usize, slide: usize) -> (r: Option<
        (usize, usize),
    >)
        requires
            self.wf(),
            slide >= 1,
            slice_count >= 1,
            window_end >= (slice_count - 1) * slide,
            forall|a: usize|
                #![auto]
                self.window_total(window_end as int, slice_count as int, slide as int, a)
                    <= usize::MAX,
        ensures
            is_hot_item(
                (|a: usize|
                    self.window_total(window_end as int, slice_count as int, slide as int, a)),
                r,
            ),
    {
        let mut acc = CountTable::new();
        let mut i: usize = 0;
        while i < slice_count
            invariant
                self.wf(),
                slide >= 1,
                slice_count >= 1,
                i <= slice_count,
                window_end >= (slice_count - 1) * slide,
                acc.wf(),
                forall|a: usize|
                    #![auto]
                    self.window_total(window_end as int, slice_count as int, slide as int, a)
                        <= usize::MAX,
                forall|a: usize|
                    #[trigger] acc.count(a) == self.window_total(
                        window_end as int,
                        i as int,
                        slide as int,
                        a,
                    ),
            decreases slice_count - i,
        {
            proof {
                assert(i * slide <= (slice_count - 1) * slide) by (nonlinear_arith)
                    requires
                        0 <= i <= slice_count - 1,
                        slide >= 1,
                ;
            }
            let s = window_end - i * slide;
            let list_opt = self.index.get(&s);
            match list_opt {
                Some(list) => {
                    let m = list.len();
                    let mut j: usize = 0;
                    while j < m
                        invariant
                            self.wf(),
                            acc.wf(),
                            j <= m,
                            i < slice_count,
                            self.index@.contains_key(s),
                            list@ == self.index@[s]@,
                            m == list@.len(),
                            forall|a: usize|
                                #![auto]
                                self.window_total(
                                    window_end as int,
                                    slice_count as int,
                                    slide as int,
                                    a,
                                ) <= usize::MAX,
                            forall|a: usize|
                                #[trigger] acc.count(a) == self.window_total(
                                    window_end as int,
                                    i as int,
                                    slide as int,
                                    a,
                                ) + if list@.take(j as int).contains(a) {
                                    self.slide_count(s, a) as int
                                } else {
                                    0int
                                },
                            forall|a: usize|
                                #![auto]
                                self.window_total(window_end as int, i + 1, slide as int, a)
                                    == self.window_total(
                                    window_end as int,
                                    i as int,
                                    slide as int,
                                    a,
                                ) + self.slide_count(s, a),
                        decreases m - j,
                    {
                        let a = list[j];
                        proof {
                            assert(list@.contains(a));
                            assert(self.counts@.contains_key(comp(s, a)));
                            assert(!list@.take(j as int).contains(a)) by {
                                if list@.take(j as int).contains(a) {
                                    let i0 = choose|i0: int|
                                        0 <= i0 < j && #[trigger] list@.take(j as int)[i0] == a;
                                    assert(list@[i0] == list@[j as int]);
                                }
                            }
                            self.lemma_window_total_mono(
                                window_end as int,
                                i + 1 as int,
                                slice_count as int,
                                slide as int,
                                a,
                            );
                            assert(acc.count(a) + self.slide_count(s, a) <= usize::MAX);
                        }
                        let key = comp_key(s, a);
                        let c = match self.counts.get(&key) {
                            Some(v) => *v,
                            None => 0,
                        };
                        proof {
                            assert(c == self.slide_count(s, a));
                            assert(c >= 1);
                        }
                        acc.bump(a, c);
                        proof {
                            assert forall|q: usize|
                                acc.count(q) == self.window_total(
                                    window_end as int,
                                    i as int,
                                    slide as int,
                                    q,
                                ) + if list@.take(j + 1 as int).contains(q) {
                                    self.slide_count(s, q) as int
                                } else {
                                    0int
                                } by {
                                if q == a {
                                    assert(list@.take(j + 1 as int)[j as int] == a);
                                    assert(list@.take(j + 1 as int).contains(a));
                                } else {
                                    if list@.take(j as int).contains(q) {
                                        let i0 = choose|i0: int|
                                            0 <= i0 < j && #[trigger] list@.take(j as int)[i0]
                                                == q;
                                        assert(list@.take(j + 1 as int)[i0] == q);
                                        assert(list@.take(j + 1 as int).contains(q));
                                    }
                                    if list@.take(j + 1 as int).contains(q) {
                                        let i0 = choose|i0: int|
                                            0 <= i0 < j + 1 && #[trigger] list@.take(
                                                j + 1 as int,
                                            )[i0] == q;
                                        assert(i0 < j);
                                        assert(list@.take(j as int)[i0] == q);
                                        assert(list@.take(j as int).contains(q));
                                    }
                                }
                            }
                        }
                        j = j + 1;
                    }
                    proof {
                        assert forall|a: usize|
                            acc.count(a) == self.window_total(
                                window_end as int,
                                i + 1,
                                slide as int,
                                a,
                            ) by {
                            if self.slide_count(s, a) > 0 {
                                assert(self.counts@.contains_key(comp(s, a)));
                                assert(list@.contains(a));
                                assert(list@.take(m as int) =~= list@);
                            } else {
                                if list@.take(m as int).contains(a) {
                                    assert(list@.take(m as int) =~= list@);
                                }
                            }
                        }
                    }
                },
                None => {
                    proof {
                        assert forall|a: usize|
                            acc.count(a) == self.window_total(
                                window_end as int,
                                i + 1,
                                slide as int,
                                a,
                            ) by {
                            assert(!self.counts@.contains_key(comp(s, a)));
                            assert(self.slide_count(s, a) == 0);
                        }
                    }
                },
            }
            i = i + 1;
        }
        let r = acc.max_entry();
        proof {
            let totals = (|a: usize|
                self.window_total(window_end as int, slice_count as int, slide as int, a));
            match r {
                None => {
                    assert forall|a: usize| #[trigger] totals(a) == 0 by {
                        assert(acc.count(a) == 0);
                    }
                },
                Some(p) => {
                    assert(acc.count(p.0) == p.1);
                    assert(totals(p.0) == p.1);
                    assert forall|a: usize|
                        #[trigger] totals(a) < p.1 || (totals(a) == p.1 && a <= p.0) by {
                        assert(acc.count(a) < p.1 || (acc.count(a) == p.1 && a <= p.0));
                        assert(totals(a) == acc.count(a));
                    }
                },
            }
            assert(is_hot_item(totals, r));
        }
        r
    }

    /// Drops the slide ending at `s`: removes its index entry and every
    /// composite-keyed count under it.
    pub fn expire_slide(&mut self, s: usize)
        requires
            old(self).wf(),
        ensures
            final(self).wf(),
            forall|sl: usize, a: usize|
                #[trigger] final(self).slide_count(sl, a) == if sl == s {
                    0usize
                } else {
                    old(self).slide_count(sl, a)
                },
    {
        let list_opt = self.index.remove(&s);
        match list_opt {
            Some(list) => {
                let m = list.len();
                let mut j: usize = 0;
                while j < m
                    invariant
                        m == list@.len(),
                        j <= m,
                        old(self).wf(),
                        old(self).index@.contains_key(s),
                        list@ == old(self).index@[s]@,
                        self.index@ == old(self).index@.remove(s),
                        forall|k: u128|
                            #[trigger] self.counts@.contains_key(k) <==> (old(
                                self,
                            ).counts@.contains_key(k) && !(exists|i0: int|
                                0 <= i0 < j && k == comp(s, #[trigger] list@[i0]))),
                        forall|k: u128|
                            self.counts@.contains_key(k) ==> #[trigger] self.counts@[k] == old(
                                self,
                            ).counts@[k],
                    decreases m - j,
                {
                    let a = list[j];
                    let key = comp_key(s, a);
                    self.counts.remove(&key);
                    proof {
                        assert forall|k: u128|
                            #[trigger] self.counts@.contains_key(k) <==> (old(
                                self,
                            ).counts@.contains_key(k) && !(exists|i0: int|
                                0 <= i0 < j + 1 && k == comp(s, #[trigger] list@[i0]))) by {
                            if k == key {
                                assert(comp(s, list@[j as int]) == k);
                            } else {
                                if exists|i0: int|
                                    0 <= i0 < j + 1 && k == comp(s, #[trigger] list@[i0]) {
                                    let i0 = choose|i0: int|
                                        0 <= i0 < j + 1 && k == comp(s, #[trigger] list@[i0]);
                                    assert(i0 < j);
                                }
                            }
                        }
                    }
                    j = j + 1;
                }
                proof {
                    assert forall|sl: usize, a: usize|
                        #[trigger] self.slide_count(sl, a) == if sl == s {
                            0usize
                        } else {
                            old(self).slide_count(sl, a)
                        } by {
                        if sl == s {
                            if self.counts@.contains_key(comp(s, a)) {
                                assert(old(self).counts@.contains_key(comp(s, a)));
                                assert(list@.contains(a));
                                let i0 = choose|i0: int|
                                    0 <= i0 < list@.len() && list@[i0] == a;
                                assert(comp(s, list@[i0]) == comp(s, a));
                            }
                        } else {
                            assert(comp(sl, a) != comp(s, a)) by {
                                lemma_usize_fits();
                                if comp(sl, a) == comp(s, a) {
                                    lemma_comp_injective(sl, a, s, a);
                                }
                            }
                            if old(self).counts@.contains_key(comp(sl, a)) {
                                assert(!(exists|i0: int|
                                    0 <= i0 < m && comp(sl, a) == comp(
                                        s,
                                        #[trigger] list@[i0],
                                    ))) by {
                                    if exists|i0: int|
                                        0 <= i0 < m && comp(sl, a) == comp(
                                            s,
                                            #[trigger] list@[i0],
                                        ) {
                                        let i0 = choose|i0: int|
                                            0 <= i0 < m && comp(sl, a) == comp(
                                                s,
                                                #[trigger] list@[i0],
                                            );
                                        lemma_comp_injective(sl, a, s, list@[i0]);
                                    }
                                }
                            }
                        }
                    }
                    assert forall|s2: usize, a: usize|
                        #[trigger] self.counts@.contains_key(comp(s2, a)) <==> (
                        self.index@.contains_key(s2) && self.index@[s2]@.contains(a)) by {
                        if s2 == s {
                            if self.counts@.contains_key(comp(s2, a)) {
                                assert(self.slide_count(s, a) > 0);
                            }
                        } else {
                            if self.counts@.contains_key(comp(s2, a)) {
                                assert(old(self).counts@.contains_key(comp(s2, a)));
                            }
                            if old(self).counts@.contains_key(comp(s2, a)) {
                                assert(self.slide_count(s2, a) == old(self).slide_count(s2, a));
                                assert(old(self).slide_count(s2, a) >= 1);
                                assert(self.counts@.contains_key(comp(s2, a)));
                            }
                        }
                    }
                }
            },
            None => {
                proof {
                    assert forall|sl: usize, a: usize|
                        #[trigger] self.slide_count(sl, a) == if sl == s {
                            0usize
                        } else {
                            old(self).slide_count(sl, a)
                        } by {
                        if sl == s {
                            if self.counts@.contains_key(comp(s, a)) {
                                assert(old(self).index@.contains_key(s));
                            }
                        }
                    }
                }
            },
        }
    }

    /// Notification at a window end: emit the hottest auction of the window,
    /// then drop the slide that has just left every window.
    pub fn on_window_end(&mut self, window_end: usize, slice_count: usize, slide: usize) -> (r:
        Option<(usize, usize)>)
        requires
            old(self).wf(),
            slide >= 1,
            slice_count >= 1,
            window_end >= slice_count * slide,
            forall|a: usize|
                #![auto]
                old(self).window_total(window_end as int, slice_count as int, slide as int, a)
                    <= usize::MAX,
        ensures
            final(self).wf(),
            is_hot_item(
                (|a: usize|
                    old(self).window_total(
                        window_end as int,
                        slice_count as int,
                        slide as int,
                        a,
                    )),
                r,
            ),
            forall|sl: usize, a: usize|
                #[trigger] final(self).slide_count(sl, a) == if sl == window_end - slice_count
                    * slide {
                    0usize
                } else {
                    old(self).slide_count(sl, a)
                },
    {
        proof {
            assert((slice_count - 1) * slide <= slice_count * slide) by (nonlinear_arith)
                requires
                    slice_count >= 1,
                    slide >= 1,
            ;
        }
        let r = self.hot_item(window_end, slice_count, slide);
        self.expire_slide(window_end - slice_count * slide);
        r
    }
}

/// The composite key of slide end `s` and auction `a`, as stored.
fn comp_key(s: usize, a: usize) -> (k: u128)
    ensures
        k == comp(s, a),
{
    proof {
        lemma_usize_fits();
        lemma_comp_value(s, a);
        assert(s as u128 * spec_comp_base() + a as u128 <= u128::MAX) by (nonlinear_arith)
            requires
                s < spec_comp_base(),
                a < spec_comp_base(),
        ;
    }
    (s as u128) * 0x1_0000_0000_0000_0000u128 + (a as u128)
}

/// Equal per-slide counts give equal window totals.
pub proof fn lemma_equal_counts_equal_totals(
    sa: Q5State,
    sb: Q5IndexState,
    w_end: int,
    n: int,
    slide: int,
    a: usize,
)
    requires
        forall|s: usize, x: usize| #![auto] sa.slide_count(s, x) == sb.slide_count(s, x),
    ensures
        sa.window_total(w_end, n, slide, a) == sb.window_total(w_end, n, slide, a),
    decreases n,
{
    if n > 0 {
        lemma_equal_counts_equal_totals(sa, sb, w_end, n - 1, slide, a);
    }
}

/// The two stage-1 flavours agree: when their per-slide counts coincide,
/// whatever each one's window-end emission is, it is the same pair. Together
/// with the matching `on_bid` contracts — both record a bid as the same
/// pointwise count change — equal inputs keep the counts equal, so the two
/// storage layouts emit identical streams.
pub proof fn lemma_variants_agree(
    sa: Q5State,
    sb: Q5IndexState,
    window_end: int,
    slice_count: int,
    slide: int,
    ra: Option<(usize, usize)>,
    rb: Option<(usize, usize)>,
)
    requires
        forall|s: usize, x: usize| #![auto] sa.slide_count(s, x) == sb.slide_count(s, x),
        is_hot_item((|a: usize| sa.window_total(window_end, slice_count, slide, a)), ra),
        is_hot_item((|a: usize| sb.window_total(window_end, slice_count, slide, a)), rb),
    ensures
        ra == rb,
{
    let ta = (|a: usize| sa.window_total(window_end, slice_count, slide, a));
    let tb = (|a: usize| sb.window_total(window_end, slice_count, slide, a));
    assert forall|a: usize| #[trigger] ta(a) == tb(a) by {
        lemma_equal_counts_equal_totals(sa, sb, window_end, slice_count, slide, a);
    }
    assert(ta =~= tb);
    lemma_hot_item_unique(ta, ra, rb);
}

} // verus!
