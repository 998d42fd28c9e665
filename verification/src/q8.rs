//! Q8: sellers who created an auction within the monitoring window after
//! registering as a person. Persons are recorded by id; auctions are
//! buffered under the logical timestamp they arrived at; when a
//! notification closes a timestamp, every buffered auction whose event time
//! the frontier has passed is joined against the person table and the
//! seller emitted when the auction falls inside the window that starts at
//! the seller's registration.

use vstd::prelude::*;
use std::collections::HashMap;

verus! {

broadcast use vstd::std_specs::hash::group_hash_axioms;

/// The join condition on one buffered auction `(seller, a_time)`: closed by
/// the frontier, seller known, and inside the seller's window.
pub open spec fn q8_match(
    pair: (usize, usize),
    people: Map<usize, usize>,
    cap_nex: usize,
    w: usize,
) -> bool {
    &&& pair.1 <= cap_nex
    &&& people.contains_key(pair.0)
    &&& pair.1 < people[pair.0] + w
}

/// The sellers emitted for a bucket of buffered auctions, in order.
pub open spec fn emitted_of(
    pairs: Seq<(usize, usize)>,
    people: Map<usize, usize>,
    cap_nex: usize,
    w: usize,
) -> Seq<usize>
    decreases pairs.len(),
{
    if pairs.len() == 0 {
        Seq::empty()
    } else {
        let r = emitted_of(pairs.drop_last(), people, cap_nex, w);
        if q8_match(pairs.last(), people, cap_nex, w) {
            r.push(pairs.last().0)
        } else {
            r
        }
    }
}

/// The buffered auctions that survive a notification: those the frontier
/// has not yet passed.
pub open spec fn kept_of(pairs: Seq<(usize, usize)>, cap_nex: usize) -> Seq<(usize, usize)>
    decreases pairs.len(),
{
    if pairs.len() == 0 {
        Seq::empty()
    } else {
        let r = kept_of(pairs.drop_last(), cap_nex);
        if pairs.last().1 > cap_nex {
            r.push(pairs.last())
        } else {
            r
        }
    }
}

/// Every element of `out` has a witnessing buffered auction under one of
/// the timestamps of `lst` in `state`, closed by the frontier and matching.
pub open spec fn q8_sound_under(
    out: Seq<usize>,
    lst: Seq<usize>,
    state: Q8State,
    cap_nex: usize,
    w: usize,
) -> bool {
    forall|j: int|
        #![trigger out[j]]
        0 <= j < out.len() ==> exists|ts: usize, k: int|
            lst.contains(ts) && 0 <= k < state.bucket(ts).len() && (#[trigger] state.bucket(
                ts,
            )[k]).0 == out[j] && q8_match(state.bucket(ts)[k], state.people(), cap_nex, w)
}

/// A bucket whose auctions all lie beyond the frontier emits nothing.
proof fn lemma_emitted_of_none(
    pairs: Seq<(usize, usize)>,
    people: Map<usize, usize>,
    cap_nex: usize,
    w: usize,
)
    requires
        forall|j: int| 0 <= j < pairs.len() ==> (#[trigger] pairs[j]).1 > cap_nex,
    ensures
        emitted_of(pairs, people, cap_nex, w) == Seq::<usize>::empty(),
    decreases pairs.len(),
{
    if pairs.len() > 0 {
        assert(forall|j: int|
            0 <= j < pairs.drop_last().len() ==> (#[trigger] pairs.drop_last()[j]).1 > cap_nex);
        lemma_emitted_of_none(pairs.drop_last(), people, cap_nex, w);
        assert(pairs[pairs.len() - 1].1 > cap_nex);
    }
}

/// Every emitted seller of a bucket has a witnessing pair in it: closed by
/// the frontier, carrying that seller, matching the join condition.
pub open spec fn emitted_witnessed(
    pairs: Seq<(usize, usize)>,
    people: Map<usize, usize>,
    cap_nex: usize,
    w: usize,
) -> bool {
    forall|s: usize|
        #[trigger] emitted_of(pairs, people, cap_nex, w).contains(s) ==> exists|k: int|
            0 <= k < pairs.len() && (#[trigger] pairs[k]).0 == s && q8_match(
                pairs[k],
                people,
                cap_nex,
                w,
            )
}

/// Every emitted seller has a witnessing buffered auction that the frontier
/// closed, whose seller it is, inside the seller's window.
pub proof fn lemma_emitted_of_props(
    pairs: Seq<(usize, usize)>,
    people: Map<usize, usize>,
    cap_nex: usize,
    w: usize,
)
    ensures
        emitted_witnessed(pairs, people, cap_nex, w),
    decreases pairs.len(),
{
    if pairs.len() > 0 {
        lemma_emitted_of_props(pairs.drop_last(), people, cap_nex, w);
        let e = emitted_of(pairs, people, cap_nex, w);
        let ep = emitted_of(pairs.drop_last(), people, cap_nex, w);
        assert forall|s: usize|
            #[trigger] emitted_of(pairs, people, cap_nex, w).contains(s) implies exists|k: int|
                0 <= k < pairs.len() && (#[trigger] pairs[k]).0 == s && q8_match(
                    pairs[k],
                    people,
                    cap_nex,
                    w,
                ) by {
            let j = choose|j: int| 0 <= j < e.len() && e[j] == s;
            if j < ep.len() {
                assert(e[j] == ep[j]);
                assert(ep.contains(s)) by {
                    assert(ep[j] == s);
                }
                let k = choose|k: int|
                    0 <= k < pairs.drop_last().len() && (#[trigger] pairs.drop_last()[k]).0 == s
                        && q8_match(pairs.drop_last()[k], people, cap_nex, w);
                assert(pairs[k] == pairs.drop_last()[k]);
            } else {
                assert(e[j] == pairs.last().0);
                assert(pairs[pairs.len() - 1] == pairs.last());
            }
        }
    }
}

/// Every buffered auction that the frontier closed and that matches is
/// emitted.
pub proof fn lemma_emitted_of_complete(
    pairs: Seq<(usize, usize)>,
    people: Map<usize, usize>,
    cap_nex: usize,
    w: usize,
)
    ensures
        forall|k: int|
            0 <= k < pairs.len() && q8_match(#[trigger] pairs[k], people, cap_nex, w)
                ==> emitted_of(pairs, people, cap_nex, w).contains(pairs[k].0),
    decreases pairs.len(),
{
    if pairs.len() > 0 {
        lemma_emitted_of_complete(pairs.drop_last(), people, cap_nex, w);
        let e = emitted_of(pairs, people, cap_nex, w);
        let ep = emitted_of(pairs.drop_last(), people, cap_nex, w);
        assert forall|k: int|
            0 <= k < pairs.len() && q8_match(#[trigger] pairs[k], people, cap_nex, w) implies
            e.contains(pairs[k].0) by {
            if k < pairs.len() - 1 {
                assert(pairs.drop_last()[k] == pairs[k]);
                assert(ep.contains(pairs[k].0));
                let i = choose|i: int| 0 <= i < ep.len() && ep[i] == pairs[k].0;
                assert(e[i] == pairs[k].0);
            } else {
                assert(pairs[k] == pairs.last());
                assert(e.last() == pairs[k].0);
            }
        }
    }
}

/// The Q8 containment law: when every buffered auction follows its seller's
/// registration — sellers register before they sell — every emitted seller
/// has an auction inside `[registration, registration + window)`.
pub proof fn lemma_q8_containment(
    pairs: Seq<(usize, usize)>,
    people: Map<usize, usize>,
    cap_nex: usize,
    w: usize,
)
    requires
        forall|k: int|
            0 <= k < pairs.len() && people.contains_key((#[trigger] pairs[k]).0)
                ==> people[pairs[k].0] <= pairs[k].1,
    ensures
        forall|j: int|
            0 <= j < emitted_of(pairs, people, cap_nex, w).len() ==> {
                let s = #[trigger] emitted_of(pairs, people, cap_nex, w)[j];
                &&& people.contains_key(s)
                &&& exists|k: int|
                    0 <= k < pairs.len() && (#[trigger] pairs[k]).0 == s && people[s]
                        <= pairs[k].1 < people[s] + w
            },
{
    lemma_emitted_of_props(pairs, people, cap_nex, w);
    let e = emitted_of(pairs, people, cap_nex, w);
    assert forall|j: int| #![trigger emitted_of(pairs, people, cap_nex, w)[j]] 0 <= j < e.len() implies {
        let s = e[j];
        &&& people.contains_key(s)
        &&& exists|k: int|
            0 <= k < pairs.len() && (#[trigger] pairs[k]).0 == s && people[s] <= pairs[k].1
                < people[s] + w
    } by {
        let s = e[j];
        assert(e.contains(s)) by {
            assert(e[j] == s);
        }
        let k = choose|k: int|
            0 <= k < pairs.len() && (#[trigger] pairs[k]).0 == s && q8_match(
                pairs[k],
                people,
                cap_nex,
                w,
            );
        assert(people[s] <= pairs[k].1 < people[s] + w);
    }
}

proof fn lemma_kept_of_props(pairs: Seq<(usize, usize)>, cap_nex: usize)
    ensures
        forall|j: int|
            0 <= j < kept_of(pairs, cap_nex).len() ==> (#[trigger] kept_of(pairs, cap_nex)[j]).1
                > cap_nex && pairs.contains(kept_of(pairs, cap_nex)[j]),
    decreases pairs.len(),
{
    if pairs.len() > 0 {
        lemma_kept_of_props(pairs.drop_last(), cap_nex);
        let r = kept_of(pairs, cap_nex);
        let rp = kept_of(pairs.drop_last(), cap_nex);
        assert forall|j: int|
            0 <= j < r.len() implies (#[trigger] r[j]).1 > cap_nex && pairs.contains(r[j]) by {
            if j < rp.len() {
                assert(rp[j] == r[j]);
                assert(pairs.drop_last().contains(rp[j]));
                let i = choose|i: int|
                    0 <= i < pairs.drop_last().len() && pairs.drop_last()[i] == rp[j];
                assert(pairs[i] == rp[j]);
            } else {
                assert(r[j] == pairs.last());
                assert(pairs[pairs.len() - 1] == pairs.last());
            }
        }
    }
}

proof fn lemma_kept_of_idempotent(pairs: Seq<(usize, usize)>, cap_nex: usize)
    requires
        forall|j: int| 0 <= j < pairs.len() ==> (#[trigger] pairs[j]).1 > cap_nex,
    ensures
        kept_of(pairs, cap_nex) == pairs,
    decreases pairs.len(),
{
    if pairs.len() > 0 {
        assert(forall|j: int|
            0 <= j < pairs.drop_last().len() ==> (#[trigger] pairs.drop_last()[j]).1 > cap_nex);
        lemma_kept_of_idempotent(pairs.drop_last(), cap_nex);
        assert(kept_of(pairs, cap_nex) =~= pairs);
    }
}

/// Joins one bucket against the person table: the emitted sellers and the
/// surviving buffered auctions.
fn split_bucket(
    people: &HashMap<usize, usize>,
    pairs: &Vec<(usize, usize)>,
    cap_nex: usize,
    w: usize,
) -> (r: (Vec<usize>, Vec<(usize, usize)>))
    ensures
        r.0@ == emitted_of(pairs@, people@, cap_nex, w),
        r.1@ == kept_of(pairs@, cap_nex),
{
    let mut emitted: Vec<usize> = Vec::new();
    let mut kept: Vec<(usize, usize)> = Vec::new();
    let n = pairs.len();
    let mut j: usize = 0;
    while j < n
        invariant
            n == pairs@.len(),
            j <= n,
            emitted@ == emitted_of(pairs@.take(j as int), people@, cap_nex, w),
            kept@ == kept_of(pairs@.take(j as int), cap_nex),
        decreases n - j,
    {
        let (seller, a_time) = pairs[j];
        proof {
            assert(pairs@.take(j + 1 as int).drop_last() =~= pairs@.take(j as int));
            assert(pairs@.take(j + 1 as int).last() == (seller, a_time));
        }
        if a_time <= cap_nex {
            match people.get(&seller) {
                Some(pt) => {
                    let inside = if a_time >= *pt {
                        a_time - *pt < w
                    } else {
                        true
                    };
                    if inside {
                        emitted.push(seller);
                    }
                },
                None => {},
            }
        } else {
            kept.push((seller, a_time));
        }
        j = j + 1;
    }
    proof {
        assert(pairs@.take(n as int) =~= pairs@);
    }
    (emitted, kept)
}

pub struct Q8State {
    new_people: HashMap<usize, usize>,
    auctions_state: HashMap<usize, Vec<(usize, usize)>>,
    pending: Vec<usize>,
}

impl Q8State {
    /// The registration time recorded for a person.
    pub closed spec fn person_time(self, p: usize) -> Option<usize> {
        if self.new_people@.contains_key(p) {
            Some(self.new_people@[p])
        } else {
            None
        }
    }

    pub closed spec fn people(self) -> Map<usize, usize> {
        self.new_people@
    }

    /// The auctions buffered under a logical timestamp.
    pub closed spec fn bucket(self, ts: usize) -> Seq<(usize, usize)> {
        if self.auctions_state@.contains_key(ts) {
            self.auctions_state@[ts]@
        } else {
            Seq::empty()
        }
    }

    /// The timestamps whose buckets survived earlier notifications.
    pub closed spec fn pending_ts(self) -> Seq<usize> {
        self.pending@
    }

    pub fn new() -> (s: Q8State)
        ensures
            forall|p: usize| s.person_time(p) is None,
            forall|ts: usize| s.bucket(ts) == Seq::<(usize, usize)>::empty(),
            s.pending_ts() == Seq::<usize>::empty(),
    {
        Q8State { new_people: HashMap::new(), auctions_state: HashMap::new(), pending: Vec::new() }
    }

    /// Records a person's registration time.
    pub fn on_person(&mut self, person: usize, p_time: usize)
        ensures
            final(self).people() == old(self).people().insert(person, p_time),
            forall|ts: usize| final(self).bucket(ts) == old(self).bucket(ts),
            final(self).pending_ts() == old(self).pending_ts(),
    {
        self.new_people.insert(person, p_time);
    }

    /// Buffers a batch of `(seller, auction_time)` pairs under the logical
    /// timestamp they arrived at. The caller requests a notification at
    /// that timestamp.
    pub fn on_auctions(&mut self, ts: usize, batch: &Vec<(usize, usize)>)
        ensures
            final(self).bucket(ts) == old(self).bucket(ts) + batch@,
            forall|t: usize| t != ts ==> final(self).bucket(t) == old(self).bucket(t),
            final(self).people() == old(self).people(),
            final(self).pending_ts() == old(self).pending_ts(),
    {
        let mut bucket = match self.auctions_state.remove(&ts) {
            Some(b) => b,
            None => Vec::new(),
        };
        let n = batch.len();
        let mut j: usize = 0;
        while j < n
            invariant
                n == batch@.len(),
                j <= n,
                bucket@ == old(self).bucket(ts) + batch@.take(j as int),
                self.auctions_state@ == old(self).auctions_state@.remove(ts),
                self.new_people@ == old(self).new_people@,
                self.pending@ == old(self).pending@,
            decreases n - j,
        {
            bucket.push(batch[j]);
            proof {
                assert(old(self).bucket(ts) + batch@.take(j + 1 as int) =~= (old(self).bucket(ts)
                    + batch@.take(j as int)).push(batch@[j as int]));
            }
            j = j + 1;
        }
        proof {
            assert(batch@.take(n as int) =~= batch@);
        }
        self.auctions_state.insert(ts, bucket);
        proof {
            assert forall|t: usize| t != ts implies final(self).bucket(t) == old(self).bucket(
                t,
            ) by {
                assert(self.auctions_state@.contains_key(t) == old(
                    self,
                ).auctions_state@.contains_key(t));
                if self.auctions_state@.contains_key(t) {
                    assert(self.auctions_state@[t] == old(self).auctions_state@[t]);
                }
            }
        }
    }

    /// The notification at logical time `cap`, whose event-time horizon is
    /// `cap_nex`: joins every pending bucket and the bucket of `cap` against
    /// the person table, emits the matching sellers, and keeps the buffered
    /// auctions the frontier has not passed.
    pub fn on_notify(&mut self, cap: usize, cap_nex: usize, w: usize) -> (out: Vec<usize>)
        ensures
            final(self).people() == old(self).people(),
            // soundness: every emitted seller has a closed, matching,
            // buffered auction under some processed timestamp
            q8_sound_under(out@, old(self).pending_ts().push(cap), *old(self), cap_nex, w),
            // completeness: every closed matching buffered auction under a
            // processed timestamp has its seller emitted
            forall|ts: usize, k: int|
                (old(self).pending_ts().contains(ts) || ts == cap) && 0 <= k < old(self).bucket(
                    ts,
                ).len() && q8_match(#[trigger] old(self).bucket(ts)[k], old(self).people(), cap_nex, w)
                    ==> out@.contains(old(self).bucket(ts)[k].0),
            // surviving state
            forall|ts: usize|
                #![auto]
                if old(self).pending_ts().contains(ts) || ts == cap {
                    final(self).bucket(ts) == kept_of(old(self).bucket(ts), cap_nex)
                } else {
                    final(self).bucket(ts) == old(self).bucket(ts)
                },
            forall|ts: usize|
                #[trigger] final(self).pending_ts().contains(ts) ==> (old(
                    self,
                ).pending_ts().contains(ts) || ts == cap) && final(self).bucket(ts).len() > 0,
    {
        let ghost p0 = self.new_people@;
        let ghost m0 = old(self).auctions_state@;
        let mut entries: Vec<usize> = Vec::new();
        let np = self.pending.len();
        let mut i: usize = 0;
        while i < np
            invariant
                np == self.pending@.len(),
                i <= np,
                entries@ == self.pending@.take(i as int),
                self == old(self),
            decreases np - i,
        {
            let t = self.pending[i];
            entries.push(t);
            proof {
                assert(self.pending@.take(i + 1 as int) =~= self.pending@.take(i as int).push(t));
            }
            i = i + 1;
        }
        proof {
            assert(self.pending@.take(np as int) =~= self.pending@);
        }
        entries.push(cap);
        let ghost lv = entries@;
        proof {
            assert(lv == old(self).pending@.push(cap));
            assert forall|ts: usize|
                lv.contains(ts) <==> (old(self).pending_ts().contains(ts) || ts == cap) by {
                if lv.contains(ts) {
                    let k = choose|k: int| 0 <= k < lv.len() && lv[k] == ts;
                    if k < lv.len() - 1 {
                        assert(old(self).pending@[k] == ts);
                    }
                }
                if old(self).pending_ts().contains(ts) {
                    let k = choose|k: int|
                        0 <= k < old(self).pending@.len() && old(self).pending@[k] == ts;
                    assert(lv[k] == ts);
                }
                if ts == cap {
                    assert(lv.last() == cap);
                }
            }
        }
        let mut out: Vec<usize> = Vec::new();
        let mut keep: Vec<usize> = Vec::new();
        let n = entries.len();
        let mut j: usize = 0;
        while j < n
            invariant
                n == lv.len(),
                entries@ == lv,
                j <= n,
                self.new_people@ == p0,
                p0 == old(self).new_people@,
                forall|ts: usize|
                    #![auto]
                    old(self).auctions_state@.contains_key(ts) == m0.contains_key(ts) && (
                    m0.contains_key(ts) ==> old(self).auctions_state@[ts] == m0[ts]),
                forall|ts: usize|
                    #![auto]
                    if lv.take(j as int).contains(ts) {
                        self.bucket(ts) == kept_of(old(self).bucket(ts), cap_nex)
                    } else {
                        self.bucket(ts) == old(self).bucket(ts)
                    },
                q8_sound_under(out@, lv, *old(self), cap_nex, w),
                forall|ts: usize, k: int|
                    lv.take(j as int).contains(ts) && 0 <= k < old(self).bucket(ts).len()
                        && q8_match(#[trigger] old(self).bucket(ts)[k], p0, cap_nex, w)
                        ==> out@.contains(old(self).bucket(ts)[k].0),
                forall|ts: usize|
                    #[trigger] keep@.contains(ts) ==> lv.take(j as int).contains(ts)
                        && self.bucket(ts).len() > 0,
            decreases n - j,
        {
            let ghost sp = self.auctions_state@;
            let ghost out_pre = out@;
            let ghost keep_pre = keep@;
            let ts = entries[j];
            proof {
                assert(lv[j as int] == ts);
                assert(lv.contains(ts));
                assert(lv.take(j + 1 as int)[j as int] == ts);
                assert forall|q: usize|
                    lv.take(j as int).contains(q) implies lv.take(j + 1 as int).contains(q) by {
                    let i0 = choose|i0: int|
                        0 <= i0 < j && #[trigger] lv.take(j as int)[i0] == q;
                    assert(lv.take(j + 1 as int)[i0] == q);
                }
                assert forall|q: usize|
                    lv.take(j + 1 as int).contains(q) && q != ts implies lv.take(
                    j as int,
                ).contains(q) by {
                    let i0 = choose|i0: int|
                        0 <= i0 < j + 1 && #[trigger] lv.take(j + 1 as int)[i0] == q;
                    assert(i0 < j);
                    assert(lv.take(j as int)[i0] == q);
                }
            }
            match self.auctions_state.remove(&ts) {
                None => {
                    proof {
                        assert(self.bucket(ts) == Seq::<(usize, usize)>::empty());
                        if !lv.take(j as int).contains(ts) {
                            assert(old(self).bucket(ts) == Seq::<(usize, usize)>::empty());
                            assert(kept_of(old(self).bucket(ts), cap_nex) =~= Seq::<(
                                usize,
                                usize,
                            )>::empty());
                        }
                        assert forall|q: usize| q != ts implies (self.auctions_state@.contains_key(
                            q,
                        ) == sp.contains_key(q) && (sp.contains_key(q)
                            ==> self.auctions_state@[q] == sp[q])) by {}
                        assert forall|t2: usize| #[trigger] keep@.contains(t2) implies lv.take(
                            j + 1 as int,
                        ).contains(t2) && self.bucket(t2).len() > 0 by {
                            assert(t2 != ts);
                        }
                    }
                },
                Some(bucketv) => {
                    let (em, kept) = split_bucket(&self.new_people, &bucketv, cap_nex, w);
                    proof {
                        if lv.take(j as int).contains(ts) {
                            assert(bucketv@ == kept_of(old(self).bucket(ts), cap_nex));
                            lemma_kept_of_props(old(self).bucket(ts), cap_nex);
                            lemma_kept_of_idempotent(bucketv@, cap_nex);
                            assert(kept@ == bucketv@);
                            assert forall|p: int|
                                0 <= p < bucketv@.len() implies (#[trigger] bucketv@[p]).1
                                > cap_nex by {
                                assert(kept_of(old(self).bucket(ts), cap_nex)[p] == bucketv@[p]);
                            }
                            lemma_emitted_of_none(bucketv@, p0, cap_nex, w);
                            assert(em@.len() == 0);
                        } else {
                            assert(bucketv@ == old(self).bucket(ts));
                        }
                    }
                    let m = em.len();
                    let mut k: usize = 0;
                    while k < m
                        invariant
                            m == em@.len(),
                            k <= m,
                            out@ == out_pre + em@.take(k as int),
                        decreases m - k,
                    {
                        let s = em[k];
                        out.push(s);
                        proof {
                            assert(out_pre + em@.take(k + 1 as int) =~= (out_pre + em@.take(
                                k as int,
                            )).push(s));
                        }
                        k = k + 1;
                    }
                    proof {
                        assert(em@.take(m as int) =~= em@);
                        assert(out@ == out_pre + em@);
                    }
                    if kept.len() > 0 {
                        self.auctions_state.insert(ts, kept);
                        keep.push(ts);
                        proof {
                            assert(keep@ == keep_pre.push(ts));
                        }
                    }
                    proof {
                        assert forall|t2: usize| #[trigger] keep@.contains(t2) implies lv.take(
                            j + 1 as int,
                        ).contains(t2) && self.bucket(t2).len() > 0 by {
                            if keep_pre.contains(t2) {
                                if t2 != ts {
                                } else {
                                    assert(self.bucket(ts).len() > 0);
                                }
                            } else {
                                let i0 = choose|i0: int|
                                    0 <= i0 < keep@.len() && keep@[i0] == t2;
                                assert(i0 == keep@.len() - 1 || keep_pre[i0] == t2);
                                assert(t2 == ts);
                            }
                        }
                        assert forall|q: usize| q != ts implies (self.auctions_state@.contains_key(
                            q,
                        ) == sp.contains_key(q) && (sp.contains_key(q)
                            ==> self.auctions_state@[q] == sp[q])) by {}
                        // soundness of the appended sellers
                        lemma_emitted_of_props(bucketv@, p0, cap_nex, w);
                        assert forall|p: int|
                            #![trigger out@[p]]
                            0 <= p < out@.len() implies exists|ts2: usize, k2: int|
                                lv.contains(ts2) && 0 <= k2 < old(self).bucket(ts2).len() && (
                                #[trigger] old(self).bucket(ts2)[k2]).0 == out@[p] && q8_match(
                                    old(self).bucket(ts2)[k2],
                                    old(self).people(),
                                    cap_nex,
                                    w,
                                ) by {
                            if p < out_pre.len() {
                                assert(out@[p] == out_pre[p]);
                            } else {
                                let pe = p - out_pre.len();
                                assert(out@[p] == em@[pe]);
                                assert(!lv.take(j as int).contains(ts));
                                assert(emitted_of(bucketv@, p0, cap_nex, w).contains(
                                    em@[pe],
                                )) by {
                                    assert(emitted_of(bucketv@, p0, cap_nex, w)[pe] == em@[pe]);
                                }
                                let k2 = choose|k2: int|
                                    0 <= k2 < bucketv@.len() && (#[trigger] bucketv@[k2]).0
                                        == em@[pe] && q8_match(bucketv@[k2], p0, cap_nex, w);
                                assert(old(self).bucket(ts)[k2].0 == out@[p] && q8_match(
                                    old(self).bucket(ts)[k2],
                                    p0,
                                    cap_nex,
                                    w,
                                ));
                            }
                        }
                        assert(q8_sound_under(out@, lv, *old(self), cap_nex, w));
                        // completeness for the newly processed timestamp
                        lemma_emitted_of_complete(bucketv@, p0, cap_nex, w);
                        assert forall|ts2: usize, k2: int|
                            lv.take(j + 1 as int).contains(ts2) && 0 <= k2 < old(self).bucket(
                                ts2,
                            ).len() && q8_match(
                                #[trigger] old(self).bucket(ts2)[k2],
                                p0,
                                cap_nex,
                                w,
                            ) implies out@.contains(old(self).bucket(ts2)[k2].0) by {
                            if lv.take(j as int).contains(ts2) {
                                assert(out_pre.contains(old(self).bucket(ts2)[k2].0));
                                let i0 = choose|i0: int|
                                    0 <= i0 < out_pre.len() && out_pre[i0] == old(self).bucket(
                                        ts2,
                                    )[k2].0;
                                assert(out@[i0] == old(self).bucket(ts2)[k2].0);
                            } else {
                                assert(ts2 == ts);
                                if !lv.take(j as int).contains(ts) {
                                    assert(emitted_of(bucketv@, p0, cap_nex, w).contains(
                                        old(self).bucket(ts)[k2].0,
                                    ));
                                    assert(em@.contains(old(self).bucket(ts)[k2].0));
                                    let i0 = choose|i0: int|
                                        0 <= i0 < em@.len() && em@[i0] == old(self).bucket(
                                            ts,
                                        )[k2].0;
                                    assert(out@[out_pre.len() + i0] == em@[i0]);
                                }
                            }
                        }
                    }
                },
            }
            j = j + 1;
        }
        proof {
            assert(lv.take(n as int) =~= lv);
            assert(lv == old(self).pending_ts().push(cap));
        }
        self.pending = keep;
        out
    }
}

} // verus!
