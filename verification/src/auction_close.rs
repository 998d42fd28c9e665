//! The auction-close operator shared by Q4 and Q6: joins bids to auctions,
//! tracks the winning valid bid of each auction, and emits `(auction, bid)`
//! pairs at auction expiry.
//!
//! Only valid bids — price at least the reserve, placed within the auction's
//! open interval — influence the retained winner: an invalid bid leaves the
//! entry unchanged once the auction is known, and bids recorded before their
//! auction arrived are filtered for validity when the auction does arrive.

use vstd::prelude::*;
use std::collections::HashMap;
use crate::event::{valid_bid, is_valid_bid, Auction, Bid};

verus! {

broadcast use vstd::std_specs::hash::group_hash_axioms;

/// Per-auction state: the auction's metadata once seen, and the retained
/// bids — every early bid before the auction arrives, at most the single
/// winner afterwards.
pub struct AuctionBids {
    pub auction: Option<Auction>,
    pub bids: Vec<Bid>,
}

impl AuctionBids {
    /// The entry for auction id `id` is coherent: the metadata carries that
    /// id, and once it is known only a single valid winner is retained.
    pub open spec fn wf(self, id: usize) -> bool {
        match self.auction {
            Some(a) => {
                &&& a.id == id
                &&& self.bids@.len() <= 1
                &&& self.bids@.len() == 1 ==> valid_bid(self.bids@[0], a) && self.bids@[0].auction
                    == id
            },
            None => forall|j: int|
                0 <= j < self.bids@.len() ==> (#[trigger] self.bids@[j]).auction == id,
        }
    }
}

/// Both maps agree at `id`: the same entry, or none in either.
pub open spec fn same_entry(
    m1: Map<usize, AuctionBids>,
    m2: Map<usize, AuctionBids>,
    id: usize,
) -> bool {
    &&& m1.contains_key(id) <==> m2.contains_key(id)
    &&& m1.contains_key(id) ==> m1[id] == m2[id]
}

/// The bids of `s` whose event time is strictly after `time`, in order.
pub open spec fn retained_bids(s: Seq<Bid>, time: usize) -> Seq<Bid>
    decreases s.len(),
{
    if s.len() == 0 {
        Seq::empty()
    } else {
        let r = retained_bids(s.drop_last(), time);
        if s.last().date_time.0 > time {
            r.push(s.last())
        } else {
            r
        }
    }
}

proof fn lemma_retained_bids_props(s: Seq<Bid>, time: usize)
    ensures
        forall|j: int|
            0 <= j < retained_bids(s, time).len() ==> (#[trigger] retained_bids(s, time)[j]).date_time.0
                > time && s.contains(retained_bids(s, time)[j]),
    decreases s.len(),
{
    if s.len() > 0 {
        lemma_retained_bids_props(s.drop_last(), time);
        let r = retained_bids(s, time);
        let rp = retained_bids(s.drop_last(), time);
        assert forall|j: int|
            0 <= j < r.len() implies (#[trigger] r[j]).date_time.0 > time && s.contains(
            r[j],
        ) by {
            if j < rp.len() {
                assert(rp[j] == r[j]);
                assert(s.drop_last().contains(rp[j]));
                let i = choose|i: int| 0 <= i < s.drop_last().len() && s.drop_last()[i] == rp[j];
                assert(s[i] == rp[j]);
            } else {
                assert(r[j] == s.last());
                assert(s[s.len() - 1] == s.last());
            }
        }
    }
}

/// Filtering bids that all lie after `time` changes nothing.
proof fn lemma_retained_bids_idempotent(s: Seq<Bid>, time: usize)
    requires
        forall|j: int| 0 <= j < s.len() ==> (#[trigger] s[j]).date_time.0 > time,
    ensures
        retained_bids(s, time) == s,
    decreases s.len(),
{
    if s.len() > 0 {
        assert(forall|j: int|
            0 <= j < s.drop_last().len() ==> (#[trigger] s.drop_last()[j]).date_time.0 > time);
        lemma_retained_bids_idempotent(s.drop_last(), time);
        assert(s.last().date_time.0 > time);
        assert(retained_bids(s, time) =~= s);
    }
}

/// Installing an auction compresses the bids recorded so far (`obs`) to the
/// retained list `nb`: the single best valid bid, or nothing when no
/// recorded bid is valid.
pub open spec fn winner_selected(obs: Seq<Bid>, nb: Seq<Bid>, auction: Auction) -> bool {
    if exists|j: int| 0 <= j < obs.len() && valid_bid(#[trigger] obs[j], auction) {
        &&& nb.len() == 1
        &&& valid_bid(nb[0], auction)
        &&& obs.contains(nb[0])
        &&& forall|j: int|
            0 <= j < obs.len() && valid_bid(#[trigger] obs[j], auction) ==> obs[j].price
                <= nb[0].price
    } else {
        nb.len() == 0
    }
}

/// Recording `bid`: the entry for any other auction is untouched, and the
/// entry for `bid.auction` changes exactly as the winner rule demands — in
/// particular an invalid bid leaves a known auction's entry unchanged.
pub open spec fn bid_step(
    pre: Map<usize, AuctionBids>,
    post: Map<usize, AuctionBids>,
    bid: Bid,
) -> bool {
    &&& forall|id: usize| id != bid.auction ==> same_entry(pre, post, id)
    &&& post.contains_key(bid.auction)
    &&& if !pre.contains_key(bid.auction) {
        post[bid.auction].auction is None && post[bid.auction].bids@ =~= seq![bid]
    } else {
        let e = pre[bid.auction];
        match e.auction {
            Some(a) => {
                if !valid_bid(bid, a) {
                    post[bid.auction] == e
                } else if e.bids@.len() == 0 {
                    post[bid.auction].auction == e.auction && post[bid.auction].bids@ =~= seq![bid]
                } else if bid.price > e.bids@[0].price {
                    post[bid.auction].auction == e.auction && post[bid.auction].bids@ =~= seq![bid]
                } else {
                    post[bid.auction] == e
                }
            },
            None => post[bid.auction].auction is None && post[bid.auction].bids@ =~= e.bids@.push(
                bid,
            ),
        }
    }
}

pub struct AuctionCloseState {
    state: HashMap<usize, AuctionBids>,
    expirations: HashMap<usize, Vec<usize>>,
}

impl AuctionCloseState {
    pub closed spec fn entries(self) -> Map<usize, AuctionBids> {
        self.state@
    }

    /// The auction ids whose expiry fires at `time`.
    pub closed spec fn expiring(self, time: usize) -> Seq<usize> {
        if self.expirations@.contains_key(time) {
            self.expirations@[time]@
        } else {
            Seq::empty()
        }
    }

    pub closed spec fn wf(self) -> bool {
        forall|id: usize|
            self.state@.contains_key(id) ==> (#[trigger] self.state@[id]).wf(id)
    }

    pub fn new() -> (s: AuctionCloseState)
        ensures
            s.wf(),
            s.entries() == Map::<usize, AuctionBids>::empty(),
            forall|t: usize| s.expiring(t) == Seq::<usize>::empty(),
    {
        AuctionCloseState { state: HashMap::new(), expirations: HashMap::new() }
    }

    /// Records one bid, updating the winner slot of its auction only when the
    /// bid is valid and strictly better.
    pub fn on_bid(&mut self, bid: Bid)
        requires
            old(self).wf(),
        ensures
            final(self).wf(),
            bid_step(old(self).entries(), final(self).entries(), bid),
            forall|t: usize| final(self).expiring(t) == old(self).expiring(t),
    {
        let id = bid.auction;
        match self.state.remove(&id) {
            Some(entry) => {
                match entry.auction {
                    Some(a) => {
                        let keep_old = !is_valid_bid(&bid, &a) || (entry.bids.len() > 0
                            && bid.price <= entry.bids[0].price);
                        if keep_old {
                            self.state.insert(id, AuctionBids { auction: Some(a), bids: entry.bids });
                            proof {
                                assert(self.state@[id] == old(self).state@[id]);
                                assert(self.state@ =~= old(self).state@);
                            }
                        } else {
                            let mut bids = entry.bids;
                            if bids.len() > 0 {
                                bids.set(0, bid);
                                proof {
                                    assert(bids@ =~= seq![bid]) by {
                                        assert(old(self).state@[id].bids@.len() <= 1);
                                    }
                                }
                            } else {
                                bids.push(bid);
                            }
                            self.state.insert(id, AuctionBids { auction: Some(a), bids });
                        }
                    },
                    None => {
                        let mut bids = entry.bids;
                        bids.push(bid);
                        self.state.insert(id, AuctionBids { auction: None, bids });
                    },
                }
            },
            None => {
                let mut bids: Vec<Bid> = Vec::new();
                bids.push(bid);
                self.state.insert(id, AuctionBids { auction: None, bids });
            },
        }
        proof {
            assert forall|q: usize| q != bid.auction implies same_entry(
                old(self).entries(),
                self.entries(),
                q,
            ) by {
                assert(self.state@.contains_key(q) == old(self).state@.contains_key(q));
                if self.state@.contains_key(q) {
                    assert(self.state@[q] == old(self).state@[q]);
                }
            }
        }
    }

    /// Records an auction: schedules its expiry, installs its metadata, and
    /// compresses the early bids to the single best valid one. Returns the
    /// event time at which the caller must request a notification.
    pub fn on_auction(&mut self, auction: Auction) -> (notify_at: usize)
        requires
            old(self).wf(),
        ensures
            final(self).wf(),
            notify_at == auction.expires.0,
            forall|t: usize|
                t != auction.expires.0 ==> final(self).expiring(t) == old(self).expiring(t),
            final(self).expiring(auction.expires.0) =~= old(self).expiring(
                auction.expires.0,
            ).push(auction.id),
            forall|q: usize|
                q != auction.id ==> same_entry(old(self).entries(), final(self).entries(), q),
            final(self).entries().contains_key(auction.id),
            final(self).entries()[auction.id].auction == Some(auction),
            winner_selected(
                if old(self).entries().contains_key(auction.id) {
                    old(self).entries()[auction.id].bids@
                } else {
                    Seq::<Bid>::empty()
                },
                final(self).entries()[auction.id].bids@,
                auction,
            ),
    {
        let exp = auction.expires.0;
        let id = auction.id;
        let mut l = match self.expirations.remove(&exp) {
            Some(l) => l,
            None => Vec::new(),
        };
        l.push(id);
        self.expirations.insert(exp, l);
        let entry_bids = match self.state.remove(&id) {
            Some(e) => e.bids,
            None => Vec::new(),
        };
        let ghost obs = entry_bids@;
        let mut best: Option<Bid> = None;
        let n = entry_bids.len();
        let mut j: usize = 0;
        while j < n
            invariant
                n == obs.len(),
                j <= n,
                entry_bids@ == obs,
                match best {
                    None => forall|i: int| 0 <= i < j ==> !valid_bid(#[trigger] obs[i], auction),
                    Some(b) => {
                        &&& valid_bid(b, auction)
                        &&& obs.contains(b)
                        &&& forall|i: int|
                            0 <= i < j && valid_bid(#[trigger] obs[i], auction) ==> obs[i].price
                                <= b.price
                    },
                },
            decreases n - j,
        {
            let b = entry_bids[j];
            let better = match best {
                None => is_valid_bid(&b, &auction),
                Some(w) => is_valid_bid(&b, &auction) && b.price > w.price,
            };
            if better {
                proof {
                    assert(obs[j as int] == b);
                }
                best = Some(b);
            }
            j = j + 1;
        }
        let mut new_bids: Vec<Bid> = Vec::new();
        match best {
            Some(b) => {
                new_bids.push(b);
                proof {
                    let i = choose|i: int| 0 <= i < obs.len() && obs[i] == b;
                    assert(b.auction == id) by {
                        if old(self).state@.contains_key(id) {
                            assert(old(self).state@[id].wf(id));
                            match old(self).state@[id].auction {
                                Some(a0) => {
                                    assert(obs.len() <= 1);
                                },
                                None => {},
                            }
                        }
                    }
                }
            },
            None => {},
        }
        self.state.insert(id, AuctionBids { auction: Some(auction), bids: new_bids });
        proof {
            let obs2 = if old(self).entries().contains_key(id) {
                old(self).entries()[id].bids@
            } else {
                Seq::<Bid>::empty()
            };
            assert(obs2 == obs);
            let nb = self.state@[id].bids@;
            if exists|jj: int| 0 <= jj < obs.len() && valid_bid(#[trigger] obs[jj], auction) {
                let jj = choose|jj: int| 0 <= jj < obs.len() && valid_bid(#[trigger] obs[jj], auction);
                assert(best is Some);
                assert(nb.len() == 1 && nb[0] == best->Some_0);
            } else {
                assert(best is None) by {
                    match best {
                        Some(b) => {
                            let i = choose|i: int| 0 <= i < obs.len() && obs[i] == b;
                        },
                        None => {},
                    }
                }
            }
            assert(winner_selected(obs, self.state@[id].bids@, auction));
            assert forall|q: usize| q != id implies same_entry(
                old(self).entries(),
                self.entries(),
                q,
            ) by {
                assert(self.state@.contains_key(q) == old(self).state@.contains_key(q));
                if self.state@.contains_key(q) {
                    assert(self.state@[q] == old(self).state@[q]);
                }
            }
            assert forall|t: usize| t != exp implies self.expiring(t) == old(self).expiring(
                t,
            ) by {
                assert(self.expirations@.contains_key(t) == old(self).expirations@.contains_key(t));
                if self.expirations@.contains_key(t) {
                    assert(self.expirations@[t] == old(self).expirations@[t]);
                }
            }
        }
        exp
    }

    /// The expiry notification at event time `time`: every auction scheduled
    /// for this time that is present with matching expiry is closed — emitted
    /// with its winner if it has one — and its state dropped. Early-bid
    /// entries keep only bids that are still in flight; other entries stay.
    pub fn on_expiry(&mut self, time: usize) -> (out: Vec<(Auction, Bid)>)
        requires
            old(self).wf(),
        ensures
            final(self).wf(),
            forall|t: usize| t != time ==> final(self).expiring(t) == old(self).expiring(t),
            final(self).expiring(time) == Seq::<usize>::empty(),
            // soundness: every emitted pair is a scheduled auction closing now
            // with its retained valid winner
            forall|p: int|
                0 <= p < out@.len() ==> {
                    let a = (#[trigger] out@[p]).0;
                    let b = out@[p].1;
                    &&& valid_bid(b, a)
                    &&& a.expires.0 == time
                    &&& old(self).expiring(time).contains(a.id)
                    &&& old(self).entries().contains_key(a.id)
                    &&& old(self).entries()[a.id].auction == Some(a)
                    &&& old(self).entries()[a.id].bids@ =~= seq![b]
                },
            // completeness: every scheduled auction that closes now with a
            // winner is emitted
            forall|id: usize|
                #![auto]
                old(self).expiring(time).contains(id) && old(self).entries().contains_key(id)
                    && (old(self).entries()[id].auction matches Some(a) && a.expires.0 == time)
                    && old(self).entries()[id].bids@.len() == 1 ==> out@.contains(
                    (old(self).entries()[id].auction->Some_0, old(self).entries()[id].bids@[0]),
                ),
            // the state afterwards
            forall|id: usize|
                #![auto]
                if !old(self).expiring(time).contains(id) {
                    same_entry(old(self).entries(), final(self).entries(), id)
                } else if !old(self).entries().contains_key(id) {
                    !final(self).entries().contains_key(id)
                } else {
                    match old(self).entries()[id].auction {
                        Some(a) => if a.expires.0 == time {
                            !final(self).entries().contains_key(id)
                        } else {
                            final(self).entries().contains_key(id) && final(self).entries()[id]
                                == old(self).entries()[id]
                        },
                        None => {
                            let f = retained_bids(old(self).entries()[id].bids@, time);
                            if f.len() == 0 {
                                !final(self).entries().contains_key(id)
                            } else {
                                final(self).entries().contains_key(id)
                                    && final(self).entries()[id].auction is None
                                    && final(self).entries()[id].bids@ == f
                            }
                        },
                    }
                },
    {
        let ghost m0 = old(self).state@;
        let list = match self.expirations.remove(&time) {
            Some(l) => l,
            None => Vec::new(),
        };
        let ghost lv = list@;
        proof {
            assert(old(self).expiring(time) == lv);
        }
        let mut out: Vec<(Auction, Bid)> = Vec::new();
        let n = list.len();
        let mut j: usize = 0;
        while j < n
            invariant
                n == lv.len(),
                list@ == lv,
                j <= n,
                self.wf(),
                self.expirations@ == old(self).expirations@.remove(time),
                forall|id: usize|
                    !lv.take(j as int).contains(id) ==> same_entry(m0, self.state@, id),
                forall|id: usize|
                    #![auto]
                    lv.take(j as int).contains(id) ==> post_entry_ok(m0, self.state@, id, time),
                forall|p: int|
                    0 <= p < out@.len() ==> {
                        let a = (#[trigger] out@[p]).0;
                        let b = out@[p].1;
                        &&& valid_bid(b, a)
                        &&& a.expires.0 == time
                        &&& lv.contains(a.id)
                        &&& m0.contains_key(a.id)
                        &&& m0[a.id].auction == Some(a)
                        &&& m0[a.id].bids@ =~= seq![b]
                    },
                forall|id: usize|
                    #![auto]
                    lv.take(j as int).contains(id) && m0.contains_key(id) && (m0[id].auction
                        matches Some(a) && a.expires.0 == time) && m0[id].bids@.len() == 1
                        ==> out@.contains((m0[id].auction->Some_0, m0[id].bids@[0])),
                forall|id: usize| m0.contains_key(id) ==> (#[trigger] m0[id]).wf(id),
            decreases n - j,
        {
            let ghost out_pre = out@;
            let ghost sp = self.state@;
            let id = list[j];
            proof {
                assert(lv[j as int] == id);
                assert(lv.take(j + 1 as int)[j as int] == id);
                if !lv.take(j as int).contains(id) {
                    assert(same_entry(m0, sp, id));
                } else {
                    assert(post_entry_ok(m0, sp, id, time));
                }
            }
            match self.state.remove(&id) {
                None => {},
                Some(entry) => {
                    let ghost esnap = entry;
                    match entry.auction {
                        Some(a) => {
                            if a.expires.0 == time {
                                if entry.bids.len() > 0 {
                                    let b = entry.bids[0];
                                    out.push((a, b));
                                }
                            } else {
                                self.state.insert(
                                    id,
                                    AuctionBids { auction: Some(a), bids: entry.bids },
                                );
                                proof {
                                    assert(self.state@[id] == esnap);
                                }
                            }
                        },
                        None => {
                            let mut kept: Vec<Bid> = Vec::new();
                            let m = entry.bids.len();
                            let mut i: usize = 0;
                            while i < m
                                invariant
                                    m == entry.bids@.len(),
                                    i <= m,
                                    kept@ == retained_bids(entry.bids@.take(i as int), time),
                                decreases m - i,
                            {
                                let b = entry.bids[i];
                                proof {
                                    assert(entry.bids@.take(i + 1 as int).drop_last()
                                        =~= entry.bids@.take(i as int));
                                    assert(entry.bids@.take(i + 1 as int).last() == b);
                                }
                                if b.date_time.0 > time {
                                    kept.push(b);
                                }
                                i = i + 1;
                            }
                            proof {
                                assert(entry.bids@.take(m as int) =~= entry.bids@);
                                assert(kept@ == retained_bids(esnap.bids@, time));
                                assert(sp.contains_key(id) && sp[id] == esnap);
                                assert(esnap.wf(id));
                                lemma_retained_bids_props(esnap.bids@, time);
                                assert forall|jj: int|
                                    0 <= jj < kept@.len() implies (#[trigger] kept@[jj]).auction
                                    == id by {
                                    assert(esnap.bids@.contains(kept@[jj]));
                                }
                            }
                            if kept.len() > 0 {
                                self.state.insert(id, AuctionBids { auction: None, bids: kept });
                                proof {
                                    assert(self.state@[id].wf(id));
                                }
                            }
                        },
                    }
                },
            }
            proof {
                // this iteration touched only the entry of `id`
                assert forall|q: usize| q != id implies (self.state@.contains_key(q)
                    == sp.contains_key(q) && (sp.contains_key(q) ==> self.state@[q]
                    == sp[q])) by {}
                assert forall|q: usize| self.state@.contains_key(q) implies (
                #[trigger] self.state@[q]).wf(q) by {
                    if q != id {
                        assert(sp.contains_key(q));
                        assert(self.state@[q] == sp[q]);
                    }
                }
                // the processed entry now satisfies the closing rules
                assert(post_entry_ok(m0, self.state@, id, time)) by {
                    if !lv.take(j as int).contains(id) {
                        assert(same_entry(m0, sp, id));
                        if m0.contains_key(id) {
                            assert(sp[id] == m0[id]);
                            assert(m0[id].wf(id));
                            match m0[id].auction {
                                Some(a) => {},
                                None => {
                                    lemma_retained_bids_props(m0[id].bids@, time);
                                },
                            }
                        }
                    } else {
                        assert(post_entry_ok(m0, sp, id, time));
                        if m0.contains_key(id) {
                            match m0[id].auction {
                                Some(a) => {},
                                None => {
                                    let f = retained_bids(m0[id].bids@, time);
                                    if f.len() > 0 {
                                        assert(sp[id].bids@ == f);
                                        lemma_retained_bids_props(m0[id].bids@, time);
                                        lemma_retained_bids_idempotent(f, time);
                                    }
                                },
                            }
                        }
                    }
                }
                assert forall|q: usize| !lv.take(j + 1 as int).contains(q) implies same_entry(
                    m0,
                    self.state@,
                    q,
                ) by {
                    assert(!lv.take(j as int).contains(q)) by {
                        if lv.take(j as int).contains(q) {
                            let i0 = choose|i0: int|
                                0 <= i0 < j && #[trigger] lv.take(j as int)[i0] == q;
                            assert(lv.take(j + 1 as int)[i0] == q);
                        }
                    }
                    assert(q != id);
                }
                assert forall|q: usize| #![auto] lv.take(j + 1 as int).contains(q) implies
                    post_entry_ok(m0, self.state@, q, time) by {
                    if q != id {
                        assert(lv.take(j as int).contains(q)) by {
                            let i0 = choose|i0: int|
                                0 <= i0 < j + 1 && #[trigger] lv.take(j + 1 as int)[i0] == q;
                            assert(i0 < j);
                            assert(lv.take(j as int)[i0] == q);
                        }
                        assert(post_entry_ok(m0, sp, q, time));
                    }
                }
                // emissions: old elements keep their property; a pushed pair
                // comes from the unprocessed original entry
                assert forall|p: int| 0 <= p < out@.len() implies {
                    let a = (#[trigger] out@[p]).0;
                    let b = out@[p].1;
                    &&& valid_bid(b, a)
                    &&& a.expires.0 == time
                    &&& lv.contains(a.id)
                    &&& m0.contains_key(a.id)
                    &&& m0[a.id].auction == Some(a)
                    &&& m0[a.id].bids@ =~= seq![b]
                } by {
                    if p < out_pre.len() {
                        assert(out@[p] == out_pre[p]);
                    } else {
                        let a = out@[p].0;
                        let b = out@[p].1;
                        assert(!lv.take(j as int).contains(id)) by {
                            if lv.take(j as int).contains(id) {
                                assert(post_entry_ok(m0, sp, id, time));
                            }
                        }
                        assert(same_entry(m0, sp, id));
                        assert(m0[id].wf(id));
                        assert(a.id == id);
                        assert(lv.contains(a.id)) by {
                            assert(lv[j as int] == id);
                        }
                        assert(m0[a.id].bids@ =~= seq![b]);
                    }
                }
                assert forall|q: usize| #![auto] lv.take(j + 1 as int).contains(q)
                    && m0.contains_key(q) && (m0[q].auction matches Some(a) && a.expires.0
                    == time) && m0[q].bids@.len() == 1 implies out@.contains(
                    (m0[q].auction->Some_0, m0[q].bids@[0]),
                ) by {
                    let pair = (m0[q].auction->Some_0, m0[q].bids@[0]);
                    if q == id && !lv.take(j as int).contains(id) {
                        assert(same_entry(m0, sp, id));
                        assert(sp[id] == m0[id]);
                        assert(out@.last() == pair);
                    } else {
                        assert(lv.take(j as int).contains(q)) by {
                            if q != id {
                                let i0 = choose|i0: int|
                                    0 <= i0 < j + 1 && #[trigger] lv.take(j + 1 as int)[i0] == q;
                                assert(i0 < j);
                                assert(lv.take(j as int)[i0] == q);
                            }
                        }
                        assert(out_pre.contains(pair));
                        let i0 = choose|i0: int| 0 <= i0 < out_pre.len() && out_pre[i0] == pair;
                        assert(out@[i0] == pair);
                    }
                }
            }
            j = j + 1;
        }
        proof {
            assert(lv.take(n as int) =~= lv);
        }
        out
    }
}

/// After the expiry pass at `time` has processed `id`, the live map relates
/// to the original `m0` as the closing rules demand.
pub open spec fn post_entry_ok(
    m0: Map<usize, AuctionBids>,
    m: Map<usize, AuctionBids>,
    id: usize,
    time: usize,
) -> bool {
    if !m0.contains_key(id) {
        !m.contains_key(id)
    } else {
        match m0[id].auction {
            Some(a) => if a.expires.0 == time {
                !m.contains_key(id)
            } else {
                m.contains_key(id) && m[id] == m0[id]
            },
            None => {
                let f = retained_bids(m0[id].bids@, time);
                if f.len() == 0 {
                    !m.contains_key(id)
                } else {
                    m.contains_key(id) && m[id].auction is None && m[id].bids@ == f
                }
            },
        }
    }
}

} // verus!
