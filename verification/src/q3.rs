//! Q3: the streaming symmetric equi-join of auctions in category 10 with
//! persons from Oregon, Idaho or California, matching `auction.seller` to
//! `person.id`. Each side probes the other's accumulated state and emits
//! `(name, city, state, auction_id)` for every match; the state grows
//! without bound, as the benchmark prescribes.

use vstd::prelude::*;
use std::collections::HashMap;
use crate::event::{Auction, Person};

verus! {

broadcast use vstd::std_specs::hash::group_hash_axioms;

/// The person states Q3 selects.
pub open spec fn q3_state_selected(s: Seq<char>) -> bool {
    s == "OR"@ || s == "ID"@ || s == "CA"@
}

/// The auction-side filter: category 10 only.
pub fn q3_auction_filter(a: &Auction) -> (r: bool)
    ensures
        r == (a.category == 10),
{
    a.category == 10
}

/// The person-side filter: state OR, ID or CA.
pub fn q3_person_filter(p: &Person) -> (r: bool)
    ensures
        r == q3_state_selected(p.state@),
{
    p.state == "OR".to_owned() || p.state == "ID".to_owned() || p.state == "CA".to_owned()
}

/// The join's accumulated state: persons by id, auctions by seller.
pub struct Q3State {
    persons: HashMap<usize, Person>,
    sellers: HashMap<usize, Vec<Auction>>,
}

impl Q3State {
    pub closed spec fn person_at(self, id: usize) -> Option<Person> {
        if self.persons@.contains_key(id) {
            Some(self.persons@[id])
        } else {
            None
        }
    }

    pub closed spec fn auctions_at(self, seller: usize) -> Seq<Auction> {
        if self.sellers@.contains_key(seller) {
            self.sellers@[seller]@
        } else {
            Seq::empty()
        }
    }

    pub fn new() -> (s: Q3State)
        ensures
            forall|id: usize| s.person_at(id) is None,
            forall|id: usize| s.auctions_at(id) == Seq::<Auction>::empty(),
    {
        Q3State { persons: HashMap::new(), sellers: HashMap::new() }
    }

    /// A filtered auction arrives: probe the seller's person record, emit the
    /// match if there is one, then file the auction under its seller.
    pub fn on_auction(&mut self, auction: Auction) -> (out: Vec<(String, String, String, usize)>)
        ensures
            match old(self).person_at(auction.seller) {
                Some(p) => out@ =~= seq![(p.name, p.city, p.state, auction.id)],
                None => out@.len() == 0,
            },
            final(self).auctions_at(auction.seller) == old(self).auctions_at(
                auction.seller,
            ).push(auction),
            forall|id: usize|
                id != auction.seller ==> final(self).auctions_at(id) == old(self).auctions_at(id),
            forall|id: usize| final(self).person_at(id) == old(self).person_at(id),
    {
        let mut out: Vec<(String, String, String, usize)> = Vec::new();
        let seller = auction.seller;
        match self.persons.get(&seller) {
            Some(p) => {
                out.push((p.name.clone(), p.city.clone(), p.state.clone(), auction.id));
            },
            None => {},
        }
        let mut bucket = match self.sellers.remove(&seller) {
            Some(b) => b,
            None => Vec::new(),
        };
        bucket.push(auction);
        self.sellers.insert(seller, bucket);
        proof {
            assert forall|id: usize|
                id != seller implies final(self).auctions_at(id) == old(self).auctions_at(
                id,
            ) by {
                assert(self.sellers@.contains_key(id) == old(self).sellers@.contains_key(id));
                if self.sellers@.contains_key(id) {
                    assert(self.sellers@[id] == old(self).sellers@[id]);
                }
            }
        }
        out
    }

    /// A filtered person arrives: probe the stored auctions of that seller,
    /// emit one match per auction, then record the person.
    pub fn on_person(&mut self, person: Person) -> (out: Vec<(String, String, String, usize)>)
        ensures
            out@.len() == old(self).auctions_at(person.id).len(),
            forall|j: int|
                0 <= j < out@.len() ==> #[trigger] out@[j] == (
                    person.name,
                    person.city,
                    person.state,
                    old(self).auctions_at(person.id)[j].id,
                ),
            final(self).person_at(person.id) == Some(person),
            forall|id: usize|
                id != person.id ==> final(self).person_at(id) == old(self).person_at(id),
            forall|id: usize| final(self).auctions_at(id) == old(self).auctions_at(id),
    {
        let mut out: Vec<(String, String, String, usize)> = Vec::new();
        match self.sellers.get(&person.id) {
            Some(list) => {
                let n = list.len();
                let mut j: usize = 0;
                while j < n
                    invariant
                        n == list@.len(),
                        j <= n,
                        list@ == old(self).auctions_at(person.id),
                        out@.len() == j,
                        forall|k: int|
                            0 <= k < j ==> #[trigger] out@[k] == (
                                person.name,
                                person.city,
                                person.state,
                                list@[k].id,
                            ),
                    decreases n - j,
                {
                    out.push((person.name.clone(), person.city.clone(), person.state.clone(),
                        list[j].id));
                    j = j + 1;
                }
            },
            None => {},
        }
        let pid = person.id;
        self.persons.insert(pid, person);
        proof {
            assert forall|id: usize|
                id != pid implies self.person_at(id) == old(self).person_at(id) by {
                assert(self.persons@.contains_key(id) == old(self).persons@.contains_key(id));
                if self.persons@.contains_key(id) {
                    assert(self.persons@[id] == old(self).persons@[id]);
                }
            }
        }
        out
    }
}

} // verus!
