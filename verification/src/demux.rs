//! The input demultiplexer: the single tagged event stream is fanned out into
//! three typed substreams, each keeping the input order. Stateless.

use vstd::prelude::*;
use crate::event::{Auction, Bid, Event, Person};

verus! {

/// The persons of an event sequence, in order.
pub open spec fn persons_of(events: Seq<Event>) -> Seq<Person>
    decreases events.len(),
{
    if events.len() == 0 {
        Seq::empty()
    } else {
        match events[0] {
            Event::Person(p) => seq![p] + persons_of(events.drop_first()),
            _ => persons_of(events.drop_first()),
        }
    }
}

/// The auctions of an event sequence, in order.
pub open spec fn auctions_of(events: Seq<Event>) -> Seq<Auction>
    decreases events.len(),
{
    if events.len() == 0 {
        Seq::empty()
    } else {
        match events[0] {
            Event::Auction(a) => seq![a] + auctions_of(events.drop_first()),
            _ => auctions_of(events.drop_first()),
        }
    }
}

/// The bids of an event sequence, in order.
pub open spec fn bids_of(events: Seq<Event>) -> Seq<Bid>
    decreases events.len(),
{
    if events.len() == 0 {
        Seq::empty()
    } else {
        match events[0] {
            Event::Bid(b) => seq![b] + bids_of(events.drop_first()),
            _ => bids_of(events.drop_first()),
        }
    }
}

/// Splits a batch of events by variant tag into the three entity streams,
/// preserving the order of each.
pub fn demux(events: Vec<Event>) -> (r: (Vec<Person>, Vec<Auction>, Vec<Bid>))
    ensures
        r.0@ == persons_of(events@),
        r.1@ == auctions_of(events@),
        r.2@ == bids_of(events@),
{
    let ghost orig = events@;
    let mut events = events;
    let mut persons: Vec<Person> = Vec::new();
    let mut auctions: Vec<Auction> = Vec::new();
    let mut bids: Vec<Bid> = Vec::new();
    while events.len() > 0
        invariant
            events@.len() <= orig.len(),
            events@ == orig.take(events@.len() as int),
            persons@ == persons_of(orig.skip(events@.len() as int)),
            auctions@ == auctions_of(orig.skip(events@.len() as int)),
            bids@ == bids_of(orig.skip(events@.len() as int)),
        decreases events@.len(),
    {
        let ghost k = events@.len() as int;
        match events.pop() {
            None => {},
            Some(ev) => {
                proof {
                    assert(ev == orig[k - 1]);
                    assert(orig.skip(k - 1) =~= seq![orig[k - 1]] + orig.skip(k));
                    assert(orig.skip(k - 1).drop_first() =~= orig.skip(k));
                    assert(events@ =~= orig.take(k - 1));
                }
                match ev {
                    Event::Person(p) => {
                        persons.insert(0, p);
                    },
                    Event::Auction(a) => {
                        auctions.insert(0, a);
                    },
                    Event::Bid(b) => {
                        bids.insert(0, b);
                    },
                }
                proof {
                    assert(persons@ =~= persons_of(orig.skip(k - 1)));
                    assert(auctions@ =~= auctions_of(orig.skip(k - 1)));
                    assert(bids@ =~= bids_of(orig.skip(k - 1)));
                }
            },
        }
    }
    proof {
        assert(orig.skip(0) =~= orig);
    }
    (persons, auctions, bids)
}

} // verus!
