//! The NEXMark event model: immutable Person, Auction and Bid records, the
//! tagged `Event` union the generator produces, and the arithmetic that maps
//! a raw event number to the identifier of the most recent person or auction.

use vstd::prelude::*;

verus! {

/// Event time: integer nanoseconds since the epoch, totally ordered.
#[derive(Eq, PartialEq, Structural, Clone, Copy, Debug, Hash)]
pub struct Date(pub usize);

impl Date {
    pub fn new(date_time: usize) -> (d: Date)
        ensures
            d.0 == date_time,
    {
        Date(date_time)
    }
}

/// A person who may sell in auctions or bid on them.
#[derive(Eq, PartialEq, Clone, Debug)]
pub struct Person {
    pub id: usize,
    pub name: String,
    pub email_address: String,
    pub credit_card: String,
    pub city: String,
    pub state: String,
    pub date_time: Date,
}

/// An auction opened by `seller` at `date_time`, closing at `expires`.
#[derive(Eq, PartialEq, Clone, Debug)]
pub struct Auction {
    pub id: usize,
    pub item_name: String,
    pub description: String,
    pub initial_bid: usize,
    pub reserve: usize,
    pub date_time: Date,
    pub expires: Date,
    pub seller: usize,
    pub category: usize,
}

/// A bid of `price` on `auction` placed by `bidder` at `date_time`.
#[derive(Eq, PartialEq, Structural, Clone, Copy, Debug)]
pub struct Bid {
    pub auction: usize,
    pub bidder: usize,
    pub price: usize,
    pub date_time: Date,
}

/// The single tagged input stream: each record is one of the three entities.
#[derive(Eq, PartialEq, Clone, Debug)]
pub enum Event {
    Person(Person),
    Auction(Auction),
    Bid(Bid),
}

/// A bid contributes to an auction iff it meets the reserve price and falls
/// strictly within the auction's open interval.
pub open spec fn valid_bid(bid: Bid, auction: Auction) -> bool {
    &&& bid.price >= auction.reserve
    &&& auction.date_time.0 <= bid.date_time.0
    &&& bid.date_time.0 < auction.expires.0
}

pub fn is_valid_bid(bid: &Bid, auction: &Auction) -> (r: bool)
    ensures
        r == valid_bid(*bid, *auction),
{
    bid.price >= auction.reserve && auction.date_time.0 <= bid.date_time.0
        && bid.date_time.0 < auction.expires.0
}

impl Event {
    /// The event time of the wrapped record.
    pub open spec fn spec_time(self) -> Date {
        match self {
            Event::Person(p) => p.date_time,
            Event::Auction(a) => a.date_time,
            Event::Bid(b) => b.date_time,
        }
    }

    pub fn time(&self) -> (d: Date)
        ensures
            d == self.spec_time(),
    {
        match *self {
            Event::Person(ref p) => p.date_time,
            Event::Auction(ref a) => a.date_time,
            Event::Bid(ref b) => b.date_time,
        }
    }

    /// The stable identifier of the wrapped record; a bid carries no id of its
    /// own, so the id of the auction it references stands in.
    pub open spec fn spec_id(self) -> usize {
        match self {
            Event::Person(p) => p.id,
            Event::Auction(a) => a.id,
            Event::Bid(b) => b.auction,
        }
    }

    pub fn id(&self) -> (i: usize)
        ensures
            i == self.spec_id(),
    {
        match *self {
            Event::Person(ref p) => p.id,
            Event::Auction(ref a) => a.id,
            Event::Bid(ref b) => b.auction,
        }
    }
}

/// The proportions with which the workload generator interleaves the three
/// entity kinds: out of every `proportion_denominator` consecutive event
/// numbers, the first `person_proportion` are persons and the following
/// `auction_proportion` are auctions; the rest are bids.
#[derive(Eq, PartialEq, Structural, Clone, Copy, Debug)]
pub struct NexmarkConfig {
    pub person_proportion: usize,
    pub auction_proportion: usize,
    pub proportion_denominator: usize,
}

impl NexmarkConfig {
    pub open spec fn wf(self) -> bool {
        &&& 0 < self.person_proportion
        &&& 0 < self.auction_proportion
        &&& self.person_proportion + self.auction_proportion
            <= self.proportion_denominator
    }
}

/// The identifier of the last person created at or before event number `id`.
pub open spec fn person_last_id(id: int, p: int, d: int) -> int {
    let epoch = id / d;
    let offset = id % d;
    if p <= offset {
        epoch * p + (p - 1)
    } else {
        epoch * p + offset
    }
}

/// The identifier of the last auction created at or before event number `id`.
/// Within an epoch, event numbers below `person_proportion` precede the
/// epoch's first auction, so they map to the last auction of the epoch before.
pub open spec fn auction_last_id(id: int, p: int, a: int, d: int) -> int {
    let epoch = id / d;
    let offset = id % d;
    if offset < p {
        (epoch - 1) * a + (a - 1)
    } else if p + a <= offset {
        epoch * a + (a - 1)
    } else {
        epoch * a + (offset - p)
    }
}

impl Person {
    pub fn from(event: Event) -> (r: Option<Person>)
        ensures
            match event {
                Event::Person(p) => r == Some(p),
                _ => r is None,
            },
    {
        match event {
            Event::Person(p) => Some(p),
            _ => None,
        }
    }

    pub fn last_id(id: usize, nex: &NexmarkConfig) -> (r: usize)
        requires
            nex.wf(),
            person_last_id(
                id as int,
                nex.person_proportion as int,
                nex.proportion_denominator as int,
            ) <= usize::MAX,
        ensures
            r == person_last_id(
                id as int,
                nex.person_proportion as int,
                nex.proportion_denominator as int,
            ),
    {
        let epoch = id / nex.proportion_denominator;
        let mut offset = id % nex.proportion_denominator;
        if nex.person_proportion <= offset {
            offset = nex.person_proportion - 1;
        }
        proof {
            assert(offset < nex.person_proportion || offset == nex.person_proportion - 1);
            assert(epoch * nex.person_proportion + offset <= usize::MAX) by (nonlinear_arith)
                requires
                    epoch == id as int / nex.proportion_denominator as int,
                    offset <= nex.person_proportion - 1 || offset == id as int % nex.proportion_denominator as int,
                    person_last_id(
                        id as int,
                        nex.person_proportion as int,
                        nex.proportion_denominator as int,
                    ) <= usize::MAX,
                    nex.wf(),
                    offset == if nex.person_proportion <= id as int % nex.proportion_denominator as int {
                        nex.person_proportion - 1
                    } else {
                        id as int % nex.proportion_denominator as int
                    },
                    0 <= id as int % nex.proportion_denominator as int,
            ;
        }
        epoch * nex.person_proportion + offset
    }
}

impl Auction {
    pub fn from(event: Event) -> (r: Option<Auction>)
        ensures
            match event {
                Event::Auction(a) => r == Some(a),
                _ => r is None,
            },
    {
        match event {
            Event::Auction(a) => Some(a),
            _ => None,
        }
    }

    pub fn last_id(id: usize, nex: &NexmarkConfig) -> (r: usize)
        requires
            nex.wf(),
            // the epoch before the first holds no auction to refer back to
            id % nex.proportion_denominator < nex.person_proportion
                ==> id / nex.proportion_denominator >= 1,
            auction_last_id(
                id as int,
                nex.person_proportion as int,
                nex.auction_proportion as int,
                nex.proportion_denominator as int,
            ) <= usize::MAX,
        ensures
            r == auction_last_id(
                id as int,
                nex.person_proportion as int,
                nex.auction_proportion as int,
                nex.proportion_denominator as int,
            ),
    {
        let mut epoch = id / nex.proportion_denominator;
        let mut offset = id % nex.proportion_denominator;
        if offset < nex.person_proportion {
            epoch = epoch - 1;
            offset = nex.auction_proportion - 1;
        } else if nex.person_proportion + nex.auction_proportion <= offset {
            offset = nex.auction_proportion - 1;
        } else {
            offset = offset - nex.person_proportion;
        }
        proof {
            assert(epoch * nex.auction_proportion + offset <= usize::MAX) by (nonlinear_arith)
                requires
                    epoch * nex.auction_proportion + offset == auction_last_id(
                        id as int,
                        nex.person_proportion as int,
                        nex.auction_proportion as int,
                        nex.proportion_denominator as int,
                    ),
                    auction_last_id(
                        id as int,
                        nex.person_proportion as int,
                        nex.auction_proportion as int,
                        nex.proportion_denominator as int,
                    ) <= usize::MAX,
                    offset >= 0,
                    epoch >= 0,
                    nex.auction_proportion >= 1,
            ;
        }
        epoch * nex.auction_proportion + offset
    }
}

impl Bid {
    pub fn from(event: Event) -> (r: Option<Bid>)
        ensures
            match event {
                Event::Bid(b) => r == Some(b),
                _ => r is None,
            },
    {
        match event {
            Event::Bid(b) => Some(b),
            _ => None,
        }
    }
}

} // verus!
