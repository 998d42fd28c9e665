use nexmark::event::{
    is_valid_bid, Auction, Bid, Date, Event, NexmarkConfig, Person,
};
use nexmark::demux::demux;
use nexmark::timer::NexmarkTimer;

fn person(id: usize, state: &str, t: usize) -> Person {
    Person {
        id,
        name: format!("person-{}", id),
        email_address: String::new(),
        credit_card: String::new(),
        city: "city".to_string(),
        state: state.to_string(),
        date_time: Date(t),
    }
}

fn auction(id: usize, seller: usize, category: usize, t: usize, expires: usize, reserve: usize) -> Auction {
    Auction {
        id,
        item_name: String::new(),
        description: String::new(),
        initial_bid: 0,
        reserve,
        date_time: Date(t),
        expires: Date(expires),
        seller,
        category,
    }
}

fn bid(auction: usize, bidder: usize, price: usize, t: usize) -> Bid {
    Bid { auction, bidder, price, date_time: Date(t) }
}

#[test]
fn date_new_keeps_value() {
    assert_eq!(Date::new(42).0, 42);
}

#[test]
fn event_time_and_id() {
    let p = Event::Person(person(7, "OR", 11));
    let a = Event::Auction(auction(9, 7, 10, 22, 100, 5));
    let b = Event::Bid(bid(9, 7, 30, 33));
    assert_eq!(p.time().0, 11);
    assert_eq!(a.time().0, 22);
    assert_eq!(b.time().0, 33);
    assert_eq!(p.id(), 7);
    assert_eq!(a.id(), 9);
    // a bid has no id of its own: the auction id stands in
    assert_eq!(b.id(), 9);
}

#[test]
fn entity_projections() {
    let ev = Event::Auction(auction(3, 1, 10, 0, 10, 0));
    assert!(Person::from(ev.clone()).is_none());
    assert!(Bid::from(ev.clone()).is_none());
    assert_eq!(Auction::from(ev).unwrap().id, 3);
}

#[test]
fn valid_bid_boundaries() {
    let a = auction(1, 1, 10, 10, 100, 50);
    // below reserve
    assert!(!is_valid_bid(&bid(1, 2, 49, 20), &a));
    // at reserve, inside the interval
    assert!(is_valid_bid(&bid(1, 2, 50, 20), &a));
    // exactly at creation time: inclusive
    assert!(is_valid_bid(&bid(1, 2, 50, 10), &a));
    // before creation
    assert!(!is_valid_bid(&bid(1, 2, 50, 9), &a));
    // exactly at expiry: exclusive
    assert!(!is_valid_bid(&bid(1, 2, 50, 100), &a));
}

#[test]
fn timer_round_trip() {
    let nt = NexmarkTimer { time_dilation: 1 };
    assert_eq!(nt.to_nexmark_time(123).0, 123);
    assert_eq!(nt.from_nexmark_time(Date(123)), 123);
    let nt2 = NexmarkTimer { time_dilation: 4 };
    assert_eq!(nt2.to_nexmark_time(10).0, 40);
    assert_eq!(nt2.from_nexmark_time(Date(40)), 10);
    assert_eq!(nt2.from_nexmark_time(nt2.to_nexmark_time(99)), 99);
}

#[test]
fn demux_splits_and_keeps_order() {
    let events = vec![
        Event::Bid(bid(1, 2, 10, 1)),
        Event::Person(person(1, "OR", 2)),
        Event::Auction(auction(1, 1, 10, 3, 10, 0)),
        Event::Bid(bid(1, 3, 20, 4)),
        Event::Person(person(2, "NY", 5)),
    ];
    let (persons, auctions, bids) = demux(events);
    assert_eq!(persons.len(), 2);
    assert_eq!(persons[0].id, 1);
    assert_eq!(persons[1].id, 2);
    assert_eq!(auctions.len(), 1);
    assert_eq!(auctions[0].id, 1);
    assert_eq!(bids.len(), 2);
    assert_eq!(bids[0].bidder, 2);
    assert_eq!(bids[1].bidder, 3);
}

#[test]
fn demux_empty_input() {
    let (persons, auctions, bids) = demux(Vec::new());
    assert!(persons.is_empty() && auctions.is_empty() && bids.is_empty());
}

#[test]
fn person_last_id_formula() {
    let nex = NexmarkConfig {
        person_proportion: 1,
        auction_proportion: 3,
        proportion_denominator: 50,
    };
    // epoch 2, offset capped at person_proportion - 1
    assert_eq!(Person::last_id(123, &nex), 2);
    assert_eq!(Person::last_id(0, &nex), 0);
    assert_eq!(Person::last_id(50, &nex), 1);
}

#[test]
fn auction_last_id_formula() {
    let nex = NexmarkConfig {
        person_proportion: 1,
        auction_proportion: 3,
        proportion_denominator: 50,
    };
    // offset 23 >= person + auction proportions: cap at last auction slot
    assert_eq!(Auction::last_id(123, &nex), 8);
    // offset inside the auction band
    assert_eq!(Auction::last_id(102, &nex), 7);
    // offset below person proportion: previous epoch's last auction
    assert_eq!(Auction::last_id(50, &nex), 2);
}
