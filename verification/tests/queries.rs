use nexmark::auction_close::AuctionCloseState;
use nexmark::event::{Auction, Bid, Date, Person};
use nexmark::q3::{q3_auction_filter, q3_person_filter, Q3State};
use nexmark::q4::CategoryAverages;
use nexmark::q5::{HotItems, Q5State};
use nexmark::q5_index::Q5IndexState;
use nexmark::q6::RollingAverages;
use nexmark::q7::WindowMax;
use nexmark::q8::Q8State;
use nexmark::windows::slide_end;

fn person(id: usize, state: &str, t: usize) -> Person {
    Person {
        id,
        name: format!("person-{}", id),
        email_address: String::new(),
        credit_card: String::new(),
        city: "city".to_string(),
        state: state.to_string(),
        date_time: Date(t),
    }
}

fn auction(id: usize, seller: usize, category: usize, t: usize, expires: usize, reserve: usize) -> Auction {
    Auction {
        id,
        item_name: String::new(),
        description: String::new(),
        initial_bid: 0,
        reserve,
        date_time: Date(t),
        expires: Date(expires),
        seller,
        category,
    }
}

fn bid(auction: usize, bidder: usize, price: usize, t: usize) -> Bid {
    Bid { auction, bidder, price, date_time: Date(t) }
}

#[test]
fn q3_join_emits_only_selected_match() {
    let persons = vec![person(1, "OR", 0), person(2, "NY", 0)];
    let auctions = vec![
        auction(101, 1, 10, 1, 100, 0),
        auction(102, 1, 5, 1, 100, 0),
        auction(103, 2, 10, 1, 100, 0),
    ];
    let mut state = Q3State::new();
    let mut out = Vec::new();
    for p in persons {
        if q3_person_filter(&p) {
            out.extend(state.on_person(p));
        }
    }
    for a in auctions {
        if q3_auction_filter(&a) {
            out.extend(state.on_auction(a));
        }
    }
    assert_eq!(out.len(), 1);
    assert_eq!(out[0].0, "person-1".to_string());
    assert_eq!(out[0].2, "OR".to_string());
    assert_eq!(out[0].3, 101);
}

#[test]
fn q3_person_after_auction_also_joins() {
    let mut state = Q3State::new();
    let none = state.on_auction(auction(101, 1, 10, 1, 100, 0));
    assert!(none.is_empty());
    let out = state.on_person(person(1, "CA", 0));
    assert_eq!(out.len(), 1);
    assert_eq!(out[0].3, 101);
}

#[test]
fn q4_common_emits_best_valid_bid() {
    let mut state = AuctionCloseState::new();
    let notify_at = state.on_auction(auction(1, 9, 10, 0, 100, 50));
    assert_eq!(notify_at, 100);
    state.on_bid(bid(1, 21, 40, 10)); // under reserve
    state.on_bid(bid(1, 22, 60, 20)); // valid
    state.on_bid(bid(1, 23, 80, 200)); // after expiry
    let out = state.on_expiry(100);
    assert_eq!(out.len(), 1);
    assert_eq!(out[0].0.id, 1);
    assert_eq!(out[0].1.price, 60);
    assert_eq!(out[0].1.bidder, 22);
}

#[test]
fn q4_common_bids_before_auction_are_filtered() {
    let mut state = AuctionCloseState::new();
    state.on_bid(bid(1, 21, 40, 10)); // will be invalid: under reserve
    state.on_bid(bid(1, 22, 70, 20)); // valid once the auction arrives
    state.on_bid(bid(1, 23, 90, 200)); // will be invalid: after expiry
    state.on_auction(auction(1, 9, 10, 0, 100, 50));
    let out = state.on_expiry(100);
    assert_eq!(out.len(), 1);
    assert_eq!(out[0].1.price, 70);
    assert_eq!(out[0].1.bidder, 22);
}

#[test]
fn q4_common_no_valid_bid_emits_nothing() {
    let mut state = AuctionCloseState::new();
    state.on_auction(auction(1, 9, 10, 0, 100, 50));
    state.on_bid(bid(1, 21, 10, 10));
    let out = state.on_expiry(100);
    assert!(out.is_empty());
    // closed state is gone: a later expiry pass finds nothing either
    assert!(state.on_expiry(100).is_empty());
}

#[test]
fn q4_category_average_rounds_down() {
    let mut state = CategoryAverages::new();
    assert_eq!(state.on_closed_auction(10, 100), (10, 100));
    assert_eq!(state.on_closed_auction(10, 51), (10, 75));
    assert_eq!(state.on_closed_auction(10, 1), (10, 50));
    // other categories are independent
    assert_eq!(state.on_closed_auction(11, 7), (11, 7));
}

#[test]
fn q5_burst_emits_hottest_auction() {
    let slide = 1_000_000_000usize; // one second
    let slices = 60usize;
    let mut state = Q5State::new();
    // five bids on auction 7 and three on auction 8, all inside the first slide
    for i in 0..5usize {
        state.on_bid(7, slide_end(i * 1000, slide));
    }
    for i in 0..3usize {
        state.on_bid(8, slide_end(i * 2000, slide));
    }
    let window_end = slide * slices;
    let out = state.on_window_end(window_end, slices, slide);
    assert_eq!(out, Some((7, 5)));
    let mut reduce = HotItems::new();
    reduce.on_input(window_end, &vec![out.unwrap()]);
    assert_eq!(reduce.emit(window_end), Some(7));
    assert_eq!(reduce.emit(window_end), None);
}

#[test]
fn q5_flavours_agree() {
    let slide = 10usize;
    let slices = 6usize;
    let bids = [(7usize, 3usize), (8, 5), (7, 14), (9, 15), (7, 26), (8, 26)];
    let mut a = Q5State::new();
    let mut b = Q5IndexState::new();
    for &(auction, t) in &bids {
        let s = slide_end(t, slide);
        a.on_bid(auction, s);
        b.on_bid(auction, s);
    }
    let w_end = slide * slices;
    assert_eq!(
        a.on_window_end(w_end, slices, slide),
        b.on_window_end(w_end, slices, slide),
    );
}

#[test]
fn q5_ties_go_to_greater_auction_id() {
    let mut state = Q5State::new();
    state.on_bid(3, 10);
    state.on_bid(5, 10);
    assert_eq!(state.on_window_end(60, 6, 10), Some((5, 1)));
}

#[test]
fn q5_empty_window_emits_nothing() {
    let mut state = Q5State::new();
    assert_eq!(state.on_window_end(60, 6, 10), None);
}

#[test]
fn q6_rolling_average_prefix_then_window() {
    let mut state = RollingAverages::new();
    let expected = [1usize, 1, 2, 2, 3, 3, 4, 4, 5, 5, 6, 7];
    for (i, price) in (1usize..=12).enumerate() {
        let (bidder, avg) = state.on_closed_auction(42, price);
        assert_eq!(bidder, 42);
        assert_eq!(avg, expected[i]);
    }
}

#[test]
fn q6_bidders_are_independent() {
    let mut state = RollingAverages::new();
    state.on_closed_auction(1, 100);
    assert_eq!(state.on_closed_auction(2, 8), (2, 8));
}

#[test]
fn q7_window_max() {
    let size = 10_000_000_000usize; // ten seconds
    let mut pre = WindowMax::new();
    let pairs = vec![
        (slide_end(1_000_000_000, size), 3usize),
        (slide_end(5_000_000_000, size), 9),
        (slide_end(8_000_000_000, size), 7),
    ];
    pre.on_prices(&pairs);
    let w = slide_end(0, size);
    assert_eq!(w, size);
    let local_max = pre.emit(w);
    assert_eq!(local_max, Some(9));
    // stage two folds the per-worker maxima the same way
    let mut global = WindowMax::new();
    global.on_price(w, local_max.unwrap());
    assert_eq!(global.emit(w), Some(9));
    assert_eq!(global.emit(w), None);
}

#[test]
fn q8_window_containment() {
    let half_day = 12 * 3600usize;
    let mut state = Q8State::new();
    state.on_person(1, 0);
    state.on_auctions(5 * 3600, &vec![(1, 5 * 3600)]);
    state.on_auctions(15 * 3600, &vec![(1, 15 * 3600)]);
    let mut out = state.on_notify(5 * 3600, 5 * 3600, half_day);
    out.extend(state.on_notify(15 * 3600, 15 * 3600, half_day));
    // the five-hour auction is inside the seller's window; the fifteen-hour
    // one is not
    assert_eq!(out, vec![1]);
}

#[test]
fn q8_unknown_seller_is_dropped() {
    let mut state = Q8State::new();
    state.on_auctions(5, &vec![(9, 5)]);
    assert_eq!(state.on_notify(5, 5, 100), Vec::<usize>::new());
}

#[test]
fn q8_pending_auction_waits_for_frontier() {
    let mut state = Q8State::new();
    state.on_person(1, 0);
    // buffered at logical time 5 but with an event time ahead of the frontier
    state.on_auctions(5, &vec![(1, 30)]);
    assert_eq!(state.on_notify(5, 5, 100), Vec::<usize>::new());
    // once the frontier passes it, the join fires
    assert_eq!(state.on_notify(40, 40, 100), vec![1]);
}

#[test]
fn hot_items_keeps_earlier_on_tie() {
    let mut reduce = HotItems::new();
    reduce.on_input(60, &vec![(7, 5), (9, 5)]);
    assert_eq!(reduce.emit(60), Some(7));
}
