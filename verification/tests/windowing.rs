use nexmark::windows::{assign_windows, slide_end};
use nexmark::window_count::{WindowCounts, WindowCountsInit};
use nexmark::window_rank::WindowRecords;

#[test]
fn assign_windows_exact_set() {
    // aligned starts w with w <= 10 < w + 6, descending
    assert_eq!(assign_windows(10, 2, 6), vec![10, 8, 6]);
    // length is min(size/slide, t/slide + 1) when slide divides size
    assert_eq!(assign_windows(3, 2, 6), vec![2, 0]);
    assert_eq!(assign_windows(0, 2, 6), vec![0]);
}

#[test]
fn assign_windows_indivisible_slide() {
    // slide does not divide size: 0 is aligned but 4 < 0 + 4 fails,
    // so only one window remains
    assert_eq!(assign_windows(4, 3, 4), vec![3]);
    assert_eq!(assign_windows(6, 3, 5), vec![6, 3]);
}

#[test]
fn slide_end_rounds_up() {
    assert_eq!(slide_end(7, 5), 10);
    assert_eq!(slide_end(10, 5), 15);
    assert_eq!(slide_end(0, 5), 5);
}

#[test]
fn window_count_basic() {
    let mut s = WindowCounts::new();
    // slide 2, size 4: t = 3 falls in windows 0 and 2
    let n1 = s.on_record(3, 2, 4);
    assert_eq!(n1, vec![6, 4]);
    let n2 = s.on_record(5, 2, 4);
    assert_eq!(n2, vec![8, 6]);
    // window 0 ends at 4 with one record
    assert_eq!(s.on_notify(4, 4), Some((4, 1)));
    // window 2 ends at 6 with both records
    assert_eq!(s.on_notify(6, 4), Some((6, 2)));
    // window 0 was dropped at its notification
    assert_eq!(s.on_notify(4, 4), None);
}

#[test]
fn window_count_strategies_emit_alike() {
    let mut plain = WindowCounts::new();
    let mut merge = WindowCountsInit::new();
    // the merge-friendly flavour pre-installs zeros for the new slides
    merge.advance_slides(6, 2);
    for &t in &[3usize, 5, 5] {
        let a = plain.on_record(t, 2, 4);
        let b = merge.on_record(t, 2, 4);
        assert_eq!(a, b);
    }
    for cap in [4usize, 6, 8] {
        let a = plain.on_notify(cap, 4);
        let b = merge.on_notify(cap, 4);
        // every notified window received a record, so the zero placeholders
        // never show through
        assert_eq!(a, b);
    }
}

#[test]
fn window_rank_competition_ranking() {
    let mut s = WindowRecords::new();
    // slide 4 == size 4: tumbling windows; all records fall in window 0
    for &a in &[5usize, 3, 5, 1] {
        let n = s.on_record(a, 2, 4, 4);
        assert_eq!(n, vec![4]);
    }
    let out = s.on_notify(4, 4);
    assert_eq!(out, vec![(4, 1, 1), (4, 3, 2), (4, 5, 3), (4, 5, 3)]);
    // the window is dropped once emitted
    assert_eq!(s.on_notify(4, 4), vec![]);
}

#[test]
fn window_rank_empty_window() {
    let mut s = WindowRecords::new();
    assert_eq!(s.on_notify(10, 4), vec![]);
}
