//! Sliding-window arithmetic: which windows a record with a given event time
//! belongs to. A window is identified by its start, a multiple of the slide,
//! and covers the half-open interval `[start, start + size)`.

use vstd::prelude::*;

verus! {

/// The window starting at `w` (a multiple of the slide) contains event time `t`.
pub open spec fn window_contains(w: int, size: int, t: int) -> bool {
    w <= t && t < w + size
}

/// `w` is aligned to the slide.
pub open spec fn aligned(w: int, slide: int) -> bool {
    w % slide == 0
}

/// A multiple of `s` that lies in the half-open interval
/// `(last - (i+1)*s, last - i*s]`, where `last` is itself a multiple of `s`,
/// can only be `last - i*s`.
proof fn lemma_single_multiple_in_slide(w: int, last: int, s: int, i: int)
    requires
        s > 0,
        0 <= i,
        w % s == 0,
        last % s == 0,
        last - (i + 1) * s < w,
        w <= last - i * s,
    ensures
        w == last - i * s,
{
    assert(w == (w / s) * s) by (nonlinear_arith)
        requires
            s > 0,
            w % s == 0,
    ;
    assert(last == (last / s) * s) by (nonlinear_arith)
        requires
            s > 0,
            last % s == 0,
    ;
    let b = w / s;
    let a = last / s;
    assert(i * s <= (a - b) * s && (a - b) * s < (i + 1) * s) by (nonlinear_arith)
        requires
            w == b * s,
            last == a * s,
            last - (i + 1) * s < w,
            w <= last - i * s,
    ;
    assert(a - b == i) by (nonlinear_arith)
        requires
            s > 0,
            i * s <= (a - b) * s,
            (a - b) * s < (i + 1) * s,
    ;
    assert(w == last - i * s) by (nonlinear_arith)
        requires
            w == b * s,
            last == a * s,
            a - b == i,
    ;
}

/// Subtracting a multiple of `s` from a multiple of `s` stays aligned.
proof fn lemma_aligned_sub_multiple(last: int, i: int, s: int)
    requires
        s > 0,
        last % s == 0,
    ensures
        (last - i * s) % s == 0,
{
    vstd::arithmetic::div_mod::lemma_mod_multiples_vanish(-i, last, s);
    assert(s * (-i) == -(i * s)) by (nonlinear_arith);
}

/// An aligned time at most `t` is at most `t` rounded down to the slide.
proof fn lemma_aligned_below(w: int, t: int, s: int)
    requires
        s > 0,
        0 <= t,
        w % s == 0,
        w <= t,
    ensures
        w <= t - t % s,
{
    assert(w <= t - t % s) by (nonlinear_arith)
        requires
            s > 0,
            0 <= t,
            w % s == 0,
            w <= t,
    ;
}

/// The end timestamp of the slide that contains `t`: the least multiple of
/// `slide` that is strictly greater than `t`.
pub fn slide_end(t: usize, slide: usize) -> (r: usize)
    requires
        slide > 0,
        (t as int / slide as int + 1) * slide as int <= usize::MAX,
    ensures
        r == (t as int / slide as int + 1) * slide as int,
        t < r,
        r <= t + slide,
        aligned(r as int, slide as int),
{
    proof {
        let q = t as int / slide as int;
        assert(q * slide as int <= t && t < (q + 1) * slide as int && (q + 1) * slide as int == q * slide as int + slide && (q + 1) * slide as int % slide as int == 0 && q
            >= 0) by (nonlinear_arith)
            requires
                slide > 0,
                q == t as int / slide as int,
        ;
    }
    (t / slide + 1) * slide
}

/// All window starts whose window contains `event_time`, in decreasing order.
///
/// The result is exactly the set of aligned starts `w` with
/// `w <= event_time < w + size`; when the slide divides the window size it
/// has length `min(size / slide, event_time / slide + 1)`.
pub fn assign_windows(event_time: usize, window_slide: usize, window_size: usize) -> (r: Vec<
    usize,
>)
    requires
        window_slide > 0,
        window_size > 0,
    ensures
        forall|j: int|
            0 <= j < r@.len() ==> aligned(#[trigger] r@[j] as int, window_slide as int)
                && window_contains(r@[j] as int, window_size as int, event_time as int),
        forall|w: usize|
            #![auto]
            aligned(w as int, window_slide as int) && window_contains(
                w as int,
                window_size as int,
                event_time as int,
            ) ==> r@.contains(w),
        forall|j: int, k: int| 0 <= j < k < r@.len() ==> r@[j] > r@[k],
        window_size as int % window_slide as int == 0 ==> r@.len() == vstd::math::min(
            window_size as int / window_slide as int,
            event_time as int / window_slide as int + 1,
        ),
{
    let t = event_time;
    let s = window_slide;
    proof {
        assert(t % s <= t) by (nonlinear_arith)
            requires
                s > 0,
        ;
    }
    let last = t - t % s;
    let num_windows = if window_size % s == 0 {
        window_size / s
    } else {
        proof {
            assert(window_size as int / s as int + 1 <= usize::MAX) by (nonlinear_arith)
                requires
                    s > 0,
                    window_size as int % s as int != 0,
                    window_size <= usize::MAX,
            ;
        }
        window_size / s + 1
    };
    proof {
        assert(last == (t as int / s as int) * s as int && (last as int) % (s as int) == 0)
            by (nonlinear_arith)
            requires
                s > 0,
                last == t - t % s,
        ;
        assert forall|w: usize|
            aligned(w as int, s as int) && window_contains(
                w as int,
                window_size as int,
                t as int,
            ) && last - 0 * s < w implies false by {
            lemma_aligned_below(w as int, t as int, s as int);
        }
    }
    let mut windows: Vec<usize> = Vec::new();
    let mut i: usize = 0;
    while i < num_windows
        invariant
            s == window_slide,
            t == event_time,
            s > 0,
            window_size > 0,
            i <= num_windows,
            num_windows == window_size as int / s as int + if window_size as int % s as int == 0 {
                0int
            } else {
                1int
            },
            last == t - t % s,
            last == (t as int / s as int) * s as int,
            (last as int) % (s as int) == 0,
            forall|j: int|
                0 <= j < windows@.len() ==> aligned(#[trigger] windows@[j] as int, s as int)
                    && window_contains(windows@[j] as int, window_size as int, t as int),
            forall|w: usize|
                #![auto]
                aligned(w as int, s as int) && window_contains(
                    w as int,
                    window_size as int,
                    t as int,
                ) && last - i * s < w ==> windows@.contains(w),
            forall|j: int|
                0 <= j < windows@.len() ==> #[trigger] windows@[j] as int > last - i * s,
            forall|j: int, k: int| 0 <= j < k < windows@.len() ==> windows@[j] > windows@[k],
            window_size as int % s as int == 0 ==> windows@.len() == vstd::math::min(
                i as int,
                vstd::math::min(window_size as int / s as int, t as int / s as int + 1),
            ),
        decreases num_windows - i,
    {
        let ghost pre = windows@;
        proof {
            assert(i * s < window_size) by (nonlinear_arith)
                requires
                    s > 0,
                    window_size > 0,
                    i < num_windows,
                    num_windows == window_size as int / s as int + if window_size as int % s as int
                        == 0 {
                        0int
                    } else {
                        1int
                    },
            ;
        }
        if i * s <= last {
            let w = last - i * s;
            proof {
                lemma_aligned_sub_multiple(last as int, i as int, s as int);
                assert(aligned(w as int, s as int));
            }
            if t - w < window_size {
                windows.push(w);
            }
        }
        proof {
            assert((i + 1) as int * (s as int) == i as int * (s as int) + s as int)
                by (nonlinear_arith);
            assert(forall|x: usize| pre.contains(x) ==> windows@.contains(x)) by {
                assert forall|x: usize| pre.contains(x) implies windows@.contains(x) by {
                    let j = choose|j: int| 0 <= j < pre.len() && pre[j] == x;
                    assert(windows@[j] == x);
                }
            }
            // Exactly one aligned start lies in (last - (i+1)*s, last - i*s]:
            // the start last - i*s itself, when it is non-negative.
            assert forall|w: usize|
                aligned(w as int, s as int) && window_contains(
                    w as int,
                    window_size as int,
                    t as int,
                ) && last - (i + 1) * s < w implies windows@.contains(w) by {
                if last - i * s < w {
                    assert(pre.contains(w));
                } else {
                    lemma_single_multiple_in_slide(w as int, last as int, s as int, i as int);
                    assert(w as int == last - i * s);
                    assert(i * s <= last);
                    assert(t - (last - i * s) < window_size);
                    assert(windows@.last() == w);
                }
            }
            if window_size as int % s as int == 0 {
                let m = window_size as int / s as int;
                assert(m * s == window_size) by (nonlinear_arith)
                    requires
                        s > 0,
                        window_size as int % s as int == 0,
                        m == window_size as int / s as int,
                ;
                // pushed this round iff  i < m  and  i <= t / s
                assert((i * s <= last) == (i <= t as int / s as int)) by (nonlinear_arith)
                    requires
                        s > 0,
                        last == (t as int / s as int) * s as int,
                        0 <= t as int / s as int,
                ;
                if i * s <= last {
                    assert((t - (last - i * s) < window_size) == (i < m)) by (nonlinear_arith)
                        requires
                            s > 0,
                            m >= 1,
                            m * s == window_size,
                            last == t - t % s,
                            ((t as int) % (s as int)) >= 0,
                            ((t as int) % (s as int)) < s,
                            i * s <= last,
                    ;
                }
            }
        }
        i = i + 1;
    }
    proof {
        assert forall|w: usize|
            aligned(w as int, s as int) && window_contains(
                w as int,
                window_size as int,
                t as int,
            ) implies windows@.contains(w) by {
            assert(num_windows * s >= window_size) by (nonlinear_arith)
                requires
                    s > 0,
                    num_windows == window_size as int / s as int + if window_size as int % s as int
                        == 0 {
                        0int
                    } else {
                        1int
                    },
            ;
            assert(last - num_windows * s < w as int) by (nonlinear_arith)
                requires
                    s > 0,
                    num_windows * s >= window_size,
                    last <= t,
                    t < w as int + window_size,
                    last == t - t % s,
                    ((t as int) % (s as int)) >= 0,
                    ((t as int) % (s as int)) < s,
            ;
        }
    }
    windows
}

} // verus!
