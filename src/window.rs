use vstd::prelude::*;

verus! {

/// Width of the slices that index which keys were seen when (one second, in nanoseconds).
pub const SLICE_NS: u64 = 1_000_000_000;

/// End of the pane of width `slide` that holds time `ts`.
pub open spec fn pane_end_of(ts: int, slide: int) -> int
    recommends
        slide > 0,
{
    (ts / slide + 1) * slide
}

/// Start of the window of `count` panes of width `slide` that ends at `end`.
pub open spec fn window_start_of(end: int, slide: int, count: int) -> int {
    end - slide * count
}

/// A time `ts` lies in the window `[end - slide * count, end)`.
pub open spec fn in_window(ts: int, end: int, slide: int, count: int) -> bool {
    window_start_of(end, slide, count) <= ts < end
}

/// The ends of the panes that a window ending at `end` is made of, newest first.
pub open spec fn window_panes(end: int, slide: int, count: nat) -> Seq<int> {
    Seq::new(count, |i: int| end - i * slide)
}

/// Division by a positive number bounds its argument from both sides.
pub proof fn lemma_div_bounds(t: int, s: int)
    requires
        t >= 0,
        s > 0,
    ensures
        (t / s) * s <= t < (t / s) * s + s,
        t / s >= 0,
{
    vstd::arithmetic::div_mod::lemma_fundamental_div_mod(t, s);
    vstd::arithmetic::div_mod::lemma_div_pos_is_pos(t, s);
    assert((t / s) * s == s * (t / s)) by (nonlinear_arith);
    assert(0 <= t % s < s);
}

/// Comparing two multiples of a positive number compares the factors.
pub proof fn lemma_mul_cmp(a: int, b: int, s: int)
    requires
        s > 0,
    ensures
        a * s <= b * s <==> a <= b,
        a * s < b * s <==> a < b,
{
    if a <= b {
        vstd::arithmetic::mul::lemma_mul_inequality(a, b, s);
    } else {
        vstd::arithmetic::mul::lemma_mul_strict_inequality(b, a, s);
    }
    if a < b {
        vstd::arithmetic::mul::lemma_mul_strict_inequality(a, b, s);
    } else {
        vstd::arithmetic::mul::lemma_mul_inequality(b, a, s);
    }
}

/// Window assignment: an event at `ts` is read by the window that ends at `end` (a multiple
/// of `slide`), through one of its `count` panes, exactly when `ts` lies in
/// `[end - slide * count, end)`.
pub proof fn lemma_pane_in_window(ts: int, end: int, slide: int, count: nat)
    requires
        ts >= 0,
        slide > 0,
        end % slide == 0,
    ensures
        window_panes(end, slide, count).contains(pane_end_of(ts, slide)) <==> in_window(
            ts,
            end,
            slide,
            count as int,
        ),
{
    let q = ts / slide;
    let m = end / slide;
    lemma_div_bounds(ts, slide);
    vstd::arithmetic::div_mod::lemma_fundamental_div_mod(end, slide);
    assert(end == m * slide) by (nonlinear_arith)
        requires
            end == slide * m + end % slide,
            end % slide == 0,
    ;
    let panes = window_panes(end, slide, count);
    assert(slide * count == count * slide) by (nonlinear_arith);
    if panes.contains(pane_end_of(ts, slide)) {
        let i = choose|i: int| 0 <= i < panes.len() && panes[i] == pane_end_of(ts, slide);
        assert((q + 1) * slide == (m - i) * slide) by (nonlinear_arith)
            requires
                (q + 1) * slide == m * slide - i * slide,
        ;
        lemma_mul_cmp(q + 1, m - i, slide);
        assert(q + 1 == m - i);
        assert(q * slide == (m - i - 1) * slide);
        assert((m - i - 1) * slide == m * slide - i * slide - slide) by (nonlinear_arith);
        assert(i * slide <= (count - 1) * slide) by {
            lemma_mul_cmp(i, count - 1, slide);
        }
        assert((count - 1) * slide == count * slide - slide) by (nonlinear_arith);
    }
    if in_window(ts, end, slide, count as int) {
        assert(m * slide - count * slide == (m - count) * slide) by (nonlinear_arith);
        assert((q + 1) * slide == q * slide + slide) by (nonlinear_arith);
        lemma_mul_cmp(m - count, q + 1, slide);
        lemma_mul_cmp(q, m, slide);
        let i = m - q - 1;
        assert(0 <= i < count);
        assert(panes[i] == end - i * slide);
        assert(end - i * slide == (q + 1) * slide) by (nonlinear_arith)
            requires
                end == m * slide,
                i == m - q - 1,
        ;
        assert(panes[i] == pane_end_of(ts, slide));
    }
}

/// End of the pane of width `slide` that an event at `ts` falls in.
pub fn pane_end(ts: u64, slide: u64) -> (r: u64)
    requires
        slide > 0,
        pane_end_of(ts as int, slide as int) <= u64::MAX,
    ensures
        r == pane_end_of(ts as int, slide as int),
{
    proof {
        lemma_div_bounds(ts as int, slide as int);
        assert((ts as int / slide as int) * slide <= ts as int);
    }
    let q: u64 = ts / slide;
    proof {
        assert((q as int + 1) * slide as int == q as int * slide as int + slide as int)
            by (nonlinear_arith);
    }
    (q + 1) * slide
}

/// End of the one-second slice that an event at `ts` falls in.
pub fn slice_end(ts: u64) -> (r: u64)
    requires
        pane_end_of(ts as int, SLICE_NS as int) <= u64::MAX,
    ensures
        r == pane_end_of(ts as int, SLICE_NS as int),
{
    pane_end(ts, SLICE_NS)
}

/// Start of the window of `slice_count` panes of width `slide` that ends at `window_end`.
pub fn window_start(window_end: u64, slide: u64, slice_count: u64) -> (r: u64)
    requires
        slide as int * slice_count as int <= window_end,
    ensures
        r == window_start_of(window_end as int, slide as int, slice_count as int),
{
    window_end - slide * slice_count
}

/// The start of every window of length `window_size` and step `window_slide` that
/// holds `event_time`.
pub open spec fn holds_event(w: int, event_time: int, window_slide: int, window_size: int) -> bool {
    &&& w >= 0
    &&& w % window_slide == 0
    &&& w <= event_time < w + window_size
}

/// The starts of all windows (of length `window_size`, starting at each multiple of
/// `window_slide`) that contain `event_time`, latest first.
pub fn assign_windows(event_time: u64, window_slide: u64, window_size: u64) -> (windows: Vec<u64>)
    requires
        window_slide > 0,
    ensures
        forall|w: u64|
            windows@.contains(w) <==> holds_event(
                w as int,
                event_time as int,
                window_slide as int,
                window_size as int,
            ),
        forall|i: int, j: int| 0 <= i < j < windows@.len() ==> windows@[i] > windows@[j],
{
    let mut windows: Vec<u64> = Vec::new();
    proof {
        lemma_div_bounds(event_time as int, window_slide as int);
        vstd::arithmetic::div_mod::lemma_fundamental_div_mod(event_time as int, window_slide as int);
        assert(event_time % window_slide <= event_time) by (nonlinear_arith)
            requires
                event_time == window_slide * (event_time / window_slide) + event_time
                    % window_slide,
                event_time / window_slide >= 0,
                window_slide > 0,
        ;
        if window_size % window_slide != 0 {
            assert(window_slide >= 2);
            vstd::arithmetic::div_mod::lemma_fundamental_div_mod(
                window_size as int,
                window_slide as int,
            );
            assert(window_size / window_slide < u64::MAX) by (nonlinear_arith)
                requires
                    window_size == window_slide * (window_size / window_slide) + window_size
                        % window_slide,
                    window_size % window_slide >= 0,
                    window_slide >= 2,
                    window_size <= u64::MAX,
            ;
        }
    }
    let last_window_start: u64 = event_time - event_time % window_slide;
    let num_windows: u64 = if window_size % window_slide == 0 {
        window_size / window_slide
    } else {
        window_size / window_slide + 1
    };
    let ghost t = event_time as int;
    let ghost s = window_slide as int;
    let ghost z = window_size as int;
    let ghost q = t / s;
    proof {
        lemma_div_bounds(t, s);
        vstd::arithmetic::div_mod::lemma_fundamental_div_mod(t, s);
        assert(last_window_start == q * s) by (nonlinear_arith)
            requires
                t == s * q + t % s,
                last_window_start == t - t % s,
        ;
        lemma_div_bounds(z, s);
        vstd::arithmetic::div_mod::lemma_fundamental_div_mod(z, s);
        assert(z == (z / s) * s + z % s) by (nonlinear_arith)
            requires
                z == s * (z / s) + z % s,
        ;
    }
    proof {
        assert forall|v: u64| holds_event(v as int, t, s, z) implies v <= q * s by {
            let vi = v as int;
            vstd::arithmetic::div_mod::lemma_fundamental_div_mod(vi, s);
            let k = vi / s;
            assert(vi == k * s) by (nonlinear_arith)
                requires
                    vi == s * k + vi % s,
                    vi % s == 0,
            ;
            assert(q * s + s == (q + 1) * s) by (nonlinear_arith);
            lemma_mul_cmp(k, q + 1, s);
            lemma_mul_cmp(k, q, s);
        }
    }
    let mut i: u64 = 0;
    let mut w: u64 = last_window_start;
    while i < num_windows
        invariant
            0 <= i <= num_windows,
            w == q * s - i * s,
            i * s <= q * s,
            last_window_start == q * s,
            q == t / s,
            s > 0,
            t == event_time,
            s == window_slide,
            z == window_size,
            (q * s) <= t < q * s + s,
            q >= 0,
            z == (z / s) * s + z % s,
            0 <= z % s < s,
            num_windows == (if z % s == 0 {
                z / s
            } else {
                z / s + 1
            }),
            forall|v: u64|
                windows@.contains(v) <==> (holds_event(v as int, t, s, z) && v > q * s - i * s),
            forall|a: int, b: int| 0 <= a < b < windows@.len() ==> windows@[a] > windows@[b],
            forall|a: int| 0 <= a < windows@.len() ==> windows@[a] > w,
        decreases num_windows - i,
    {
        proof {
            assert((i as int) * s % s == 0) by {
                vstd::arithmetic::div_mod::lemma_mod_multiples_basic(i as int, s);
            }
            assert((q * s - i * s) % s == 0) by {
                assert(q * s - i * s == (q - i) * s) by (nonlinear_arith);
                vstd::arithmetic::div_mod::lemma_mod_multiples_basic(q - i, s);
            }
        }
        let old_windows = Ghost(windows@);
        if event_time - w < window_size {
            windows.push(w);
        }
        proof {
            let wi = w as int;
            assert(wi % s == 0 && wi >= 0 && wi <= t);
            assert(holds_event(wi, t, s, z) <==> t - wi < z);
            assert(windows@ == old_windows@.push(w) || (windows@ == old_windows@ && !holds_event(
                wi,
                t,
                s,
                z,
            )));
            assert((i + 1) * s == i * s + s) by (nonlinear_arith);
            assert forall|v: u64|
                windows@.contains(v) <==> (holds_event(v as int, t, s, z) && v > q * s - (i + 1)
                    * s) by {
                let vi = v as int;
                if holds_event(vi, t, s, z) && vi > q * s - (i + 1) * s && vi <= q * s - i * s {
                    // a multiple of s in (w - s, w] is w itself
                    vstd::arithmetic::div_mod::lemma_fundamental_div_mod(vi, s);
                    let k = vi / s;
                    assert(vi == k * s) by (nonlinear_arith)
                        requires
                            vi == s * k + vi % s,
                            vi % s == 0,
                    ;
                    lemma_mul_cmp(k, q - i, s);
                    lemma_mul_cmp(q - i - 1, k, s);
                    assert((q - i - 1) * s == q * s - i * s - s) by (nonlinear_arith);
                    assert((q - i) * s == q * s - i * s) by (nonlinear_arith);
                    assert(k == q - i);
                    assert(v == w);
                    assert(windows@.last() == w);
                    assert(windows@.contains(v));
                }
                if windows@.contains(v) && !old_windows@.contains(v) {
                    assert(v == w);
                }
                if old_windows@.contains(v) {
                    let j = choose|j: int| 0 <= j < old_windows@.len() && old_windows@[j] == v;
                    assert(windows@[j] == v);
                }
                if windows@.contains(v) {
                    let j = choose|j: int| 0 <= j < windows@.len() && windows@[j] == v;
                    if j < old_windows@.len() {
                        assert(old_windows@[j] == v);
                    } else {
                        assert(v == w);
                    }
                }
            }
        }
        if i + 1 < num_windows {
            proof {
                // no window before time zero is ever produced
                if w < window_slide {
                    assert(q * s - i * s < s);
                    assert(q * s - i * s == (q - i) * s) by (nonlinear_arith);
                    lemma_mul_cmp(q - i, 1, s);
                    lemma_mul_cmp(i as int, q, s);
                    assert(q - i == 0);
                    // later candidates are negative: the invariant on starts already covers them
                }
            }
            if w < window_slide {
                proof {
                    assert forall|v: u64| windows@.contains(v) <==> holds_event(v as int, t, s, z) by {
                        assert(q * s - (i + 1) * s < 0) by {
                            assert((i + 1) * s == i * s + s) by (nonlinear_arith);
                        }
                    }
                }
                return windows;
            }
            w = w - window_slide;
        } else {
            proof {
                // every remaining candidate is too far from the event
                assert forall|v: u64| windows@.contains(v) <==> holds_event(v as int, t, s, z) by {
                    if holds_event(v as int, t, s, z) && v <= q * s - (i + 1) * s {
                        assert(i + 1 >= num_windows);
                        assert((i + 1) * s >= z) by {
                            if z % s == 0 {
                                lemma_mul_cmp(z / s, i + 1, s);
                            } else {
                                lemma_mul_cmp(z / s + 1, i + 1, s);
                                assert((z / s + 1) * s == (z / s) * s + s) by (nonlinear_arith);
                            }
                        }
                        assert(false);
                    }
                }
            }
            return windows;
        }
        proof {
            assert(w == q * s - (i + 1) * s) by {
                assert((i + 1) * s == i * s + s) by (nonlinear_arith);
            }
            assert((i + 1) * s <= q * s) by {
                assert((i + 1) * s == i * s + s) by (nonlinear_arith);
            }
        }
        i = i + 1;
    }
    proof {
        assert forall|v: u64| windows@.contains(v) <==> holds_event(v as int, t, s, z) by {
            if holds_event(v as int, t, s, z) && v <= q * s - i * s {
                assert(i >= num_windows);
                assert(i * s >= z) by {
                    if z % s == 0 {
                        lemma_mul_cmp(z / s, i as int, s);
                    } else {
                        lemma_mul_cmp(z / s + 1, i as int, s);
                        assert((z / s + 1) * s == (z / s) * s + s) by (nonlinear_arith);
                    }
                }
                assert(false);
            }
        }
    }
    windows
}

} // verus!
