use vstd::prelude::*;
use crate::window::{pane_end, pane_end_of, lemma_div_bounds, lemma_mul_cmp};

verus! {

/// The ends of the windows that open when the slide cursor moves from `last` to `cur`:
/// one for each new slide boundary `last + slide, ..., cur`, each `span` after it.
pub open spec fn new_window_ends(last: int, cur: int, slide: int, span: int) -> Seq<u64> {
    Seq::new(((cur - last) / slide) as nat, |k: int| (last + (k + 1) * slide + span) as u64)
}

/// The values of `s` are strictly increasing.
pub open spec fn strictly_increasing(s: Seq<u64>) -> bool {
    forall|i: int, j: int| 0 <= i < j < s.len() ==> s[i] < s[j]
}

/// `end` can end a window of `count` panes of width `slide`: a multiple of the slide, at
/// least one window long.
pub open spec fn window_aligned(end: u64, slide: u64, count: u64) -> bool {
    &&& end % slide == 0
    &&& end >= slide * count
}

/// `after` is `before` with its slide cursor moved to the slide of input time `time`:
/// of the windows that open on the way, those whose end lies at or behind the new
/// cursor are appended to `pending`, and the others, in order, are `timers`.
pub open spec fn advances(before: WindowClock, after: WindowClock, time: u64, timers: Seq<u64>) -> bool {
    let ends = new_window_ends(
        before.last_slide_seen as int,
        after.last_slide_seen as int,
        before.slide as int,
        before.span(),
    );
    let cur = after.last_slide_seen;
    &&& after.slide == before.slide
    &&& after.slice_count == before.slice_count
    &&& after.last_slide_seen == pane_end_of(time as int, before.slide as int)
    &&& ends.len() * before.slide == after.last_slide_seen - before.last_slide_seen
    &&& exists|p: int|
        0 <= p <= ends.len() && after.pending@ == before.pending@ + ends.take(p) && timers
            == ends.skip(p) && (forall|k: int| 0 <= k < p ==> ends[k] <= cur) && (forall|k: int|
            p <= k < ends.len() ==> ends[k] > cur)
}

/// A window that opens while the cursor moves from `before` to `after` lines up with
/// the panes, and its first pane ends after the old cursor and no later than the new one.
pub proof fn lemma_new_window_end(
    before: WindowClock,
    after: WindowClock,
    time: u64,
    timers: Seq<u64>,
    k: int,
)
    requires
        before.wf(),
        advances(before, after, time, timers),
        0 <= k < new_window_ends(
            before.last_slide_seen as int,
            after.last_slide_seen as int,
            before.slide as int,
            before.span(),
        ).len(),
        after.last_slide_seen + before.slide * before.slice_count <= u64::MAX,
    ensures
        ({
            let e = new_window_ends(
                before.last_slide_seen as int,
                after.last_slide_seen as int,
                before.slide as int,
                before.span(),
            )[k];
            &&& window_aligned(e, before.slide, before.slice_count)
            &&& before.last_slide_seen < e - (before.slice_count - 1) * before.slide
            &&& e - (before.slice_count - 1) * before.slide <= after.last_slide_seen
        }),
{
    let s = before.slide as int;
    let c = before.slice_count as int;
    let last = before.last_slide_seen as int;
    let n = new_window_ends(last, after.last_slide_seen as int, s, before.span()).len() as int;
    lemma_mul_cmp(k + 1, n, s);
    assert((k + 1) * s >= s) by (nonlinear_arith)
        requires
            k >= 0,
            s > 0,
    ;
    assert(s * (c - 1) == (c - 1) * s) by (nonlinear_arith);
    assert(s * (c - 1) <= s * c) by (nonlinear_arith)
        requires
            c > 0,
            s > 0,
    ;
    let e = last + (k + 1) * s + s * (c - 1);
    vstd::arithmetic::div_mod::lemma_fundamental_div_mod(last, s);
    let a = last / s;
    assert(last == a * s) by (nonlinear_arith)
        requires
            last == s * a + last % s,
            last % s == 0,
    ;
    vstd::arithmetic::div_mod::lemma_div_pos_is_pos(last, s);
    assert(e == (a + k + c) * s) by (nonlinear_arith)
        requires
            e == last + (k + 1) * s + s * (c - 1),
            last == a * s,
    ;
    vstd::arithmetic::div_mod::lemma_mod_multiples_basic(a + k + c, s);
    assert((a + k + c) * s >= s * c) by (nonlinear_arith)
        requires
            a >= 0,
            k >= 0,
            s > 0,
    ;
}

/// Per-operator bookkeeping of the window-closing protocol: the slide cursor and the
/// windows whose notification point had already passed when they opened.
pub struct WindowClock {
    pub slide: u64,
    pub slice_count: u64,
    pub last_slide_seen: u64,
    pub pending: Vec<u64>,
}

impl WindowClock {
    /// Distance from a slide boundary to the end of the window that opens there.
    pub open spec fn span(&self) -> int {
        self.slide * (self.slice_count - 1)
    }

    pub open spec fn wf(&self) -> bool {
        &&& self.slide > 0
        &&& self.slice_count > 0
        &&& self.slide * self.slice_count <= u64::MAX
        &&& self.last_slide_seen % self.slide == 0
        &&& strictly_increasing(self.pending@)
        &&& forall|i: int| 0 <= i < self.pending@.len() ==> self.pending@[i] <= self.last_slide_seen
        &&& forall|i: int|
            0 <= i < self.pending@.len() ==> #[trigger] window_aligned(
                self.pending@[i],
                self.slide,
                self.slice_count,
            )
    }

    /// A clock for windows of `slice_count` panes of width `slide`, before any input.
    pub fn new(slide: u64, slice_count: u64) -> (r: Self)
        requires
            slide > 0,
            slice_count > 0,
            slide * slice_count <= u64::MAX,
        ensures
            r.wf(),
            r.slide == slide,
            r.slice_count == slice_count,
            r.last_slide_seen == 0,
            r.pending@.len() == 0,
    {
        proof {
            vstd::arithmetic::div_mod::lemma_mod_multiples_basic(0, slide as int);
        }
        WindowClock { slide, slice_count, last_slide_seen: 0, pending: Vec::new() }
    }

    /// Moves the slide cursor to the slide of input time `time`. Returns, in order, the
    /// window ends to be notified at; the window ends that already lie at or behind the
    /// new cursor are added to `pending` instead.
    pub fn advance(&mut self, time: u64) -> (timers: Vec<u64>)
        requires
            old(self).wf(),
            old(self).last_slide_seen <= pane_end_of(time as int, old(self).slide as int),
            pane_end_of(time as int, old(self).slide as int) + old(self).slide * old(
                self,
            ).slice_count <= u64::MAX,
        ensures
            final(self).wf(),
            advances(*old(self), *final(self), time, timers@),
    {
        let ghost last = self.last_slide_seen as int;
        let ghost s = self.slide as int;
        proof {
            assert(self.slide * (self.slice_count - 1) <= self.slide * self.slice_count)
                by (nonlinear_arith)
                requires
                    self.slice_count > 0,
            ;
            lemma_div_bounds(time as int, s);
        }
        let span: u64 = self.slide * (self.slice_count - 1);
        let current_slide = pane_end(time, self.slide);
        let ghost cur = current_slide as int;
        let ghost ends = new_window_ends(last, cur, s, span as int);
        proof {
            // both ends of the move are multiples of the slide
            let q = time as int / s;
            assert(cur == (q + 1) * s);
            vstd::arithmetic::div_mod::lemma_mod_multiples_basic(q + 1, s);
            vstd::arithmetic::div_mod::lemma_fundamental_div_mod(last, s);
            let a = last / s;
            assert(last == a * s) by (nonlinear_arith)
                requires
                    last == s * a + last % s,
                    last % s == 0,
            ;
            assert(cur - last == (q + 1 - a) * s) by (nonlinear_arith)
                requires
                    cur == (q + 1) * s,
                    last == a * s,
            ;
            lemma_mul_cmp(0, q + 1 - a, s);
            vstd::arithmetic::div_mod::lemma_div_multiples_vanish(q + 1 - a, s);
            assert((q + 1 - a) * s == s * (q + 1 - a)) by (nonlinear_arith);
            assert((cur - last) / s == q + 1 - a);
            assert(ends.len() * s == cur - last);
        }
        let mut timers: Vec<u64> = Vec::new();
        let mut sl: u64 = self.last_slide_seen;
        let ghost mut k: int = 0;
        let ghost mut p: int = 0;
        let ghost old_pending = self.pending@;
        while sl < current_slide
            invariant
                s > 0,
                s == self.slide,
                span == s * (self.slice_count - 1),
                cur + s * self.slice_count <= u64::MAX,
                last <= sl <= cur,
                sl == last + k * s,
                ends == new_window_ends(last, cur, s, span as int),
                ends.len() * s == cur - last,
                0 <= p <= k <= ends.len(),
                self.pending@ == old_pending + ends.take(p),
                timers@ == ends.subrange(p, k),
                forall|j: int| 0 <= j < p ==> ends[j] <= cur,
                forall|j: int| p <= j < k ==> ends[j] > cur,
                self.slide > 0,
                self.slice_count > 0,
                self.slide * self.slice_count <= u64::MAX,
                self.last_slide_seen % self.slide == 0,
                strictly_increasing(self.pending@),
                forall|j: int| 0 <= j < self.pending@.len() ==> self.pending@[j] <= cur,
                forall|j: int|
                    0 <= j < self.pending@.len() ==> #[trigger] window_aligned(
                        self.pending@[j],
                        self.slide,
                        self.slice_count,
                    ),
                forall|j: int| 0 <= j < old_pending.len() ==> old_pending[j] <= last,
                self.last_slide_seen == last,
                old_pending == old(self).pending@,
                self.slide == old(self).slide,
                self.slice_count == old(self).slice_count,
                cur == current_slide,
            decreases cur - sl,
        {
            proof {
                lemma_mul_cmp(k, ends.len() as int, s);
                lemma_mul_cmp(k + 1, ends.len() as int, s);
                assert((k + 1) * s == k * s + s) by (nonlinear_arith);
                assert(s * (self.slice_count - 1) <= s * self.slice_count) by (nonlinear_arith)
                    requires
                        self.slice_count > 0,
                        s > 0,
                ;
            }
            sl = sl + self.slide;
            let window_end = sl + span;
            proof {
                assert(ends[k] == window_end);
            }
            if window_end <= current_slide {
                proof {
                    // lagging ends come before all others: ends grow with k
                    assert(p == k) by {
                        if p < k {
                            assert(ends[p] > cur);
                            lemma_mul_cmp(p, k, s);
                            assert((p + 1) * s < (k + 1) * s) by {
                                lemma_mul_cmp(p + 1, k + 1, s);
                            }
                            assert(ends[p] < ends[k]);
                        }
                    }
                    // pending stays increasing and behind the new cursor
                    assert forall|j: int| 0 <= j < self.pending@.len() implies self.pending@[j]
                        < window_end by {
                        if j < old_pending.len() {
                            assert(old_pending[j] <= last);
                        } else {
                            let kk = j - old_pending.len();
                            assert(self.pending@[j] == ends[kk]);
                            lemma_mul_cmp(kk + 1, k + 1, s);
                            assert(ends[kk] == last + (kk + 1) * s + span);
                        }
                    }
                }
                proof {
                    // window ends are multiples of the slide, one window or more
                    vstd::arithmetic::div_mod::lemma_fundamental_div_mod(last, s);
                    let a = last / s;
                    let c = self.slice_count as int;
                    assert(last == a * s) by (nonlinear_arith)
                        requires
                            last == s * a + last % s,
                            last % s == 0,
                    ;
                    vstd::arithmetic::div_mod::lemma_div_pos_is_pos(last, s);
                    assert(window_end == (a + k + c) * s) by (nonlinear_arith)
                        requires
                            window_end == last + (k + 1) * s + s * (c - 1),
                            last == a * s,
                    ;
                    vstd::arithmetic::div_mod::lemma_mod_multiples_basic(a + k + c, s);
                    assert((a + k + c) * s >= s * c) by (nonlinear_arith)
                        requires
                            a >= 0,
                            k >= 0,
                            s > 0,
                    ;
                    assert(window_aligned(window_end, self.slide, self.slice_count));
                }
                self.pending.push(window_end);
                proof {
                    p = p + 1;
                    assert(self.pending@ == old_pending + ends.take(p));
                }
            } else {
                timers.push(window_end);
            }
            proof {
                k = k + 1;
                assert(timers@ == ends.subrange(p, k));
            }
        }
        proof {
            lemma_mul_cmp(k, ends.len() as int, s);
            assert(k == ends.len());
            assert(timers@ == ends.skip(p));
            assert forall|j: int| 0 <= j < self.pending@.len() implies self.pending@[j]
                <= cur by {
                if j < old_pending.len() {
                    assert(old_pending[j] <= last);
                }
            }
        }
        self.last_slide_seen = current_slide;
        proof {
            assert(self.last_slide_seen % self.slide == 0) by {
                let q = time as int / s;
                vstd::arithmetic::div_mod::lemma_mod_multiples_basic(q + 1, s);
            }
            assert(0 <= p <= ends.len() && self.pending@ == old(self).pending@ + ends.take(p)
                && timers@ == ends.skip(p) && (forall|j: int| 0 <= j < p ==> ends[j] <= cur) && (
            forall|j: int| p <= j < ends.len() ==> ends[j] > cur));
            assert(ends == new_window_ends(
                old(self).last_slide_seen as int,
                self.last_slide_seen as int,
                old(self).slide as int,
                old(self).span(),
            ));
        }
        timers
    }

    /// The windows to close on a notification at `notified`: the pending windows together
    /// with `notified`, in ascending order. Empties `pending`.
    pub fn due_windows(&mut self, notified: u64) -> (due: Vec<u64>)
        requires
            old(self).wf(),
        ensures
            final(self).wf(),
            final(self).pending@.len() == 0,
            final(self).slide == old(self).slide,
            final(self).slice_count == old(self).slice_count,
            final(self).last_slide_seen == old(self).last_slide_seen,
            strictly_increasing(due@),
            forall|x: u64| due@.contains(x) <==> (old(self).pending@.contains(x) || x == notified),
    {
        let mut due: Vec<u64> = Vec::new();
        let mut placed = false;
        let mut i: usize = 0;
        let n = self.pending.len();
        while i < n
            invariant
                n == self.pending@.len(),
                0 <= i <= n,
                self.wf(),
                self.pending@ == old(self).pending@,
                strictly_increasing(due@),
                i < n && due@.len() > 0 ==> due@.last() < self.pending@[i as int],
                !placed ==> forall|j: int| 0 <= j < due@.len() ==> due@[j] < notified,
                forall|x: u64|
                    due@.contains(x) <==> ((exists|j: int| 0 <= j < i && self.pending@[j] == x)
                        || (placed && x == notified)),
            decreases n - i,
        {
            let x = self.pending[i];
            let ghost before = due@;
            let ghost was_placed = placed;
            if !placed && x >= notified {
                due.push(notified);
                placed = true;
                if x > notified {
                    due.push(x);
                }
            } else {
                due.push(x);
            }
            proof {
                assert forall|y: u64|
                    due@.contains(y) <==> ((exists|j: int| 0 <= j < i + 1 && self.pending@[j] == y)
                        || (placed && y == notified)) by {
                    if exists|j: int| 0 <= j < i + 1 && self.pending@[j] == y {
                        let j = choose|j: int| 0 <= j < i + 1 && self.pending@[j] == y;
                        if j < i {
                            assert(before.contains(y));
                            let m = choose|m: int| 0 <= m < before.len() && before[m] == y;
                            assert(due@[m] == y);
                        } else {
                            assert(due@.last() == y);
                        }
                    }
                    if placed && y == notified {
                        if was_placed {
                            assert(before.contains(y));
                            let m = choose|m: int| 0 <= m < before.len() && before[m] == y;
                            assert(due@[m] == y);
                        } else {
                            assert(due@[before.len() as int] == notified);
                        }
                    }
                    if due@.contains(y) {
                        let m = choose|m: int| 0 <= m < due@.len() && due@[m] == y;
                        if m < before.len() {
                            assert(before.contains(y));
                        } else if y == x {
                            assert(self.pending@[i as int] == y);
                        } else {
                            assert(y == notified);
                        }
                    }
                }
                if i + 1 < n {
                    assert(self.pending@[i as int] < self.pending@[i + 1]);
                }
            }
            i = i + 1;
        }
        let ghost loop_due = due@;
        if !placed {
            due.push(notified);
        }
        self.pending = Vec::new();
        proof {
            assert forall|x: u64|
                due@.contains(x) <==> (old(self).pending@.contains(x) || x == notified) by {
                if old(self).pending@.contains(x) {
                    let j = choose|j: int| 0 <= j < n && old(self).pending@[j] == x;
                    assert(exists|j: int| 0 <= j < i && old(self).pending@[j] == x);
                    assert(loop_due.contains(x));
                    let m = choose|m: int| 0 <= m < loop_due.len() && loop_due[m] == x;
                    assert(due@[m] == x);
                }
                if x == notified {
                    if placed {
                        assert(loop_due.contains(x));
                        let m = choose|m: int| 0 <= m < loop_due.len() && loop_due[m] == x;
                        assert(due@[m] == x);
                    } else {
                        assert(due@.last() == x);
                    }
                }
                if due@.contains(x) && x != notified {
                    let m = choose|m: int| 0 <= m < due@.len() && due@[m] == x;
                    assert(m < loop_due.len());
                    assert(loop_due[m] == x);
                    assert(loop_due.contains(x));
                    assert(exists|j: int| 0 <= j < i && old(self).pending@[j] == x);
                    let j = choose|j: int| 0 <= j < i && old(self).pending@[j] == x;
                    assert(old(self).pending@.contains(x));
                }
            }
        }
        due
    }
}

} // verus!
