use vstd::prelude::*;
use crate::primitives::ManagedMap;
use crate::schedule::{
    WindowClock, advances, lemma_new_window_end, new_window_ends, strictly_increasing,
    window_aligned,
};
use crate::window::{
    in_window, lemma_pane_in_window, pane_end, pane_end_of, window_panes, lemma_mul_cmp,
};

verus! {

/// Number of the event times in `h` whose pane (of width `s`) ends at `p`.
pub open spec fn count_in_pane(h: Seq<u64>, p: int, s: int) -> nat
    decreases h.len(),
{
    if h.len() == 0 {
        0
    } else {
        count_in_pane(h.drop_last(), p, s) + if pane_end_of(h.last() as int, s) == p {
            1nat
        } else {
            0nat
        }
    }
}

/// Number of the event times in `h` that lie in `[end - s * c, end)`.
pub open spec fn count_in_window(h: Seq<u64>, end: int, s: int, c: int) -> nat
    decreases h.len(),
{
    if h.len() == 0 {
        0
    } else {
        count_in_window(h.drop_last(), end, s, c) + if in_window(h.last() as int, end, s, c) {
            1nat
        } else {
            0nat
        }
    }
}

/// Sum of the pane counts of the first `c` panes of the window ending at `end`.
pub open spec fn panes_sum(h: Seq<u64>, end: int, s: int, c: nat) -> nat
    decreases c,
{
    if c == 0 {
        0
    } else {
        panes_sum(h, end, s, (c - 1) as nat) + count_in_pane(h, end - (c - 1) * s, s)
    }
}

/// How many of the first `c` panes of the window ending at `end` end at `x`.
pub open spec fn matches_panes(x: int, end: int, s: int, c: nat) -> nat
    decreases c,
{
    if c == 0 {
        0
    } else {
        matches_panes(x, end, s, (c - 1) as nat) + if x == end - (c - 1) * s {
            1nat
        } else {
            0nat
        }
    }
}

proof fn lemma_matches_panes(x: int, end: int, s: int, c: nat)
    requires
        s > 0,
    ensures
        matches_panes(x, end, s, c) == if window_panes(end, s, c).contains(x) {
            1nat
        } else {
            0nat
        },
    decreases c,
{
    if c > 0 {
        lemma_matches_panes(x, end, s, (c - 1) as nat);
        let prev = window_panes(end, s, (c - 1) as nat);
        let all = window_panes(end, s, c);
        assert(all == prev.push(end - (c - 1) * s));
        if x == end - (c - 1) * s {
            assert(all[c - 1] == x);
            if prev.contains(x) {
                let i = choose|i: int| 0 <= i < prev.len() && prev[i] == x;
                lemma_mul_cmp(i, c - 1, s);
            }
        } else {
            if all.contains(x) {
                let i = choose|i: int| 0 <= i < all.len() && all[i] == x;
                assert(prev[i] == x);
            }
            if prev.contains(x) {
                let i = choose|i: int| 0 <= i < prev.len() && prev[i] == x;
                assert(all[i] == x);
            }
        }
    }
}

proof fn lemma_panes_sum_push(h: Seq<u64>, t: u64, end: int, s: int, c: nat)
    ensures
        panes_sum(h.push(t), end, s, c) == panes_sum(h, end, s, c) + matches_panes(
            pane_end_of(t as int, s),
            end,
            s,
            c,
        ),
    decreases c,
{
    if c > 0 {
        lemma_panes_sum_push(h, t, end, s, (c - 1) as nat);
        assert(h.push(t).drop_last() == h);
    }
}

/// Reading the `c` panes of a window and adding their counts counts exactly the events
/// whose time lies in the window.
pub proof fn lemma_panes_sum_is_window_count(h: Seq<u64>, end: int, s: int, c: nat)
    requires
        s > 0,
        end % s == 0,
    ensures
        panes_sum(h, end, s, c) == count_in_window(h, end, s, c as int),
    decreases h.len(),
{
    if h.len() == 0 {
        assert(panes_sum(h, end, s, c) == 0) by {
            lemma_panes_sum_empty(h, end, s, c);
        }
    } else {
        let t = h.last();
        lemma_panes_sum_is_window_count(h.drop_last(), end, s, c);
        assert(h.drop_last().push(t) == h);
        lemma_panes_sum_push(h.drop_last(), t, end, s, c);
        lemma_matches_panes(pane_end_of(t as int, s), end, s, c);
        lemma_pane_in_window(t as int, end, s, c);
    }
}

/// An empty window counts zero: when no event time of `h` lies in `[end - s * c, end)`,
/// the window's count is zero, whatever its panes hold for other windows.
pub proof fn lemma_empty_window_counts_zero(h: Seq<u64>, end: int, s: int, c: int)
    requires
        forall|i: int| 0 <= i < h.len() ==> !in_window(h[i] as int, end, s, c),
    ensures
        count_in_window(h, end, s, c) == 0,
    decreases h.len(),
{
    if h.len() > 0 {
        lemma_empty_window_counts_zero(h.drop_last(), end, s, c);
        assert(!in_window(h[h.len() - 1] as int, end, s, c));
    }
}

proof fn lemma_panes_sum_empty(h: Seq<u64>, end: int, s: int, c: nat)
    requires
        h.len() == 0,
    ensures
        panes_sum(h, end, s, c) == 0,
    decreases c,
{
    if c > 0 {
        lemma_panes_sum_empty(h, end, s, (c - 1) as nat);
    }
}

proof fn lemma_count_in_pane_push(h: Seq<u64>, t: u64, p: int, s: int)
    ensures
        count_in_pane(h.push(t), p, s) == count_in_pane(h, p, s) + if pane_end_of(t as int, s)
            == p {
            1nat
        } else {
            0nat
        },
{
    assert(h.push(t).drop_last() == h);
}

pub proof fn lemma_count_in_pane_bound(h: Seq<u64>, p: int, s: int)
    ensures
        count_in_pane(h, p, s) <= h.len(),
    decreases h.len(),
{
    if h.len() > 0 {
        lemma_count_in_pane_bound(h.drop_last(), p, s);
    }
}

proof fn lemma_count_in_window_bound(h: Seq<u64>, end: int, s: int, c: int)
    ensures
        count_in_window(h, end, s, c) <= h.len(),
    decreases h.len(),
{
    if h.len() > 0 {
        lemma_count_in_window_bound(h.drop_last(), end, s, c);
    }
}

proof fn lemma_panes_sum_monotone(h: Seq<u64>, end: int, s: int, i: nat, c: nat)
    requires
        i <= c,
    ensures
        panes_sum(h, end, s, i) <= panes_sum(h, end, s, c),
    decreases c,
{
    if i < c {
        lemma_panes_sum_monotone(h, end, s, i, (c - 1) as nat);
    }
}

/// The pane ending at `p` holds the number of events of `h` that fell in it, and is
/// absent when there are none.
pub open spec fn pane_agrees(h: Seq<u64>, panes: Map<u64, u64>, p: u64, s: int) -> bool {
    let n = count_in_pane(h, p as int, s);
    &&& (n > 0 <==> panes.contains_key(p))
    &&& n > 0 ==> panes[p] == n
}

/// Every window still to close under `clock` can close when panes up to `purged_to` are
/// gone: the purge has not passed the cursor, and no pending window's first pane is purged.
pub open spec fn clock_ready(clock: WindowClock, purged_to: int) -> bool {
    &&& purged_to <= clock.last_slide_seen
    &&& forall|i: int|
        0 <= i < clock.pending@.len() ==> #[trigger] clock.pending@[i] - (clock.slice_count - 1)
            * clock.slide > purged_to
}

/// Windows of `slice_count` panes of width `slide` that count, over all keys, the events
/// whose time they cover. Each pane holds the number of events that fell in it.
pub struct GlobalCountWindow<M> {
    pub clock: WindowClock,
    pub panes: M,
    /// Times of all events taken in so far.
    pub history: Ghost<Seq<u64>>,
    /// Panes ending at or before this time may have been purged.
    pub purged_to: Ghost<int>,
}

impl<M: ManagedMap<u64, u64>> GlobalCountWindow<M> {
    /// The pane map agrees with the history on every pane after `purged_to`.
    pub open spec fn wf(&self) -> bool {
        let s = self.clock.slide as int;
        &&& self.clock.wf()
        &&& self.history@.len() < u64::MAX
        &&& forall|p: u64|
            p > self.purged_to@ ==> #[trigger] pane_agrees(
                self.history@,
                self.panes.entries(),
                p,
                s,
            )
    }

    /// Every window still to close can close: the purge has not passed the cursor, and no
    /// pending window's first pane is purged.
    pub open spec fn ready(&self) -> bool {
        clock_ready(self.clock, self.purged_to@)
    }

    /// The count that a window ending at `end` reports, given the events so far.
    pub open spec fn window_count(&self, end: u64) -> nat {
        count_in_window(
            self.history@,
            end as int,
            self.clock.slide as int,
            self.clock.slice_count as int,
        )
    }

    /// The window ending at `end` lines up with the panes and its panes are all still kept.
    pub open spec fn can_fire(&self, end: u64) -> bool {
        &&& end % self.clock.slide == 0
        &&& end >= self.clock.slide * self.clock.slice_count
        &&& self.first_pane(end) > self.purged_to@
    }

    /// Time at which the first pane of the window ending at `end` ends.
    pub open spec fn first_pane(&self, end: u64) -> int {
        end - (self.clock.slice_count - 1) * self.clock.slide
    }

    pub fn new(slide: u64, slice_count: u64, panes: M) -> (r: Self)
        requires
            slide > 0,
            slice_count > 0,
            slide * slice_count <= u64::MAX,
            panes.entries() == Map::<u64, u64>::empty(),
        ensures
            r.wf(),
            r.history@ == Seq::<u64>::empty(),
            r.purged_to@ == 0,
            r.panes == panes,
            r.ready(),
            r.clock.slide == slide,
            r.clock.slice_count == slice_count,
            r.clock.last_slide_seen == 0,
            r.clock.pending@.len() == 0,
    {
        GlobalCountWindow {
            clock: WindowClock::new(slide, slice_count),
            panes,
            history: Ghost(Seq::empty()),
            purged_to: Ghost(0),
        }
    }

    /// Takes in the events (key, time) of one input batch at input time `time`: moves
    /// the slide cursor, returns the window ends to be notified at, and adds one to the
    /// pane of each event.
    pub fn on_data(&mut self, time: u64, events: &Vec<(u64, u64)>) -> (timers: Vec<u64>)
        requires
            old(self).wf(),
            old(self).clock.last_slide_seen <= pane_end_of(
                time as int,
                old(self).clock.slide as int,
            ),
            pane_end_of(time as int, old(self).clock.slide as int) + old(self).clock.slide * old(
                self,
            ).clock.slice_count <= u64::MAX,
            old(self).history@.len() + events@.len() < u64::MAX,
            forall|i: int|
                0 <= i < events@.len() ==> pane_end_of(
                    events@[i].1 as int,
                    old(self).clock.slide as int,
                ) <= u64::MAX && pane_end_of(events@[i].1 as int, old(self).clock.slide as int)
                    > old(self).purged_to@,
        ensures
            final(self).wf(),
            final(self).history@ == old(self).history@ + events@.map_values(|e: (u64, u64)| e.1),
            final(self).purged_to@ == old(self).purged_to@,
            advances(old(self).clock, final(self).clock, time, timers@),
            old(self).ready() ==> final(self).ready(),
            forall|j: int|
                0 <= j < timers@.len() ==> window_aligned(
                    #[trigger] timers@[j],
                    final(self).clock.slide,
                    final(self).clock.slice_count,
                ) && old(self).clock.last_slide_seen < final(self).first_pane(timers@[j])
                    <= final(self).clock.last_slide_seen,
    {
        let ghost clock0 = self.clock;
        let timers = self.clock.advance(time);
        proof {
            let ends = new_window_ends(
                clock0.last_slide_seen as int,
                self.clock.last_slide_seen as int,
                clock0.slide as int,
                clock0.span(),
            );
            let p = choose|p: int|
                0 <= p <= ends.len() && self.clock.pending@ == clock0.pending@ + ends.take(p)
                    && timers@ == ends.skip(p) && (forall|k: int| 0 <= k < p ==> ends[k]
                    <= self.clock.last_slide_seen) && (forall|k: int|
                    p <= k < ends.len() ==> ends[k] > self.clock.last_slide_seen);
            assert forall|j: int| 0 <= j < timers@.len() implies window_aligned(
                #[trigger] timers@[j],
                self.clock.slide,
                self.clock.slice_count,
            ) && clock0.last_slide_seen < self.first_pane(timers@[j])
                <= self.clock.last_slide_seen by {
                lemma_new_window_end(clock0, self.clock, time, timers@, p + j);
                assert(timers@[j] == ends[p + j]);
            }
            if old(self).ready() {
                assert(self.purged_to@ <= self.clock.last_slide_seen);
                assert forall|i: int|
                    0 <= i < self.clock.pending@.len() implies #[trigger] self.clock.pending@[i] - (
                    self.clock.slice_count - 1) * self.clock.slide > self.purged_to@ by {
                    if i < clock0.pending@.len() {
                        assert(clock0.pending@[i] - (clock0.slice_count - 1) * clock0.slide
                            > old(self).purged_to@);
                        assert(self.clock.pending@[i] == clock0.pending@[i]);
                    } else {
                        lemma_new_window_end(clock0, self.clock, time, timers@, i - clock0.pending@.len());
                        assert(self.clock.pending@[i] == ends[i - clock0.pending@.len()]);
                    }
                }
            }
        }
        let ghost clock1 = self.clock;
        let ghost s = self.clock.slide as int;
        let ghost h0 = self.history@;
        let mut i: usize = 0;
        while i < events.len()
            invariant
                0 <= i <= events@.len(),
                self.clock.wf(),
                self.clock == clock1,
                advances(old(self).clock, clock1, time, timers@),
                old(self).ready() ==> self.ready(),
                s == self.clock.slide,
                s > 0,
                self.clock.slide == old(self).clock.slide,
                self.clock.slice_count == old(self).clock.slice_count,
                self.purged_to@ == old(self).purged_to@,
                self.history@ == h0 + events@.take(i as int).map_values(|e: (u64, u64)| e.1),
                h0 == old(self).history@,
                h0.len() + events@.len() < u64::MAX,
                forall|j: int|
                    0 <= j < events@.len() ==> pane_end_of(events@[j].1 as int, s) <= u64::MAX
                        && pane_end_of(events@[j].1 as int, s) > self.purged_to@,
                forall|p: u64|
                    p > self.purged_to@ ==> #[trigger] pane_agrees(
                        self.history@,
                        self.panes.entries(),
                        p,
                        s,
                    ),
            decreases events@.len() - i,
        {
            let ts = events[i].1;
            let pane = pane_end(ts, self.clock.slide);
            proof {
                lemma_count_in_pane_bound(self.history@, pane as int, s);
                assert(self.history@.len() == h0.len() + i);
            }
            let ghost old_h = self.history@;
            let ghost old_entries = self.panes.entries();
            proof {
                assert(pane_agrees(old_h, old_entries, pane, s));
            }
            self.panes.rmw(pane, 1);
            proof {
                let h1 = self.history@.push(ts);
                assert forall|p: u64| p > self.purged_to@ implies #[trigger] pane_agrees(
                    h1,
                    self.panes.entries(),
                    p,
                    s,
                ) by {
                    lemma_count_in_pane_push(self.history@, ts, p as int, s);
                    assert(pane_agrees(old_h, old_entries, p, s));
                }
                self.history = Ghost(h1);
                assert(events@.take(i + 1).map_values(|e: (u64, u64)| e.1) == events@.take(
                    i as int,
                ).map_values(|e: (u64, u64)| e.1).push(ts));
            }
            i = i + 1;
        }
        proof {
            assert(events@.take(events@.len() as int) == events@);
        }
        timers
    }

    /// Closes the window ending at `window_end`: returns the sum of the counts of its
    /// panes (a missing pane counts zero) and purges its first pane.
    pub fn fire(&mut self, window_end: u64) -> (count: u64)
        requires
            old(self).wf(),
            window_end % old(self).clock.slide == 0,
            window_end >= old(self).clock.slide * old(self).clock.slice_count,
            old(self).first_pane(window_end) > old(self).purged_to@,
        ensures
            final(self).wf(),
            count == old(self).window_count(window_end),
            final(self).panes.entries() == old(self).panes.entries().remove(
                old(self).first_pane(window_end) as u64,
            ),
            final(self).purged_to@ == old(self).first_pane(window_end),
            final(self).history@ == old(self).history@,
            final(self).clock == old(self).clock,
    {
        let ghost s = self.clock.slide as int;
        let ghost c = self.clock.slice_count as nat;
        let ghost h = self.history@;
        let ghost w = window_end as int;
        proof {
            lemma_panes_sum_is_window_count(h, w, s, c);
            lemma_count_in_window_bound(h, w, s, c as int);
            assert(s * (c - 1) <= s * c) by (nonlinear_arith)
                requires
                    c > 0,
                    s > 0,
            ;
            assert((c - 1) * s == s * (c - 1)) by (nonlinear_arith);
        }
        let mut total: u64 = 0;
        let mut pane: u64 = window_end;
        let mut i: u64 = 0;
        while i < self.clock.slice_count
            invariant
                self.wf(),
                self.history@ == h,
                self.clock == old(self).clock,
                self.panes == old(self).panes,
                self.purged_to == old(self).purged_to,
                s == self.clock.slide,
                c == self.clock.slice_count,
                s > 0,
                c > 0,
                w == window_end,
                w >= s * c,
                w - (c - 1) * s > self.purged_to@,
                0 <= i <= c,
                pane == w - i * s,
                total == panes_sum(h, w, s, i as nat),
                panes_sum(h, w, s, c) == count_in_window(h, w, s, c as int),
                count_in_window(h, w, s, c as int) <= h.len(),
                h.len() < u64::MAX,
            decreases c - i,
        {
            proof {
                lemma_mul_cmp(i as int, c - 1, s);
                lemma_mul_cmp(i + 1, c as int, s);
                assert((i + 1) * s == i * s + s) by (nonlinear_arith);
                assert(s * c == c * s) by (nonlinear_arith);
                assert(pane_agrees(h, self.panes.entries(), pane, s));
                lemma_panes_sum_monotone(h, w, s, (i + 1) as nat, c);
            }
            match self.panes.get(&pane) {
                Some(n) => {
                    total = total + *n;
                },
                None => {},
            }
            pane = pane - self.clock.slide;
            i = i + 1;
        }
        let first: u64 = window_end - self.clock.slide * (self.clock.slice_count - 1);
        let ghost before = self.panes.entries();
        let _ = self.panes.remove(&first);
        proof {
            self.purged_to = Ghost(first as int);
            assert forall|p: u64| p > self.purged_to@ implies #[trigger] pane_agrees(
                self.history@,
                self.panes.entries(),
                p,
                s,
            ) by {
                assert(pane_agrees(h, before, p, s));
            }
        }
        total
    }

    /// Handles a notification at `notified`: closes, in ascending order, the windows that
    /// were pending together with the notified one, and returns `(window end, count)` for
    /// each.
    pub fn on_notification(&mut self, notified: u64) -> (out: Vec<(u64, u64)>)
        requires
            old(self).wf(),
            old(self).ready(),
            old(self).can_fire(notified),
            old(self).first_pane(notified) <= old(self).clock.last_slide_seen,
        ensures
            final(self).wf(),
            final(self).ready(),
            final(self).history@ == old(self).history@,
            final(self).clock.pending@.len() == 0,
            forall|j: int, k: int| 0 <= j < k < out@.len() ==> out@[j].0 < out@[k].0,
            forall|x: u64|
                (exists|j: int| 0 <= j < out@.len() && out@[j].0 == x) <==> (old(
                    self,
                ).clock.pending@.contains(x) || x == notified),
            forall|j: int|
                0 <= j < out@.len() ==> out@[j].1 == old(self).window_count(out@[j].0),
            forall|j: int|
                0 <= j < out@.len() ==> !final(self).panes.entries().contains_key(
                    #[trigger] old(self).first_pane(out@[j].0) as u64,
                ),
    {
        let ghost pending0 = self.clock.pending@;
        let ghost floor0 = self.purged_to@;
        let due = self.clock.due_windows(notified);
        proof {
            assert forall|x: u64| due@.contains(x) implies #[trigger] old(self).can_fire(x) by {
                if pending0.contains(x) {
                    let j = choose|j: int| 0 <= j < pending0.len() && pending0[j] == x;
                    assert(window_aligned(pending0[j], old(self).clock.slide, old(self).clock.slice_count));
                    assert(pending0[j] - (old(self).clock.slice_count - 1) * old(self).clock.slide
                        > old(self).purged_to@);
                }
            }
            assert forall|x: u64| due@.contains(x) implies #[trigger] old(self).first_pane(x)
                <= old(self).clock.last_slide_seen by {
                if pending0.contains(x) {
                    let j = choose|j: int| 0 <= j < pending0.len() && pending0[j] == x;
                    assert(pending0[j] <= old(self).clock.last_slide_seen);
                }
            }
        }
        let mut out: Vec<(u64, u64)> = Vec::new();
        let mut i: usize = 0;
        while i < due.len()
            invariant
                self.wf(),
                self.history@ == old(self).history@,
                self.clock.slide == old(self).clock.slide,
                self.clock.slice_count == old(self).clock.slice_count,
                self.clock.pending@.len() == 0,
                strictly_increasing(due@),
                forall|x: u64| due@.contains(x) <==> (pending0.contains(x) || x == notified),
                pending0 == old(self).clock.pending@,
                floor0 == old(self).purged_to@,
                forall|x: u64| due@.contains(x) ==> #[trigger] old(self).can_fire(x),
                0 <= i <= due@.len(),
                i > 0 ==> self.purged_to@ == old(self).first_pane(due@[i - 1]),
                i == 0 ==> self.purged_to@ == floor0,
                self.clock.last_slide_seen == old(self).clock.last_slide_seen,
                self.purged_to@ <= self.clock.last_slide_seen,
                forall|x: u64| due@.contains(x) ==> #[trigger] old(self).first_pane(x)
                    <= old(self).clock.last_slide_seen,
                out@.len() == i,
                forall|j: int| 0 <= j < i ==> out@[j].0 == due@[j],
                forall|j: int|
                    0 <= j < i ==> out@[j].1 == old(self).window_count(out@[j].0),
                forall|j: int|
                    0 <= j < i ==> !self.panes.entries().contains_key(
                        #[trigger] old(self).first_pane(out@[j].0) as u64,
                    ),
            decreases due@.len() - i,
        {
            let w = due[i];
            proof {
                assert(due@[i as int] == w);
                assert(due@.contains(w));
                assert(old(self).can_fire(w));
                if i > 0 {
                    assert(due@[i - 1] < w);
                }
            }
            let n = self.fire(w);
            out.push((w, n));
            i = i + 1;
        }
        proof {
            assert forall|j: int, k: int| 0 <= j < k < out@.len() implies out@[j].0 < out@[k].0 by {
                assert(out@[j].0 == due@[j] && out@[k].0 == due@[k]);
            }
            assert forall|x: u64|
                (exists|j: int| 0 <= j < out@.len() && out@[j].0 == x) <==> (pending0.contains(x)
                    || x == notified) by {
                if due@.contains(x) {
                    let j = choose|j: int| 0 <= j < due@.len() && due@[j] == x;
                    assert(out@[j].0 == x);
                }
                if exists|j: int| 0 <= j < out@.len() && out@[j].0 == x {
                    let j = choose|j: int| 0 <= j < out@.len() && out@[j].0 == x;
                    assert(due@[j] == x);
                }
            }
        }
        out
    }
}

} // verus!
