use vstd::prelude::*;
use crate::primitives::ManagedMap;
use crate::rank::{rank_keys, ranked, sorts};
use crate::schedule::{WindowClock, advances, strictly_increasing, window_aligned};
use crate::global_count::{count_in_pane, count_in_window, panes_sum, lemma_panes_sum_is_window_count};
use crate::keyed_count::key_times;
use crate::window::{lemma_mul_cmp, pane_end, pane_end_of};

verus! {

/// The keys of a list of `(key, time)` records, in order.
pub open spec fn keys_of(records: Seq<(u64, u64)>) -> Seq<u64> {
    records.map_values(|r: (u64, u64)| r.0)
}

/// The records kept in the pane ending at `p`, or none when it is absent.
pub open spec fn pane_records(panes: Map<u64, Seq<(u64, u64)>>, p: int) -> Seq<(u64, u64)> {
    if 0 <= p <= u64::MAX && panes.contains_key(p as u64) {
        panes[p as u64]
    } else {
        Seq::empty()
    }
}

/// The keys read from the first `i` panes of the window ending at `end`, newest pane
/// first.
pub open spec fn window_keys(panes: Map<u64, Seq<(u64, u64)>>, end: int, s: int, i: nat) -> Seq<
    u64,
>
    decreases i,
{
    if i == 0 {
        Seq::empty()
    } else {
        window_keys(panes, end, s, (i - 1) as nat) + keys_of(
            pane_records(panes, end - (i - 1) * s),
        )
    }
}

/// The records of the first `i` panes of the window ending at `end`, oldest pane first
/// (the pane ending at `end - (c - 1) * s` comes first).
pub open spec fn window_records(
    panes: Map<u64, Seq<(u64, u64)>>,
    end: int,
    s: int,
    c: nat,
    i: nat,
) -> Seq<(u64, u64)>
    decreases i,
{
    if i == 0 {
        Seq::empty()
    } else {
        window_records(panes, end, s, c, (i - 1) as nat) + pane_records(
            panes,
            end - (c - 1) * s + (i - 1) * s,
        )
    }
}

/// `(end, key, rank)` for each ranked key.
pub open spec fn tag_window(end: u64, ranks: Seq<(u64, u64)>) -> Seq<(u64, u64, u64)> {
    ranks.map_values(|r: (u64, u64)| (end, r.0, r.1))
}

/// Windows of `slice_count` panes of width `slide` that rank, over all keys, the keys of
/// the events they cover. Each pane holds the records that fell in it, in arrival order.
pub struct GlobalRankWindow<M> {
    pub clock: WindowClock,
    pub panes: M,
}

impl<M: ManagedMap<u64, Vec<(u64, u64)>>> GlobalRankWindow<M> {
    pub open spec fn wf(&self) -> bool {
        self.clock.wf()
    }

    pub fn new(slide: u64, slice_count: u64, panes: M) -> (r: Self)
        requires
            slide > 0,
            slice_count > 0,
            slide * slice_count <= u64::MAX,
        ensures
            r.wf(),
            r.panes == panes,
            r.clock.slide == slide,
            r.clock.slice_count == slice_count,
            r.clock.last_slide_seen == 0,
            r.clock.pending@.len() == 0,
    {
        GlobalRankWindow { clock: WindowClock::new(slide, slice_count), panes }
    }

    /// Takes in the records (key, time) of one input batch at input time `time`: moves
    /// the slide cursor, returns the window ends to be notified at, and appends each
    /// record to its pane.
    pub fn on_data(&mut self, time: u64, events: &Vec<(u64, u64)>) -> (timers: Vec<u64>)
        requires
            old(self).wf(),
            old(self).clock.last_slide_seen <= pane_end_of(
                time as int,
                old(self).clock.slide as int,
            ),
            pane_end_of(time as int, old(self).clock.slide as int) + old(self).clock.slide * old(
                self,
            ).clock.slice_count <= u64::MAX,
            forall|i: int|
                0 <= i < events@.len() ==> pane_end_of(
                    events@[i].1 as int,
                    old(self).clock.slide as int,
                ) <= u64::MAX,
        ensures
            final(self).wf(),
            advances(old(self).clock, final(self).clock, time, timers@),
            forall|p: u64|
                #![trigger pane_records(final(self).panes.entries(), p as int)]
                pane_records(final(self).panes.entries(), p as int) == pane_records(
                    old(self).panes.entries(),
                    p as int,
                ) + in_pane(events@, p as int, old(self).clock.slide as int),
    {
        let timers = self.clock.advance(time);
        let ghost clock1 = self.clock;
        let ghost s = self.clock.slide as int;
        let ghost before = self.panes.entries();
        let mut i: usize = 0;
        while i < events.len()
            invariant
                0 <= i <= events@.len(),
                self.clock == clock1,
                self.clock.wf(),
                advances(old(self).clock, clock1, time, timers@),
                s == self.clock.slide,
                s > 0,
                before == old(self).panes.entries(),
                forall|j: int|
                    0 <= j < events@.len() ==> pane_end_of(events@[j].1 as int, s) <= u64::MAX,
                forall|p: u64|
                    #![trigger pane_records(self.panes.entries(), p as int)]
                    pane_records(self.panes.entries(), p as int) == pane_records(before, p as int)
                        + in_pane(events@.take(i as int), p as int, s),
            decreases events@.len() - i,
        {
            let e = events[i];
            let pane = pane_end(e.1, self.clock.slide);
            let ghost mid = self.panes.entries();
            let mut one: Vec<(u64, u64)> = Vec::new();
            one.push(e);
            self.panes.rmw(pane, one);
            proof {
                assert(events@.take(i + 1) == events@.take(i as int).push(e));
                assert forall|p: u64|
                    #![trigger pane_records(self.panes.entries(), p as int)]
                    pane_records(self.panes.entries(), p as int) == pane_records(before, p as int)
                        + in_pane(events@.take(i + 1), p as int, s) by {
                    let g = |x: (u64, u64)| pane_end_of(x.1 as int, s) == p as int;
                    events@.take(i as int).lemma_filter_push(e, g);
                    assert(mid.contains_key(p) == mid.contains_key(p));
                    if p == pane {
                        assert(pane_records(self.panes.entries(), p as int) == pane_records(
                            mid,
                            p as int,
                        ).push(e));
                    } else {
                        assert(pane_records(self.panes.entries(), p as int) == pane_records(
                            mid,
                            p as int,
                        ));
                    }
                }
            }
            i = i + 1;
        }
        proof {
            assert(events@.take(events@.len() as int) == events@);
        }
        timers
    }

    /// Closes the window ending at `window_end`: ranks the keys of the records in its
    /// panes (a missing pane holds none) and purges its first pane.
    pub fn fire(&mut self, window_end: u64) -> (out: Vec<(u64, u64, u64)>)
        requires
            old(self).wf(),
            window_end >= old(self).clock.slide * old(self).clock.slice_count,
            window_keys(
                old(self).panes.entries(),
                window_end as int,
                old(self).clock.slide as int,
                old(self).clock.slice_count as nat,
            ).len() < u64::MAX,
        ensures
            final(self).wf(),
            final(self).clock == old(self).clock,
            exists|sorted: Seq<u64>|
                sorts(
                    sorted,
                    window_keys(
                        old(self).panes.entries(),
                        window_end as int,
                        old(self).clock.slide as int,
                        old(self).clock.slice_count as nat,
                    ),
                ) && out@ == tag_window(window_end, ranked(sorted)),
            final(self).panes.entries() == old(self).panes.entries().remove(
                (window_end - (old(self).clock.slice_count - 1) * old(self).clock.slide) as u64,
            ),
    {
        let ghost s = self.clock.slide as int;
        let ghost c = self.clock.slice_count as nat;
        let ghost w = window_end as int;
        let ghost entries = self.panes.entries();
        proof {
            assert(s * (c - 1) <= s * c) by (nonlinear_arith)
                requires
                    c > 0,
                    s > 0,
            ;
            assert((c - 1) * s == s * (c - 1)) by (nonlinear_arith);
            assert(s * c == c * s) by (nonlinear_arith);
        }
        let mut keys: Vec<u64> = Vec::new();
        let mut pane: u64 = window_end;
        let mut i: u64 = 0;
        while i < self.clock.slice_count
            invariant
                self.wf(),
                self.clock == old(self).clock,
                self.panes == old(self).panes,
                entries == self.panes.entries(),
                s == self.clock.slide,
                c == self.clock.slice_count,
                s > 0,
                c > 0,
                w == window_end,
                w >= c * s,
                0 <= i <= c,
                pane == w - i * s,
                keys@ == window_keys(entries, w, s, i as nat),
                window_keys(entries, w, s, c).len() < u64::MAX,
            decreases c - i,
        {
            proof {
                lemma_mul_cmp(i + 1, c as int, s);
                assert((i + 1) * s == i * s + s) by (nonlinear_arith);
                lemma_window_keys_len_monotone(entries, w, s, (i + 1) as nat, c);
            }
            match self.panes.get(&pane) {
                Some(records) => {
                    let mut j: usize = 0;
                    let ghost k0 = keys@;
                    while j < records.len()
                        invariant
                            0 <= j <= records@.len(),
                            keys@ == k0 + keys_of(records@.take(j as int)),
                            k0 == window_keys(entries, w, s, i as nat),
                            entries.contains_key(pane) && entries[pane] == records@,
                        decreases records@.len() - j,
                    {
                        keys.push(records[j].0);
                        proof {
                            assert(records@.take(j + 1) == records@.take(j as int).push(
                                records@[j as int],
                            ));
                            assert(keys_of(records@.take(j + 1)) == keys_of(
                                records@.take(j as int),
                            ).push(records@[j as int].0));
                        }
                        j = j + 1;
                    }
                    proof {
                        assert(records@.take(records@.len() as int) == records@);
                        assert(pane_records(entries, w - i * s) == records@);
                    }
                },
                None => {
                    proof {
                        assert(pane_records(entries, w - i * s) == Seq::<(u64, u64)>::empty());
                        assert(keys_of(Seq::<(u64, u64)>::empty()) == Seq::<u64>::empty());
                        assert(keys@ + Seq::<u64>::empty() == keys@);
                    }
                },
            }
            pane = pane - self.clock.slide;
            i = i + 1;
        }
        let first: u64 = window_end - self.clock.slide * (self.clock.slice_count - 1);
        let _ = self.panes.remove(&first);
        let ranks = rank_keys(keys);
        let mut out: Vec<(u64, u64, u64)> = Vec::new();
        let mut k: usize = 0;
        while k < ranks.len()
            invariant
                0 <= k <= ranks@.len(),
                out@ == tag_window(window_end, ranks@.take(k as int)),
            decreases ranks@.len() - k,
        {
            let (key, rank) = ranks[k];
            out.push((window_end, key, rank));
            proof {
                assert(ranks@.take(k + 1) == ranks@.take(k as int).push(ranks@[k as int]));
            }
            k = k + 1;
        }
        proof {
            assert(ranks@.take(ranks@.len() as int) == ranks@);
        }
        out
    }
}

proof fn lemma_window_keys_len_monotone(
    panes: Map<u64, Seq<(u64, u64)>>,
    end: int,
    s: int,
    i: nat,
    c: nat,
)
    requires
        i <= c,
    ensures
        window_keys(panes, end, s, i).len() <= window_keys(panes, end, s, c).len(),
    decreases c,
{
    if i < c {
        lemma_window_keys_len_monotone(panes, end, s, i, (c - 1) as nat);
    }
}

/// Removing a pane that ends before the window's first pane leaves the window's keys as
/// they were.
proof fn lemma_window_keys_remove(
    panes: Map<u64, Seq<(u64, u64)>>,
    end: int,
    s: int,
    i: nat,
    q: u64,
)
    requires
        s > 0,
        q < end - (i - 1) * s,
    ensures
        window_keys(panes.remove(q), end, s, i) == window_keys(panes, end, s, i),
    decreases i,
{
    if i > 0 {
        assert((i - 2) * s <= (i - 1) * s) by (nonlinear_arith)
            requires
                s > 0,
        ;
        lemma_window_keys_remove(panes, end, s, (i - 1) as nat, q);
        let p = end - (i - 1) * s;
        assert(pane_records(panes.remove(q), p) == pane_records(panes, p));
    }
}

/// The output of closing each window of `ends` in turn, each ranked over the panes as
/// they stand in `panes`.
pub open spec fn fired_all(
    panes: Map<u64, Seq<(u64, u64)>>,
    ends: Seq<u64>,
    s: int,
    c: nat,
    out: Seq<Seq<(u64, u64, u64)>>,
) -> bool {
    &&& out.len() == ends.len()
    &&& forall|j: int| 0 <= j < ends.len() ==> #[trigger] fires_as(panes, ends[j], s, c, out[j])
}

/// `part` is what closing the window ending at `end` outputs over `panes`: its keys,
/// sorted and ranked, each tagged with `end`.
pub open spec fn fires_as(
    panes: Map<u64, Seq<(u64, u64)>>,
    end: u64,
    s: int,
    c: nat,
    part: Seq<(u64, u64, u64)>,
) -> bool {
    exists|sorted: Seq<u64>|
        sorts(sorted, window_keys(panes, end as int, s, c)) && part == tag_window(
            end,
            ranked(sorted),
        )
}

impl<M: ManagedMap<u64, Vec<(u64, u64)>>> GlobalRankWindow<M> {
    /// Handles a notification at `notified`: closes, in ascending order of their ends,
    /// the pending windows and the notified one, and returns their rankings one after
    /// the other.
    pub fn on_notification(&mut self, notified: u64) -> (out: Vec<(u64, u64, u64)>)
        requires
            old(self).wf(),
            notified >= old(self).clock.slide * old(self).clock.slice_count,
            forall|x: u64|
                #![trigger window_keys(old(self).panes.entries(), x as int, old(self).clock.slide as int, old(self).clock.slice_count as nat)]
                old(self).clock.pending@.contains(x) || x == notified ==> window_keys(
                    old(self).panes.entries(),
                    x as int,
                    old(self).clock.slide as int,
                    old(self).clock.slice_count as nat,
                ).len() < u64::MAX,
        ensures
            final(self).wf(),
            final(self).clock.pending@.len() == 0,
            exists|ends: Seq<u64>, parts: Seq<Seq<(u64, u64, u64)>>|
                {
                    &&& strictly_increasing(ends)
                    &&& forall|x: u64|
                        ends.contains(x) <==> (old(self).clock.pending@.contains(x) || x
                            == notified)
                    &&& fired_all(
                        old(self).panes.entries(),
                        ends,
                        old(self).clock.slide as int,
                        old(self).clock.slice_count as nat,
                        parts,
                    )
                    &&& out@ == parts.flatten_alt()
                },
    {
        let ghost entries0 = self.panes.entries();
        let ghost s = self.clock.slide as int;
        let ghost c = self.clock.slice_count as nat;
        let ghost pending0 = self.clock.pending@;
        proof {
            assert forall|x: u64| pending0.contains(x) implies x >= s * c by {
                let j = choose|j: int| 0 <= j < pending0.len() && pending0[j] == x;
                assert(window_aligned(pending0[j], self.clock.slide, self.clock.slice_count));
            }
        }
        let due = self.clock.due_windows(notified);
        let mut out: Vec<(u64, u64, u64)> = Vec::new();
        let ghost mut parts: Seq<Seq<(u64, u64, u64)>> = Seq::empty();
        let mut i: usize = 0;
        while i < due.len()
            invariant
                self.wf(),
                s == self.clock.slide,
                c == self.clock.slice_count,
                s > 0,
                c > 0,
                self.clock.pending@.len() == 0,
                strictly_increasing(due@),
                forall|x: u64| due@.contains(x) <==> (pending0.contains(x) || x == notified),
                pending0 == old(self).clock.pending@,
                entries0 == old(self).panes.entries(),
                forall|x: u64| due@.contains(x) ==> x >= s * c,
                forall|x: u64|
                    #![trigger window_keys(entries0, x as int, s, c)]
                    due@.contains(x) ==> window_keys(entries0, x as int, s, c).len() < u64::MAX,
                0 <= i <= due@.len(),
                forall|k: int|
                    #![trigger due@[k]]
                    i <= k < due@.len() ==> window_keys(self.panes.entries(), due@[k] as int, s, c)
                        == window_keys(entries0, due@[k] as int, s, c),
                fired_all(entries0, due@.take(i as int), s, c, parts),
                out@ == parts.flatten_alt(),
            decreases due@.len() - i,
        {
            let w = due[i];
            proof {
                assert(due@.contains(w));
                assert(window_keys(self.panes.entries(), w as int, s, c) == window_keys(
                    entries0,
                    w as int,
                    s,
                    c,
                ));
            }
            let ghost mid = self.panes.entries();
            let mut part = self.fire(w);
            proof {
                let q = (w - (c - 1) * s) as u64;
                assert(s * (c - 1) <= s * c) by (nonlinear_arith)
                    requires
                        c > 0,
                        s > 0,
                ;
                assert((c - 1) * s == s * (c - 1)) by (nonlinear_arith);
                assert(s * c == c * s) by (nonlinear_arith);
                assert forall|k: int|
                    #![trigger due@[k]]
                    i + 1 <= k < due@.len() implies window_keys(
                        self.panes.entries(),
                        due@[k] as int,
                        s,
                        c,
                    ) == window_keys(entries0, due@[k] as int, s, c) by {
                    assert(due@[i as int] < due@[k]);
                    lemma_window_keys_remove(mid, due@[k] as int, s, c, q);
                }
                let new_parts = parts.push(part@);
                let chosen = choose|sorted: Seq<u64>|
                    sorts(sorted, window_keys(mid, w as int, s, c)) && part@ == tag_window(
                        w,
                        ranked(sorted),
                    );
                assert(sorts(chosen, window_keys(entries0, w as int, s, c)));
                assert(new_parts[i as int] == part@);
                assert(due@.take(i + 1) == due@.take(i as int).push(w));
                let ends = due@.take(i + 1);
                assert(fires_as(entries0, w, s, c, part@));
                assert forall|j: int| 0 <= j < ends.len() implies #[trigger] fires_as(
                    entries0,
                    ends[j],
                    s,
                    c,
                    new_parts[j],
                ) by {
                    if j < i {
                        assert(new_parts[j] == parts[j]);
                        assert(ends[j] == due@.take(i as int)[j]);
                        assert(fires_as(entries0, due@.take(i as int)[j], s, c, parts[j]));
                    } else {
                        assert(ends[j] == w);
                    }
                }
                assert(new_parts.flatten_alt() == parts.flatten_alt() + part@) by {
                    assert(new_parts.drop_last() == parts);
                }

                assert(new_parts.len() == due@.take(i + 1).len());
                assert(fired_all(entries0, due@.take(i + 1), s, c, new_parts));
                parts = new_parts;
            }
            out.append(&mut part);
            i = i + 1;
        }
        proof {
            assert(due@.take(due@.len() as int) == due@);
        }
        out
    }
}

impl<M: ManagedMap<u64, Vec<(u64, u64)>>> GlobalRankWindow<M> {
    /// Closes the window ending at `window_end` by handing out the records of its panes
    /// in ascending order of time (records with equal times in either order), and purges
    /// its first pane.
    pub fn fire_records(&mut self, window_end: u64) -> (out: Vec<(u64, u64)>)
        requires
            old(self).wf(),
            window_end >= old(self).clock.slide * old(self).clock.slice_count,
        ensures
            final(self).wf(),
            final(self).clock == old(self).clock,
            out@.to_multiset() == window_records(
                old(self).panes.entries(),
                window_end as int,
                old(self).clock.slide as int,
                old(self).clock.slice_count as nat,
                old(self).clock.slice_count as nat,
            ).to_multiset(),
            forall|i: int, j: int| 0 <= i < j < out@.len() ==> out@[i].1 <= out@[j].1,
            final(self).panes.entries() == old(self).panes.entries().remove(
                (window_end - (old(self).clock.slice_count - 1) * old(self).clock.slide) as u64,
            ),
    {
        let ghost s = self.clock.slide as int;
        let ghost c = self.clock.slice_count as nat;
        let ghost w = window_end as int;
        let ghost entries = self.panes.entries();
        proof {
            assert(s * (c - 1) <= s * c) by (nonlinear_arith)
                requires
                    c > 0,
                    s > 0,
            ;
            assert((c - 1) * s == s * (c - 1)) by (nonlinear_arith);
        }
        let first: u64 = window_end - self.clock.slide * (self.clock.slice_count - 1);
        let mut out: Vec<(u64, u64)> = Vec::new();
        let mut pane: u64 = first;
        let mut i: u64 = 0;
        while i < self.clock.slice_count
            invariant
                self.wf(),
                self.clock == old(self).clock,
                self.panes == old(self).panes,
                entries == self.panes.entries(),
                s == self.clock.slide,
                c == self.clock.slice_count,
                s > 0,
                c > 0,
                w == window_end,
                first == w - (c - 1) * s,
                0 <= i <= c,
                i < c ==> pane == first + i * s,
                out@ == window_records(entries, w, s, c, i as nat),
            decreases c - i,
        {
            proof {
                lemma_mul_cmp(i as int, c - 1, s);
                lemma_mul_cmp(i + 1, c - 1, s);
                assert((i + 1) * s == i * s + s) by (nonlinear_arith);
            }
            match self.panes.get(&pane) {
                Some(records) => {
                    let mut j: usize = 0;
                    let ghost o0 = out@;
                    while j < records.len()
                        invariant
                            0 <= j <= records@.len(),
                            out@ == o0 + records@.take(j as int),
                        decreases records@.len() - j,
                    {
                        out.push(records[j]);
                        proof {
                            assert(records@.take(j + 1) == records@.take(j as int).push(
                                records@[j as int],
                            ));
                        }
                        j = j + 1;
                    }
                    proof {
                        assert(records@.take(records@.len() as int) == records@);
                        assert(pane_records(entries, first + i * s) == records@);
                    }
                },
                None => {
                    proof {
                        assert(pane_records(entries, first + i * s) == Seq::<(u64, u64)>::empty());
                        assert(out@ + Seq::<(u64, u64)>::empty() == out@);
                    }
                },
            }
            if i + 1 < self.clock.slice_count {
                pane = pane + self.clock.slide;
            }
            i = i + 1;
        }
        let _ = self.panes.remove(&first);
        sort_records_by_time(&mut out);
        out
    }
}

/// Relies on `slice::sort_by_key` with each record's time as the key: it reorders the
/// records into ascending order of time.
#[verifier::external_body]
fn sort_records_by_time(records: &mut Vec<(u64, u64)>)
    ensures
        final(records)@.to_multiset() == old(records)@.to_multiset(),
        forall|i: int, j: int|
            0 <= i < j < final(records)@.len() ==> final(records)@[i].1 <= final(records)@[j].1,
{
    records.sort_by_key(|r| r.1);
}

/// The records of `h` whose pane (of width `s`) ends at `p`, in order.
pub open spec fn in_pane(h: Seq<(u64, u64)>, p: int, s: int) -> Seq<(u64, u64)> {
    h.filter(|e: (u64, u64)| pane_end_of(e.1 as int, s) == p)
}

proof fn lemma_pane_key_count(h: Seq<(u64, u64)>, k: u64, p: int, s: int)
    ensures
        keys_of(in_pane(h, p, s)).to_multiset().count(k) == count_in_pane(key_times(h, k), p, s),
    decreases h.len(),
{
    broadcast use vstd::seq_lib::group_to_multiset_ensures;

    if h.len() == 0 {
        assert(in_pane(h, p, s) =~= Seq::<(u64, u64)>::empty());
        assert(keys_of(in_pane(h, p, s)) =~= Seq::<u64>::empty());
    } else {
        let pre = h.drop_last();
        let e = h.last();
        lemma_pane_key_count(pre, k, p, s);
        assert(pre.push(e) == h);
        let f = |x: (u64, u64)| pane_end_of(x.1 as int, s) == p;
        pre.lemma_filter_push(e, f);
        let kt = key_times(h, k);
        if e.0 == k {
            assert(kt.drop_last() == key_times(pre, k));
            assert(kt.last() == e.1);
        }
        if f(e) {
            assert(keys_of(in_pane(h, p, s)) =~= keys_of(in_pane(pre, p, s)).push(e.0));
        }
    }
}

proof fn lemma_window_key_counts(
    entries: Map<u64, Seq<(u64, u64)>>,
    h: Seq<(u64, u64)>,
    k: u64,
    end: int,
    s: int,
    i: nat,
)
    requires
        s > 0,
        end <= u64::MAX,
        end - (i - 1) * s >= 0,
        forall|p: u64| #[trigger] pane_records(entries, p as int) == in_pane(h, p as int, s),
    ensures
        window_keys(entries, end, s, i).to_multiset().count(k) == panes_sum(
            key_times(h, k),
            end,
            s,
            i,
        ),
    decreases i,
{
    broadcast use vstd::seq_lib::group_to_multiset_ensures;

    if i == 0 {
        assert(window_keys(entries, end, s, i) =~= Seq::<u64>::empty());
    } else {
        assert(end - (i - 2) * s >= end - (i - 1) * s) by (nonlinear_arith)
            requires
                s > 0,
        ;
        lemma_window_key_counts(entries, h, k, end, s, (i - 1) as nat);
        let p = end - (i - 1) * s;
        assert(p <= end) by (nonlinear_arith)
            requires
                s > 0,
                i > 0,
                p == end - (i - 1) * s,
        ;
        assert(pane_records(entries, (p as u64) as int) == in_pane(h, (p as u64) as int, s));
        lemma_pane_key_count(h, k, p, s);
        vstd::seq_lib::lemma_multiset_commutative(
            window_keys(entries, end, s, (i - 1) as nat),
            keys_of(pane_records(entries, p)),
        );
    }
}

/// What a rank window ranks: when each pane holds the records of `events` that fell in
/// it (as taking them in from empty state leaves it), the keys read for the window ending
/// at `end` hold each key `k` exactly as often as `k` has events whose time lies in
/// `[end - slide * slice_count, end)`.
pub proof fn lemma_rank_window_keys(
    entries: Map<u64, Seq<(u64, u64)>>,
    events: Seq<(u64, u64)>,
    k: u64,
    end: u64,
    slide: u64,
    slice_count: u64,
)
    requires
        slide > 0,
        slice_count > 0,
        end % slide == 0,
        end >= slide * slice_count,
        forall|p: u64| #[trigger]
            pane_records(entries, p as int) == in_pane(events, p as int, slide as int),
    ensures
        window_keys(entries, end as int, slide as int, slice_count as nat).to_multiset().count(k)
            == count_in_window(key_times(events, k), end as int, slide as int, slice_count as int),
{
    let s = slide as int;
    let c = slice_count as nat;
    assert(end - (c - 1) * s >= 0) by (nonlinear_arith)
        requires
            end >= s * c,
            s > 0,
            c > 0,
    ;
    lemma_window_key_counts(entries, events, k, end as int, s, c);
    lemma_panes_sum_is_window_count(key_times(events, k), end as int, s, c);
}

} // verus!
