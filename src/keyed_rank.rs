use vstd::prelude::*;
use crate::global_rank::{keys_of, tag_window};
use crate::keyed_count::{
    drop_slices, fire_index, fire_keys, index_after, record_key, sorted_keys_of,
};
use crate::primitives::ManagedMap;
use crate::rank::{rank_keys, ranked, sorts};
use crate::window::{SLICE_NS, assign_windows, holds_event, pane_end_of, slice_end};

verus! {

/// The records kept under `k`, or none.
pub open spec fn bucket(buckets: Map<(u64, u64), Seq<(u64, u64)>>, k: (u64, u64)) -> Seq<
    (u64, u64),
> {
    if buckets.contains_key(k) {
        buckets[k]
    } else {
        Seq::empty()
    }
}

/// `part` is what closing one key's window outputs: the keys of the window's records,
/// sorted and ranked, each tagged with the window end.
pub open spec fn ranks_bucket(records: Seq<(u64, u64)>, end: u64, part: Seq<(u64, u64, u64)>) -> bool {
    exists|sorted: Seq<u64>| sorts(sorted, keys_of(records)) && part == tag_window(end, ranked(sorted))
}

/// Windows of `slice_count` slides of width `slide`, computed for each key on its own:
/// each record goes to the bucket of its key and of every window that holds its time.
pub struct KeyedRankWindow<I, B> {
    pub slide: u64,
    pub slice_count: u64,
    pub index: I,
    pub buckets: B,
}

impl<I: ManagedMap<u64, Vec<u64>>, B: ManagedMap<(u64, u64), Vec<(u64, u64)>>> KeyedRankWindow<I, B> {
    pub open spec fn wf(&self) -> bool {
        &&& self.slide > 0
        &&& self.slice_count > 0
        &&& self.slide * self.slice_count <= u64::MAX
    }

    /// Length of each window.
    pub open spec fn size(&self) -> int {
        self.slide * self.slice_count
    }

    pub fn new(slide: u64, slice_count: u64, index: I, buckets: B) -> (r: Self)
        requires
            slide > 0,
            slice_count > 0,
            slide * slice_count <= u64::MAX,
        ensures
            r.wf(),
            r.slide == slide,
            r.slice_count == slice_count,
            r.index == index,
            r.buckets == buckets,
    {
        KeyedRankWindow { slide, slice_count, index, buckets }
    }

    /// Takes in the records (key, time) of one input batch: records each key in the slice
    /// index, appends each record to the bucket of its key and of every window that holds
    /// its time, and returns the ends of those windows, to be notified at.
    pub fn on_data(&mut self, events: &Vec<(u64, u64)>) -> (timers: Vec<u64>)
        requires
            old(self).wf(),
            forall|i: int|
                0 <= i < events@.len() ==> pane_end_of(events@[i].1 as int, SLICE_NS as int)
                    <= u64::MAX && events@[i].1 + old(self).size() <= u64::MAX,
        ensures
            final(self).wf(),
            final(self).slide == old(self).slide,
            final(self).slice_count == old(self).slice_count,
            final(self).index.entries() == index_after(old(self).index.entries(), events@),
            forall|k: (u64, u64)|
                #![trigger bucket(final(self).buckets.entries(), k)]
                bucket(final(self).buckets.entries(), k) == bucket(old(self).buckets.entries(), k)
                    + events@.filter(
                    |e: (u64, u64)|
                        e.0 == k.0 && holds_event(
                            k.1 as int,
                            e.1 as int,
                            old(self).slide as int,
                            old(self).size(),
                        ),
                ),
            forall|x: u64|
                timers@.contains(x) <==> exists|i: int, w: u64|
                    0 <= i < events@.len() && holds_event(
                        w as int,
                        events@[i].1 as int,
                        old(self).slide as int,
                        old(self).size(),
                    ) && x == w + old(self).size(),
    {
        let size: u64 = self.slide * self.slice_count;
        let ghost s = self.slide as int;
        let ghost z = size as int;
        let ghost index0 = self.index.entries();
        let ghost buckets0 = self.buckets.entries();
        let mut timers: Vec<u64> = Vec::new();
        let mut i: usize = 0;
        while i < events.len()
            invariant
                0 <= i <= events@.len(),
                self.wf(),
                self.slide == old(self).slide,
                self.slice_count == old(self).slice_count,
                s == self.slide,
                z == size,
                size == self.slide * self.slice_count,
                index0 == old(self).index.entries(),
                buckets0 == old(self).buckets.entries(),
                forall|j: int|
                    0 <= j < events@.len() ==> pane_end_of(events@[j].1 as int, SLICE_NS as int)
                        <= u64::MAX && events@[j].1 + z <= u64::MAX,
                self.index.entries() == index_after(index0, events@.take(i as int)),
                forall|k: (u64, u64)|
                    #![trigger bucket(self.buckets.entries(), k)]
                    bucket(self.buckets.entries(), k) == bucket(buckets0, k) + events@.take(
                        i as int,
                    ).filter(|e: (u64, u64)| e.0 == k.0 && holds_event(k.1 as int, e.1 as int, s, z)),
                forall|x: u64|
                    timers@.contains(x) <==> exists|j: int, w: u64|
                        0 <= j < i && holds_event(w as int, events@[j].1 as int, s, z) && x == w
                            + z,
            decreases events@.len() - i,
        {
            let (key, ts) = events[i];
            let slice = slice_end(ts);
            record_key(&mut self.index, slice, key);
            proof {
                let pre = events@.take(i + 1);
                assert(pre.drop_last() == events@.take(i as int));
                assert(pre.last() == (key, ts));
                assert(events@[i as int] == (key, ts));
            }
            let windows = assign_windows(ts, self.slide, size);
            let ghost mid = self.buckets.entries();
            let ghost timers_mid = timers@;
            let mut n: usize = 0;
            while n < windows.len()
                invariant
                    0 <= n <= windows@.len(),
                    forall|a: int, b: int| 0 <= a < b < windows@.len() ==> windows@[a] > windows@[b],
                    forall|w: u64| windows@.contains(w) <==> holds_event(w as int, ts as int, s, z),
                    ts + z <= u64::MAX,
                    z == size,
                    s == self.slide,
                    self.slide == old(self).slide,
                    self.slice_count == old(self).slice_count,
                    self.index.entries() == index_after(index0, events@.take(i + 1)),
                    forall|k: (u64, u64)|
                        #![trigger bucket(self.buckets.entries(), k)]
                        bucket(self.buckets.entries(), k) == bucket(mid, k) + if k.0 == key
                            && windows@.take(n as int).contains(k.1) {
                            seq![(key, ts)]
                        } else {
                            Seq::empty()
                        },
                    forall|x: u64|
                        #![trigger timers@.contains(x)]
                        #![trigger timers_mid.contains(x)]
                        timers@.contains(x) <==> (timers_mid.contains(x) || exists|m: int|
                            0 <= m < n && x == windows@[m] + z),
                decreases windows@.len() - n,
            {
                let w = windows[n];
                proof {
                    assert(windows@.contains(w));
                    assert(holds_event(w as int, ts as int, s, z));
                }
                let ghost prev = timers@;
                timers.push(w + size);
                let ghost b_before = self.buckets.entries();
                let mut one: Vec<(u64, u64)> = Vec::new();
                one.push((key, ts));
                self.buckets.rmw((key, w), one);
                proof {
                    assert(windows@.take(n + 1) == windows@.take(n as int).push(w));
                    assert forall|k: (u64, u64)|
                        #![trigger bucket(self.buckets.entries(), k)]
                        bucket(self.buckets.entries(), k) == bucket(mid, k) + if k.0 == key
                            && windows@.take(n + 1).contains(k.1) {
                            seq![(key, ts)]
                        } else {
                            Seq::empty()
                        } by {
                        assert(bucket(b_before, k) == bucket(mid, k) + if k.0 == key
                            && windows@.take(n as int).contains(k.1) {
                            seq![(key, ts)]
                        } else {
                            Seq::empty()
                        });
                        if k == (key, w) {
                            assert(!windows@.take(n as int).contains(w)) by {
                                if windows@.take(n as int).contains(w) {
                                    let m = choose|m: int| 0 <= m < n && windows@.take(n as int)[m] == w;
                                    assert(windows@[m] > windows@[n as int]);
                                }
                            }
                            assert(windows@.take(n + 1)[n as int] == w);
                            assert(bucket(mid, k) + seq![(key, ts)] == bucket(mid, k).push((key, ts)));
                        } else {
                            if k.0 == key {
                                if windows@.take(n + 1).contains(k.1) {
                                    let pre = windows@.take(n + 1);
                                    let m = choose|m: int| 0 <= m < pre.len() && pre[m] == k.1;
                                    assert(m < n);
                                    assert(windows@.take(n as int)[m] == k.1);
                                }
                                if windows@.take(n as int).contains(k.1) {
                                    let m = choose|m: int| 0 <= m < n && windows@.take(n as int)[m] == k.1;
                                    assert(windows@.take(n + 1)[m] == k.1);
                                }
                            }
                        }
                    }
                    assert forall|x: u64|
                        #![trigger timers@.contains(x)]
                        #![trigger timers_mid.contains(x)]
                        timers@.contains(x) <==> (timers_mid.contains(x) || exists|m: int|
                            0 <= m < n + 1 && x == windows@[m] + z) by {
                        assert(timers@ == prev.push((w + size) as u64));
                        if timers@.contains(x) && x != w + z {
                            let q = choose|q: int| 0 <= q < timers@.len() && timers@[q] == x;
                            assert(q < prev.len());
                            assert(prev[q] == x);
                            assert(prev.contains(x));
                        }
                        if x == w + z {
                            assert(timers@[prev.len() as int] == x);
                            assert(x == windows@[n as int] + z);
                        }
                        assert(prev.contains(x) <==> (timers_mid.contains(x) || exists|m: int|
                            0 <= m < n && x == windows@[m] + z));
                        if (exists|m: int| 0 <= m < n && x == windows@[m] + z) || timers_mid.contains(x) {
                            assert(prev.contains(x));
                            let q = choose|q: int| 0 <= q < prev.len() && prev[q] == x;
                            assert(timers@[q] == x);
                        }
                        if exists|m: int| 0 <= m < n + 1 && x == windows@[m] + z {
                            let m = choose|m: int| 0 <= m < n + 1 && x == windows@[m] + z;
                            if m < n {
                                assert(exists|m: int| 0 <= m < n && x == windows@[m] + z);
                            } else {
                                assert(x == w + z);
                            }
                        }
                    }
                }
                n = n + 1;
            }
            proof {
                assert(windows@.take(windows@.len() as int) == windows@);
                let pre = events@.take(i + 1);
                assert(pre == events@.take(i as int).push((key, ts)));
                assert forall|k: (u64, u64)|
                    #![trigger bucket(self.buckets.entries(), k)]
                    bucket(self.buckets.entries(), k) == bucket(buckets0, k) + pre.filter(
                        |e: (u64, u64)| e.0 == k.0 && holds_event(k.1 as int, e.1 as int, s, z),
                    ) by {
                    let f = |e: (u64, u64)| e.0 == k.0 && holds_event(k.1 as int, e.1 as int, s, z);
                    events@.take(i as int).lemma_filter_push((key, ts), f);
                    assert(bucket(mid, k) == bucket(buckets0, k) + events@.take(i as int).filter(f));
                    if k.0 == key && windows@.contains(k.1) {
                        assert(pre.filter(f) == events@.take(i as int).filter(f).push((key, ts)));
                        assert(bucket(buckets0, k) + events@.take(i as int).filter(f) + seq![(key, ts)]
                            == bucket(buckets0, k) + events@.take(i as int).filter(f).push((key, ts)));
                    } else {
                        assert(pre.filter(f) == events@.take(i as int).filter(f));
                        assert(bucket(mid, k) + Seq::<(u64, u64)>::empty() == bucket(mid, k));
                    }
                }
                assert forall|x: u64|
                    timers@.contains(x) <==> exists|j: int, w: u64|
                        0 <= j < i + 1 && holds_event(w as int, events@[j].1 as int, s, z) && x
                            == w + z by {
                    if timers@.contains(x) {
                        if !timers_mid.contains(x) {
                            let m = choose|m: int| 0 <= m < windows@.len() && x == windows@[m] + z;
                            assert(windows@.contains(windows@[m]));
                            assert(holds_event(windows@[m] as int, events@[i as int].1 as int, s, z));
                            assert(0 <= i < i + 1 && holds_event(
                                windows@[m] as int,
                                events@[i as int].1 as int,
                                s,
                                z,
                            ) && x == windows@[m] + z);
                        }
                    }
                    if exists|j: int, w: u64|
                        0 <= j < i + 1 && holds_event(w as int, events@[j].1 as int, s, z) && x
                            == w + z {
                        let (j, w) = choose|j: int, w: u64|
                            0 <= j < i + 1 && holds_event(w as int, events@[j].1 as int, s, z) && x
                                == w + z;
                        if j == i {
                            assert(windows@.contains(w));
                            let m = choose|m: int| 0 <= m < windows@.len() && windows@[m] == w;
                            assert(x == windows@[m] + z);
                            assert(timers@.contains(x));
                        } else {
                            assert(0 <= j < i && holds_event(w as int, events@[j].1 as int, s, z) && x
                                == w + z);
                            assert(timers_mid.contains(x));
                            assert(timers@.contains(x));
                        }
                    }
                }
            }
            i = i + 1;
        }
        proof {
            assert(events@.take(events@.len() as int) == events@);
        }
        timers
    }

    /// Closes, for every key, the window ending at `window_end`: lists the distinct keys
    /// recorded in the window's slices, takes out each key's bucket for the window and
    /// ranks the keys of its records, and drops the slices that no later window reads.
    pub fn fire(&mut self, window_end: u64) -> (out: Vec<(u64, u64, u64)>)
        requires
            old(self).wf(),
            window_end >= old(self).size(),
            window_end + SLICE_NS <= u64::MAX,
            forall|k: (u64, u64)|
                #[trigger] bucket(old(self).buckets.entries(), k).len() < u64::MAX,
        ensures
            final(self).wf(),
            final(self).slide == old(self).slide,
            final(self).slice_count == old(self).slice_count,
            ({
                let s = old(self).slide as int;
                let c = old(self).slice_count as nat;
                let start = (window_end - s * c) as u64;
                let keys = fire_keys(old(self).index.entries(), window_end as int, s, c);
                &&& exists|parts: Seq<Seq<(u64, u64, u64)>>|
                    {
                        &&& parts.len() == keys.len()
                        &&& forall|j: int|
                            0 <= j < keys.len() ==> #[trigger] ranks_bucket(
                                bucket(old(self).buckets.entries(), (keys[j], start)),
                                window_end,
                                parts[j],
                            )
                        &&& out@ == parts.flatten_alt()
                    }
                &&& final(self).buckets.entries() == old(self).buckets.entries().remove_keys(
                    Set::new(|k: (u64, u64)| keys.contains(k.0) && k.1 == start),
                )
                &&& final(self).index.entries() == fire_index(
                    old(self).index.entries(),
                    window_end as int,
                    s,
                    c,
                )
            }),
    {
        let ghost s = self.slide as int;
        let ghost c = self.slice_count as nat;
        let ghost index0 = self.index.entries();
        let ghost buckets0 = self.buckets.entries();
        let size: u64 = self.slide * self.slice_count;
        let start: u64 = window_end - size;
        proof {
            assert(s <= s * c) by (nonlinear_arith)
                requires
                    c > 0,
                    s > 0,
            ;
        }
        let all = sorted_keys_of(&self.index, start, size);
        let ghost keys = all@;
        let mut out: Vec<(u64, u64, u64)> = Vec::new();
        let ghost mut parts: Seq<Seq<(u64, u64, u64)>> = Seq::empty();
        let mut a: usize = 0;
        while a < all.len()
            invariant
                0 <= a <= keys.len(),
                all@ == keys,
                forall|x: int, y: int| 0 <= x < y < keys.len() ==> keys[x] != keys[y],
                self.wf(),
                self.slide == old(self).slide,
                self.slice_count == old(self).slice_count,
                self.index.entries() == index0,
                buckets0 == old(self).buckets.entries(),
                forall|k: (u64, u64)| #[trigger] bucket(buckets0, k).len() < u64::MAX,
                self.buckets.entries() == buckets0.remove_keys(
                    Set::new(|k: (u64, u64)| keys.take(a as int).contains(k.0) && k.1 == start),
                ),
                parts.len() == a,
                forall|j: int|
                    0 <= j < a ==> #[trigger] ranks_bucket(
                        bucket(buckets0, (keys[j], start)),
                        window_end,
                        parts[j],
                    ),
                out@ == parts.flatten_alt(),
            decreases keys.len() - a,
        {
            let key = all[a];
            proof {
                assert(!keys.take(a as int).contains(key)) by {
                    if keys.take(a as int).contains(key) {
                        let z = choose|z: int| 0 <= z < a && keys.take(a as int)[z] == key;
                        assert(keys[z] == keys[a as int]);
                    }
                }
                assert(bucket(self.buckets.entries(), (key, start)) == bucket(buckets0, (key, start)));
                assert(bucket(buckets0, (key, start)).len() < u64::MAX);
            }
            let records = match self.buckets.remove(&(key, start)) {
                Some(v) => v,
                None => Vec::new(),
            };
            let mut auctions: Vec<u64> = Vec::new();
            let mut r: usize = 0;
            while r < records.len()
                invariant
                    0 <= r <= records@.len(),
                    auctions@ == keys_of(records@.take(r as int)),
                decreases records@.len() - r,
            {
                auctions.push(records[r].0);
                proof {
                    assert(records@.take(r + 1) == records@.take(r as int).push(records@[r as int]));
                }
                r = r + 1;
            }
            proof {
                assert(records@.take(records@.len() as int) == records@);
                assert(records@ == bucket(buckets0, (key, start)));
            }
            let ranks = rank_keys(auctions);
            let mut part: Vec<(u64, u64, u64)> = Vec::new();
            let mut q: usize = 0;
            while q < ranks.len()
                invariant
                    0 <= q <= ranks@.len(),
                    part@ == tag_window(window_end, ranks@.take(q as int)),
                decreases ranks@.len() - q,
            {
                let (auction, rank) = ranks[q];
                part.push((window_end, auction, rank));
                proof {
                    assert(ranks@.take(q + 1) == ranks@.take(q as int).push(ranks@[q as int]));
                }
                q = q + 1;
            }
            proof {
                assert(ranks@.take(ranks@.len() as int) == ranks@);
                assert(ranks_bucket(bucket(buckets0, (key, start)), window_end, part@));
                let new_parts = parts.push(part@);
                assert(new_parts.drop_last() == parts);
                assert(new_parts.flatten_alt() == parts.flatten_alt() + part@);
                assert forall|j: int|
                    0 <= j < a + 1 implies #[trigger] ranks_bucket(
                        bucket(buckets0, (keys[j], start)),
                        window_end,
                        new_parts[j],
                    ) by {
                    if j < a {
                        assert(new_parts[j] == parts[j]);
                    }
                }
                let next = keys.take(a + 1);
                assert(next == keys.take(a as int).push(key));
                assert(self.buckets.entries() =~= buckets0.remove_keys(
                    Set::new(|k: (u64, u64)| next.contains(k.0) && k.1 == start),
                )) by {
                    assert forall|k: (u64, u64)|
                        next.contains(k.0) == (keys.take(a as int).contains(k.0) || k.0 == key) by {
                        if next.contains(k.0) {
                            let z = choose|z: int| 0 <= z < next.len() && next[z] == k.0;
                            if z < a {
                                assert(keys.take(a as int)[z] == k.0);
                            }
                        }
                        if keys.take(a as int).contains(k.0) {
                            let z = choose|z: int| 0 <= z < a && keys.take(a as int)[z] == k.0;
                            assert(next[z] == k.0);
                        }
                        if k.0 == key {
                            assert(next[a as int] == key);
                        }
                    }
                }
                parts = new_parts;
            }
            out.append(&mut part);
            a = a + 1;
        }
        drop_slices(&mut self.index, start, self.slide);
        proof {
            assert(keys.take(keys.len() as int) == keys);
            assert(keys == fire_keys(index0, window_end as int, s, c));
        }
        out
    }
}

} // verus!
