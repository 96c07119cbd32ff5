use vstd::prelude::*;
use crate::primitives::ManagedMap;
use crate::rank::{ascending, sort_keys, sorts};
use vstd::relations::{sorted_by, total_ordering};
use crate::schedule::{WindowClock, advances, strictly_increasing, window_aligned};
use crate::global_count::{
    count_in_pane, count_in_window, lemma_count_in_pane_bound, lemma_panes_sum_is_window_count,
    panes_sum,
};
use crate::window::{SLICE_NS, lemma_div_bounds, lemma_mul_cmp, pane_end, pane_end_of, slice_end};

verus! {

/// `keys` with `k` added at the end unless it is already there.
pub open spec fn add_key(keys: Seq<u64>, k: u64) -> Seq<u64> {
    if keys.contains(k) {
        keys
    } else {
        keys.push(k)
    }
}

/// The keys listed under `slice`, or none.
pub open spec fn slice_list(index: Map<u64, Seq<u64>>, slice: u64) -> Seq<u64> {
    if index.contains_key(slice) {
        index[slice]
    } else {
        Seq::empty()
    }
}

/// The slice index after recording the key of each event in the slice of its time.
pub open spec fn index_after(index: Map<u64, Seq<u64>>, events: Seq<(u64, u64)>) -> Map<
    u64,
    Seq<u64>,
>
    decreases events.len(),
{
    if events.len() == 0 {
        index
    } else {
        let before = index_after(index, events.drop_last());
        let e = events.last();
        let slice = pane_end_of(e.1 as int, SLICE_NS as int) as u64;
        let keys = slice_list(before, slice);
        if keys.contains(e.0) {
            before
        } else {
            before.insert(slice, keys.push(e.0))
        }
    }
}

/// The count kept for `k`, or zero.
pub open spec fn count_or_zero(panes: Map<(u64, u64), u64>, k: (u64, u64)) -> int {
    if panes.contains_key(k) {
        panes[k] as int
    } else {
        0
    }
}

/// The keyed pane counts after adding one for each event to the pane of its key and time.
pub open spec fn panes_after(panes: Map<(u64, u64), u64>, events: Seq<(u64, u64)>, s: int) -> Map<
    (u64, u64),
    u64,
>
    decreases events.len(),
{
    if events.len() == 0 {
        panes
    } else {
        let before = panes_after(panes, events.drop_last(), s);
        let e = events.last();
        let k = (e.0, pane_end_of(e.1 as int, s) as u64);
        before.insert(k, (count_or_zero(before, k) + 1) as u64)
    }
}

/// The keys listed in the `n` slices that start at `first`, one second apart, in order.
pub open spec fn slice_keys(index: Map<u64, Seq<u64>>, first: int, n: nat) -> Seq<u64>
    decreases n,
{
    if n == 0 {
        Seq::empty()
    } else {
        slice_keys(index, first, (n - 1) as nat) + slice_list(
            index,
            (first + (n - 1) * SLICE_NS) as u64,
        )
    }
}

/// `s` without repeats, each value where it first appears.
pub open spec fn dedup(s: Seq<u64>) -> Seq<u64>
    decreases s.len(),
{
    if s.len() == 0 {
        Seq::empty()
    } else {
        add_key(dedup(s.drop_last()), s.last())
    }
}

/// The sum of the counts of `key` over the first `i` panes of the window ending at `end`.
pub open spec fn keyed_sum(panes: Map<(u64, u64), u64>, key: u64, end: int, s: int, i: nat) -> int
    decreases i,
{
    if i == 0 {
        0
    } else {
        keyed_sum(panes, key, end, s, (i - 1) as nat) + count_or_zero(
            panes,
            (key, (end - (i - 1) * s) as u64),
        )
    }
}

/// The `j`-th slice after `start`, one second apart, starting one second in.
pub open spec fn slice_at(start: int, j: int) -> int {
    start + SLICE_NS + j * SLICE_NS
}

/// The first `q` slices after `start`.
pub open spec fn slices_from(start: int, q: int) -> Set<u64> {
    Set::new(|x: u64| exists|j: int| 0 <= j < q && #[trigger] slice_at(start, j) == x)
}

/// Number of one-second slices from the start of a window of `size` to its end.
pub open spec fn slice_count_of(size: int) -> nat {
    ((size + SLICE_NS - 1) / SLICE_NS as int) as nat
}

/// The values of `d` in ascending order.
pub open spec fn in_ascending_order(d: Seq<u64>) -> Seq<u64> {
    choose|x: Seq<u64>| sorts(x, d)
}

/// The distinct keys that the slice index lists for the window `[start, start + size)`,
/// in ascending order.
pub open spec fn keys_in_slices(index: Map<u64, Seq<u64>>, start: int, size: int) -> Seq<u64> {
    in_ascending_order(dedup(slice_keys(index, start + SLICE_NS, slice_count_of(size))))
}

/// The distinct keys that closing the window ending at `w` reports, in ascending order.
pub open spec fn fire_keys(index: Map<u64, Seq<u64>>, w: int, s: int, c: nat) -> Seq<u64> {
    keys_in_slices(index, w - s * c, s * c)
}

/// What closing the window ending at `w` outputs: `(w, key, count)` for each key.
pub open spec fn fire_out(
    index: Map<u64, Seq<u64>>,
    panes: Map<(u64, u64), u64>,
    w: int,
    s: int,
    c: nat,
) -> Seq<(u64, u64, u64)> {
    fire_keys(index, w, s, c).map_values(
        |k: u64| (w as u64, k, keyed_sum(panes, k, w, s, c) as u64),
    )
}

/// The keyed panes left after closing the window ending at `w`.
pub open spec fn fire_panes(
    index: Map<u64, Seq<u64>>,
    panes: Map<(u64, u64), u64>,
    w: int,
    s: int,
    c: nat,
) -> Map<(u64, u64), u64> {
    let keys = fire_keys(index, w, s, c);
    let first_pane = (w - (c - 1) * s) as u64;
    panes.remove_keys(Set::new(|k: (u64, u64)| keys.contains(k.0) && k.1 == first_pane))
}

/// The slice index left after closing the window ending at `w`.
pub open spec fn fire_index(index: Map<u64, Seq<u64>>, w: int, s: int, c: nat) -> Map<
    u64,
    Seq<u64>,
> {
    index.remove_keys(slices_from(w - s * c, s / SLICE_NS as int))
}

/// Closing the windows of `ends` one after the other: the outputs one after the other,
/// and the index and panes left at the end.
pub open spec fn fire_all(
    index: Map<u64, Seq<u64>>,
    panes: Map<(u64, u64), u64>,
    ends: Seq<u64>,
    s: int,
    c: nat,
) -> (Seq<(u64, u64, u64)>, Map<u64, Seq<u64>>, Map<(u64, u64), u64>)
    decreases ends.len(),
{
    if ends.len() == 0 {
        (Seq::empty(), index, panes)
    } else {
        let (o, index_left, panes_left) = fire_all(index, panes, ends.drop_last(), s, c);
        let w = ends.last() as int;
        (o + fire_out(index_left, panes_left, w, s, c), fire_index(index_left, w, s, c), fire_panes(index_left, panes_left, w, s, c))
    }
}

proof fn lemma_keyed_sum_submap(
    small: Map<(u64, u64), u64>,
    big: Map<(u64, u64), u64>,
    key: u64,
    end: int,
    s: int,
    i: nat,
)
    requires
        small.submap_of(big),
    ensures
        keyed_sum(small, key, end, s, i) <= keyed_sum(big, key, end, s, i),
    decreases i,
{
    if i > 0 {
        lemma_keyed_sum_submap(small, big, key, end, s, (i - 1) as nat);
        let k = (key, (end - (i - 1) * s) as u64);
        if small.contains_key(k) {
            assert(big.contains_key(k) && big[k] == small[k]);
        }
    }
}

proof fn lemma_fire_all_submap(
    index: Map<u64, Seq<u64>>,
    panes: Map<(u64, u64), u64>,
    ends: Seq<u64>,
    s: int,
    c: nat,
)
    ensures
        fire_all(index, panes, ends, s, c).2.submap_of(panes),
    decreases ends.len(),
{
    if ends.len() > 0 {
        lemma_fire_all_submap(index, panes, ends.drop_last(), s, c);
    }
}

/// Records `key` in the index entry of `slice`, unless it is there already.
pub fn record_key<I: ManagedMap<u64, Vec<u64>>>(index: &mut I, slice: u64, key: u64)
    ensures
        final(index).entries() == ({
            let keys = slice_list(old(index).entries(), slice);
            if keys.contains(key) {
                old(index).entries()
            } else {
                old(index).entries().insert(slice, keys.push(key))
            }
        }),
{
    let mut exists = false;
    let ghost before = index.entries();
    match index.get(&slice) {
        Some(keys) => {
            let mut j: usize = 0;
            while j < keys.len()
                invariant
                    0 <= j <= keys@.len(),
                    keys@ == slice_list(before, slice),
                    exists <==> keys@.take(j as int).contains(key),
                decreases keys@.len() - j,
            {
                if keys[j] == key {
                    exists = true;
                }
                proof {
                    assert(keys@.take(j + 1) == keys@.take(j as int).push(keys@[j as int]));
                    if keys@.take(j as int).contains(key) {
                        let m = choose|m: int| 0 <= m < j && keys@.take(j as int)[m] == key;
                        assert(keys@.take(j + 1)[m] == key);
                    }
                    if keys@.take(j + 1).contains(key) {
                        let pre = keys@.take(j + 1);
                        let m = choose|m: int| 0 <= m < pre.len() && pre[m] == key;
                        if m < j {
                            assert(keys@.take(j as int)[m] == key);
                            assert(keys@.take(j as int).contains(key));
                        } else {
                            assert(keys@[j as int] == key);
                        }
                    }
                    if keys@[j as int] == key {
                        assert(keys@.take(j + 1)[j as int] == key);
                    }
                }
                j = j + 1;
            }
            proof {
                assert(keys@.take(keys@.len() as int) == keys@);
            }
        },
        None => {},
    }
    if !exists {
        let mut keys = match index.remove(&slice) {
            Some(v) => v,
            None => Vec::new(),
        };
        keys.push(key);
        index.insert(slice, keys);
        proof {
            assert(index.entries() =~= before.insert(
                slice,
                slice_list(before, slice).push(key),
            ));
        }
    }
}

/// Windows of `slice_count` panes of width `slide`, computed for each key on its own.
/// A slice index records which keys were seen in each second.
pub struct KeyedCountWindow<I, P> {
    pub clock: WindowClock,
    pub index: I,
    pub panes: P,
}

impl<I: ManagedMap<u64, Vec<u64>>, P: ManagedMap<(u64, u64), u64>> KeyedCountWindow<I, P> {
    pub open spec fn wf(&self) -> bool {
        self.clock.wf()
    }

    pub fn new(slide: u64, slice_count: u64, index: I, panes: P) -> (r: Self)
        requires
            slide > 0,
            slice_count > 0,
            slide * slice_count <= u64::MAX,
        ensures
            r.wf(),
            r.index == index,
            r.panes == panes,
            r.clock.slide == slide,
            r.clock.slice_count == slice_count,
            r.clock.last_slide_seen == 0,
            r.clock.pending@.len() == 0,
    {
        KeyedCountWindow { clock: WindowClock::new(slide, slice_count), index, panes }
    }

    /// Takes in the events (key, time) of one input batch at input time `time`: moves
    /// the slide cursor (returning the window ends to be notified at), records each key
    /// in the slice index, and adds one to the pane of each event's key and time.
    pub fn on_data(&mut self, time: u64, events: &Vec<(u64, u64)>) -> (timers: Vec<u64>)
        requires
            old(self).wf(),
            old(self).clock.last_slide_seen <= pane_end_of(
                time as int,
                old(self).clock.slide as int,
            ),
            pane_end_of(time as int, old(self).clock.slide as int) + old(self).clock.slide * old(
                self,
            ).clock.slice_count <= u64::MAX,
            forall|i: int|
                0 <= i < events@.len() ==> pane_end_of(
                    events@[i].1 as int,
                    old(self).clock.slide as int,
                ) <= u64::MAX && pane_end_of(events@[i].1 as int, SLICE_NS as int) <= u64::MAX,
            forall|k: (u64, u64)|
                #![trigger old(self).panes.entries().contains_key(k)]
                old(self).panes.entries().contains_key(k) ==> old(self).panes.entries()[k]
                    + events@.len() <= u64::MAX,
            events@.len() < u64::MAX,
        ensures
            final(self).wf(),
            advances(old(self).clock, final(self).clock, time, timers@),
            final(self).index.entries() == index_after(old(self).index.entries(), events@),
            final(self).panes.entries() == panes_after(
                old(self).panes.entries(),
                events@,
                old(self).clock.slide as int,
            ),
    {
        let timers = self.clock.advance(time);
        let ghost clock1 = self.clock;
        let ghost s = self.clock.slide as int;
        let ghost index0 = self.index.entries();
        let ghost panes0 = self.panes.entries();
        let mut i: usize = 0;
        while i < events.len()
            invariant
                0 <= i <= events@.len(),
                self.clock == clock1,
                self.clock.wf(),
                advances(old(self).clock, clock1, time, timers@),
                s == self.clock.slide,
                s > 0,
                index0 == old(self).index.entries(),
                panes0 == old(self).panes.entries(),
                events@.len() < u64::MAX,
                forall|j: int|
                    0 <= j < events@.len() ==> pane_end_of(events@[j].1 as int, s) <= u64::MAX
                        && pane_end_of(events@[j].1 as int, SLICE_NS as int) <= u64::MAX,
                forall|k: (u64, u64)|
                    #![trigger panes0.contains_key(k)]
                    panes0.contains_key(k) ==> panes0[k] + events@.len() <= u64::MAX,
                forall|k: (u64, u64)|
                    #![trigger self.panes.entries().contains_key(k)]
                    self.panes.entries().contains_key(k) ==> self.panes.entries()[k]
                        <= count_or_zero(panes0, k) + i,
                self.index.entries() == index_after(index0, events@.take(i as int)),
                self.panes.entries() == panes_after(panes0, events@.take(i as int), s),
            decreases events@.len() - i,
        {
            let (key, ts) = events[i];
            let slice = slice_end(ts);
            record_key(&mut self.index, slice, key);
            let pane = pane_end(ts, self.clock.slide);
            proof {
                if self.panes.entries().contains_key((key, pane)) {
                    assert(self.panes.entries()[(key, pane)] <= count_or_zero(panes0, (key, pane))
                        + i);
                    if panes0.contains_key((key, pane)) {
                        assert(panes0[(key, pane)] + events@.len() <= u64::MAX);
                    }
                }
            }
            let ghost mid = self.panes.entries();
            self.panes.rmw((key, pane), 1);
            proof {
                let pre = events@.take(i + 1);
                assert(pre.drop_last() == events@.take(i as int));
                assert(pre.last() == (key, ts));
                assert(self.index.entries() == index_after(index0, pre));
                assert(self.panes.entries() == panes_after(panes0, pre, s));
                assert forall|k: (u64, u64)|
                    #![trigger self.panes.entries().contains_key(k)]
                    self.panes.entries().contains_key(k) implies self.panes.entries()[k]
                        <= count_or_zero(panes0, k) + i + 1 by {
                    if k != (key, pane) {
                        assert(mid.contains_key(k));
                    }
                }
            }
            i = i + 1;
        }
        proof {
            assert(events@.take(events@.len() as int) == events@);
        }
        timers
    }

    /// Closes, for every key, the window ending at `window_end`: lists the distinct keys
    /// recorded in the slices `(start + 1s, ..., end + 1s)`, returns each with the sum
    /// of its pane counts, purges each key's first pane, and drops the slices that no
    /// later window reads.
    pub fn fire(&mut self, window_end: u64) -> (out: Vec<(u64, u64, u64)>)
        requires
            old(self).wf(),
            window_end >= old(self).clock.slide * old(self).clock.slice_count,
            window_end + SLICE_NS <= u64::MAX,
            forall|k: u64|
                #[trigger] keyed_sum(
                    old(self).panes.entries(),
                    k,
                    window_end as int,
                    old(self).clock.slide as int,
                    old(self).clock.slice_count as nat,
                ) <= u64::MAX,
        ensures
            final(self).wf(),
            final(self).clock == old(self).clock,
            out@ == fire_out(
                old(self).index.entries(),
                old(self).panes.entries(),
                window_end as int,
                old(self).clock.slide as int,
                old(self).clock.slice_count as nat,
            ),
            forall|x: int, y: int| 0 <= x < y < out@.len() ==> out@[x].1 < out@[y].1,
            final(self).panes.entries() == fire_panes(
                old(self).index.entries(),
                old(self).panes.entries(),
                window_end as int,
                old(self).clock.slide as int,
                old(self).clock.slice_count as nat,
            ),
            final(self).index.entries() == fire_index(
                old(self).index.entries(),
                window_end as int,
                old(self).clock.slide as int,
                old(self).clock.slice_count as nat,
            ),
    {
        let ghost s = self.clock.slide as int;
        let ghost c = self.clock.slice_count as nat;
        let ghost index0 = self.index.entries();
        let ghost panes0 = self.panes.entries();
        proof {
            assert(s * (c - 1) <= s * c) by (nonlinear_arith)
                requires
                    c > 0,
                    s > 0,
            ;
            assert((c - 1) * s == s * (c - 1)) by (nonlinear_arith);
            assert(s * c == c * s) by (nonlinear_arith);
        }
        let size: u64 = self.clock.slide * self.clock.slice_count;
        let start: u64 = window_end - size;
        let all = sorted_keys_of(&self.index, start, size);
        // Step 2: each key's count over its panes; purge its first pane
        let first_pane: u64 = window_end - self.clock.slide * (self.clock.slice_count - 1);
        let ghost keys = all@;
        proof {

        }
        proof {
            assert(size == s * c);
            assert(keys == fire_keys(index0, window_end as int, s, c));
        }
        let mut out: Vec<(u64, u64, u64)> = Vec::new();
        let mut a: usize = 0;
        while a < all.len()
            invariant
                0 <= a <= keys.len(),
                all@ == keys,
                forall|x: int, y: int| 0 <= x < y < keys.len() ==> keys[x] != keys[y],
                self.wf(),
                self.clock == old(self).clock,
                s == self.clock.slide,
                c == self.clock.slice_count,
                s > 0,
                c > 0,
                window_end >= s * c,
                first_pane == window_end - (c - 1) * s,
                self.index.entries() == index0,
                panes0 == old(self).panes.entries(),
                forall|k: u64| #[trigger] keyed_sum(panes0, k, window_end as int, s, c) <= u64::MAX,
                self.panes.entries() == panes0.remove_keys(
                    Set::new(|k: (u64, u64)| keys.take(a as int).contains(k.0) && k.1 == first_pane),
                ),
                out@.len() == a,
                forall|x: int|
                    0 <= x < a ==> #[trigger] out@[x] == (
                        window_end,
                        keys[x],
                        keyed_sum(panes0, keys[x], window_end as int, s, c) as u64,
                    ),
            decreases keys.len() - a,
        {
            let key = all[a];
            let ghost here = self.panes.entries();
            proof {
                lemma_keyed_sum_other_keys(panes0, here, key, window_end as int, s, c, first_pane, keys.take(a as int));
            }
            let mut total: u64 = 0;
            let mut pane: u64 = window_end;
            let mut i: u64 = 0;
            while i < self.clock.slice_count
                invariant
                    0 <= i <= c,
                    s == self.clock.slide,
                    c == self.clock.slice_count,
                    s > 0,
                    window_end >= s * c,
                    pane == window_end - i * s,
                    self.panes.entries() == here,
                    total == keyed_sum(here, key, window_end as int, s, i as nat),
                    keyed_sum(here, key, window_end as int, s, c) <= u64::MAX,
                decreases c - i,
            {
                proof {
                    lemma_mul_cmp(i + 1, c as int, s);
                    assert((i + 1) * s == i * s + s) by (nonlinear_arith);
                    assert(s * c == c * s) by (nonlinear_arith);
                    lemma_keyed_sum_monotone(here, key, window_end as int, s, (i + 1) as nat, c);
                }
                match self.panes.get(&(key, pane)) {
                    Some(v) => {
                        total = total + *v;
                    },
                    None => {},
                }
                pane = pane - self.clock.slide;
                i = i + 1;
            }
            let _ = self.panes.remove(&(key, first_pane));
            out.push((window_end, key, total));
            proof {
                let next = keys.take(a + 1);
                assert(next == keys.take(a as int).push(key));
                assert(self.panes.entries() =~= panes0.remove_keys(
                    Set::new(|k: (u64, u64)| next.contains(k.0) && k.1 == first_pane),
                )) by {
                    assert forall|k: (u64, u64)|
                        next.contains(k.0) == (keys.take(a as int).contains(k.0) || k.0 == key) by {
                        if next.contains(k.0) {
                            let z = choose|z: int| 0 <= z < next.len() && next[z] == k.0;
                            if z < a {
                                assert(keys.take(a as int)[z] == k.0);
                            }
                        }
                        if keys.take(a as int).contains(k.0) {
                            let z = choose|z: int| 0 <= z < a && keys.take(a as int)[z] == k.0;
                            assert(next[z] == k.0);
                        }
                        if k.0 == key {
                            assert(next[a as int] == key);
                        }
                    }
                }
            }
            a = a + 1;
        }
        proof {
            assert(keys.take(keys.len() as int) == keys);
        }
        proof {
            assert(s <= s * c) by (nonlinear_arith)
                requires
                    c > 0,
                    s > 0,
            ;
        }
        drop_slices(&mut self.index, start, self.clock.slide);
        proof {
            assert(keys.take(keys.len() as int) == keys);
            assert(out@ =~= fire_out(index0, panes0, window_end as int, s, c));
        }
        out
    }
}

impl<I: ManagedMap<u64, Vec<u64>>, P: ManagedMap<(u64, u64), u64>> KeyedCountWindow<I, P> {
    /// Handles a notification at `notified`: closes, in ascending order of their ends,
    /// the pending windows and the notified one, each over the state the previous one
    /// left, and returns their outputs one after the other.
    pub fn on_notification(&mut self, notified: u64) -> (out: Vec<(u64, u64, u64)>)
        requires
            old(self).wf(),
            forall|x: u64|
                #![trigger old(self).clock.pending@.contains(x)]
                old(self).clock.pending@.contains(x) || x == notified ==> {
                    &&& (x == notified ==> x >= old(self).clock.slide * old(self).clock.slice_count)
                    &&& x + SLICE_NS <= u64::MAX
                    &&& forall|k: u64|
                        #[trigger] keyed_sum(
                            old(self).panes.entries(),
                            k,
                            x as int,
                            old(self).clock.slide as int,
                            old(self).clock.slice_count as nat,
                        ) <= u64::MAX
                },
        ensures
            final(self).wf(),
            final(self).clock.pending@.len() == 0,
            exists|ends: Seq<u64>|
                {
                    &&& strictly_increasing(ends)
                    &&& forall|x: u64|
                        ends.contains(x) <==> (old(self).clock.pending@.contains(x) || x
                            == notified)
                    &&& ({
                        let (o, index_left, panes_left) = fire_all(
                            old(self).index.entries(),
                            old(self).panes.entries(),
                            ends,
                            old(self).clock.slide as int,
                            old(self).clock.slice_count as nat,
                        );
                        &&& out@ == o
                        &&& final(self).index.entries() == index_left
                        &&& final(self).panes.entries() == panes_left
                    })
                },
    {
        let ghost s = self.clock.slide as int;
        let ghost c = self.clock.slice_count as nat;
        let ghost index0 = self.index.entries();
        let ghost panes0 = self.panes.entries();
        let ghost pending0 = self.clock.pending@;
        let due = self.clock.due_windows(notified);
        proof {
            assert forall|x: u64| due@.contains(x) implies {
                &&& x >= s * c
                &&& x + SLICE_NS <= u64::MAX
                &&& forall|k: u64| #[trigger] keyed_sum(panes0, k, x as int, s, c) <= u64::MAX
            } by {
                if pending0.contains(x) {
                    let j = choose|j: int| 0 <= j < pending0.len() && pending0[j] == x;
                    assert(window_aligned(pending0[j], self.clock.slide, self.clock.slice_count));
                }
            }
        }
        let mut out: Vec<(u64, u64, u64)> = Vec::new();
        let mut i: usize = 0;
        while i < due.len()
            invariant
                self.wf(),
                s == self.clock.slide,
                c == self.clock.slice_count,
                self.clock.pending@.len() == 0,
                strictly_increasing(due@),
                forall|x: u64| due@.contains(x) <==> (pending0.contains(x) || x == notified),
                pending0 == old(self).clock.pending@,
                index0 == old(self).index.entries(),
                panes0 == old(self).panes.entries(),
                forall|x: u64|
                    due@.contains(x) ==> {
                        &&& x >= s * c
                        &&& x + SLICE_NS <= u64::MAX
                        &&& forall|k: u64|
                            #[trigger] keyed_sum(panes0, k, x as int, s, c) <= u64::MAX
                    },
                0 <= i <= due@.len(),
                ({
                    let (o, index_left, panes_left) = fire_all(index0, panes0, due@.take(i as int), s, c);
                    &&& out@ == o
                    &&& self.index.entries() == index_left
                    &&& self.panes.entries() == panes_left
                }),
            decreases due@.len() - i,
        {
            let w = due[i];
            proof {
                assert(due@.contains(w));
                lemma_fire_all_submap(index0, panes0, due@.take(i as int), s, c);
                assert forall|k: u64|
                    #[trigger] keyed_sum(self.panes.entries(), k, w as int, s, c) <= u64::MAX by {
                    lemma_keyed_sum_submap(self.panes.entries(), panes0, k, w as int, s, c);
                    assert(keyed_sum(panes0, k, w as int, s, c) <= u64::MAX);
                }
            }
            let mut part = self.fire(w);
            proof {
                let pre = due@.take(i + 1);
                assert(pre.drop_last() == due@.take(i as int));
                assert(pre.last() == w);
            }
            out.append(&mut part);
            i = i + 1;
        }
        proof {
            assert(due@.take(due@.len() as int) == due@);
        }
        out
    }
}

/// The distinct keys that the slice index lists for the window `[start, start + size)`:
/// the slices `start + 1s, start + 2s, ...` before `start + size + 1s`, in order.
pub fn window_keys_of<I: ManagedMap<u64, Vec<u64>>>(index: &I, start: u64, size: u64) -> (all:
    Vec<u64>)
    requires
        start + size + SLICE_NS <= u64::MAX,
    ensures
        all@ == dedup(slice_keys(index.entries(), start + SLICE_NS, slice_count_of(size as int))),
{
    let ghost index0 = index.entries();
    let first_slice: u64 = start + SLICE_NS;
    let n: u64 = (size + SLICE_NS - 1) / SLICE_NS;
    proof {
        lemma_div_bounds((size + SLICE_NS - 1) as int, SLICE_NS as int);
        assert(n * SLICE_NS <= size + SLICE_NS - 1);
    }
    let mut all: Vec<u64> = Vec::new();
    let mut j: u64 = 0;
    while j < n
        invariant
            0 <= j <= n,
            n * SLICE_NS <= size + SLICE_NS - 1,
            first_slice == start + SLICE_NS,
            start + size + SLICE_NS <= u64::MAX,
            index.entries() == index0,
            all@ == dedup(slice_keys(index0, first_slice as int, j as nat)),
        decreases n - j,
    {
        proof {
            lemma_mul_cmp(j + 1, n as int, SLICE_NS as int);
            assert((j + 1) * SLICE_NS == j * SLICE_NS + SLICE_NS) by (nonlinear_arith);
        }
        let slice: u64 = first_slice + j * SLICE_NS;
        let ghost base = slice_keys(index0, first_slice as int, j as nat);
        match index.get(&slice) {
            Some(keys) => {
                let mut m: usize = 0;
                while m < keys.len()
                    invariant
                        0 <= m <= keys@.len(),
                        keys@ == slice_list(index0, slice),
                        all@ == dedup(base + keys@.take(m as int)),
                    decreases keys@.len() - m,
                {
                    let k = keys[m];
                    push_new(&mut all, k);
                    proof {
                        let x = base + keys@.take(m + 1);
                        assert(x.drop_last() == base + keys@.take(m as int));
                        assert(x.last() == k);
                    }
                    m = m + 1;
                }
                proof {
                    assert(keys@.take(keys@.len() as int) == keys@);
                }
            },
            None => {
                proof {
                    assert(base + slice_list(index0, slice) == base);
                }
            },
        }
        j = j + 1;
    }
    all
}

/// The distinct keys that the slice index lists for the window `[start, start + size)`,
/// in ascending order.
pub fn sorted_keys_of<I: ManagedMap<u64, Vec<u64>>>(index: &I, start: u64, size: u64) -> (all:
    Vec<u64>)
    requires
        start + size + SLICE_NS <= u64::MAX,
    ensures
        all@ == keys_in_slices(index.entries(), start as int, size as int),
        forall|x: int, y: int| 0 <= x < y < all@.len() ==> all@[x] < all@[y],
{
    let mut all = window_keys_of(index, start, size);
    let ghost d = all@;
    sort_keys(&mut all);
    proof {
        let leq = |a: u64, b: u64| ascending(a, b);
        assert(total_ordering(leq));
        assert(sorts(all@, d));
        let y = in_ascending_order(d);
        assert(sorts(y, d));
        vstd::seq_lib::lemma_sorted_unique(all@, y, leq);
        lemma_dedup_distinct(slice_keys(index.entries(), start + SLICE_NS, slice_count_of(size as int)));
        assert(d.no_duplicates());
        d.lemma_multiset_has_no_duplicates();
        all@.lemma_multiset_has_no_duplicates_conv();
        assert forall|x: int, z: int| 0 <= x < z < all@.len() implies all@[x] < all@[z] by {
            assert(sorted_by(all@, leq));
            assert(leq(all@[x], all@[z]));
            assert(all@[x] != all@[z]);
        }
    }
    all
}

/// Drops from the slice index the slices `start + 1s, start + 2s, ...` up to
/// `start + slide`: no later window reads them.
pub fn drop_slices<I: ManagedMap<u64, Vec<u64>>>(index: &mut I, start: u64, slide: u64)
    requires
        start + slide + SLICE_NS <= u64::MAX,
    ensures
        final(index).entries() == old(index).entries().remove_keys(
            slices_from(start as int, slide as int / SLICE_NS as int),
        ),
{
    let ghost index0 = index.entries();
    let first_slice: u64 = start + SLICE_NS;
    let m: u64 = slide / SLICE_NS;
    proof {
        lemma_div_bounds(slide as int, SLICE_NS as int);
        assert(index.entries() =~= index0.remove_keys(slices_from(start as int, 0)));
    }
    let mut j: u64 = 0;
    while j < m
        invariant
            0 <= j <= m,
            m * SLICE_NS <= slide,
            first_slice == start + SLICE_NS,
            start + slide + SLICE_NS <= u64::MAX,
            index.entries() == index0.remove_keys(slices_from(start as int, j as int)),
            index0 == old(index).entries(),
        decreases m - j,
    {
        proof {
            lemma_mul_cmp(j + 1, m as int, SLICE_NS as int);
            assert((j + 1) * SLICE_NS == j * SLICE_NS + SLICE_NS) by (nonlinear_arith);
        }
        let slice: u64 = first_slice + j * SLICE_NS;
        let _ = index.remove(&slice);
        proof {
            let st = start as int;
            assert(index.entries() =~= index0.remove_keys(slices_from(st, j + 1))) by {
                assert forall|x: u64|
                    slices_from(st, j + 1).contains(x) == (slices_from(st, j as int).contains(x)
                        || x == slice) by {
                    if slices_from(st, j + 1).contains(x) {
                        let z = choose|z: int| 0 <= z < j + 1 && #[trigger] slice_at(st, z) == x;
                        if z < j {
                            assert(slices_from(st, j as int).contains(x));
                        }
                    }
                    if x == slice {
                        assert(slice_at(st, j as int) == x);
                    }
                    if slices_from(st, j as int).contains(x) {
                        let z = choose|z: int| 0 <= z < j && #[trigger] slice_at(st, z) == x;
                        assert(slice_at(st, z) == x);
                    }
                }
            }
        }
        j = j + 1;
    }
}

/// Adds `k` at the end of `v` unless it is there already.
fn push_new(v: &mut Vec<u64>, k: u64)
    ensures
        final(v)@ == add_key(old(v)@, k),
{
    let mut i: usize = 0;
    while i < v.len()
        invariant
            0 <= i <= v@.len(),
            v@ == old(v)@,
            forall|j: int| 0 <= j < i ==> v@[j] != k,
        decreases v@.len() - i,
    {
        if v[i] == k {
            proof {
                assert(v@.contains(k));
            }
            return;
        }
        i = i + 1;
    }
    v.push(k);
}

pub proof fn lemma_dedup_distinct(s: Seq<u64>)
    ensures
        forall|x: int, y: int| 0 <= x < y < dedup(s).len() ==> dedup(s)[x] != dedup(s)[y],
    decreases s.len(),
{
    if s.len() > 0 {
        lemma_dedup_distinct(s.drop_last());
        let d = dedup(s.drop_last());
        if !d.contains(s.last()) {
            assert forall|x: int, y: int| 0 <= x < y < dedup(s).len() implies dedup(s)[x] != dedup(
                s,
            )[y] by {
                if y == d.len() {
                    assert(dedup(s)[x] == d[x]);
                }
            }
        }
    }
}

proof fn lemma_keyed_sum_monotone(
    panes: Map<(u64, u64), u64>,
    key: u64,
    end: int,
    s: int,
    i: nat,
    c: nat,
)
    requires
        i <= c,
    ensures
        keyed_sum(panes, key, end, s, i) <= keyed_sum(panes, key, end, s, c),
    decreases c,
{
    if i < c {
        lemma_keyed_sum_monotone(panes, key, end, s, i, (c - 1) as nat);
    }
}

/// Removing the first panes of other keys leaves this key's sums as they were.
proof fn lemma_keyed_sum_other_keys(
    panes0: Map<(u64, u64), u64>,
    here: Map<(u64, u64), u64>,
    key: u64,
    end: int,
    s: int,
    c: nat,
    first_pane: u64,
    done: Seq<u64>,
)
    requires
        !done.contains(key),
        here == panes0.remove_keys(
            Set::new(|k: (u64, u64)| done.contains(k.0) && k.1 == first_pane),
        ),
    ensures
        forall|i: nat|
            i <= c ==> #[trigger] keyed_sum(here, key, end, s, i) == keyed_sum(
                panes0,
                key,
                end,
                s,
                i,
            ),
{
    assert forall|i: nat| i <= c implies #[trigger] keyed_sum(here, key, end, s, i) == keyed_sum(
        panes0,
        key,
        end,
        s,
        i,
    ) by {
        lemma_keyed_sum_same(panes0, here, key, end, s, i, first_pane, done);
    }
}

proof fn lemma_keyed_sum_same(
    panes0: Map<(u64, u64), u64>,
    here: Map<(u64, u64), u64>,
    key: u64,
    end: int,
    s: int,
    i: nat,
    first_pane: u64,
    done: Seq<u64>,
)
    requires
        !done.contains(key),
        here == panes0.remove_keys(
            Set::new(|k: (u64, u64)| done.contains(k.0) && k.1 == first_pane),
        ),
    ensures
        keyed_sum(here, key, end, s, i) == keyed_sum(panes0, key, end, s, i),
    decreases i,
{
    if i > 0 {
        lemma_keyed_sum_same(panes0, here, key, end, s, (i - 1) as nat, first_pane, done);
        let k = (key, (end - (i - 1) * s) as u64);
        assert(count_or_zero(here, k) == count_or_zero(panes0, k));
    }
}

/// The times of the events of `h` with key `k`, in order.
pub open spec fn key_times(h: Seq<(u64, u64)>, k: u64) -> Seq<u64>
    decreases h.len(),
{
    if h.len() == 0 {
        Seq::empty()
    } else if h.last().0 == k {
        key_times(h.drop_last(), k).push(h.last().1)
    } else {
        key_times(h.drop_last(), k)
    }
}

proof fn lemma_key_times_len(h: Seq<(u64, u64)>, k: u64)
    ensures
        key_times(h, k).len() <= h.len(),
    decreases h.len(),
{
    if h.len() > 0 {
        lemma_key_times_len(h.drop_last(), k);
    }
}

/// Starting from no panes, the pane of key `k` ending at `p` counts the events of `k`
/// whose pane ends at `p`.
proof fn lemma_panes_after_counts(events: Seq<(u64, u64)>, s: int, k: u64, p: u64)
    requires
        events.len() < u64::MAX,
        forall|i: int| 0 <= i < events.len() ==> pane_end_of(events[i].1 as int, s) <= u64::MAX,
        s > 0,
    ensures
        count_or_zero(panes_after(Map::empty(), events, s), (k, p)) == count_in_pane(
            key_times(events, k),
            p as int,
            s,
        ),
    decreases events.len(),
{
    if events.len() > 0 {
        let pre = events.drop_last();
        let e = events.last();
        lemma_panes_after_counts(pre, s, k, p);
        lemma_panes_after_counts(pre, s, e.0, pane_end_of(e.1 as int, s) as u64);
        lemma_key_times_len(pre, e.0);
        lemma_count_in_pane_bound(key_times(pre, e.0), pane_end_of(e.1 as int, s), s);
        let kt = key_times(events, k);
        if e.0 == k {
            assert(kt.drop_last() == key_times(pre, k));
            assert(kt.last() == e.1);
        }
    }
}

/// Starting from no panes, summing key `k`'s panes over a window gives the window sum
/// of the times of `k`'s events.
proof fn lemma_keyed_sum_is_panes_sum(events: Seq<(u64, u64)>, k: u64, end: int, s: int, i: nat)
    requires
        events.len() < u64::MAX,
        forall|j: int| 0 <= j < events.len() ==> pane_end_of(events[j].1 as int, s) <= u64::MAX,
        s > 0,
        end <= u64::MAX,
        end - (i - 1) * s >= 0,
    ensures
        keyed_sum(panes_after(Map::empty(), events, s), k, end, s, i) == panes_sum(
            key_times(events, k),
            end,
            s,
            i,
        ),
    decreases i,
{
    if i > 0 {
        assert(end - (i - 2) * s >= end - (i - 1) * s) by (nonlinear_arith)
            requires
                s > 0,
        ;
        lemma_keyed_sum_is_panes_sum(events, k, end, s, (i - 1) as nat);
        assert(end - (i - 1) * s <= end) by (nonlinear_arith)
            requires
                s > 0,
                i > 0,
        ;
        lemma_panes_after_counts(events, s, k, (end - (i - 1) * s) as u64);
    }
}

/// Count per key: after the events of `events` are taken in from empty state, the count
/// that closing the window ending at `end` reports for key `k` is the number of `k`'s
/// events whose time lies in `[end - slide * slice_count, end)`.
pub proof fn lemma_keyed_count_is_window_count(
    events: Seq<(u64, u64)>,
    k: u64,
    end: u64,
    slide: u64,
    slice_count: u64,
)
    requires
        slide > 0,
        slice_count > 0,
        end % slide == 0,
        end >= slide * slice_count,
        events.len() < u64::MAX,
        forall|j: int|
            0 <= j < events.len() ==> pane_end_of(events[j].1 as int, slide as int) <= u64::MAX,
    ensures
        keyed_sum(
            panes_after(Map::empty(), events, slide as int),
            k,
            end as int,
            slide as int,
            slice_count as nat,
        ) == count_in_window(key_times(events, k), end as int, slide as int, slice_count as int),
{
    let s = slide as int;
    let c = slice_count as nat;
    assert(end - (c - 1) * s >= 0) by (nonlinear_arith)
        requires
            end >= s * c,
            s > 0,
            c > 0,
    ;
    lemma_keyed_sum_is_panes_sum(events, k, end as int, s, c);
    lemma_panes_sum_is_window_count(key_times(events, k), end as int, s, c);
}

} // verus!
