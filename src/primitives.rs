use vstd::prelude::*;
use std::rc::Rc;

verus! {

/// A key of a managed map. Each key has a distinct code, which is what storage hashes.
pub trait StateKey: Sized {
    spec fn code_of(&self) -> u128;

    fn code(&self) -> (r: u128)
        ensures
            r == self.code_of(),
    ;

    proof fn lemma_code_injective(a: Self, b: Self)
        ensures
            a.code_of() == b.code_of() ==> a == b,
    ;
}

impl StateKey for u64 {
    open spec fn code_of(&self) -> u128 {
        *self as u128
    }

    fn code(&self) -> (r: u128) {
        *self as u128
    }

    proof fn lemma_code_injective(a: Self, b: Self) {
    }
}

impl StateKey for (u64, u64) {
    open spec fn code_of(&self) -> u128 {
        (self.0 as int * 0x1_0000_0000_0000_0000 + self.1 as int) as u128
    }

    fn code(&self) -> (r: u128) {
        proof {
            assert(self.0 as int * 0x1_0000_0000_0000_0000 + self.1 as int <= u128::MAX)
                by (nonlinear_arith)
                requires
                    self.0 <= u64::MAX,
                    self.1 <= u64::MAX,
            ;
        }
        (self.0 as u128) * 0x1_0000_0000_0000_0000 + (self.1 as u128)
    }

    proof fn lemma_code_injective(a: Self, b: Self) {
        let x = a.0 as int * 0x1_0000_0000_0000_0000 + a.1 as int;
        let y = b.0 as int * 0x1_0000_0000_0000_0000 + b.1 as int;
        assert(0 <= x <= u128::MAX && 0 <= y <= u128::MAX) by (nonlinear_arith)
            requires
                x == a.0 as int * 0x1_0000_0000_0000_0000 + a.1 as int,
                y == b.0 as int * 0x1_0000_0000_0000_0000 + b.1 as int,
                0 <= a.0 <= u64::MAX,
                0 <= a.1 <= u64::MAX,
                0 <= b.0 <= u64::MAX,
                0 <= b.1 <= u64::MAX,
        ;
        if x == y {
            assert(a.0 == b.0 && a.1 == b.1) by (nonlinear_arith)
                requires
                    x == a.0 as int * 0x1_0000_0000_0000_0000 + a.1 as int,
                    y == b.0 as int * 0x1_0000_0000_0000_0000 + b.1 as int,
                    x == y,
                    0 <= a.1 <= u64::MAX,
                    0 <= b.1 <= u64::MAX,
                    0 <= a.0,
                    0 <= b.0,
            ;
        }
    }
}

/// A stored value, seen through its view, with the merge operation that
/// read-modify-write applies.
pub trait StateValue: Sized + View {
    /// `merged(v, d)` is defined for these operands (no overflow).
    spec fn can_merge(v: Self::V, d: Self::V) -> bool;

    /// What read-modify-write stores when the delta `d` meets the stored `v`.
    spec fn merged(v: Self::V, d: Self::V) -> Self::V;

    fn merge(&self, d: Self) -> (r: Self)
        requires
            Self::can_merge(self@, d@),
        ensures
            r@ == Self::merged(self@, d@),
    ;

    fn duplicate(&self) -> (r: Self)
        ensures
            r@ == self@,
    ;
}

impl StateValue for u64 {
    open spec fn can_merge(v: u64, d: u64) -> bool {
        v + d <= u64::MAX
    }

    open spec fn merged(v: u64, d: u64) -> u64 {
        (v + d) as u64
    }

    fn merge(&self, d: Self) -> (r: Self) {
        *self + d
    }

    fn duplicate(&self) -> (r: Self) {
        *self
    }
}

impl StateValue for i64 {
    open spec fn can_merge(v: i64, d: i64) -> bool {
        i64::MIN <= v + d <= i64::MAX
    }

    open spec fn merged(v: i64, d: i64) -> i64 {
        (v + d) as i64
    }

    fn merge(&self, d: Self) -> (r: Self) {
        *self + d
    }

    fn duplicate(&self) -> (r: Self) {
        *self
    }
}

impl StateValue for i32 {
    open spec fn can_merge(v: i32, d: i32) -> bool {
        i32::MIN <= v + d <= i32::MAX
    }

    open spec fn merged(v: i32, d: i32) -> i32 {
        (v + d) as i32
    }

    fn merge(&self, d: Self) -> (r: Self) {
        *self + d
    }

    fn duplicate(&self) -> (r: Self) {
        *self
    }
}

/// Copies `v` element by element.
fn copy_vec<T: Copy>(v: &Vec<T>) -> (r: Vec<T>)
    ensures
        r@ == v@,
{
    let mut r: Vec<T> = Vec::new();
    let mut i: usize = 0;
    while i < v.len()
        invariant
            0 <= i <= v@.len(),
            r@ == v@.take(i as int),
        decreases v@.len() - i,
    {
        r.push(v[i]);
        proof {
            assert(r@ == v@.take(i + 1));
        }
        i = i + 1;
    }
    proof {
        assert(r@ == v@);
    }
    r
}

/// `a` followed by `b`.
fn concat_vec<T: Copy>(a: &Vec<T>, b: Vec<T>) -> (r: Vec<T>)
    ensures
        r@ == a@ + b@,
{
    let mut r = copy_vec(a);
    let mut i: usize = 0;
    while i < b.len()
        invariant
            0 <= i <= b@.len(),
            r@ == a@ + b@.take(i as int),
        decreases b@.len() - i,
    {
        r.push(b[i]);
        proof {
            assert(r@ == a@ + b@.take(i + 1));
        }
        i = i + 1;
    }
    proof {
        assert(b@.take(b@.len() as int) == b@);
    }
    r
}

impl StateValue for Vec<u64> {
    open spec fn can_merge(v: Seq<u64>, d: Seq<u64>) -> bool {
        true
    }

    open spec fn merged(v: Seq<u64>, d: Seq<u64>) -> Seq<u64> {
        v + d
    }

    fn merge(&self, d: Self) -> (r: Self) {
        concat_vec(self, d)
    }

    fn duplicate(&self) -> (r: Self) {
        copy_vec(self)
    }
}

impl StateValue for Vec<(u64, u64)> {
    open spec fn can_merge(v: Seq<(u64, u64)>, d: Seq<(u64, u64)>) -> bool {
        true
    }

    open spec fn merged(v: Seq<(u64, u64)>, d: Seq<(u64, u64)>) -> Seq<(u64, u64)> {
        v + d
    }

    fn merge(&self, d: Self) -> (r: Self) {
        concat_vec(self, d)
    }

    fn duplicate(&self) -> (r: Self) {
        copy_vec(self)
    }
}

/// What read-modify-write leaves under a key that held `old` (if anything) when the
/// delta `d` arrives: `d` itself, or `d` merged into the old value.
pub open spec fn rmw_result<V: StateValue>(old: Option<V::V>, d: V::V) -> V::V {
    match old {
        Some(v) => V::merged(v, d),
        None => d,
    }
}

/// A signed counter kept by a state backend.
pub trait ManagedCount {
    spec fn count(&self) -> int;

    fn decrease(&mut self, amount: i64)
        requires
            i64::MIN <= old(self).count() - amount <= i64::MAX,
        ensures
            final(self).count() == old(self).count() - amount,
    ;

    fn increase(&mut self, amount: i64)
        requires
            i64::MIN <= old(self).count() + amount <= i64::MAX,
        ensures
            final(self).count() == old(self).count() + amount,
    ;

    fn get(&self) -> (r: i64)
        ensures
            r == self.count(),
    ;

    fn set(&mut self, value: i64)
        ensures
            final(self).count() == value,
    ;
}

/// A single optional value kept by a state backend.
pub trait ManagedValue<V: StateValue> {
    spec fn value(&self) -> Option<V::V>;

    fn set(&mut self, value: V)
        ensures
            final(self).value() == Some(value@),
    ;

    fn get(&self) -> (r: Option<Rc<V>>)
        ensures
            match r {
                Some(v) => self.value() == Some(v@),
                None => self.value() is None,
            },
    ;

    fn take(&mut self) -> (r: Option<V>)
        ensures
            final(self).value() is None,
            match r {
                Some(v) => old(self).value() == Some(v@),
                None => old(self).value() is None,
            },
    ;

    fn rmw(&mut self, modification: V)
        requires
            old(self).value() matches Some(v) ==> V::can_merge(v, modification@),
        ensures
            final(self).value() == Some(rmw_result::<V>(old(self).value(), modification@)),
    ;
}

/// A map kept by a state backend.
pub trait ManagedMap<K: StateKey, V: StateValue> {
    spec fn entries(&self) -> Map<K, V::V>;

    /// Number of bytes that the map's namespace adds in front of each stored key.
    spec fn key_prefix_length(&self) -> nat;

    fn get_key_prefix_length(&self) -> (r: usize)
        ensures
            r == self.key_prefix_length(),
    ;

    fn insert(&mut self, key: K, value: V)
        ensures
            final(self).entries() == old(self).entries().insert(key, value@),
            final(self).key_prefix_length() == old(self).key_prefix_length(),
    ;

    fn get(&self, key: &K) -> (r: Option<Rc<V>>)
        ensures
            match r {
                Some(v) => self.entries().contains_key(*key) && self.entries()[*key] == v@,
                None => !self.entries().contains_key(*key),
            },
    ;

    fn remove(&mut self, key: &K) -> (r: Option<V>)
        ensures
            final(self).entries() == old(self).entries().remove(*key),
            final(self).key_prefix_length() == old(self).key_prefix_length(),
            match r {
                Some(v) => old(self).entries().contains_key(*key) && old(self).entries()[*key]
                    == v@,
                None => !old(self).entries().contains_key(*key),
            },
    ;

    fn rmw(&mut self, key: K, modification: V)
        requires
            old(self).entries().contains_key(key) ==> V::can_merge(
                old(self).entries()[key],
                modification@,
            ),
        ensures
            final(self).entries() == old(self).entries().insert(
                key,
                rmw_result::<V>(
                    if old(self).entries().contains_key(key) {
                        Some(old(self).entries()[key])
                    } else {
                        None
                    },
                    modification@,
                ),
            ),
            final(self).key_prefix_length() == old(self).key_prefix_length(),
    ;

    fn contains(&self, key: &K) -> (r: bool)
        ensures
            r == self.entries().contains_key(*key),
    ;
}

/// Round trip over the entries of any managed map, as its `insert`, `get`, `rmw` and
/// `remove` contracts move them: after `insert(k, v)`, `get(k)` finds `v`; a following
/// `rmw(k, d)` leaves `v` merged with `d`; `remove(k)` instead returns `v`, and a second
/// `remove(k)` finds nothing.
pub proof fn lemma_map_round_trip<K: StateKey, V: StateValue>(
    m: Map<K, V::V>,
    k: K,
    v: V::V,
    d: V::V,
)
    ensures
        ({
            let inserted = m.insert(k, v);
            &&& inserted.contains_key(k) && inserted[k] == v
            &&& inserted.insert(
                k,
                rmw_result::<V>(
                    if inserted.contains_key(k) {
                        Some(inserted[k])
                    } else {
                        None
                    },
                    d,
                ),
            )[k] == V::merged(v, d)
            &&& !inserted.remove(k).contains_key(k)
            &&& inserted.remove(k).remove(k) == inserted.remove(k)
        }),
{
    let inserted = m.insert(k, v);
    assert(inserted.remove(k).remove(k) =~= inserted.remove(k));
}

/// Round trip over any managed value: after `set(v)`, `get` finds `v`; a following
/// `rmw(d)` leaves `v` merged with `d`; `take` returns what is there and leaves nothing.
pub proof fn lemma_value_round_trip<V: StateValue>(v: V::V, d: V::V)
    ensures
        rmw_result::<V>(Some(v), d) == V::merged(v, d),
        rmw_result::<V>(None, d) == d,
{
}

} // verus!
