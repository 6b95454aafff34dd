//! The table itself: slot layout, linear probing, insertion, lookup, resize,
//! and iteration.

use vstd::pervasive::VecAdditionalExecFns;
use vstd::prelude::*;

use crate::hashable::Hashable;

verus! {

/// One table cell: an occupancy flag and a key/value binding.  The key and
/// value of an unoccupied slot are meaningless placeholders and are never
/// read.
#[derive(Debug)]
pub struct Entry<Key, Value> {
    occupied: bool,
    key: Key,
    value: Value,
}

/// An open-addressing hash table: an ordered sequence of slots plus the count
/// of occupied ones.  Lookup and insertion probe linearly, with wraparound,
/// from the key's home slot; insertion of a new key resizes first whenever
/// the table is at least half full.
#[derive(Debug)]
pub struct HashMap<K, V> {
    entries: Vec<Entry<K, V>>,
    occupied: usize,
}

/// Whether slot `i` holds the key value `k`.
pub closed spec fn slot_holds<K: View, V>(s: Seq<Entry<K, V>>, i: int, k: K::V) -> bool {
    s[i].occupied && s[i].key@ == k
}

/// Whether some slot holds the key value `k`.
pub closed spec fn has_key<K: View, V>(s: Seq<Entry<K, V>>, k: K::V) -> bool {
    exists|i: int| 0 <= i < s.len() && slot_holds(s, i, k)
}

/// The value stored beside the key value `k` (meaningful only when some slot
/// holds `k` and keys are unique).
pub closed spec fn value_of<K: View, V>(s: Seq<Entry<K, V>>, k: K::V) -> V {
    s[choose|i: int| 0 <= i < s.len() && slot_holds(s, i, k)].value
}

/// The value stored in slot `i`.
pub closed spec fn value_at<K, V>(s: Seq<Entry<K, V>>, i: int) -> V {
    s[i].value
}

/// The map a slot sequence represents: each occupied slot's key value bound
/// to its stored value.
pub closed spec fn map_of<K: View, V>(s: Seq<Entry<K, V>>) -> Map<K::V, V> {
    Map::new(|k: K::V| has_key(s, k), |k: K::V| value_of(s, k))
}

/// The number of occupied slots.
pub closed spec fn count_occupied<K, V>(s: Seq<Entry<K, V>>) -> nat
    decreases s.len(),
{
    if s.len() == 0 {
        0
    } else {
        count_occupied(s.drop_last()) + if s.last().occupied {
            1nat
        } else {
            0nat
        }
    }
}

/// A key's home slot: its hash reduced modulo the capacity.
pub closed spec fn home<K: Hashable, V>(s: Seq<Entry<K, V>>, k: K::V) -> int {
    K::spec_hash(k) as int % s.len() as int
}

/// The slot reached after `d` forward steps from `start`, wrapping at the
/// capacity.  Meaningful for `0 <= start < cap` and `0 <= d < cap`.
pub open spec fn step(start: int, d: int, cap: int) -> int {
    if start + d < cap {
        start + d
    } else {
        start + d - cap
    }
}

/// The number of forward steps (with wraparound) from `start` to `i`.
pub open spec fn distance(start: int, i: int, cap: int) -> int {
    if i >= start {
        i - start
    } else {
        i + cap - start
    }
}

/// Occupied slots hold pairwise distinct key values.
spec fn uniq_keys<K: View, V>(s: Seq<Entry<K, V>>) -> bool {
    forall|i: int, j: int|
        0 <= i < s.len() && 0 <= j < s.len() && i != j && s[i].occupied && s[j].occupied
            ==> s[i].key@ != s[j].key@
}

/// The probe-sequence invariant: every occupied slot is reachable from its
/// key's home slot through occupied slots only, so a probe never meets a gap
/// before the slot it is looking for.
spec fn probe_connected<K: Hashable, V>(s: Seq<Entry<K, V>>) -> bool {
    forall|i: int, d: int|
        0 <= i < s.len() && s[i].occupied && 0 <= d < distance(
            home(s, s[i].key@),
            i,
            s.len() as int,
        ) ==> s[#[trigger] step(home(s, s[i].key@), d, s.len() as int)].occupied
}

/// The whole table invariant: the occupied count is exact, the table is at
/// most half full, and keys are unique and probe-connected.
spec fn table_inv<K: Hashable, V>(s: Seq<Entry<K, V>>, occupied: nat) -> bool {
    &&& occupied == count_occupied(s)
    &&& occupied <= s.len() / 2
    &&& uniq_keys(s)
    &&& probe_connected(s)
}

/// Whether some slot at index `lo` or beyond holds the key value `k`.
spec fn has_key_from<K: View, V>(s: Seq<Entry<K, V>>, lo: int, k: K::V) -> bool {
    exists|i: int| lo <= i < s.len() && slot_holds(s, i, k)
}

/// The map represented by the slots at index `lo` and beyond alone.
spec fn map_of_tail<K: View, V>(s: Seq<Entry<K, V>>, lo: int) -> Map<K::V, V> {
    Map::new(|k: K::V| has_key_from(s, lo, k), |k: K::V| value_of(s, k))
}

impl<K: View, V> View for HashMap<K, V> {
    type V = Map<K::V, V>;

    /// The table abstracts to the map from each occupied slot's key value to
    /// its stored value.
    closed spec fn view(&self) -> Map<K::V, V> {
        map_of(self.entries@)
    }
}

/// Stepping the distance from `start` to `i` lands on `i`, and the distance
/// is below the capacity.
proof fn lemma_step_distance(start: int, i: int, cap: int)
    requires
        0 <= start < cap,
        0 <= i < cap,
    ensures
        0 <= distance(start, i, cap) < cap,
        step(start, distance(start, i, cap), cap) == i,
{
}

/// Stepping `d` slots lands inside the table, at distance `d`.
proof fn lemma_distance_step(start: int, d: int, cap: int)
    requires
        0 <= start < cap,
        0 <= d < cap,
    ensures
        0 <= step(start, d, cap) < cap,
        distance(start, step(start, d, cap), cap) == d,
{
}

/// How the occupied count changes when one slot is replaced.
proof fn lemma_count_update<K, V>(s: Seq<Entry<K, V>>, i: int, e: Entry<K, V>)
    requires
        0 <= i < s.len(),
    ensures
        count_occupied(s.update(i, e)) == count_occupied(s) - (if s[i].occupied {
            1int
        } else {
            0int
        }) + (if e.occupied {
            1int
        } else {
            0int
        }),
    decreases s.len(),
{
    if i == s.len() - 1 {
        assert(s.update(i, e).drop_last() =~= s.drop_last());
    } else {
        assert(s.update(i, e).drop_last() =~= s.drop_last().update(i, e));
        lemma_count_update(s.drop_last(), i, e);
    }
}

/// The occupied count never exceeds the slot count, and a table whose slots
/// are all occupied has occupied count equal to its slot count.
proof fn lemma_count_bounds<K, V>(s: Seq<Entry<K, V>>)
    ensures
        count_occupied(s) <= s.len(),
        (forall|i: int| 0 <= i < s.len() ==> s[i].occupied) ==> count_occupied(s) == s.len(),
    decreases s.len(),
{
    if s.len() > 0 {
        lemma_count_bounds(s.drop_last());
    }
}

/// A probe from `k`'s home slot that reached an unoccupied slot (or scanned
/// every slot) without meeting `k` proves that `k` is absent from the whole
/// table.
proof fn lemma_absent_after_scan<K: Hashable, V>(s: Seq<Entry<K, V>>, k: K::V, j: int)
    requires
        uniq_keys(s),
        probe_connected(s),
        s.len() > 0,
        0 <= j <= s.len(),
        j == s.len() || !s[step(home(s, k), j, s.len() as int)].occupied,
        forall|d: int|
            0 <= d < j ==> {
                let p = #[trigger] step(home(s, k), d, s.len() as int);
                s[p].occupied && s[p].key@ != k
            },
    ensures
        !has_key(s, k),
        !map_of(s).contains_key(k),
{
    let cap = s.len() as int;
    let h = home(s, k);
    assert(0 <= h < cap);
    assert forall|i: int| 0 <= i < cap implies !slot_holds(s, i, k) by {
        if s[i].occupied && s[i].key@ == k {
            let di = distance(h, i, cap);
            lemma_step_distance(h, i, cap);
            if di < j {
                assert(step(h, di, cap) == i);
            } else if di == j {
                assert(step(h, j, cap) == i);
            } else {
                assert(s[step(home(s, s[i].key@), j, cap)].occupied);
            }
        }
    }
    assert(!has_key(s, k));
}

/// An occupied slot holding `k` fixes both membership and the value the
/// abstract map associates with `k`.
proof fn lemma_found_at<K: Hashable, V>(s: Seq<Entry<K, V>>, k: K::V, i: int)
    requires
        uniq_keys(s),
        0 <= i < s.len(),
        s[i].occupied,
        s[i].key@ == k,
    ensures
        has_key(s, k),
        map_of(s).contains_key(k),
        map_of(s)[k] == s[i].value,
        value_of(s, k) == s[i].value,
{
    assert(slot_holds(s, i, k));
    assert(has_key(s, k));
    let ci = choose|c: int| 0 <= c < s.len() && slot_holds(s, c, k);
    assert(ci == i);
}

/// Replacing the value of an occupied slot preserves the table invariant,
/// keeps the occupied count, and updates the map at that slot's key alone.
broadcast proof fn lemma_value_update<K: Hashable, V>(s: Seq<Entry<K, V>>, i: int, e: Entry<K, V>)
    requires
        uniq_keys(s),
        probe_connected(s),
        0 <= i < s.len(),
        s[i].occupied,
        e.occupied,
        e.key@ == s[i].key@,
    ensures
        uniq_keys(#[trigger] s.update(i, e)),
        probe_connected(s.update(i, e)),
        count_occupied(s.update(i, e)) == count_occupied(s),
        map_of(s.update(i, e)) == map_of(s).insert(s[i].key@, e.value),
{
    let t = s.update(i, e);
    let k = s[i].key@;
    lemma_count_update(s, i, e);
    assert forall|a: int, d: int|
        0 <= a < t.len() && t[a].occupied && 0 <= d < distance(
            home(t, t[a].key@),
            a,
            t.len() as int,
        ) implies t[#[trigger] step(home(t, t[a].key@), d, t.len() as int)].occupied by {
        assert(t[a].key@ == s[a].key@);
        assert(s[step(home(s, s[a].key@), d, s.len() as int)].occupied);
    }
    lemma_found_at(t, k, i);
    assert forall|q: K::V| true implies #[trigger] map_of(t).contains_key(q) == map_of(
        s,
    ).insert(k, e.value).contains_key(q) && (map_of(t).contains_key(q) ==> map_of(t)[q]
        == map_of(s).insert(k, e.value)[q]) by {
        if q == k {
            assert(map_of(t)[k] == e.value);
            assert(has_key(s, k)) by {
                assert(slot_holds(s, i, k));
            }
        } else {
            if has_key(s, q) {
                let c = choose|c: int| 0 <= c < s.len() && slot_holds(s, c, q);
                assert(slot_holds(t, c, q));
                lemma_found_at(s, q, c);
                lemma_found_at(t, q, c);
            }
            if has_key(t, q) {
                let c = choose|c: int| 0 <= c < t.len() && slot_holds(t, c, q);
                assert(slot_holds(s, c, q));
            }
        }
    }
    assert(map_of(t) =~= map_of(s).insert(k, e.value));
}

/// Filling the first unoccupied slot on a probe path with an absent key
/// preserves the table invariant, adds one occupied slot, and extends the map
/// by exactly that binding.
proof fn lemma_fill_empty<K: Hashable, V>(s: Seq<Entry<K, V>>, e: Entry<K, V>, j: int)
    requires
        uniq_keys(s),
        probe_connected(s),
        s.len() > 0,
        e.occupied,
        !has_key(s, e.key@),
        0 <= j < s.len(),
        forall|d: int|
            0 <= d < j ==> s[#[trigger] step(home(s, e.key@), d, s.len() as int)].occupied,
        !s[step(home(s, e.key@), j, s.len() as int)].occupied,
    ensures
        ({
            let i = step(home(s, e.key@), j, s.len() as int);
            let t = s.update(i, e);
            &&& uniq_keys(t)
            &&& probe_connected(t)
            &&& count_occupied(t) == count_occupied(s) + 1
            &&& map_of(t) == map_of(s).insert(e.key@, e.value)
        }),
{
    let cap = s.len() as int;
    let k = e.key@;
    let h = home(s, k);
    assert(0 <= h < cap);
    lemma_distance_step(h, j, cap);
    let i = step(h, j, cap);
    let t = s.update(i, e);
    lemma_count_update(s, i, e);
    assert forall|a: int| 0 <= a < cap && a != i && s[a].occupied implies s[a].key@ != k by {
        if s[a].key@ == k {
            assert(slot_holds(s, a, k));
        }
    }
    assert(uniq_keys(t));
    assert forall|a: int, d: int|
        0 <= a < cap && t[a].occupied && 0 <= d < distance(home(t, t[a].key@), a, cap) implies t[
    #[trigger] step(home(t, t[a].key@), d, cap)].occupied by {
        if a == i {
            assert(home(t, t[a].key@) == h);
            assert(distance(h, i, cap) == j);
            assert(s[step(h, d, cap)].occupied);
        } else {
            assert(t[a].key@ == s[a].key@);
            assert(s[step(home(s, s[a].key@), d, cap)].occupied);
        }
    }
    lemma_found_at(t, k, i);
    assert forall|q: K::V| q != k implies #[trigger] map_of(t).contains_key(q) == map_of(
        s,
    ).contains_key(q) && (map_of(t).contains_key(q) ==> map_of(t)[q] == map_of(s)[q]) by {
        if has_key(s, q) {
            let c = choose|c: int| 0 <= c < s.len() && slot_holds(s, c, q);
            assert(slot_holds(t, c, q));
            lemma_found_at(s, q, c);
            lemma_found_at(t, q, c);
        }
        if has_key(t, q) {
            let c = choose|c: int| 0 <= c < t.len() && slot_holds(t, c, q);
            assert(slot_holds(s, c, q));
        }
    }
    assert(map_of(t) =~= map_of(s).insert(k, e.value));
}

/// Peeling one slot off the front of a tail map: an occupied slot contributes
/// its binding (and its key occurs nowhere later), an unoccupied one
/// contributes nothing.
proof fn lemma_tail_step<K: Hashable, V>(s: Seq<Entry<K, V>>, n: int)
    requires
        uniq_keys(s),
        0 <= n < s.len(),
    ensures
        s[n].occupied ==> !map_of_tail(s, n + 1).contains_key(s[n].key@),
        s[n].occupied ==> map_of_tail(s, n) == map_of_tail(s, n + 1).insert(
            s[n].key@,
            s[n].value,
        ),
        !s[n].occupied ==> map_of_tail(s, n) == map_of_tail(s, n + 1),
{
    if s[n].occupied {
        let k = s[n].key@;
        if has_key_from(s, n + 1, k) {
            let c = choose|c: int| n + 1 <= c < s.len() && slot_holds(s, c, k);
            assert(false);
        }
        assert(slot_holds(s, n, k));
        assert(has_key_from(s, n, k));
        assert(value_of(s, k) == s[n].value) by {
            let c = choose|c: int| 0 <= c < s.len() && slot_holds(s, c, k);
            assert(c == n);
        }
        assert forall|q: K::V| q != k implies #[trigger] has_key_from(s, n, q) == has_key_from(
            s,
            n + 1,
            q,
        ) by {
            if has_key_from(s, n, q) {
                let c = choose|c: int| n <= c < s.len() && slot_holds(s, c, q);
                assert(c != n);
                assert(slot_holds(s, c, q));
            }
        }
        assert(map_of_tail(s, n) =~= map_of_tail(s, n + 1).insert(k, s[n].value));
    } else {
        assert forall|q: K::V| #[trigger]
            has_key_from(s, n, q) == has_key_from(s, n + 1, q) by {
            if has_key_from(s, n, q) {
                let c = choose|c: int| n <= c < s.len() && slot_holds(s, c, q);
                assert(c != n);
                assert(slot_holds(s, c, q));
            }
        }
        assert(map_of_tail(s, n) =~= map_of_tail(s, n + 1));
    }
}

/// The tail map that starts at slot zero is the whole map.
proof fn lemma_map_of_whole<K: View, V>(s: Seq<Entry<K, V>>)
    ensures
        map_of_tail(s, 0) == map_of(s),
{
    assert forall|q: K::V| #[trigger] has_key_from(s, 0, q) == has_key(s, q) by {
        if has_key_from(s, 0, q) {
            let c = choose|c: int| 0 <= c < s.len() && slot_holds(s, c, q);
            assert(slot_holds(s, c, q));
        }
        if has_key(s, q) {
            let c = choose|c: int| 0 <= c < s.len() && slot_holds(s, c, q);
            assert(slot_holds(s, c, q));
        }
    }
    assert(map_of_tail(s, 0) =~= map_of(s));
}

/// The tail maps have finite domains, with as many keys as occupied slots.
proof fn lemma_tail_dom_size<K: Hashable, V>(s: Seq<Entry<K, V>>, i: int)
    requires
        uniq_keys(s),
        0 <= i <= s.len(),
    ensures
        map_of_tail(s, i).dom().finite(),
        map_of_tail(s, i).dom().len() + count_occupied(s.take(i)) == count_occupied(s),
    decreases s.len() - i,
{
    if i == s.len() {
        assert(s.take(i) =~= s);
        assert(map_of_tail(s, i) =~= Map::<K::V, V>::empty()) by {
            assert forall|q: K::V| !#[trigger] has_key_from(s, i, q) by {
                if has_key_from(s, i, q) {
                    let c = choose|c: int| i <= c < s.len() && slot_holds(s, c, q);
                }
            }
        }
        assert(map_of_tail(s, i).dom() =~= Set::<K::V>::empty());
    } else {
        lemma_tail_dom_size(s, i + 1);
        lemma_tail_step(s, i);
        assert(s.take(i + 1).drop_last() =~= s.take(i));
        assert(s.take(i + 1).last() == s[i]);
        if s[i].occupied {
            assert(map_of_tail(s, i).dom() =~= map_of_tail(s, i + 1).dom().insert(s[i].key@));
        }
    }
}

impl<K: Hashable + Default, V: Default> HashMap<K, V> {
    /// The allocated slot count.
    pub closed spec fn spec_capacity(&self) -> nat {
        self.entries@.len()
    }

    /// The occupied-slot count.
    pub closed spec fn spec_len(&self) -> nat {
        self.occupied as nat
    }

    /// The slot sequence (exposed for stating the iteration law).
    pub closed spec fn spec_entries(&self) -> Seq<Entry<K, V>> {
        self.entries@
    }

    /// Well-formedness of the table: see [`table_inv`].
    pub closed spec fn wf(&self) -> bool {
        table_inv(self.entries@, self.occupied as nat)
    }

    /// Allocates `capacity` empty slots with zero occupied.  A zero-capacity
    /// table is legal to construct but supports no lookup or insertion until
    /// it is resized.
    pub fn with_capacity(capacity: usize) -> (r: Self)
        ensures
            r.wf(),
            r@ == Map::<K::V, V>::empty(),
            r.spec_len() == 0,
            r.spec_capacity() == capacity,
    {
        let mut entries: Vec<Entry<K, V>> = Vec::new();
        while entries.len() < capacity
            invariant
                entries@.len() <= capacity,
                forall|i: int| 0 <= i < entries@.len() ==> !entries@[i].occupied,
                count_occupied(entries@) == 0,
            decreases capacity - entries@.len(),
        {
            let e = Entry { occupied: false, key: K::default(), value: V::default() };
            proof {
                assert(entries@.push(e).drop_last() =~= entries@);
            }
            entries.push(e);
        }
        let r = Self { entries, occupied: 0 };
        proof {
            assert(r@ =~= Map::<K::V, V>::empty());
        }
        r
    }

    /// Convenience construction at the fixed initial capacity of 64 slots.
    pub fn new() -> (r: Self)
        ensures
            r.wf(),
            r@ == Map::<K::V, V>::empty(),
            r.spec_len() == 0,
            r.spec_capacity() == 64,
    {
        Self::with_capacity(64)
    }

    /// A zero-slot table, for deferred sizing.  Unsafe to probe or insert
    /// into until a resize has given it slots.
    pub fn empty() -> (r: Self)
        ensures
            r.wf(),
            r@ == Map::<K::V, V>::empty(),
            r.spec_len() == 0,
            r.spec_capacity() == 0,
    {
        let r = Self { entries: Vec::new(), occupied: 0 };
        proof {
            assert(r@ =~= Map::<K::V, V>::empty());
        }
        r
    }

    /// The allocated slot count (not the occupied count).
    pub fn capacity(&self) -> (r: usize)
        ensures
            r == self.spec_capacity(),
    {
        self.entries.len()
    }

    /// The number of occupied slots.
    pub fn len(&self) -> (r: usize)
        ensures
            r == self.spec_len(),
    {
        self.occupied
    }

    /// Whether no slot is occupied.
    pub fn is_empty(&self) -> (r: bool)
        ensures
            r == (self.spec_len() == 0),
    {
        self.occupied == 0
    }

    /// Locates the key: probes linearly from the key's home slot, stopping at
    /// the first unoccupied slot (the key is absent) or the first occupied
    /// slot holding an equal key (the key is present), for at most one full
    /// scan of the table.
    pub fn get_index(&self, key: &K) -> (r: Option<usize>)
        requires
            self.wf(),
            self.spec_capacity() > 0,
        ensures
            match r {
                Some(i) => {
                    &&& (i as int) < self.spec_capacity()
                    &&& slot_holds(self.spec_entries(), i as int, key@)
                    &&& self@.contains_key(key@)
                    &&& self@[key@] == value_at(self.spec_entries(), i as int)
                },
                None => !self@.contains_key(key@),
            },
    {
        let cap = self.entries.len();
        let mut index = key.hash() % cap;
        let ghost h: int = index as int;
        let mut j: usize = 0;
        while j < cap
            invariant
                uniq_keys(self.entries@),
                probe_connected(self.entries@),
                cap == self.entries@.len(),
                0 < cap,
                h == home(self.entries@, key@),
                0 <= j <= cap,
                index as int == step(h, j as int, cap as int),
                0 <= index < cap,
                forall|d: int|
                    0 <= d < j ==> {
                        let p = #[trigger] step(h, d, cap as int);
                        self.entries@[p].occupied && self.entries@[p].key@ != key@
                    },
            decreases cap - j,
        {
            if !self.entries[index].occupied {
                proof {
                    lemma_absent_after_scan(self.entries@, key@, j as int);
                }
                return None;
            }
            if self.entries[index].key.key_eq(key) {
                proof {
                    lemma_found_at(self.entries@, key@, index as int);
                }
                return Some(index);
            }
            index = if index + 1 < cap {
                index + 1
            } else {
                0
            };
            j = j + 1;
        }
        proof {
            lemma_absent_after_scan(self.entries@, key@, cap as int);
        }
        None
    }

    /// Looks the key up and borrows its value.
    pub fn get(&self, key: &K) -> (r: Option<&V>)
        requires
            self.wf(),
            self.spec_capacity() > 0,
        ensures
            match r {
                Some(v) => self@.contains_key(key@) && *v == self@[key@],
                None => !self@.contains_key(key@),
            },
    {
        match self.get_index(key) {
            Some(index) => Some(&self.entries[index].value),
            None => None,
        }
    }

    /// Looks the key up and borrows its value mutably: whatever the caller
    /// writes through the borrow becomes the binding of that key; nothing
    /// else about the table changes.
    #[verifier::spinoff_prover]
    #[verifier::rlimit(60)]
    pub fn get_mut(&mut self, key: &K) -> (r: Option<&mut V>)
        requires
            old(self).wf(),
            old(self).spec_capacity() > 0,
        ensures
            match r {
                Some(v) => old(self)@.contains_key(key@) && *v == old(self)@[key@],
                None => !old(self)@.contains_key(key@) && *final(self) == *old(self),
            },
            match r {
                Some(v) => final(self)@ == old(self)@.insert(key@, *final(v)),
                None => true,
            },
            match r {
                Some(v) => final(self).wf() && final(self).spec_len() == old(self).spec_len()
                    && final(self).spec_capacity() == old(self).spec_capacity(),
                None => true,
            },
    {
        broadcast use lemma_value_update;

        match self.get_index(key) {
            Some(index) => Some(&mut self.entries[index].value),
            None => None,
        }
    }

    /// Inserts a key known to be absent into a table with room to spare:
    /// probes linearly from the key's home slot and fills the first
    /// unoccupied slot found.
    fn insert_fresh(&mut self, key: K, new_value: V)
        requires
            old(self).wf(),
            old(self).spec_capacity() > 0,
            !old(self)@.contains_key(key@),
            old(self).spec_len() + 1 <= old(self).spec_capacity() / 2,
        ensures
            final(self).wf(),
            final(self)@ == old(self)@.insert(key@, new_value),
            final(self).spec_len() == old(self).spec_len() + 1,
            final(self).spec_capacity() == old(self).spec_capacity(),
    {
        let cap = self.entries.len();
        let mut index = key.hash() % cap;
        let ghost h: int = index as int;
        proof {
            assert(!has_key(self.entries@, key@)) by {
                if has_key(self.entries@, key@) {
                    let c = choose|c: int|
                        0 <= c < self.entries@.len() && slot_holds(self.entries@, c, key@);
                    lemma_found_at(self.entries@, key@, c);
                }
            }
        }
        let mut j: usize = 0;
        while j < cap
            invariant
                self.wf(),
                *self == *old(self),
                cap == self.entries@.len(),
                0 < cap,
                self.occupied as int + 1 <= cap as int / 2,
                !has_key(self.entries@, key@),
                h == home(self.entries@, key@),
                0 <= j <= cap,
                index as int == step(h, j as int, cap as int),
                0 <= index < cap,
                forall|d: int|
                    0 <= d < j ==> self.entries@[#[trigger] step(h, d, cap as int)].occupied,
            decreases cap - j,
        {
            if !self.entries[index].occupied {
                let e = Entry { occupied: true, key, value: new_value };
                proof {
                    lemma_fill_empty(self.entries@, e, j as int);
                }
                self.entries.set(index, e);
                self.occupied = self.occupied + 1;
                return ;
            }
            index = if index + 1 < cap {
                index + 1
            } else {
                0
            };
            j = j + 1;
        }
        proof {
            lemma_count_bounds(self.entries@);
            assert forall|i: int| 0 <= i < cap implies self.entries@[i].occupied by {
                lemma_step_distance(h, i, cap as int);
                assert(self.entries@[step(h, distance(h, i, cap as int), cap as int)].occupied);
            }
            assert(false);
        }
    }

    /// Rebuilds the table at capacity `2 * capacity + 1`, rehashing and
    /// re-placing every occupied binding; the abstract map and the occupied
    /// count are unchanged.
    fn extend(&mut self)
        requires
            old(self).wf(),
            2 * old(self).spec_capacity() + 1 <= usize::MAX,
        ensures
            final(self).wf(),
            final(self)@ == old(self)@,
            final(self).spec_len() == old(self).spec_len(),
            final(self).spec_capacity() == 2 * old(self).spec_capacity() + 1,
    {
        let new_cap = self.entries.len() * 2 + 1;
        let mut fresh = Self::with_capacity(new_cap);
        let ghost s0 = self.entries@;
        proof {
            assert(s0.take(s0.len() as int) =~= s0);
            assert(map_of_tail(s0, s0.len() as int) =~= Map::<K::V, V>::empty());
            lemma_count_bounds(s0);
        }
        while self.entries.len() > 0
            invariant
                fresh.wf(),
                fresh.spec_capacity() == new_cap as nat,
                new_cap as int == 2 * s0.len() + 1,
                uniq_keys(s0),
                self.occupied == old(self).occupied,
                self.entries@ == s0.take(self.entries@.len() as int),
                self.entries@.len() <= s0.len(),
                fresh@ == map_of_tail(s0, self.entries@.len() as int),
                fresh.spec_len() + count_occupied(s0.take(self.entries@.len() as int))
                    == count_occupied(s0),
                count_occupied(s0) <= s0.len() as int / 2,
            decreases self.entries@.len(),
        {
            let ghost n = self.entries@.len() as int;
            proof {
                assert(s0.take(n).last() == s0[n - 1]);
                assert(s0.take(n).drop_last() =~= s0.take(n - 1));
                lemma_count_bounds(s0.take(n - 1));
                lemma_tail_step(s0, n - 1);
            }
            let e = self.entries.pop().unwrap();
            proof {
                assert(self.entries@ =~= s0.take(n - 1));
            }
            if e.occupied {
                fresh.insert_fresh(e.key, e.value);
            }
        }
        proof {
            assert(self.entries@.len() == 0);
            lemma_map_of_whole(s0);
            assert(count_occupied(s0.take(0)) == 0);
        }
        *self = fresh;
    }

    /// Inserts or updates the binding for `key`.  An existing binding has its
    /// value overwritten in place; a new key triggers an eager resize first
    /// whenever the table is at least half full, and is then placed in the
    /// first unoccupied slot of its probe sequence.
    pub fn insert(&mut self, key: K, new_value: V)
        requires
            old(self).wf(),
            old(self).spec_capacity() > 0,
            !old(self)@.contains_key(key@) && old(self).spec_len() >= old(self).spec_capacity()
                / 2 ==> 2 * old(self).spec_capacity() + 1 <= usize::MAX,
        ensures
            final(self).wf(),
            final(self)@ == old(self)@.insert(key@, new_value),
            final(self).spec_len() == old(self).spec_len() + (if old(self)@.contains_key(key@) {
                0int
            } else {
                1int
            }),
            final(self).spec_capacity() == (if old(self)@.contains_key(key@) || old(
                self,
            ).spec_len() < old(self).spec_capacity() / 2 {
                old(self).spec_capacity() as int
            } else {
                2 * old(self).spec_capacity() as int + 1
            }),
            final(self).spec_capacity() > 0,
            2 * final(self).spec_len() <= final(self).spec_capacity(),
    {
        match self.get_index(&key) {
            Some(index) => {
                let e = Entry { occupied: true, key, value: new_value };
                proof {
                    lemma_value_update(self.entries@, index as int, e);
                }
                self.entries.set(index, e);
            },
            None => {
                if self.occupied >= self.entries.len() / 2 {
                    self.extend();
                }
                self.insert_fresh(key, new_value);
            },
        }
    }

    /// The bindings a full scan of the table produces, in slot order.
    pub closed spec fn spec_pairs(&self) -> Seq<(K::V, V)> {
        pairs_from(self.entries@, 0)
    }

    /// A cursor over the table's occupied bindings, in slot order.  The
    /// cursor borrows the table: no mutation can happen while it is alive.
    pub fn iter(&self) -> (r: HashMapIterator<K, V>)
        ensures
            r.remaining() == self.spec_pairs(),
    {
        HashMapIterator { entries: &self.entries, current_index: 0 }
    }
}

impl<K: Hashable + Default, V: Default> Default for HashMap<K, V> {
    /// A table at the default initial capacity.
    fn default() -> (r: Self)
        ensures
            r.wf(),
            r@ == Map::<K::V, V>::empty(),
            r.spec_len() == 0,
            r.spec_capacity() == 64,
    {
        Self::new()
    }
}

/// The bindings of the occupied slots at index `i` and beyond, in slot
/// order.
pub closed spec fn pairs_from<K: View, V>(s: Seq<Entry<K, V>>, i: int) -> Seq<(K::V, V)>
    decreases s.len() - i,
{
    if 0 <= i < s.len() {
        (if s[i].occupied {
            seq![(s[i].key@, s[i].value)]
        } else {
            Seq::empty()
        }) + pairs_from(s, i + 1)
    } else {
        Seq::empty()
    }
}

/// A lazy, finite, forward-only cursor over a table's occupied bindings: it
/// scans slot indices upward, skipping unoccupied slots.
pub struct HashMapIterator<'a, Key, Value> {
    entries: &'a Vec<Entry<Key, Value>>,
    current_index: usize,
}

impl<'a, K: View, V> HashMapIterator<'a, K, V> {
    /// The bindings the cursor has yet to produce, in slot order.
    pub closed spec fn remaining(&self) -> Seq<(K::V, V)> {
        pairs_from(self.entries@, self.current_index as int)
    }

    /// Produces the next occupied binding, or nothing once the scan has
    /// passed the last slot.
    pub fn next(&mut self) -> (r: Option<(&'a K, &'a V)>)
        ensures
            match r {
                Some(p) => {
                    &&& old(self).remaining().len() > 0
                    &&& (p.0@, *p.1) == old(self).remaining()[0]
                    &&& final(self).remaining() == old(self).remaining().drop_first()
                },
                None => {
                    &&& old(self).remaining().len() == 0
                    &&& final(self).remaining().len() == 0
                },
            },
    {
        while self.current_index < self.entries.len()
            invariant
                self.entries == old(self).entries,
                self.current_index >= old(self).current_index,
                pairs_from(self.entries@, self.current_index as int) == pairs_from(
                    old(self).entries@,
                    old(self).current_index as int,
                ),
            decreases self.entries@.len() - self.current_index,
        {
            let entry = &self.entries[self.current_index];
            let ghost i = self.current_index as int;
            self.current_index = self.current_index + 1;
            if entry.occupied {
                proof {
                    assert(pairs_from(self.entries@, i) == seq![
                        (self.entries@[i].key@, self.entries@[i].value),
                    ] + pairs_from(self.entries@, i + 1));
                    assert(pairs_from(self.entries@, i).drop_first() =~= pairs_from(
                        self.entries@,
                        i + 1,
                    ));
                }
                return Some((&entry.key, &entry.value));
            }
            proof {
                assert(pairs_from(self.entries@, i) =~= pairs_from(self.entries@, i + 1));
            }
        }
        None
    }
}

/// The binding slot `c` holds.
spec fn pair_at<K: View, V>(s: Seq<Entry<K, V>>, c: int) -> (K::V, V) {
    (s[c].key@, s[c].value)
}

/// The indices of the occupied slots at index `i` and beyond, in order.
spec fn occupied_indices<K, V>(s: Seq<Entry<K, V>>, i: int) -> Seq<int>
    decreases s.len() - i,
{
    if 0 <= i < s.len() {
        (if s[i].occupied {
            seq![i]
        } else {
            Seq::empty()
        }) + occupied_indices(s, i + 1)
    } else {
        Seq::empty()
    }
}

/// A scan from slot `i` onward produces exactly the bindings of the occupied
/// slots at `i` and beyond, in strictly increasing slot order, and they
/// number exactly the occupied slots there.
proof fn lemma_pairs_from_props<K: Hashable, V>(s: Seq<Entry<K, V>>, i: int)
    requires
        0 <= i <= s.len(),
    ensures
        pairs_from(s, i).len() + count_occupied(s.take(i)) == count_occupied(s),
        pairs_from(s, i).len() == occupied_indices(s, i).len(),
        forall|n: int|
            0 <= n < occupied_indices(s, i).len() ==> i <= #[trigger] occupied_indices(s, i)[n]
                < s.len() && s[occupied_indices(s, i)[n]].occupied && pairs_from(s, i)[n]
                == pair_at(s, occupied_indices(s, i)[n]),
        forall|n1: int, n2: int|
            0 <= n1 < n2 < occupied_indices(s, i).len() ==> #[trigger] occupied_indices(s, i)[n1]
                < #[trigger] occupied_indices(s, i)[n2],
    decreases s.len() - i,
{
    if i == s.len() {
        assert(s.take(i) =~= s);
    } else {
        lemma_pairs_from_props(s, i + 1);
        assert(s.take(i + 1).drop_last() =~= s.take(i));
        assert(s.take(i + 1).last() == s[i]);
        let rest = pairs_from(s, i + 1);
        let rest_idx = occupied_indices(s, i + 1);
        if s[i].occupied {
            assert(pairs_from(s, i) == seq![pair_at(s, i)] + rest);
            assert(occupied_indices(s, i) == seq![i] + rest_idx);
            assert(occupied_indices(s, i)[0] == i);
            assert(pairs_from(s, i)[0] == pair_at(s, i));
            assert forall|n: int|
                0 <= n < occupied_indices(s, i).len() implies i <= #[trigger] occupied_indices(
                s,
                i,
            )[n] < s.len() && s[occupied_indices(s, i)[n]].occupied && pairs_from(s, i)[n]
                == pair_at(s, occupied_indices(s, i)[n]) by {
                if n > 0 {
                    assert(occupied_indices(s, i)[n] == rest_idx[n - 1]);
                    assert(pairs_from(s, i)[n] == rest[n - 1]);
                }
            }
        } else {
            assert(pairs_from(s, i) =~= rest);
            assert(occupied_indices(s, i) =~= rest_idx);
        }
    }
}

/// Round trip: after an insertion, the table's map binds the inserted key to
/// the inserted value, so a lookup of that key yields it.
pub proof fn lemma_round_trip<K: Hashable + Default, V: Default>(
    pre: HashMap<K, V>,
    post: HashMap<K, V>,
    k: K::V,
    v: V,
)
    requires
        post@ == pre@.insert(k, v),
    ensures
        post@.contains_key(k),
        post@[k] == v,
{
}

/// Overwrite: inserting an already-present key is an update, not a
/// reinsertion; the occupied count stays, and the key is bound to the latest
/// value.
pub proof fn lemma_overwrite<K: Hashable + Default, V: Default>(
    pre: HashMap<K, V>,
    post: HashMap<K, V>,
    k: K::V,
    v: V,
)
    requires
        pre@.contains_key(k),
        post@ == pre@.insert(k, v),
        post.spec_len() == pre.spec_len() + (if pre@.contains_key(k) {
            0int
        } else {
            1int
        }),
    ensures
        post.spec_len() == pre.spec_len(),
        post@[k] == v,
{
}

/// Load-factor bound: a well-formed table is at most half full, so after any
/// sequence of insertions the capacity is at least twice the occupied count.
pub proof fn lemma_load_factor<K: Hashable + Default, V: Default>(m: HashMap<K, V>)
    requires
        m.wf(),
    ensures
        2 * m.spec_len() <= m.spec_capacity(),
{
}

/// Insertion preserves every other binding, resizes included: whatever was
/// findable before an insertion is findable afterwards, with its value.
pub proof fn lemma_insert_preserves<K: Hashable + Default, V: Default>(
    pre: HashMap<K, V>,
    post: HashMap<K, V>,
    k: K::V,
    v: V,
    other: K::V,
)
    requires
        post@ == pre@.insert(k, v),
        pre@.contains_key(other),
        other != k,
    ensures
        post@.contains_key(other),
        post@[other] == pre@[other],
{
}

/// Absence: a freshly constructed table binds no key, so a lookup of any key
/// reports it absent.
pub proof fn lemma_fresh_absent<K: Hashable + Default, V: Default>(m: HashMap<K, V>, k: K::V)
    requires
        m@ == Map::<K::V, V>::empty(),
    ensures
        !m@.contains_key(k),
{
}

/// The occupied count a well-formed table reports is exactly the number of
/// keys its abstract map binds.
pub proof fn lemma_len_is_key_count<K: Hashable + Default, V: Default>(m: HashMap<K, V>)
    requires
        m.wf(),
    ensures
        m@.dom().finite(),
        m@.dom().len() == m.spec_len(),
{
    let s = m.spec_entries();
    lemma_tail_dom_size(s, 0);
    lemma_map_of_whole(s);
    assert(s.take(0) =~= Seq::<Entry<K, V>>::empty());
    assert(count_occupied(s.take(0)) == 0);
}

/// Iteration completeness: a full scan of a well-formed table produces
/// exactly as many bindings as there are occupied slots, each of them a
/// binding of the table's map (so each value matches what a lookup of its key
/// returns), with no key produced twice.
pub proof fn lemma_iteration_complete<K: Hashable + Default, V: Default>(m: HashMap<K, V>)
    requires
        m.wf(),
    ensures
        m.spec_pairs().len() == m.spec_len(),
        forall|n: int|
            0 <= n < m.spec_pairs().len() ==> m@.contains_key(#[trigger] m.spec_pairs()[n].0)
                && m@[m.spec_pairs()[n].0] == m.spec_pairs()[n].1,
        forall|n1: int, n2: int|
            0 <= n1 < n2 < m.spec_pairs().len() ==> (#[trigger] m.spec_pairs()[n1]).0 != (
            #[trigger] m.spec_pairs()[n2]).0,
{
    let s = m.spec_entries();
    lemma_pairs_from_props(s, 0);
    assert(s.take(0) =~= Seq::<Entry<K, V>>::empty());
    assert(count_occupied(s.take(0)) == 0);
    assert forall|n: int| 0 <= n < m.spec_pairs().len() implies m@.contains_key(
        #[trigger] m.spec_pairs()[n].0,
    ) && m@[m.spec_pairs()[n].0] == m.spec_pairs()[n].1 by {
        let c = occupied_indices(s, 0)[n];
        lemma_found_at(s, s[c].key@, c);
    }
    assert forall|n1: int, n2: int|
        0 <= n1 < n2 < m.spec_pairs().len() implies (#[trigger] m.spec_pairs()[n1]).0 != (
    #[trigger] m.spec_pairs()[n2]).0 by {
        let c1 = occupied_indices(s, 0)[n1];
        let c2 = occupied_indices(s, 0)[n2];
        assert(c1 < c2);
        assert(s[c1].key@ != s[c2].key@);
    }
}

} // verus!
