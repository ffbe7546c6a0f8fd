use crate::key::{HashKey, KeyEq};
use vstd::prelude::*;

verus! {

/// Capacity of the first allocation, made by the first growth.
pub const INITIAL_SIZE: usize = 1;

/// Largest capacity a table may reach: small enough that three times it
/// still fits in a `usize`.
pub const MAX_CAPACITY: usize = usize::MAX / 4;

/// One slot of the table.
#[derive(Debug)]
pub enum Entry<K, V> {
    /// Unused since the last rehash; ends every probe sequence.
    Empty,
    /// A tombstone: the slot held a pair that was removed. Probing goes on past it.
    Del,
    /// A live key/value pair.
    Pair { key: K, val: V },
}

/// A map from keys to values stored in one flat slot array, with linear
/// probing and tombstones.
pub struct HashMap<K: View, V> {
    table: Vec<Entry<K, V>>,
    items: usize,
    tombs: usize,
    model: Ghost<Map<K::V, V>>,
}

/// Three quarters of a capacity, rounded down: the load threshold.
pub open spec fn threshold(cap: nat) -> nat {
    3 * cap / 4
}

/// An insert on a table in this state grows it first.
pub open spec fn growth_due(cap: nat, items: nat) -> bool {
    cap == 0 || items >= threshold(cap)
}

/// The capacity after one growth.
pub open spec fn grown_capacity(cap: nat) -> nat {
    if cap == 0 {
        INITIAL_SIZE as nat
    } else {
        2 * cap
    }
}

/// A lookup or removal on a table in this state rehashes it in place first.
pub open spec fn declutter_due(cap: nat, items: nat, tombs: nat) -> bool {
    cap > 0 && items + tombs > threshold(cap)
}

/// Number of live pairs in a slot sequence.
pub open spec fn num_pairs<K, V>(t: Seq<Entry<K, V>>) -> nat
    decreases t.len(),
{
    if t.len() == 0 {
        0
    } else {
        num_pairs(t.drop_last()) + if t.last() is Pair {
            1nat
        } else {
            0nat
        }
    }
}

/// Number of tombstones in a slot sequence.
pub open spec fn num_dels<K, V>(t: Seq<Entry<K, V>>) -> nat
    decreases t.len(),
{
    if t.len() == 0 {
        0
    } else {
        num_dels(t.drop_last()) + if t.last() is Del {
            1nat
        } else {
            0nat
        }
    }
}

/// The slot a key's probe sequence starts at.
pub open spec fn home<K: HashKey>(k: K::V, cap: nat) -> int {
    (K::spec_hash(k) as int) % (cap as int)
}

/// The slot `d` steps after `start`, wrapping around.
pub open spec fn slot_at(start: int, d: int, cap: int) -> int {
    if start + d < cap {
        start + d
    } else {
        start + d - cap
    }
}

/// How many steps a probe from `start` takes to reach `i`.
pub open spec fn offset(start: int, i: int, cap: int) -> int {
    if i >= start {
        i - start
    } else {
        i + cap - start
    }
}

/// The pair at slot `i` is reachable from its key's home slot: no empty
/// slot stands between them.
pub open spec fn chain_clear<K: HashKey, V>(t: Seq<Entry<K, V>>, i: int) -> bool {
    let h = home::<K>(t[i]->key@, t.len());
    forall|d: int|
        0 <= d < offset(h, i, t.len() as int) ==> !(#[trigger] t[slot_at(h, d, t.len() as int)] is Empty)
}

/// The slots hold exactly the map `m`, one slot per key, each reachable by
/// linear probing from its home slot.
pub open spec fn table_holds<K: HashKey, V>(t: Seq<Entry<K, V>>, m: Map<K::V, V>) -> bool {
    &&& forall|i: int|
        0 <= i < t.len() && (#[trigger] t[i]) is Pair ==> m.contains_key(t[i]->key@) && m[t[i]->key@]
            == t[i]->val
    &&& forall|k: K::V|
        #[trigger] m.contains_key(k) ==> exists|i: int|
            0 <= i < t.len() && (#[trigger] t[i]) is Pair && t[i]->key@ == k
    &&& forall|i: int, j: int|
        0 <= i < t.len() && 0 <= j < t.len() && (#[trigger] t[i]) is Pair && (#[trigger] t[j]) is Pair
            && t[i]->key@ == t[j]->key@ ==> i == j
    &&& forall|i: int| 0 <= i < t.len() && (#[trigger] t[i]) is Pair ==> chain_clear(t, i)
}

proof fn lemma_counts_update<K, V>(t: Seq<Entry<K, V>>, i: int, e: Entry<K, V>)
    requires
        0 <= i < t.len(),
    ensures
        num_pairs(t.update(i, e)) + (if t[i] is Pair {
            1int
        } else {
            0int
        }) == num_pairs(t) + (if e is Pair {
            1int
        } else {
            0int
        }),
        num_dels(t.update(i, e)) + (if t[i] is Del {
            1int
        } else {
            0int
        }) == num_dels(t) + (if e is Del {
            1int
        } else {
            0int
        }),
    decreases t.len(),
{
    let u = t.update(i, e);
    if i == t.len() - 1 {
        assert(u.drop_last() =~= t.drop_last());
    } else {
        lemma_counts_update(t.drop_last(), i, e);
        assert(u.drop_last() =~= t.drop_last().update(i, e));
    }
}

proof fn lemma_counts_bound<K, V>(t: Seq<Entry<K, V>>)
    ensures
        num_pairs(t) + num_dels(t) <= t.len(),
        (forall|i: int| 0 <= i < t.len() ==> !(#[trigger] t[i] is Empty)) ==> num_pairs(t)
            + num_dels(t) == t.len(),
        forall|i: int| 0 <= i < t.len() && #[trigger] t[i] is Empty ==> num_pairs(t) + num_dels(t)
            < t.len(),
    decreases t.len(),
{
    if t.len() > 0 {
        lemma_counts_bound(t.drop_last());
        assert forall|i: int| 0 <= i < t.len() && #[trigger] t[i] is Empty implies num_pairs(t)
            + num_dels(t) < t.len() by {
            if i < t.len() - 1 {
                assert(t.drop_last()[i] is Empty);
            }
        }
        if forall|i: int| 0 <= i < t.len() ==> !(#[trigger] t[i] is Empty) {
            assert forall|i: int| 0 <= i < t.drop_last().len() implies !(
            #[trigger] t.drop_last()[i] is Empty) by {
                assert(t[i] !is Empty);
            }
            assert(t[t.len() - 1] !is Empty);
        }
    }
}

/// Writing a new pair into the first empty slot of its key's probe
/// sequence keeps the slots holding the map, extended by that pair.
proof fn lemma_place<K: HashKey, V>(t: Seq<Entry<K, V>>, m: Map<K::V, V>, i: int, e: Entry<K, V>)
    requires
        table_holds(t, m),
        0 <= i < t.len(),
        t[i] is Empty,
        e is Pair,
        !m.contains_key(e->key@),
        forall|d: int|
            0 <= d < offset(home::<K>(e->key@, t.len()), i, t.len() as int) ==> !(#[trigger] t[slot_at(
                home::<K>(e->key@, t.len()),
                d,
                t.len() as int,
            )] is Empty),
    ensures
        table_holds(t.update(i, e), m.insert(e->key@, e->val)),
{
    let t1 = t.update(i, e);
    let m1 = m.insert(e->key@, e->val);
    assert forall|a: int| 0 <= a < t1.len() && (#[trigger] t1[a]) is Pair implies chain_clear(t1, a) by {
        let h = home::<K>(t1[a]->key@, t1.len());
        if a != i {
            assert(chain_clear(t, a));
        }
        assert forall|d: int| 0 <= d < offset(h, a, t1.len() as int) implies !(#[trigger] t1[slot_at(
            h,
            d,
            t1.len() as int,
        )] is Empty) by {
            assert(t[slot_at(h, d, t1.len() as int)] !is Empty);
        }
    }
    assert forall|k: K::V| #[trigger] m1.contains_key(k) implies exists|a: int|
        0 <= a < t1.len() && (#[trigger] t1[a]) is Pair && t1[a]->key@ == k by {
        if k == e->key@ {
            assert(t1[i] is Pair);
        } else {
            let a = choose|a: int| 0 <= a < t.len() && (#[trigger] t[a]) is Pair && t[a]->key@ == k;
            assert(t1[a] is Pair);
        }
    }
}

/// Writing a pair over the pair of the same key keeps the slots holding the
/// map, with that key's value replaced.
proof fn lemma_replace<K: HashKey, V>(t: Seq<Entry<K, V>>, m: Map<K::V, V>, i: int, e: Entry<K, V>)
    requires
        table_holds(t, m),
        0 <= i < t.len(),
        t[i] is Pair,
        e is Pair,
        e->key@ == t[i]->key@,
    ensures
        table_holds(t.update(i, e), m.insert(e->key@, e->val)),
{
    let t1 = t.update(i, e);
    let m1 = m.insert(e->key@, e->val);
    assert forall|a: int| 0 <= a < t1.len() && (#[trigger] t1[a]) is Pair implies chain_clear(t1, a) by {
        let h = home::<K>(t1[a]->key@, t1.len());
        assert(chain_clear(t, a));
        assert forall|d: int| 0 <= d < offset(h, a, t1.len() as int) implies !(#[trigger] t1[slot_at(
            h,
            d,
            t1.len() as int,
        )] is Empty) by {
            assert(t[slot_at(h, d, t1.len() as int)] !is Empty);
        }
    }
    assert forall|k: K::V| #[trigger] m1.contains_key(k) implies exists|a: int|
        0 <= a < t1.len() && (#[trigger] t1[a]) is Pair && t1[a]->key@ == k by {
        let a = choose|a: int| 0 <= a < t.len() && (#[trigger] t[a]) is Pair && t[a]->key@ == k;
        assert(t1[a] is Pair);
    }
}

/// Where a probe for a key ended.
enum Probe {
    /// At a pair holding the key.
    Found(usize),
    /// At the first empty slot of the key's probe sequence; the key is absent.
    Vacant(usize),
    /// Every slot was visited, none empty; the key is absent.
    Exhausted,
}

/// Probes the slots for `key`, from its home slot, at most once around.
fn find<K: KeyEq<Q>, Q: HashKey + ?Sized, V>(
    t: &Vec<Entry<K, V>>,
    key: &Q,
    Ghost(m): Ghost<Map<K::V, V>>,
) -> (r: Probe)
    requires
        table_holds(t@, m),
        t@.len() > 0,
    ensures
        match r {
            Probe::Found(i) => i < t@.len() && t@[i as int] is Pair && t@[i as int]->key@ == K::query_view(key@),
            Probe::Vacant(i) => {
                &&& i < t@.len()
                &&& t@[i as int] is Empty
                &&& !m.contains_key(K::query_view(key@))
                &&& forall|d: int|
                    0 <= d < offset(home::<K>(K::query_view(key@), t@.len()), i as int, t@.len() as int) ==> !(
                    #[trigger] t@[slot_at(home::<K>(K::query_view(key@), t@.len()), d, t@.len() as int)] is Empty)
            },
            Probe::Exhausted => {
                &&& !m.contains_key(K::query_view(key@))
                &&& forall|i: int| 0 <= i < t@.len() ==> !(#[trigger] t@[i] is Empty)
            },
        },
{
    let cap = t.len();
    let h = key.hash_key();
    proof {
        K::lemma_hash_agrees(key@);
    }
    let start = (h % (cap as u64)) as usize;
    let ghost hs = home::<K>(K::query_view(key@), t@.len());
    assert(start as int == hs);
    let mut idx = start;
    let mut cnt: usize = 0;
    while cnt < cap
        invariant
            cap == t@.len(),
            table_holds(t@, m),
            hs == home::<K>(K::query_view(key@), t@.len()),
            0 <= hs < cap,
            cnt <= cap,
            idx as int == slot_at(hs, cnt as int, cap as int),
            forall|d: int|
                0 <= d < cnt ==> !(#[trigger] t@[slot_at(hs, d, cap as int)] is Empty) && !(t@[slot_at(
                    hs,
                    d,
                    cap as int,
                )] is Pair && t@[slot_at(hs, d, cap as int)]->key@ == K::query_view(key@)),
        decreases cap - cnt,
    {
        match &t[idx] {
            Entry::Empty => {
                proof {
                    if m.contains_key(K::query_view(key@)) {
                        let i = choose|i: int|
                            0 <= i < t@.len() && (#[trigger] t@[i]) is Pair && t@[i]->key@ == K::query_view(key@);
                        let dd = offset(hs, i, cap as int);
                        assert(slot_at(hs, dd, cap as int) == i);
                        if dd < cnt {
                            assert(t@[slot_at(hs, dd, cap as int)] is Pair);
                        } else if dd > cnt {
                            assert(chain_clear(t@, i));
                            assert(home::<K>(t@[i]->key@, t@.len()) == hs);
                            assert(t@[slot_at(hs, cnt as int, cap as int)] !is Empty);
                        }
                    }
                }
                assert(offset(hs, idx as int, cap as int) == cnt);
                return Probe::Vacant(idx);
            },
            Entry::Pair { key: ek, .. } => {
                if ek.matches_query(key) {
                    return Probe::Found(idx);
                }
            },
            Entry::Del => {},
        }
        idx = if idx + 1 == cap {
            0
        } else {
            idx + 1
        };
        cnt += 1;
    }
    proof {
        if m.contains_key(K::query_view(key@)) {
            let i = choose|i: int| 0 <= i < t@.len() && (#[trigger] t@[i]) is Pair && t@[i]->key@ == K::query_view(key@);
            let dd = offset(hs, i, cap as int);
            assert(slot_at(hs, dd, cap as int) == i);
            assert(t@[slot_at(hs, dd, cap as int)] is Pair);
        }
        assert forall|i: int| 0 <= i < t@.len() implies !(#[trigger] t@[i] is Empty) by {
            let dd = offset(hs, i, cap as int);
            assert(slot_at(hs, dd, cap as int) == i);
            assert(!(t@[slot_at(hs, dd, cap as int)] is Empty));
        }
    }
    Probe::Exhausted
}

impl<K: HashKey, V> View for HashMap<K, V> {
    type V = Map<K::V, V>;

    closed spec fn view(&self) -> Map<K::V, V> {
        self.model@
    }
}

impl<K: HashKey, V> HashMap<K, V> {
    /// Number of slots.
    pub closed spec fn spec_capacity(&self) -> nat {
        self.table@.len()
    }

    /// Number of tombstones.
    pub closed spec fn spec_tombs(&self) -> nat {
        self.tombs as nat
    }

    /// The table's internal invariant: the slots hold the map, `items`
    /// counts the pairs and `tombs` the tombstones.
    pub closed spec fn wf(&self) -> bool {
        &&& self.table@.len() <= MAX_CAPACITY
        &&& self.model@.dom().finite()
        &&& self.items == self.model@.len()
        &&& self.items == num_pairs(self.table@)
        &&& self.tombs == num_dels(self.table@)
        &&& table_holds(self.table@, self.model@)
    }

    /// An empty table, with no slots allocated.
    pub fn new() -> (r: Self)
        ensures
            r.wf(),
            r@.dom().finite(),
            r@ == Map::<K::V, V>::empty(),
            r.spec_capacity() == 0,
            r.spec_tombs() == 0,
    {
        let r = HashMap { table: Vec::new(), items: 0, tombs: 0, model: Ghost(Map::empty()) };
        proof {
            assert(r.model@.len() == 0);
        }
        r
    }

    /// Number of live pairs.
    pub fn len(&self) -> (r: usize)
        requires
            self.wf(),
        ensures
            r == self@.len(),
    {
        self.items
    }

    pub fn is_empty(&self) -> (r: bool)
        requires
            self.wf(),
        ensures
            r == (self@.len() == 0),
            r == (self@ == Map::<K::V, V>::empty()),
    {
        proof {
            if self.items == 0 {
                self.model@.dom().lemma_len0_is_empty();
                assert(self.model@ =~= Map::<K::V, V>::empty());
            }
        }
        self.items == 0
    }

    /// Number of slots.
    pub fn capacity(&self) -> (r: usize)
        ensures
            r == self.spec_capacity(),
    {
        self.table.len()
    }

    /// Number of tombstones.
    pub fn tombstones(&self) -> (r: usize)
        ensures
            r == self.spec_tombs(),
    {
        self.tombs
    }

    /// In a well-formed table, pairs and tombstones together take at most
    /// every slot, and a table without slots is empty.
    pub proof fn lemma_wf_bounds(&self)
        requires
            self.wf(),
        ensures
            self@.len() + self.spec_tombs() <= self.spec_capacity(),
            self.spec_capacity() <= MAX_CAPACITY,
            self@.dom().finite(),
            self.spec_capacity() == 0 ==> self@ == Map::<K::V, V>::empty(),
    {
        lemma_counts_bound(self.table@);
        if self.table@.len() == 0 {
            assert(self.model@ =~= Map::<K::V, V>::empty());
        }
    }

    /// Rehashes every pair into a fresh table of all-empty slots: of twice
    /// the capacity (or `INITIAL_SIZE` from empty), or of the same capacity
    /// when `rehash_only`. Tombstones are dropped.
    pub fn resize(&mut self, rehash_only: bool)
        requires
            old(self).wf(),
            !rehash_only ==> grown_capacity(old(self).spec_capacity()) <= MAX_CAPACITY,
        ensures
            final(self).wf(),
            final(self)@.dom().finite(),
            final(self)@ == old(self)@,
            final(self).spec_tombs() == 0,
            final(self).spec_capacity() == if rehash_only {
                old(self).spec_capacity()
            } else {
                grown_capacity(old(self).spec_capacity())
            },
    {
        let new_size: usize = if rehash_only {
            self.table.len()
        } else if self.table.len() == 0 {
            INITIAL_SIZE
        } else {
            2 * self.table.len()
        };
        let mut new_table: Vec<Entry<K, V>> = Vec::with_capacity(new_size);
        let mut j: usize = 0;
        while j < new_size
            invariant
                j <= new_size,
                new_table@.len() == j,
                num_pairs(new_table@) == 0,
                num_dels(new_table@) == 0,
                forall|i: int| 0 <= i < j ==> (#[trigger] new_table@[i]) is Empty,
            decreases new_size - j,
        {
            let ghost before = new_table@;
            new_table.push(Entry::Empty);
            assert(new_table@.drop_last() =~= before);
            j += 1;
        }
        let mut old_table: Vec<Entry<K, V>> = Vec::new();
        std::mem::swap(&mut self.table, &mut old_table);
        let ghost orig = old_table@;
        let ghost m = self.model@;
        let ghost mut inserted = Map::<K::V, V>::empty();
        proof {
            lemma_counts_bound(orig);
        }
        while old_table.len() > 0
            invariant
                new_table@.len() == new_size,
                orig.len() <= new_size,
                num_pairs(orig) <= orig.len(),
                table_holds(orig, m),
                old_table@.len() <= orig.len(),
                old_table@ == orig.subrange(0, old_table@.len() as int),
                table_holds(new_table@, inserted),
                num_pairs(new_table@) + num_pairs(old_table@) == num_pairs(orig),
                num_dels(new_table@) == 0,
                forall|k: K::V| #[trigger]
                    inserted.contains_key(k) ==> m.contains_key(k) && inserted[k] == m[k],
                forall|k: K::V| #[trigger]
                    m.contains_key(k) ==> inserted.contains_key(k) || exists|i: int|
                        0 <= i < old_table@.len() && (#[trigger] orig[i]) is Pair && orig[i]->key@
                            == k,
                forall|i: int|
                    0 <= i < old_table@.len() && (#[trigger] orig[i]) is Pair ==> !inserted.contains_key(
                        orig[i]->key@,
                    ),
            decreases old_table@.len(),
        {
            let ghost before = old_table@;
            let ghost last = old_table@.len() - 1;
            let popped = old_table.pop();
            assert(old_table@ =~= before.drop_last());
            assert(old_table@ =~= orig.subrange(0, last));
            assert(before[last] == orig[last]);
            match popped {
                Some(Entry::Pair { key, val }) => {
                    proof {
                        lemma_counts_bound(new_table@);
                    }
                    match find(&new_table, &key, Ghost(inserted)) {
                        Probe::Vacant(i) => {
                            let ghost t0 = new_table@;
                            let e = Entry::Pair { key, val };
                            new_table[i] = e;
                            proof {
                                lemma_counts_update(t0, i as int, e);
                                let t1 = new_table@;
                                let ins1 = inserted.insert(key@, val);
                                assert(t1 == t0.update(i as int, e));
                                lemma_place(t0, inserted, i as int, e);
                                assert(table_holds(t1, ins1));
                                inserted = ins1;
                            }
                        },
                        Probe::Found(_) => {
                            proof {
                                assert(false);
                            }
                        },
                        Probe::Exhausted => {
                            proof {
                                assert(false);
                            }
                        },
                    }
                },
                _ => {},
            }
        }
        proof {
            assert(inserted =~= m);
        }
        self.table = new_table;
        self.tombs = 0;
    }

    /// Removes `key`, leaving a tombstone in its slot, and returns its value.
    /// Rehashes in place first when pairs and tombstones together exceed
    /// three quarters of the capacity.
    pub fn remove<Q: HashKey + ?Sized>(&mut self, key: &Q) -> (r: Option<V>) where K: KeyEq<Q>
        requires
            old(self).wf(),
        ensures
            final(self).wf(),
            final(self)@.dom().finite(),
            final(self)@ == old(self)@.remove(K::query_view(key@)),
            r == if old(self)@.contains_key(K::query_view(key@)) {
                Some(old(self)@[K::query_view(key@)])
            } else {
                None::<V>
            },
            !old(self)@.contains_key(K::query_view(key@)) && !declutter_due(
                old(self).spec_capacity(),
                old(self)@.len(),
                old(self).spec_tombs(),
            ) ==> *final(self) == *old(self),
            final(self).spec_capacity() == old(self).spec_capacity(),
            final(self).spec_tombs() == (if declutter_due(
                old(self).spec_capacity(),
                old(self)@.len(),
                old(self).spec_tombs(),
            ) {
                0
            } else {
                old(self).spec_tombs()
            }) + if old(self)@.contains_key(K::query_view(key@)) {
                1nat
            } else {
                0nat
            },
    {
        proof {
            self.lemma_wf_bounds();
        }
        if self.table.len() == 0 {
            proof {
                assert(self.model@.remove(K::query_view(key@)) =~= self.model@);
            }
            return None;
        }
        if self.items + self.tombs > 3 * self.table.len() / 4 {
            self.resize(true);
        }
        proof {
            self.lemma_wf_bounds();
        }
        match find(&self.table, key, Ghost(self.model@)) {
            Probe::Found(i) => {
                let ghost t0 = self.table@;
                let ghost m0 = self.model@;
                let mut slot = Entry::Del;
                std::mem::swap(&mut self.table[i], &mut slot);
                proof {
                    let t1 = self.table@;
                    let m1 = m0.remove(K::query_view(key@));
                    assert(t1 == t0.update(i as int, Entry::Del));
                    lemma_counts_update(t0, i as int, Entry::<K, V>::Del);
                    assert forall|a: int|
                        0 <= a < t1.len() && (#[trigger] t1[a]) is Pair implies chain_clear(t1, a) by {
                        assert(chain_clear(t0, a));
                        let h = home::<K>(t1[a]->key@, t1.len());
                        assert forall|d: int| 0 <= d < offset(h, a, t1.len() as int) implies !(
                        #[trigger] t1[slot_at(h, d, t1.len() as int)] is Empty) by {
                            assert(t0[slot_at(h, d, t1.len() as int)] !is Empty);
                        }
                    }
                    assert forall|k: K::V| #[trigger]
                        m1.contains_key(k) implies exists|a: int|
                            0 <= a < t1.len() && (#[trigger] t1[a]) is Pair && t1[a]->key@ == k by {
                        let a = choose|a: int|
                            0 <= a < t0.len() && (#[trigger] t0[a]) is Pair && t0[a]->key@ == k;
                        assert(t1[a] is Pair);
                    }
                    assert(table_holds(t1, m1));
                    self.model = Ghost(m1);
                }
                self.items = self.items - 1;
                self.tombs = self.tombs + 1;
                match slot {
                    Entry::Pair { val, .. } => Some(val),
                    _ => {
                        proof {
                            assert(false);
                        }
                        None
                    },
                }
            },
            _ => {
                proof {
                    assert(self.model@.remove(K::query_view(key@)) =~= self.model@);
                }
                None
            },
        }
    }
    /// Inserts `key` with `value` and returns the value it replaced, if any.
    /// Grows the table first when it has no slots or its pairs reach three
    /// quarters of the capacity. A present key has its value replaced in
    /// place; a new key takes the first empty slot of its probe sequence
    /// (tombstones are passed over, never reused). Should probing find no
    /// empty slot at all, the table is rehashed in place and probed again.
    pub fn insert(&mut self, key: K, value: V) -> (r: Option<V>)
        requires
            old(self).wf(),
            growth_due(old(self).spec_capacity(), old(self)@.len()) ==> grown_capacity(
                old(self).spec_capacity(),
            ) <= MAX_CAPACITY,
        ensures
            final(self).wf(),
            final(self)@.dom().finite(),
            final(self)@ == old(self)@.insert(key@, value),
            r == if old(self)@.contains_key(key@) {
                Some(old(self)@[key@])
            } else {
                None::<V>
            },
            final(self).spec_capacity() == if growth_due(old(self).spec_capacity(), old(self)@.len()) {
                grown_capacity(old(self).spec_capacity())
            } else {
                old(self).spec_capacity()
            },
            final(self).spec_tombs() == if growth_due(old(self).spec_capacity(), old(self)@.len()) {
                0
            } else if old(self)@.contains_key(key@) || old(self)@.len() + old(self).spec_tombs()
                < old(self).spec_capacity() {
                old(self).spec_tombs()
            } else {
                0
            },
    {
        proof {
            self.lemma_wf_bounds();
        }
        if self.table.len() == 0 || self.items >= 3 * self.table.len() / 4 {
            self.resize(false);
        }
        proof {
            self.lemma_wf_bounds();
        }
        assert(self.items < self.table@.len());
        let mut probe = find(&self.table, &key, Ghost(self.model@));
        if let Probe::Exhausted = probe {
            proof {
                lemma_counts_bound(self.table@);
            }
            self.resize(true);
            probe = find(&self.table, &key, Ghost(self.model@));
        }
        match probe {
            Probe::Found(i) => {
                let ghost t0 = self.table@;
                let ghost m0 = self.model@;
                let mut slot = Entry::Del;
                std::mem::swap(&mut self.table[i], &mut slot);
                match slot {
                    Entry::Pair { key: stored, val: previous } => {
                        let e = Entry::Pair { key: stored, val: value };
                        self.table[i] = e;
                        proof {
                            assert(self.table@ == t0.update(i as int, e));
                            lemma_counts_update(t0, i as int, e);
                            lemma_replace(t0, m0, i as int, e);
                            assert(m0.insert(key@, value).len() == m0.len());
                            self.model = Ghost(m0.insert(key@, value));
                        }
                        Some(previous)
                    },
                    _ => {
                        proof {
                            assert(false);
                        }
                        None
                    },
                }
            },
            Probe::Vacant(i) => {
                let ghost t0 = self.table@;
                let ghost m0 = self.model@;
                proof {
                    lemma_counts_bound(t0);
                }
                let e = Entry::Pair { key, val: value };
                self.table[i] = e;
                proof {
                    assert(self.table@ == t0.update(i as int, e));
                    lemma_counts_update(t0, i as int, e);
                    lemma_place(t0, m0, i as int, e);
                    self.model = Ghost(m0.insert(key@, value));
                }
                self.items = self.items + 1;
                None
            },
            Probe::Exhausted => {
                proof {
                    lemma_counts_bound(self.table@);
                    assert(false);
                }
                None
            },
        }
    }

    /// Looks `key` up without rehashing.
    fn lookup<Q: HashKey + ?Sized>(&self, key: &Q) -> (r: Option<&V>) where K: KeyEq<Q>
        requires
            self.wf(),
            self.table@.len() > 0,
        ensures
            match r {
                Some(v) => self@.contains_key(K::query_view(key@)) && *v == self@[K::query_view(key@)],
                None => !self@.contains_key(K::query_view(key@)),
            },
    {
        match find(&self.table, key, Ghost(self.model@)) {
            Probe::Found(i) => match &self.table[i] {
                Entry::Pair { val, .. } => Some(val),
                _ => None,
            },
            _ => None,
        }
    }

    /// The value of `key`, if present. Rehashes in place first when pairs
    /// and tombstones together exceed three quarters of the capacity, so that
    /// tombstones cannot make probe sequences grow without bound.
    pub fn get<Q: HashKey + ?Sized>(&mut self, key: &Q) -> (r: Option<&V>) where K: KeyEq<Q>
        requires
            old(self).wf(),
        ensures
            final(self).wf(),
            final(self)@.dom().finite(),
            final(self)@ == old(self)@,
            match r {
                Some(v) => old(self)@.contains_key(K::query_view(key@)) && *v == old(self)@[K::query_view(key@)],
                None => !old(self)@.contains_key(K::query_view(key@)),
            },
            !declutter_due(
                old(self).spec_capacity(),
                old(self)@.len(),
                old(self).spec_tombs(),
            ) ==> *final(self) == *old(self),
            final(self).spec_capacity() == old(self).spec_capacity(),
            final(self).spec_tombs() == if declutter_due(
                old(self).spec_capacity(),
                old(self)@.len(),
                old(self).spec_tombs(),
            ) {
                0
            } else {
                old(self).spec_tombs()
            },
    {
        proof {
            self.lemma_wf_bounds();
        }
        if self.table.len() == 0 {
            return None;
        }
        if self.items + self.tombs > 3 * self.table.len() / 4 {
            self.resize(true);
        }
        self.lookup(key)
    }

    /// Whether `key` is present; rehashes exactly as `get` does.
    pub fn contains_key<Q: HashKey + ?Sized>(&mut self, key: &Q) -> (r: bool) where K: KeyEq<Q>
        requires
            old(self).wf(),
        ensures
            final(self).wf(),
            final(self)@.dom().finite(),
            final(self)@ == old(self)@,
            r == old(self)@.contains_key(K::query_view(key@)),
            !declutter_due(
                old(self).spec_capacity(),
                old(self)@.len(),
                old(self).spec_tombs(),
            ) ==> *final(self) == *old(self),
            final(self).spec_capacity() == old(self).spec_capacity(),
            final(self).spec_tombs() == if declutter_due(
                old(self).spec_capacity(),
                old(self)@.len(),
                old(self).spec_tombs(),
            ) {
                0
            } else {
                old(self).spec_tombs()
            },
    {
        self.get(key).is_some()
    }
}

impl<K: HashKey, V> Default for HashMap<K, V> {
    fn default() -> (r: Self)
        ensures
            r.wf(),
            r@.dom().finite(),
            r@ == Map::<K::V, V>::empty(),
            r.spec_capacity() == 0,
    {
        Self::new()
    }
}

} // verus!
