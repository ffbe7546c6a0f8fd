use crate::table::{growth_due, grown_capacity, threshold};
use vstd::arithmetic::power2::{lemma2_to64, lemma_pow2_unfold, pow2};
use vstd::prelude::*;

verus! {

/// The capacity of a table that started empty and has grown `n` times.
pub open spec fn capacity_after_growths(n: nat) -> nat
    decreases n,
{
    if n == 0 {
        0
    } else {
        grown_capacity(capacity_after_growths((n - 1) as nat))
    }
}

/// Growth from an empty table gives one slot, and each later growth doubles
/// the capacity: 1, 2, 4, 8, ...
pub proof fn lemma_capacity_sequence(n: nat)
    ensures
        capacity_after_growths(n + 1) == pow2(n),
    decreases n,
{
    if n == 0 {
        lemma2_to64();
        assert(capacity_after_growths(0) == 0);
    } else {
        lemma_capacity_sequence((n - 1) as nat);
        lemma_pow2_unfold(n);
        vstd::arithmetic::power2::lemma_pow2_pos((n - 1) as nat);
    }
}

/// An insert grows the table exactly when the table has no slots, or when
/// one more pair would take the pair count past three quarters of the
/// capacity.
pub proof fn lemma_growth_condition(cap: nat, items: nat)
    ensures
        growth_due(cap, items) <==> (cap == 0 || 4 * (items + 1) > 3 * cap),
{
    assert(threshold(cap) == 3 * cap / 4);
}

/// After a key is inserted with a value, looking the key up gives that
/// value, and inserting or removing any other key leaves it so.
pub proof fn lemma_get_after_insert<K, V>(m: Map<K, V>, k: K, v: V, other: K, w: V)
    ensures
        m.insert(k, v).contains_key(k),
        m.insert(k, v)[k] == v,
        other != k ==> m.insert(k, v).insert(other, w).contains_key(k) && m.insert(k, v).insert(
            other,
            w,
        )[k] == v,
        other != k ==> m.insert(k, v).remove(other).contains_key(k) && m.insert(k, v).remove(
            other,
        )[k] == v,
{
}

/// After a key is removed it is absent, and removing it again changes
/// nothing and finds nothing.
pub proof fn lemma_absent_after_remove<K, V>(m: Map<K, V>, k: K)
    ensures
        !m.remove(k).contains_key(k),
        m.remove(k).remove(k) == m.remove(k),
{
    assert(m.remove(k).remove(k) =~= m.remove(k));
}

/// Inserting a key that is already present keeps the number of pairs.
pub proof fn lemma_update_keeps_len<K, V>(m: Map<K, V>, k: K, v: V)
    requires
        m.contains_key(k),
    ensures
        m.insert(k, v).len() == m.len(),
{
    assert(m.insert(k, v).dom() =~= m.dom());
}

/// A change that `insert` or `remove` makes to the map; lookups make none.
pub enum Change<K, V> {
    Put(K, V),
    Drop(K),
}

/// Whether a change is made at key `k`.
pub open spec fn changes_key<K, V>(c: Change<K, V>, k: K) -> bool {
    match c {
        Change::Put(j, _) => j == k,
        Change::Drop(j) => j == k,
    }
}

/// The map after a sequence of changes, applied in order.
pub open spec fn apply_changes<K, V>(m: Map<K, V>, cs: Seq<Change<K, V>>) -> Map<K, V>
    decreases cs.len(),
{
    if cs.len() == 0 {
        m
    } else {
        let before = apply_changes(m, cs.drop_last());
        match cs.last() {
            Change::Put(k, v) => before.insert(k, v),
            Change::Drop(k) => before.remove(k),
        }
    }
}

/// After `k` is inserted with `v`, any sequence of inserts and removals of
/// other keys leaves `k` mapped to `v`; after `k` is removed, such a
/// sequence leaves `k` absent.
pub proof fn lemma_round_trip<K, V>(m: Map<K, V>, k: K, v: V, cs: Seq<Change<K, V>>)
    requires
        forall|i: int| 0 <= i < cs.len() ==> !changes_key(#[trigger] cs[i], k),
    ensures
        apply_changes(m.insert(k, v), cs).contains_key(k),
        apply_changes(m.insert(k, v), cs)[k] == v,
        !apply_changes(m.remove(k), cs).contains_key(k),
    decreases cs.len(),
{
    if cs.len() > 0 {
        let rest = cs.drop_last();
        assert forall|i: int| 0 <= i < rest.len() implies !changes_key(#[trigger] rest[i], k) by {
            assert(rest[i] == cs[i]);
        }
        lemma_round_trip(m, k, v, rest);
        assert(!changes_key(cs[cs.len() - 1], k));
    }
}

} // verus!
