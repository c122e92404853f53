use vstd::multiset::Multiset;
use vstd::prelude::*;

verus! {

broadcast use vstd::multiset::group_multiset_axioms;

/// The multiset that a sequence of operations leaves behind, starting from
/// `m`. Each operation is `(true, v)` for `put(v)` or `(false, v)` for
/// `remove(v)`; as in `MultiHashSet::put` and `MultiHashSet::remove`, a put adds
/// one occurrence, a removal takes one away where there is one and changes
/// nothing otherwise.
pub open spec fn replay<K>(m: Multiset<K>, ops: Seq<(bool, K)>) -> Multiset<K>
    decreases ops.len(),
{
    if ops.len() == 0 {
        m
    } else {
        let before = replay(m, ops.drop_last());
        let (is_put, k) = ops.last();
        if is_put {
            before.insert(k)
        } else if before.count(k) > 0 {
            before.remove(k)
        } else {
            before
        }
    }
}

/// How many operations put `v`.
pub open spec fn puts_of<K>(ops: Seq<(bool, K)>, v: K) -> nat
    decreases ops.len(),
{
    if ops.len() == 0 {
        0
    } else {
        puts_of(ops.drop_last(), v) + (if ops.last() == (true, v) { 1nat } else { 0nat })
    }
}

/// How many operations removed `v` successfully, starting from `m`.
pub open spec fn removals_of<K>(m: Multiset<K>, ops: Seq<(bool, K)>, v: K) -> nat
    decreases ops.len(),
{
    if ops.len() == 0 {
        0
    } else {
        removals_of(m, ops.drop_last(), v) + (if ops.last() == (false, v) && replay(
            m,
            ops.drop_last(),
        ).count(v) > 0 {
            1nat
        } else {
            0nat
        })
    }
}

/// After any sequence of puts and removals on an empty set, the count of a
/// value is the number of times it was put minus the number of times it was
/// removed successfully; it never drops below zero.
pub proof fn lemma_count_follows_operations<K>(ops: Seq<(bool, K)>, v: K)
    ensures
        removals_of(Multiset::empty(), ops, v) <= puts_of(ops, v),
        replay(Multiset::empty(), ops).count(v) == puts_of(ops, v) - removals_of(
            Multiset::empty(),
            ops,
            v,
        ),
    decreases ops.len(),
{
    if ops.len() > 0 {
        lemma_count_follows_operations(ops.drop_last(), v);
    }
}

/// Removing a value that is stored once leaves it absent, so that a second
/// removal of it fails.
pub proof fn lemma_remove_last_occurrence<K>(m: Multiset<K>, v: K)
    requires
        m.count(v) == 1,
    ensures
        m.remove(v).count(v) == 0,
        !m.remove(v).contains(v),
{
}

/// A traversal of an empty set, which lists each stored value once and
/// nothing else, lists nothing.
pub proof fn lemma_empty_set_lists_nothing<K>(values: Seq<K>)
    requires
        values.no_duplicates(),
        forall|x: K| #[trigger] values.contains(x) <==> Multiset::<K>::empty().count(x) > 0,
    ensures
        values.len() == 0,
{
    if values.len() > 0 {
        assert(values.contains(values[0]));
    }
}

} // verus!
