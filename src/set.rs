use crate::chain::{
    bump, chain_wf, count_in, keys_of, lemma_bump, lemma_concat_wf, lemma_count_absent,
    lemma_count_concat, lemma_count_key, lemma_push, lemma_remove_one, positive_counts, remove_one,
};
use crate::element::{pair_views, MultiHashElement};
use crate::error::HashSetError;
use crate::iterator::MultiHashSetIterator;
use crate::primes::{is_next_prime, is_prime_spec, next_prime};
use crate::value::{views, SetValue};
use vstd::multiset::Multiset;
use vstd::prelude::*;

verus! {

broadcast use {
    vstd::multiset::group_multiset_axioms,
    vstd::multiset::lemma_update_same,
    vstd::multiset::lemma_update_different,
    vstd::multiset::lemma_insert_increases_count_by_1,
    vstd::multiset::lemma_insert_other_elements_unchanged,
};

const STD_SIZE: usize = 11;

const EXPANSION_NUMERATOR: usize = 3;

const EXPANSION_DENOMINATOR: usize = 4;

/// A multiset of values kept in a hash table of chains: each stored value has
/// one node in the chain of its bucket, with the number of times it is stored.
/// The table grows to the next prime size when the share of occupied buckets
/// passes the load factor `load_numerator / load_denominator`. `used` counts
/// the buckets that hold a chain, not the values: it rises when a value lands
/// in an empty bucket and falls when a removal empties one.
pub struct MultiHashSet<V: SetValue> {
    size: usize,
    load_numerator: usize,
    load_denominator: usize,
    used: usize,
    content: Vec<Option<MultiHashElement<V>>>,
    contents: Ghost<Multiset<V::V>>,
}

/// The entries of the chain held in a bucket.
pub open spec fn slot_entries<V: SetValue>(slot: Option<MultiHashElement<V>>) -> Seq<(V::V, nat)> {
    match slot {
        Some(e) => e.entries(),
        None => Seq::empty(),
    }
}

/// How many buckets hold a chain.
pub open spec fn occupied<V: SetValue>(s: Seq<Option<MultiHashElement<V>>>) -> nat
    decreases s.len(),
{
    if s.len() == 0 {
        0
    } else {
        occupied(s.drop_last()) + (if s.last() is Some { 1nat } else { 0nat })
    }
}

proof fn lemma_occupied_update<V: SetValue>(
    s: Seq<Option<MultiHashElement<V>>>,
    i: int,
    x: Option<MultiHashElement<V>>,
)
    requires
        0 <= i < s.len(),
    ensures
        occupied(s) <= s.len(),
        occupied(s.update(i, x)) + (if s[i] is Some { 1nat } else { 0nat }) == occupied(s) + (
        if x is Some { 1nat } else { 0nat }),
    decreases s.len(),
{
    let u = s.update(i, x);
    if i == s.len() - 1 {
        assert(u.drop_last() =~= s.drop_last());
        if s.len() > 1 {
            lemma_occupied_update(s.drop_last(), 0, s[0]);
        }
    } else {
        assert(u.drop_last() =~= s.drop_last().update(i, x));
        lemma_occupied_update(s.drop_last(), i, x);
    }
}

/// The entries of all chains, bucket by bucket.
pub open spec fn all_entries<V: SetValue>(s: Seq<Option<MultiHashElement<V>>>) -> Seq<(V::V, nat)>
    decreases s.len(),
{
    if s.len() == 0 {
        Seq::empty()
    } else {
        all_entries(s.drop_last()) + slot_entries(s.last())
    }
}

impl<V: SetValue> View for MultiHashSet<V> {
    type V = Multiset<V::V>;

    closed spec fn view(&self) -> Multiset<V::V> {
        self.contents@
    }
}

impl<V: SetValue> MultiHashSet<V> {
    /// The number of buckets.
    pub closed spec fn bucket_count(self) -> nat {
        self.size as nat
    }

    /// The load factor, as numerator and denominator.
    pub closed spec fn load_factor(self) -> (nat, nat) {
        (self.load_numerator as nat, self.load_denominator as nat)
    }

    /// The number of buckets that hold a chain.
    pub closed spec fn occupied_slots(self) -> nat {
        self.used as nat
    }

    /// The occupied buckets exceed the load factor's share of all buckets.
    pub closed spec fn needs_growth(self) -> bool {
        self.used * self.load_denominator > self.size * self.load_numerator
    }

    /// The bucket that a value belongs to.
    pub closed spec fn bucket_of(self, k: V::V) -> int {
        (V::spec_hash(k) as usize) as int % self.size as int
    }

    pub closed spec fn wf(self) -> bool {
        &&& self.size > 0
        &&& self.load_denominator > 0
        &&& self.content@.len() == self.size
        &&& self.used == occupied(self.content@)
        &&& forall|i: int| 0 <= i < self.size ==> chain_wf(#[trigger] slot_entries(self.content@[i]))
        &&& forall|i: int, j: int|
            0 <= i < self.size && 0 <= j < slot_entries(self.content@[i]).len() ==> self.bucket_of(
                #[trigger] slot_entries(self.content@[i])[j].0,
            ) == i
        &&& forall|k: V::V| #[trigger]
            self.contents@.count(k) == count_in(slot_entries(self.content@[self.bucket_of(k)]), k)
    }

    fn empty_buckets(n: usize) -> (r: Vec<Option<MultiHashElement<V>>>)
        ensures
            r@.len() == n,
            forall|i: int| 0 <= i < n ==> #[trigger] r@[i] is None,
            occupied(r@) == 0,
    {
        let mut r: Vec<Option<MultiHashElement<V>>> = Vec::new();
        let mut i: usize = 0;
        while i < n
            invariant
                i <= n,
                r@.len() == i,
                forall|j: int| 0 <= j < i ==> #[trigger] r@[j] is None,
                occupied(r@) == 0,
            decreases n - i,
        {
            let ghost before = r@;
            r.push(None);
            proof {
                assert(r@.drop_last() =~= before);
            }
            i = i + 1;
        }
        r
    }

    fn empty(size: usize, load_numerator: usize, load_denominator: usize) -> (r: Self)
        requires
            size > 0,
            load_denominator > 0,
        ensures
            r.wf(),
            r@ =~= Multiset::<V::V>::empty(),
            r.bucket_count() == size,
            r.load_factor() == (load_numerator as nat, load_denominator as nat),
            r.occupied_slots() == 0,
    {
        let content = Self::empty_buckets(size);
        let r = MultiHashSet {
            size,
            load_numerator,
            load_denominator,
            used: 0,
            content,
            contents: Ghost(Multiset::empty()),
        };
        proof {
            assert forall|k: V::V| #[trigger] r.contents@.count(k) == count_in(
                slot_entries(r.content@[r.bucket_of(k)]),
                k,
            ) by {
                assert(r.content@[r.bucket_of(k)] is None);
            }
        }
        r
    }

    /// An empty set with 11 buckets and a load factor of 3/4.
    pub fn new() -> (r: Self)
        ensures
            r.wf(),
            r@ =~= Multiset::<V::V>::empty(),
            r.bucket_count() == 11,
            r.load_factor() == (3nat, 4nat),
            r.occupied_slots() == 0,
    {
        Self::empty(STD_SIZE, EXPANSION_NUMERATOR, EXPANSION_DENOMINATOR)
    }

    /// The same configuration with `size` buckets, and nothing stored.
    pub fn size(self, size: usize) -> (r: Self)
        requires
            self.wf(),
            size > 0,
        ensures
            r.wf(),
            r@ =~= Multiset::<V::V>::empty(),
            r.bucket_count() == size,
            r.load_factor() == self.load_factor(),
            r.occupied_slots() == 0,
    {
        Self::empty(size, self.load_numerator, self.load_denominator)
    }

    /// The same set with load factor `numerator / denominator`.
    pub fn expansion_factor(self, numerator: usize, denominator: usize) -> (r: Self)
        requires
            self.wf(),
            denominator > 0,
        ensures
            r.wf(),
            r@ == self@,
            r.bucket_count() == self.bucket_count(),
            r.load_factor() == (numerator as nat, denominator as nat),
            r.occupied_slots() == self.occupied_slots(),
    {
        let mut r = self;
        r.load_numerator = numerator;
        r.load_denominator = denominator;
        proof {
            assert forall|k: V::V| #[trigger] r.contents@.count(k) == count_in(
                slot_entries(r.content@[r.bucket_of(k)]),
                k,
            ) by {
                assert(self.contents@.count(k) == count_in(
                    slot_entries(self.content@[self.bucket_of(k)]),
                    k,
                ));
            }
        }
        r
    }

    /// The number of buckets.
    pub fn get_size(&self) -> (r: usize)
        ensures
            r == self.bucket_count(),
    {
        self.size
    }

    fn position(&self, value: &V) -> (r: usize)
        requires
            self.wf(),
        ensures
            r as int == self.bucket_of(value@),
            r < self.size,
    {
        let hashed = value.hash_value();
        (hashed as usize) % self.size
    }

    /// How many times `lookup` is stored.
    pub fn count(&self, lookup: V) -> (r: usize)
        requires
            self.wf(),
        ensures
            r == self@.count(lookup@),
    {
        let pos = self.position(&lookup);
        assert(chain_wf(slot_entries(self.content@[pos as int])));
        assert(self@.count(lookup@) == count_in(slot_entries(self.content@[pos as int]), lookup@));
        match &self.content[pos] {
            Some(element) => match element.get(&lookup) {
                Some(found) => found.count,
                None => 0,
            },
            None => 0,
        }
    }

    /// Whether `lookup` is stored at least once.
    pub fn contains(&self, lookup: V) -> (r: bool)
        requires
            self.wf(),
        ensures
            r == (self@.count(lookup@) > 0),
    {
        let pos = self.position(&lookup);
        assert(chain_wf(slot_entries(self.content@[pos as int])));
        assert(self@.count(lookup@) == count_in(slot_entries(self.content@[pos as int]), lookup@));
        match &self.content[pos] {
            Some(element) => element.get(&lookup).is_some(),
            None => false,
        }
    }

    /// `new` is `old` with the chain of bucket `pos` replaced by one that
    /// holds the new counts of that bucket's values.
    proof fn lemma_replace_slot(old: Self, new: Self, pos: int)
        requires
            old.wf(),
            0 <= pos < old.size,
            new.size == old.size,
            new.load_denominator == old.load_denominator,
            new.content@ == old.content@.update(pos, new.content@[pos]),
            new.used == occupied(new.content@),
            chain_wf(slot_entries(new.content@[pos])),
            forall|j: int|
                0 <= j < slot_entries(new.content@[pos]).len() ==> old.bucket_of(
                    #[trigger] slot_entries(new.content@[pos])[j].0,
                ) == pos,
            forall|k: V::V|
                old.bucket_of(k) == pos ==> #[trigger] new.contents@.count(k) == count_in(
                    slot_entries(new.content@[pos]),
                    k,
                ),
            forall|k: V::V|
                old.bucket_of(k) != pos ==> #[trigger] new.contents@.count(k) == old.contents@.count(
                    k,
                ),
        ensures
            new.wf(),
    {
        assert forall|i: int| 0 <= i < new.size implies chain_wf(
            #[trigger] slot_entries(new.content@[i]),
        ) by {
            if i != pos {
                assert(new.content@[i] == old.content@[i]);
            }
        }
        assert forall|i: int, j: int|
            0 <= i < new.size && 0 <= j < slot_entries(new.content@[i]).len() implies new.bucket_of(
            #[trigger] slot_entries(new.content@[i])[j].0,
        ) == i by {
            if i != pos {
                assert(new.content@[i] == old.content@[i]);
            }
        }
        assert forall|k: V::V| #[trigger]
            new.contents@.count(k) == count_in(slot_entries(new.content@[new.bucket_of(k)]), k) by {
            if old.bucket_of(k) != pos {
                assert(new.content@[new.bucket_of(k)] == old.content@[old.bucket_of(k)]);
                assert(old.contents@.count(k) == count_in(
                    slot_entries(old.content@[old.bucket_of(k)]),
                    k,
                ));
            }
        }
    }

    /// Stores the single node `node` in bucket `position`: one more occurrence
    /// where its value is already stored, else `node.count` occurrences.
    fn put_or_append(&mut self, position: usize, node: MultiHashElement<V>)
        requires
            old(self).wf(),
            position as int == old(self).bucket_of(node.value@),
            node.next is None,
            node.count >= 1,
            old(self)@.count(node.value@) < usize::MAX,
        ensures
            final(self).wf(),
            final(self)@ == old(self)@.update(
                node.value@,
                if old(self)@.count(node.value@) > 0 {
                    old(self)@.count(node.value@) + 1
                } else {
                    node.count as nat
                },
            ),
            final(self).bucket_count() == old(self).bucket_count(),
            final(self).load_factor() == old(self).load_factor(),
    {
        let ghost k = node.value@;
        let ghost c = node.count as nat;
        let ghost pos = position as int;
        let ghost old_self = *self;
        let ghost old_slot = slot_entries(self.content@[pos]);
        let ghost old_count = self.contents@.count(k);
        proof {
            node.lemma_unfold();
            assert(old_count == count_in(old_slot, k));
            assert(chain_wf(old_slot));
        }
        let slot = self.content[position].take();
        match slot {
            None => {
                self.content.set(position, Some(node));
                proof {
                    assert(self.content@ =~= old_self.content@.update(pos, self.content@[pos]));
                    lemma_occupied_update(old_self.content@, pos, self.content@[pos]);
                    lemma_occupied_update(self.content@, pos, self.content@[pos]);
                    assert(self.content@.update(pos, self.content@[pos]) =~= self.content@);
                }
                self.used = self.used + 1;
                proof {
                    assert(slot_entries(self.content@[pos]) =~= old_slot.push((k, c)));
                }
            },
            Some(mut e) => {
                e.append(node);
                self.content.set(position, Some(e));
                proof {
                    lemma_occupied_update(old_self.content@, pos, self.content@[pos]);
                }
            },
        }
        let ghost new_count = if old_count > 0 { old_count + 1 } else { c };
        self.contents = Ghost(self.contents@.update(k, new_count));
        proof {
            let new_slot = slot_entries(self.content@[pos]);
            assert(self.content@ =~= old_self.content@.update(pos, self.content@[pos]));
            if old_count > 0 {
                assert(new_slot == bump(old_slot, k));
                lemma_bump(old_slot, k, k);
                assert forall|j: int| 0 <= j < new_slot.len() implies old_self.bucket_of(
                    #[trigger] new_slot[j].0,
                ) == pos by {
                    assert(keys_of(new_slot)[j] == keys_of(old_slot)[j]);
                }
                assert forall|k2: V::V| old_self.bucket_of(k2) == pos implies #[trigger]
                    self.contents@.count(k2) == count_in(new_slot, k2) by {
                    lemma_bump(old_slot, k, k2);
                }
            } else {
                assert(new_slot == old_slot.push((k, c)));
                lemma_push(old_slot, k, c, k);
                assert forall|j: int| 0 <= j < new_slot.len() implies old_self.bucket_of(
                    #[trigger] new_slot[j].0,
                ) == pos by {
                    if j < old_slot.len() {
                        assert(new_slot[j] == old_slot[j]);
                    }
                }
                assert forall|k2: V::V| old_self.bucket_of(k2) == pos implies #[trigger]
                    self.contents@.count(k2) == count_in(new_slot, k2) by {
                    lemma_push(old_slot, k, c, k2);
                    assert(old_self.contents@.count(k2) == count_in(old_slot, k2));
                }
            }
            assert forall|k2: V::V| old_self.bucket_of(k2) != pos implies #[trigger]
                self.contents@.count(k2) == old_self.contents@.count(k2) by {}
            Self::lemma_replace_slot(old_self, *self, pos);
        }
    }

    /// Takes one occurrence of `value` out of the set; fails, changing
    /// nothing, when `value` is not stored.
    pub fn remove(&mut self, value: V) -> (r: Result<(), HashSetError>)
        requires
            old(self).wf(),
        ensures
            final(self).wf(),
            r is Ok <==> old(self)@.count(value@) > 0,
            r is Ok ==> final(self)@ == old(self)@.remove(value@),
            r is Err ==> final(self)@ == old(self)@ && r == Err::<(), HashSetError>(
                HashSetError::RemoveError,
            ),
            final(self).bucket_count() == old(self).bucket_count(),
            final(self).load_factor() == old(self).load_factor(),
    {
        let pos = self.position(&value);
        let ghost k = value@;
        let ghost p = pos as int;
        let ghost old_self = *self;
        let ghost old_slot = slot_entries(self.content@[p]);
        let ghost old_count = self.contents@.count(k);
        proof {
            assert(old_count == count_in(old_slot, k));
            assert(chain_wf(old_slot));
        }
        let slot = self.content[pos].take();
        let r = match slot {
            None => {
                proof {
                    assert(self.content@ =~= old_self.content@);
                }
                Err(HashSetError::RemoveError)
            },
            Some(mut e) => {
                proof {
                    e.lemma_unfold();
                }
                if e.value.eq_value(&value) {
                    if e.count > 1 {
                        e.count = e.count - 1;
                        proof {
                            e.lemma_unfold();
                            assert(remove_one(old_slot, k) =~= e.entries());
                        }
                        self.content.set(pos, Some(e));
                    } else {
                        match e.next {
                            Some(b) => {
                                self.content.set(pos, Some(*b));
                            },
                            None => {
                                proof {
                                    lemma_occupied_update(old_self.content@, p, None);
                                }
                                self.used = self.used - 1;
                            },
                        }
                    }
                    Ok(())
                } else {
                    let ghost tail = e.tail_entries();
                    proof {
                        assert(count_in(old_slot, k) == count_in(tail, k));
                    }
                    let r = e.remove(value);
                    proof {
                        e.lemma_unfold();
                        assert(remove_one(old_slot, k) =~= e.entries());
                    }
                    self.content.set(pos, Some(e));
                    r
                }
            },
        };
        if r.is_ok() {
            self.contents = Ghost(self.contents@.remove(k));
        }
        proof {
            let new_slot = slot_entries(self.content@[p]);
            assert(self.content@ =~= old_self.content@.update(p, self.content@[p]));
            lemma_occupied_update(old_self.content@, p, self.content@[p]);
            lemma_remove_one(old_slot, k, k);
            assert(new_slot == remove_one(old_slot, k));
            assert forall|j: int| 0 <= j < new_slot.len() implies old_self.bucket_of(
                #[trigger] new_slot[j].0,
            ) == p by {
                assert(keys_of(new_slot)[j] == new_slot[j].0);
                assert(keys_of(new_slot).contains(new_slot[j].0));
                let m = choose|m: int|
                    0 <= m < keys_of(old_slot).len() && keys_of(old_slot)[m] == new_slot[j].0;
                assert(old_slot[m].0 == new_slot[j].0);
            }
            assert forall|k2: V::V| old_self.bucket_of(k2) == p implies #[trigger]
                self.contents@.count(k2) == count_in(new_slot, k2) by {
                lemma_remove_one(old_slot, k, k2);
            }
            assert forall|k2: V::V| old_self.bucket_of(k2) != p implies #[trigger]
                self.contents@.count(k2) == old_self.contents@.count(k2) by {}
            Self::lemma_replace_slot(old_self, *self, p);
        }
        r
    }

    /// The entries of the first `j` buckets have distinct values, all from
    /// those buckets, with the counts of the set.
    proof fn lemma_all_entries(self, j: int)
        requires
            self.wf(),
            0 <= j <= self.size,
        ensures
            chain_wf(all_entries(self.content@.subrange(0, j))),
            forall|m: int|
                0 <= m < all_entries(self.content@.subrange(0, j)).len() ==> self.bucket_of(
                    #[trigger] all_entries(self.content@.subrange(0, j))[m].0,
                ) < j,
            forall|k: V::V| #[trigger]
                count_in(all_entries(self.content@.subrange(0, j)), k) == if self.bucket_of(k) < j {
                    self@.count(k)
                } else {
                    0
                },
        decreases j,
    {
        let p = self.content@.subrange(0, j);
        if j == 0 {
            assert forall|k: V::V| #[trigger] count_in(all_entries(p), k) == 0 by {}
        } else {
            self.lemma_all_entries(j - 1);
            assert(p.drop_last() =~= self.content@.subrange(0, j - 1));
            let a = all_entries(self.content@.subrange(0, j - 1));
            let b = slot_entries(self.content@[j - 1]);
            assert(all_entries(p) == a + b);
            assert(chain_wf(b));
            assert forall|i: int, m: int| 0 <= i < a.len() && 0 <= m < b.len() implies #[trigger] a[i].0
                != #[trigger] b[m].0 by {
                assert(self.bucket_of(b[m].0) == j - 1);
            }
            lemma_concat_wf(a, b);
            assert forall|m: int| 0 <= m < (a + b).len() implies self.bucket_of(
                #[trigger] (a + b)[m].0,
            ) < j by {
                if m >= a.len() {
                    assert((a + b)[m] == b[m - a.len()]);
                    assert(self.bucket_of(b[m - a.len()].0) == j - 1);
                }
            }
            assert forall|k: V::V| #[trigger]
                count_in(a + b, k) == if self.bucket_of(k) < j {
                    self@.count(k)
                } else {
                    0
                } by {
                lemma_count_concat(a, b, k);
                assert(count_in(a, k) == if self.bucket_of(k) < j - 1 {
                    self@.count(k)
                } else {
                    0
                });
                if self.bucket_of(k) != j - 1 {
                    assert forall|m: int| 0 <= m < b.len() implies #[trigger] b[m].0 != k by {
                        assert(self.bucket_of(b[m].0) == j - 1);
                    }
                    lemma_count_absent(b, k);
                } else {
                    assert(self.contents@.count(k) == count_in(
                        slot_entries(self.content@[self.bucket_of(k)]),
                        k,
                    ));
                }
            }
        }
    }

    /// The values of all chains, bucket by bucket, each once.
    fn traverse(&self) -> (r: Vec<V>)
        requires
            self.wf(),
        ensures
            views(r@) == keys_of(all_entries(self.content@)),
    {
        let mut content: Vec<V> = Vec::new();
        let mut i: usize = 0;
        while i < self.content.len()
            invariant
                self.wf(),
                i <= self.size,
                views(content@) == keys_of(all_entries(self.content@.subrange(0, i as int))),
            decreases self.size - i,
        {
            let ghost before = views(content@);
            match &self.content[i] {
                Some(element) => {
                    element.cummulate(&mut content);
                },
                None => {},
            }
            proof {
                let p = self.content@.subrange(0, i + 1);
                assert(p.drop_last() =~= self.content@.subrange(0, i as int));
                let a = all_entries(self.content@.subrange(0, i as int));
                let b = slot_entries(self.content@[i as int]);
                assert(keys_of(a + b) =~= keys_of(a) + keys_of(b));
                assert(views(content@) =~= before + keys_of(b));
            }
            i = i + 1;
        }
        proof {
            assert(self.content@.subrange(0, self.size as int) =~= self.content@);
        }
        content
    }

    /// The values of all chains with their counts, bucket by bucket.
    fn traverse_counted(&self) -> (r: Vec<(V, usize)>)
        requires
            self.wf(),
        ensures
            pair_views(r@) == all_entries(self.content@),
    {
        let mut content: Vec<(V, usize)> = Vec::new();
        let mut i: usize = 0;
        while i < self.content.len()
            invariant
                self.wf(),
                i <= self.size,
                pair_views(content@) == all_entries(self.content@.subrange(0, i as int)),
            decreases self.size - i,
        {
            match &self.content[i] {
                Some(element) => {
                    element.cummulate_counted(&mut content);
                },
                None => {},
            }
            proof {
                let p = self.content@.subrange(0, i + 1);
                assert(p.drop_last() =~= self.content@.subrange(0, i as int));
            }
            i = i + 1;
        }
        proof {
            assert(self.content@.subrange(0, self.size as int) =~= self.content@);
        }
        content
    }

    /// A snapshot of the stored values: each distinct value once, in bucket
    /// order.
    pub fn iter(&self) -> (r: MultiHashSetIterator<V>)
        requires
            self.wf(),
        ensures
            r.remaining().no_duplicates(),
            forall|x: V::V| #[trigger] r.remaining().contains(x) <==> self@.count(x) > 0,
    {
        let values = self.traverse();
        proof {
            self.lemma_all_entries(self.size as int);
            assert(self.content@.subrange(0, self.size as int) =~= self.content@);
            let e = all_entries(self.content@);
            let ks = keys_of(e);
            assert forall|i: int, j: int| 0 <= i < ks.len() && 0 <= j < ks.len() && i != j implies ks[i]
                != ks[j] by {
                if i < j {
                    assert(e[i].0 != e[j].0);
                } else {
                    assert(e[j].0 != e[i].0);
                }
            }
            assert forall|x: V::V| #[trigger] ks.contains(x) <==> self@.count(x) > 0 by {
                lemma_count_key(e, x);
                assert(count_in(e, x) == self@.count(x));
                if ks.contains(x) {
                    let i = choose|i: int| 0 <= i < ks.len() && ks[i] == x;
                    assert(e[i].0 == x);
                }
                if self@.count(x) > 0 {
                    let i = choose|i: int| 0 <= i < e.len() && #[trigger] e[i].0 == x;
                    assert(ks[i] == x);
                }
            }
        }
        MultiHashSetIterator::new(values)
    }

    /// Rebuilds the table with `new_size` buckets, keeping every value with
    /// its count.
    fn reallocate_positions(&mut self, new_size: usize)
        requires
            old(self).wf(),
            new_size > 0,
        ensures
            final(self).wf(),
            final(self)@ == old(self)@,
            final(self).bucket_count() == new_size,
            final(self).load_factor() == old(self).load_factor(),
    {
        let mut pairs = self.traverse_counted();
        let ghost e = all_entries(self.content@);
        let ghost old_view = self@;
        proof {
            self.lemma_all_entries(self.size as int);
            assert(self.content@.subrange(0, self.size as int) =~= self.content@);
        }
        let mut fresh = Self::empty(new_size, self.load_numerator, self.load_denominator);
        while pairs.len() > 0
            invariant
                fresh.wf(),
                fresh.bucket_count() == new_size,
                fresh.load_factor() == old(self).load_factor(),
                chain_wf(e),
                pairs@.len() <= e.len(),
                pair_views(pairs@) == e.subrange(0, pairs@.len() as int),
                forall|k: V::V| #[trigger] count_in(e, k) == old_view.count(k),
                forall|k: V::V| #[trigger]
                    fresh@.count(k) == count_in(e.subrange(pairs@.len() as int, e.len() as int), k),
            decreases pairs@.len(),
        {
            let ghost n = pairs@.len() as int;
            let ghost old_pairs = pairs@;
            let (value, count) = pairs.pop().unwrap();
            let ghost k = value@;
            proof {
                assert(old_pairs[n - 1] == (value, count));
                assert(pair_views(old_pairs)[n - 1] == e.subrange(0, n)[n - 1]);
                assert(e[n - 1] == (k, count as nat));
                assert(pair_views(pairs@) =~= e.subrange(0, n - 1));
                let rest = e.subrange(n, e.len() as int);
                assert forall|m: int| 0 <= m < rest.len() implies #[trigger] rest[m].0 != k by {
                    assert(rest[m] == e[n + m]);
                    assert(e[n - 1].0 != e[n + m].0);
                }
                assert(0 < n <= e.len());
                assert(positive_counts(e));
                assert(e[n - 1].1 >= 1);
                lemma_count_absent(rest, k);
                let whole = e.subrange(n - 1, e.len() as int);
                assert(whole =~= seq![(k, count as nat)] + rest);
                assert forall|k2: V::V| #[trigger] count_in(whole, k2) == count_in(rest, k2) + (
                if k2 == k {
                    count as nat
                } else {
                    0nat
                }) by {
                    let one = seq![(k, count as nat)];
                    lemma_count_concat(one, rest, k2);
                    assert(one.drop_first().len() == 0);
                    assert(count_in(one.drop_first(), k2) == 0);
                }
            }
            let pos = fresh.position(&value);
            let node = MultiHashElement { next: None, count, value };
            fresh.put_or_append(pos, node);
            proof {
                let whole = e.subrange(n - 1, e.len() as int);
                assert forall|k2: V::V| #[trigger]
                    fresh@.count(k2) == count_in(whole, k2) by {}
            }
        }
        proof {
            assert(e.subrange(0, e.len() as int) =~= e);
            assert(fresh@ =~= old_view);
        }
        *self = fresh;
    }

    /// Grows the table to the next prime number of buckets when the occupied
    /// buckets exceed the load factor.
    fn resize_check(&mut self)
        requires
            old(self).wf(),
        ensures
            final(self).wf(),
            final(self)@ == old(self)@,
            final(self).load_factor() == old(self).load_factor(),
            !old(self).needs_growth() ==> final(self).bucket_count() == old(self).bucket_count(),
            old(self).needs_growth() ==> {
                ||| is_next_prime(old(self).bucket_count(), final(self).bucket_count())
                ||| (final(self).bucket_count() == old(self).bucket_count() && forall|q: nat|
                    old(self).bucket_count() < q <= usize::MAX ==> !#[trigger] is_prime_spec(q))
            },
    {
        let used = self.used as u128;
        let size = self.size as u128;
        let numerator = self.load_numerator as u128;
        let denominator = self.load_denominator as u128;
        assert(used * denominator <= u128::MAX && size * numerator <= u128::MAX) by (nonlinear_arith)
            requires
                used <= usize::MAX,
                denominator <= usize::MAX,
                size <= usize::MAX,
                numerator <= usize::MAX,
                usize::MAX <= u64::MAX,
        ;
        if used * denominator > size * numerator {
            match next_prime(self.size) {
                Some(p) => {
                    self.reallocate_positions(p);
                },
                None => {},
            }
        }
    }

    /// Stores one more occurrence of `value`, first growing the table when
    /// the occupied buckets exceed the load factor.
    pub fn put(&mut self, value: V)
        requires
            old(self).wf(),
            old(self)@.count(value@) < usize::MAX,
        ensures
            final(self).wf(),
            final(self)@ == old(self)@.insert(value@),
            final(self).load_factor() == old(self).load_factor(),
            !old(self).needs_growth() ==> final(self).bucket_count() == old(self).bucket_count(),
            old(self).needs_growth() ==> {
                ||| is_next_prime(old(self).bucket_count(), final(self).bucket_count())
                ||| (final(self).bucket_count() == old(self).bucket_count() && forall|q: nat|
                    old(self).bucket_count() < q <= usize::MAX ==> !#[trigger] is_prime_spec(q))
            },
    {
        let ghost k = value@;
        self.resize_check();
        let pos = self.position(&value);
        let node = MultiHashElement::new(value);
        let ghost mid = self@;
        self.put_or_append(pos, node);
        proof {
            assert(self@ =~= mid.insert(k));
        }
    }
}

} // verus!
