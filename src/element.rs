use crate::chain::{
    bump, chain_wf, count_in, keys_of, lemma_bump, lemma_count_present,
    lemma_drop_first_wf, lemma_push, lemma_remove_one, remove_one,
};
use crate::error::HashSetError;
use crate::value::{views, SetValue};
use vstd::prelude::*;

verus! {

/// One node of a bucket's chain: a value, how many times it is stored, and
/// the rest of the chain, which the node owns outright.
pub struct MultiHashElement<V: SetValue> {
    pub next: Option<Box<MultiHashElement<V>>>,
    pub count: usize,
    pub value: V,
}

/// The (value, count) pairs of a sequence of stored pairs, by view.
pub open spec fn pair_views<V: View>(s: Seq<(V, usize)>) -> Seq<(V::V, nat)> {
    s.map_values(|p: (V, usize)| (p.0@, p.1 as nat))
}

impl<V: SetValue> MultiHashElement<V> {
    /// The entries of the chain that starts at this node, head first.
    pub open spec fn entries(self) -> Seq<(V::V, nat)>
        decreases self,
    {
        seq![(self.value@, self.count as nat)] + match self.next {
            Some(n) => n.entries(),
            None => Seq::empty(),
        }
    }

    /// The entries of the nodes after this one.
    pub open spec fn tail_entries(self) -> Seq<(V::V, nat)> {
        match self.next {
            Some(n) => n.entries(),
            None => Seq::empty(),
        }
    }

    pub open spec fn wf(self) -> bool {
        chain_wf(self.entries())
    }

    pub proof fn lemma_unfold(self)
        ensures
            self.entries().len() >= 1,
            self.entries()[0] == (self.value@, self.count as nat),
            self.entries().drop_first() == self.tail_entries(),
            self.entries() == seq![(self.value@, self.count as nat)] + self.tail_entries(),
            self.wf() ==> chain_wf(self.tail_entries()),
            self.wf() ==> count_in(self.entries(), self.value@) == self.count,
            self.wf() ==> count_in(self.tail_entries(), self.value@) == 0,
            forall|k: V::V|
                k != self.value@ ==> count_in(self.entries(), k) == #[trigger] count_in(
                    self.tail_entries(),
                    k,
                ),
    {
        let e = self.entries();
        assert(e.drop_first() =~= self.tail_entries());
        if self.wf() {
            lemma_drop_first_wf(e);
            lemma_count_present(e, 0);
        }
    }

    /// A chain of one node that stores `val` once.
    pub fn new(val: V) -> (r: Self)
        ensures
            r.value == val,
            r.count == 1,
            r.next is None,
            r.entries() == seq![(val@, 1nat)],
            r.wf(),
    {
        let r = MultiHashElement { next: None, count: 1, value: val };
        proof {
            assert(r.entries() =~= seq![(val@, 1nat)]);
        }
        r
    }

    /// Adds the single node `next` to the chain: where its value already has a
    /// node, that node's count grows by one; otherwise `next` becomes the new
    /// last node, with its count.
    pub fn append(&mut self, next: MultiHashElement<V>)
        requires
            old(self).wf(),
            next.next is None,
            next.count >= 1,
            count_in(old(self).entries(), next.value@) < usize::MAX,
        ensures
            final(self).wf(),
            count_in(old(self).entries(), next.value@) > 0 ==> final(self).entries() == bump(
                old(self).entries(),
                next.value@,
            ),
            count_in(old(self).entries(), next.value@) == 0 ==> final(self).entries() == old(
                self,
            ).entries().push((next.value@, next.count as nat)),
        decreases *old(self),
    {
        proof {
            self.lemma_unfold();
        }
        let ghost k = next.value@;
        let ghost old_entries = self.entries();
        let ghost head = (self.value@, self.count as nat);
        if self.value.eq_value(&next.value) {
            self.count = self.count + 1;
            proof {
                self.lemma_unfold();
                let b = bump(old_entries, k);
                assert forall|i: int| 0 <= i < b.len() implies #[trigger] b[i] == self.entries()[i] by {
                    if i > 0 {
                        assert(old_entries[i].0 != old_entries[0].0);
                    }
                }
                assert(b =~= self.entries());
                lemma_bump(old_entries, k, k);
            }
            return;
        }
        assert(count_in(old_entries, k) == count_in(self.tail_entries(), k));
        match self.next.take() {
            Some(mut b) => {
                let ghost t = b.entries();
                (&mut *b).append(next);
                self.next = Some(b);
                proof {
                    self.lemma_unfold();
                    if count_in(old_entries, k) > 0 {
                        assert(bump(old_entries, k) =~= seq![head] + bump(t, k));
                        lemma_bump(old_entries, k, k);
                    } else {
                        assert(old_entries.push((k, next.count as nat)) =~= seq![head] + t.push(
                            (k, next.count as nat),
                        ));
                        lemma_push(old_entries, k, next.count as nat, k);
                    }
                }
            },
            None => {
                let ghost c = next.count as nat;
                self.next = Some(Box::new(next));
                proof {
                    self.lemma_unfold();
                    assert(self.tail_entries() =~= seq![(k, c)]);
                    assert(old_entries =~= seq![head]);
                    assert(old_entries.push((k, c)) =~= self.entries());
                    lemma_push(old_entries, k, c, k);
                }
            },
        }
    }

    /// The node of the chain whose value equals `lookup`, if there is one.
    pub fn get(&self, lookup: &V) -> (r: Option<&MultiHashElement<V>>)
        requires
            self.wf(),
        ensures
            match r {
                Some(n) => n.value@ == lookup@ && n.count as nat == count_in(
                    self.entries(),
                    lookup@,
                ) && n.count >= 1,
                None => count_in(self.entries(), lookup@) == 0,
            },
        decreases self,
    {
        proof {
            self.lemma_unfold();
        }
        if self.value.eq_value(lookup) {
            return Some(self);
        }
        assert(count_in(self.entries(), lookup@) == count_in(self.tail_entries(), lookup@));
        match &self.next {
            Some(n) => n.get(lookup),
            None => None,
        }
    }

    /// Pushes a copy of each value of the chain onto `buffer`, head first.
    pub fn cummulate(&self, buffer: &mut Vec<V>)
        ensures
            views(final(buffer)@) == views(old(buffer)@) + keys_of(self.entries()),
        decreases self,
    {
        proof {
            self.lemma_unfold();
        }
        let ghost before = views(buffer@);
        buffer.push(self.value.clone_value());
        proof {
            assert(views(buffer@) =~= before.push(self.value@));
        }
        match &self.next {
            Some(n) => {
                n.cummulate(buffer);
            },
            None => {},
        }
        proof {
            assert(keys_of(self.entries()) =~= seq![self.value@] + keys_of(self.tail_entries()));
            assert(views(buffer@) =~= before + keys_of(self.entries()));
        }
    }

    /// Pushes a copy of each value of the chain, with its count, onto
    /// `buffer`, head first.
    pub fn cummulate_counted(&self, buffer: &mut Vec<(V, usize)>)
        ensures
            pair_views(final(buffer)@) == pair_views(old(buffer)@) + self.entries(),
        decreases self,
    {
        proof {
            self.lemma_unfold();
        }
        let ghost before = pair_views(buffer@);
        buffer.push((self.value.clone_value(), self.count));
        proof {
            assert(pair_views(buffer@) =~= before.push((self.value@, self.count as nat)));
        }
        match &self.next {
            Some(n) => {
                n.cummulate_counted(buffer);
            },
            None => {},
        }
        proof {
            assert(pair_views(buffer@) =~= before + self.entries());
        }
    }

    /// Takes one occurrence of `value` from the nodes after this one: the
    /// matching node's count drops by one, and the node is unlinked when it
    /// would reach zero. Fails when no later node holds `value`.
    pub fn remove(&mut self, value: V) -> (r: Result<(), HashSetError>)
        requires
            old(self).wf(),
        ensures
            final(self).wf(),
            final(self).value == old(self).value,
            final(self).count == old(self).count,
            r is Ok <==> count_in(old(self).tail_entries(), value@) > 0,
            r is Err ==> r == Err::<(), HashSetError>(HashSetError::RemoveError),
            final(self).tail_entries() == remove_one(old(self).tail_entries(), value@),
        decreases *old(self),
    {
        proof {
            self.lemma_unfold();
        }
        let ghost head = (self.value@, self.count as nat);
        let ghost old_entries = self.entries();
        let ghost k = value@;
        match self.next.take() {
            None => {
                Err(HashSetError::RemoveError)
            },
            Some(mut b) => {
                let ghost t = b.entries();
                proof {
                    b.lemma_unfold();
                }
                if b.value.eq_value(&value) {
                    if b.count > 1 {
                        b.count = b.count - 1;
                        self.next = Some(b);
                        proof {
                            b.lemma_unfold();
                            assert(remove_one(t, k) =~= b.entries());
                        }
                    } else {
                        let node = *b;
                        self.next = node.next;
                        proof {
                            assert(remove_one(t, k) =~= node.tail_entries());
                        }
                    }
                    proof {
                        lemma_remove_one(t, k, k);
                        self.lemma_unfold();
                        assert forall|i: int| 0 <= i < self.tail_entries().len() implies #[trigger] self.tail_entries()[i].0 != head.0 by {
                            assert(keys_of(self.tail_entries())[i] == self.tail_entries()[i].0);
                            assert(keys_of(remove_one(t, k)).contains(self.tail_entries()[i].0));
                            let m = choose|m: int| 0 <= m < keys_of(t).len() && keys_of(t)[m] == self.tail_entries()[i].0;
                            assert(old_entries[m + 1] == t[m]);
                        }
                        self.lemma_chain_of_parts(head);
                    }
                    Ok(())
                } else {
                    let ghost bt = b.tail_entries();
                    assert(count_in(t, k) == count_in(bt, k));
                    assert(t.drop_first() == bt);
                    let r = (&mut *b).remove(value);
                    self.next = Some(b);
                    proof {
                        b.lemma_unfold();
                        assert(remove_one(t, k) =~= seq![t[0]] + remove_one(bt, k));
                        assert(b.entries() =~= seq![t[0]] + remove_one(bt, k));
                        lemma_remove_one(t, k, k);
                        self.lemma_unfold();
                        assert forall|i: int| 0 <= i < self.tail_entries().len() implies #[trigger] self.tail_entries()[i].0 != head.0 by {
                            assert(keys_of(self.tail_entries())[i] == self.tail_entries()[i].0);
                            assert(keys_of(remove_one(t, k)).contains(self.tail_entries()[i].0));
                            let m = choose|m: int| 0 <= m < keys_of(t).len() && keys_of(t)[m] == self.tail_entries()[i].0;
                            assert(old_entries[m + 1] == t[m]);
                        }
                        self.lemma_chain_of_parts(head);
                    }
                    r
                }
            },
        }
    }

    proof fn lemma_chain_of_parts(self, head: (V::V, nat))
        requires
            head == (self.value@, self.count as nat),
            head.1 >= 1,
            chain_wf(self.tail_entries()),
            forall|i: int|
                0 <= i < self.tail_entries().len() ==> #[trigger] self.tail_entries()[i].0 != head.0,
        ensures
            self.wf(),
    {
        self.lemma_unfold();
        let e = self.entries();
        let t = self.tail_entries();
        assert forall|a: int, b: int| 0 <= a < b < e.len() implies #[trigger] e[a].0
            != #[trigger] e[b].0 by {
            assert(e[b] == t[b - 1]);
            if a > 0 {
                assert(e[a] == t[a - 1]);
            }
        }
        assert forall|i: int| 0 <= i < e.len() implies #[trigger] e[i].1 >= 1 by {
            if i > 0 {
                assert(e[i] == t[i - 1]);
            }
        }
    }
}

} // verus!
