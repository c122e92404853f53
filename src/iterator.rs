use crate::value::{views, SetValue};
use vstd::prelude::*;

verus! {

/// The values of a set as they stood when the iterator was made, handed out
/// one at a time.
pub struct MultiHashSetIterator<V: SetValue> {
    content: Vec<V>,
    current_index: usize,
}

impl<V: SetValue> MultiHashSetIterator<V> {
    /// The views of the values not yet handed out.
    pub closed spec fn remaining(self) -> Seq<V::V> {
        if self.current_index <= self.content@.len() {
            views(self.content@).subrange(self.current_index as int, self.content@.len() as int)
        } else {
            Seq::empty()
        }
    }

    pub(crate) fn new(content: Vec<V>) -> (r: Self)
        ensures
            r.remaining() == views(content@),
    {
        let r = MultiHashSetIterator { content, current_index: 0 };
        proof {
            assert(views(r.content@).subrange(0, r.content@.len() as int) =~= views(r.content@));
        }
        r
    }

    /// The next value, or `None` when all have been handed out.
    pub fn next(&mut self) -> (r: Option<V>)
        ensures
            old(self).remaining().len() == 0 ==> r is None && final(self).remaining() == old(
                self,
            ).remaining(),
            old(self).remaining().len() > 0 ==> r is Some && r.unwrap()@ == old(self).remaining()[0]
                && final(self).remaining() == old(self).remaining().drop_first(),
    {
        if self.current_index < self.content.len() {
            let value = self.content[self.current_index].clone_value();
            let ghost before = self.remaining();
            self.current_index = self.current_index + 1;
            proof {
                assert(self.remaining() =~= before.drop_first());
            }
            Some(value)
        } else {
            None
        }
    }
}

} // verus!
