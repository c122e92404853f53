use std::collections::hash_map::DefaultHasher;
use std::hash::{Hash, Hasher};
use vstd::prelude::*;
use vstd::std_specs::hash::DefaultHasherAdditionalSpecFns;

verus! {

/// What a value must offer to be stored in a `MultiHashSet`: a hash that
/// depends on its view alone, equality by view, and a copy with the same view.
pub trait SetValue: Sized + View {
    /// The hash of a value, as a function of its view.
    spec fn spec_hash(v: Self::V) -> u64;

    fn hash_value(&self) -> (r: u64)
        ensures
            r == Self::spec_hash(self@),
    ;

    fn eq_value(&self, other: &Self) -> (r: bool)
        ensures
            r == (self@ == other@),
    ;

    fn clone_value(&self) -> (r: Self)
        ensures
            r@ == self@,
    ;
}

/// The views of a sequence of values.
pub open spec fn views<V: View>(s: Seq<V>) -> Seq<V::V> {
    s.map_values(|v: V| v@)
}

/// What `Hash for String` writes into a hasher, for a string of these characters.
pub uninterp spec fn string_hash_writes(s: Seq<char>) -> Seq<Seq<u8>>;

/// Relies on `<String as Hash>::hash`: the writes it makes into the hasher
/// depend on the string's characters alone.
#[verifier::external_body]
fn hash_string_into(s: &String, hasher: &mut DefaultHasher)
    ensures
        final(hasher)@ == old(hasher)@ + string_hash_writes(s@),
{
    s.hash(hasher)
}

impl SetValue for String {
    open spec fn spec_hash(v: Seq<char>) -> u64 {
        DefaultHasher::spec_finish(string_hash_writes(v))
    }

    fn hash_value(&self) -> (r: u64) {
        let mut hasher = DefaultHasher::new();
        hash_string_into(self, &mut hasher);
        proof {
            assert(Seq::<Seq<u8>>::empty() + string_hash_writes(self@) =~= string_hash_writes(self@));
        }
        hasher.finish()
    }

    fn eq_value(&self, other: &Self) -> (r: bool) {
        <String as PartialEq>::eq(self, other)
    }

    fn clone_value(&self) -> (r: Self) {
        self.clone()
    }
}

} // verus!
