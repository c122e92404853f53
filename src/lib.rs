pub mod chain;
pub mod element;
pub mod error;
pub mod iterator;
pub mod laws;
pub mod primes;
pub mod set;
pub mod value;

pub use element::MultiHashElement;
pub use error::HashSetError;
pub use iterator::MultiHashSetIterator;
pub use set::MultiHashSet;
pub use value::SetValue;
