//! A windowed (segmented) sieve of Eratosthenes over a record store.
//!
//! The sieve finds every prime below a configurable upper limit while
//! holding only one fixed-width window of candidates in memory at a time.
//! Each discovered prime is kept as a record `(p, nextval)` in an
//! append-mostly store, where `nextval` is the prime's next multiple still
//! to be marked; replaying the records over each window marks all
//! composites before new primes are read off.

pub mod arith;
pub mod export;
pub mod record;
pub mod sieve;
pub mod store;

pub use arith::is_prime;
pub use export::export_csv;
pub use record::PrimeRecord;
pub use sieve::sieve;
pub use store::{PrimeStore, StoreError};
