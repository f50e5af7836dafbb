//! Short identifier strings and a store that never hands out the same one twice.
//!
//! The crate has four layers, each in a module of its own:
//!
//! * [`random`]: a small xorshift-family generator with four words of state,
//!   seeded from the wall clock on its first draw;
//! * [`codec`]: the base62 numeral system, first character least significant;
//! * [`generate`]: strings drawn from the generator, either of a fixed length
//!   over one of three alphabets or as the base62 form of a bounded number;
//! * [`store`]: the set of identifiers issued so far, with collision retry.
//!
//! The generator is not cryptographic: it is built for speed and spread, and
//! its whole stream follows from the instant of its seeding.
//!
//! Every function that draws takes the generator as an argument. A program
//! that wants one generator for all its threads keeps one behind a lock and
//! hands it in.
pub mod codec;
pub mod generate;
pub mod random;
pub mod store;

pub use codec::number_to_uid;
pub use codec::uid_to_number;
pub use generate::fixed_length;
pub use generate::generate;
pub use generate::human_random_string;
pub use generate::random_max_size;
pub use generate::random_number;
pub use generate::random_string;
pub use generate::Alphabet;
pub use generate::Recipe;
pub use random::PseudoRandom;
pub use store::UidStore;
