//! A buffered secure random number generator that performs no I/O itself.
//!
//! The generator keeps a pool of entropy bytes and a cursor into it. Every draw
//! either serves bytes from the pool or asks its caller for a fresh block of
//! entropy, which the caller reads from the operating system and hands back
//! through `SecureRng::refill`. A refill normally brings `POOL_SIZE` bytes; for
//! a single request longer than that it brings exactly the requested length,
//! so that every request up to `MAX_REQUEST` bytes can be served.
mod bytes;
mod error;
mod laws;
mod rng;
mod stats;

pub use bytes::{get_random_u32, lemma_word_bounds, word_at, word_of};
pub use error::RngError;
pub use laws::{
    after_draws, draw_step, draws_giving, fresh_pool, lemma_range_unbiased, lemma_word_draw_refills,
    PoolModel,
};
pub use rng::{
    first_in, lemma_first_in, refill_len, scan_end, usable_limit, Draw, SecureRng, MAX_REQUEST,
    POOL_SIZE,
};
pub use stats::{
    bit_counts, bit_set, check_randomness_criteria, count_bit, count_repeats, meets_criteria,
    repeat_count,
};
