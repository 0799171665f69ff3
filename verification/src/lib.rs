//! Two building blocks of systems programs, with their bookkeeping verified:
//! a bump-allocating memory arena and a fixed-size thread pool.
//!
//! The arena: [`layout`] holds the alignment arithmetic, [`chunk`] one block of
//! memory with its bump pointer, [`arena`] the growable arena over such blocks,
//! and [`arena_laws`] what holds of every arena.
//!
//! The thread pool: [`job`] is a piece of work and the handle to its result,
//! [`text`] the lines the pool shows, [`pool_model`] the pool as a transition
//! system, [`pool`] its executable state, and [`pool_laws`] what holds of every
//! pool.
pub mod arena;
pub mod arena_laws;
pub mod chunk;
pub mod job;
pub mod layout;
pub mod pool;
pub mod pool_laws;
pub mod pool_model;
pub mod text;
