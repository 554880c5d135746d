//! Deterministic ping scheduling.
//!
//! A shared multiplicative congruential generator is indexed by 100 ms ticks;
//! a tick is a ping when the generator's value at that tick falls below a
//! threshold derived from the desired average gap. Because every gap reads
//! the same generator, the pings of a longer gap are always a subset of the
//! pings of a shorter one.

pub mod laws;
pub mod modular;
pub mod schedule;
pub mod scheduler;
