//! A calendar-style bucketed priority queue for discrete-event simulation,
//! with a pre-drawn pool of random numbers and a round-based driver.
pub mod error;
pub mod pool;
pub mod queue;
pub mod sim;
