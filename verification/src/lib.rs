//! A small verified library: an actor-runtime core (lifecycle state machine,
//! FIFO mailbox, one-shot envelopes) together with a set of self-contained
//! verified data structures and algorithms: big unsigned integers, a binary
//! search tree, Fibonacci numbers, text statistics, and a defaulted-argument
//! helper.

pub mod actor;
pub mod big_uint;
pub mod default_args;
pub mod fib;
pub mod text_stats;
pub mod tree;
