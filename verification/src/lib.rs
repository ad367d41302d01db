//! A graph of transactions that only grows. It starts with a root
//! transaction; every transaction that comes after names two transactions
//! that the graph already holds as its parents. With each insertion the
//! graph works out how deep the new transaction lies below the root, counts
//! the references that its parents have gained, and keeps note of the
//! transaction with the greatest timestamp and of the one that is referenced
//! most.
//!
//! * [`domain`]: transactions and their figures, and reading a transaction
//!   from text.
//! * [`graph`]: the graph itself: creating it, inserting into it, building it
//!   from a list, reading it.
//! * [`model`]: the mathematical value of a graph, what an insertion makes of
//!   it, and the invariant that every graph keeps.
//! * [`history`]: sequences of insertions and what holds of the graphs they
//!   lead to.
//! * [`text`]: transactions and their figures in print.
pub mod domain;
pub mod graph;
pub mod history;
pub mod model;
pub mod text;
