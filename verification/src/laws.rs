//! What the operations are for, stated of their inputs and results alone.
//!
//! The contracts say what each function computes. The laws here say what has to come out whatever way
//! it is computed: what a result holds of what went in, what it leaves out, and how the results of
//! two calls relate.

pub mod text;
pub mod segment;
pub mod owner;
pub mod reply;
pub mod recover;
pub mod query;
pub mod transcript;
pub mod turn;
pub mod purge;
pub mod backup;
pub mod ingest;
pub mod removal;
pub mod archive;
pub mod edit;
pub mod clock;
