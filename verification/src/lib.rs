//! The logic of Recall, which keeps every prompt typed into a coding session and the response to
//! it: reading transcripts, finding the prompt that an event answers, keeping responses as
//! segments, and deciding what may be shown, fetched again, pruned or deleted.

pub mod answer;
pub mod archive;
pub mod backup;
pub mod batch;
pub mod clock;
pub mod edit;
pub mod ingest;
pub mod json;
pub mod laws;
pub mod owner;
pub mod place;
pub mod purge;
pub mod query;
pub mod removal;
pub mod segment;
pub mod store;
pub mod text;
pub mod transcript;
pub mod turn;
