//! An embedded document store with a secondary index: documents are kept
//! under text keys in a primary store, and an index over their fields
//! answers equality and range queries.

pub mod bytes;
pub mod codec;
pub mod command;
pub mod document;
pub mod engine;
pub mod error;
pub mod index;
pub mod json;
pub mod laws;
pub mod model;
pub mod number;
pub mod query;
pub mod stage;
pub mod store;

pub use codec::Value;
pub use document::Document;
pub use error::StoreError;
pub use query::{Aggregate, AggregateOp};
pub use stage::MutationRecord;
pub use store::{Mutation, Neemo};
