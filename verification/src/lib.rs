//! Schema-driven embedding pipeline: turns structured records into ordered
//! text fragments, pairs those fragments with vectors obtained from a
//! pluggable embedding provider, stores the pairs in a similarity index, and
//! retrieves the records most similar to a query for use as conversation
//! context.

pub mod builder;
pub mod embeddable;
pub mod index;
pub mod json;
pub mod retriever;
pub mod schema;
pub mod text;
pub mod value;
pub mod vector;
