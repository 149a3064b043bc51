//! A nested, fine-grained reactive store with keyed list reconciliation.
//!
//! The data is a root collection of middle records, each owning an ordered
//! collection of innermost records. A store wraps the root and hands out
//! path-addressed fields: reading a field subscribes the reading scope to it,
//! writing a field notifies exactly the scopes subscribed to that field or an
//! ancestor of it. A keyed list renderer maintains a stable key-to-instance
//! mapping across renders, and a view tree composes the two into rendered
//! page descriptions.

pub mod ids;
pub mod records;
pub mod render;
pub mod session;
pub mod store;
