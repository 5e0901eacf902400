//! Local configuration control plane: a transactional settings store with
//! Live / Pending(name) tiers, the commit and delete algorithms, resolution of
//! committed keys into the services an applier has to refresh, parsing of the
//! query parameters the HTTP layer hands in, and the error taxonomy.
pub mod apply;
pub mod assoc;
pub mod controller;
pub mod error;
pub mod laws;
pub mod query;
pub mod store;
