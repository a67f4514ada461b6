//! Block-stream indexing core: projection of decoded blocks into relational
//! rows, batched chunk commits, and reconciliation of spent outputs against the
//! live-cell view.

pub mod model;
pub mod rows;
pub mod projection;
pub mod store;
pub mod reconciler;
pub mod pipeline;
pub mod nft;
