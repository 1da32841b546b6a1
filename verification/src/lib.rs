//! Combinatorial exchange of indivisible goods among agents with ordinal
//! preferences over bundles: a bounded swap search for the allocation, an
//! ascending price search against it, and three checks of the outcome.

pub mod ident;
pub mod table;
pub mod types;
pub mod pricing;
pub mod brace;
pub mod auction;

pub use auction::CombinatorialAuction;
pub use brace::BRACEMechanism;
pub use pricing::PriceVector;
pub use table::Table;
pub use types::{Agent, Allocation, AuctionResult, Bundle, BundleKey, Catalog, Good};
