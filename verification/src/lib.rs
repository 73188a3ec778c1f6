//! Approximate order-statistic summaries over data streams.
//!
//! The central type is [`summary::CKMS`], a compressed, rank-ordered list of
//! samples that answers quantile queries within a configured rank tolerance
//! while keeping memory bounded.  The tolerance and the queried quantile are
//! given as exact rationals, see [`fraction::Fraction`].

pub mod entry;
pub mod fraction;
pub mod rank;
pub mod summary;

pub use entry::Entry;
pub use fraction::Fraction;
pub use summary::CKMS;
