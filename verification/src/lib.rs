//! Trust and relationship dynamics between agents: five trust stages,
//! trust events, bidirectional relations, a network of named agents and
//! reputation aggregates, with their contracts proved by Verus.

pub mod average;
pub mod event;
pub mod names;
pub mod network;
pub mod relation;
pub mod reputation;
pub mod score;
pub mod stage;

pub use event::TrustEvent;
pub use network::TrustNetwork;
pub use relation::TrustRelation;
pub use reputation::ReputationScore;
pub use score::{TRUST_MAX, TRUST_MIN, clamp, decay_toward_zero, forgive, forgiveness_due};
pub use stage::TrustStage;
