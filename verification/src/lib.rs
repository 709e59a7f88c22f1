//! Observation: what is happening now, and what is unhealthy.
//!
//! What the message path writes lands in a [`Snapshot`] over the scope
//! tree, with its recent [`Activity`]. A scope is an Xmip URI and the tree
//! is its path; [`Scope::contains`] is the one containment rule the
//! snapshot and the activity log answer by.

pub mod activity;
pub mod capability;
pub mod counted;
pub mod curve;
pub mod health;
pub mod order;
pub mod publication;
pub mod recent;
pub mod run;
pub mod scope;
pub mod snapshot;
pub mod stage;
pub mod text;
pub mod topology;

pub use activity::{Activity, DEFAULT_CAPACITY, Item, ItemKind};
pub use counted::Counted;
pub use curve::Curve;
pub use health::{Health, Standing};
pub use publication::Publication;
pub use recent::Recent;
pub use run::{Run, RunList};
pub use scope::Scope;
pub use snapshot::{Count, HealthRecord, Snapshot};
pub use stage::Stage;
pub use topology::{NodeKind, Origin, Pattern};
