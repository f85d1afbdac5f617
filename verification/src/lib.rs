//! A minimal process supervisor core: a content-derived identity for each
//! service's launch script, and a reconciliation step that diffs the desired
//! identity set against the tracked child processes.

pub mod shash;
pub mod stepper;

pub use shash::Shash;
pub use stepper::Listing;
pub use stepper::Plan;
pub use stepper::RunningEntry;
pub use stepper::ServiceDef;
pub use stepper::StepError;
pub use stepper::Stepper;
