//! Homeostasis for software agents: severity levels, the alert book that
//! keeps the alerts raised when metrics leave their tolerance, and zone
//! regulators that map readings to actions.

pub mod naming;
pub mod regulators;
pub mod systems;
pub mod types;

pub use regulators::{ThresholdRegulator, Zone};
pub use systems::{AlertSystem, Finding};
pub use types::{Alert, AlertView, StressAction, Urgency};
