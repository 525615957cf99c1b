//! Verified core of the kirara rigid/soft body engine: the integer and
//! boolean bookkeeping that the floating-point physics rests on.

pub mod body;
pub mod broadphase;
pub mod constraint;
pub mod softbody;

pub use body::Activity;
pub use constraint::AxisLock;
pub use softbody::{SpringKind, Triangle};
