//! Local-to-global data consistency over finite, discrete spaces.
//!
//! A space is decomposed into overlapping regions (open sets); a partial
//! value assignment (a section) lives on each region.  The gluing engine
//! decides whether the assignments agree on every overlap and, if so, folds
//! them into one consistent global assignment.

pub mod merkle;
pub mod section;
pub mod sheaf;
pub mod spaces;
pub mod topology;

pub use section::Data;
pub use section::Section;
pub use sheaf::GluingEngine;
pub use sheaf::GluingError;
pub use topology::OpenSet;
