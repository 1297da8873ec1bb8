//! Musical scales as collections of pitch classes, their rotational modes,
//! and two ways to compare them: sharing a mode, and a distance.
//!
//! A note collection is a sequence of pitch classes, semitone offsets from a
//! tonic. Rotating it restarts it on its second note; the modes of a
//! collection are what repeated rotation reaches from its sorted form. A
//! [`Scale`] holds a collection together with all of its modes.
//!
//! - [`notes`]: note collections and the distance between two of them.
//! - [`sorting`]: the ascending form of a collection.
//! - [`rotation`]: one rotation, and rotation repeated.
//! - [`degrees`]: how rotation walks through the degrees of a scale, and how
//!   soon it repeats.
//! - [`modes`]: the set of modes and its generation.
//! - [`scale`]: scales, and what holds of their comparisons.
//! - [`error`]: the ways in which input is refused.

pub mod degrees;
pub mod error;
pub mod modes;
pub mod notes;
pub mod rotation;
pub mod scale;
pub mod sorting;

pub use crate::error::ScaleError;
pub use crate::modes::generate_modes;
pub use crate::notes::{note_collection_distance, NoteCollection};
pub use crate::rotation::rotate;
pub use crate::scale::Scale;
