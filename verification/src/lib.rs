//! Ring-topology membership and admission decisions for an overlay node.
//!
//! A peer sits at a [`Location`] on a circle of circumference one, held as
//! a whole number of units so that distances are exact. The
//! [`ConnectionTable`] keeps the peers a node is connected to, ordered by
//! location; it decides which candidates to admit, measures how far the
//! node's neighbours typically are, and picks peers to forward to. A
//! [`Ring`] shares one such table between readers and a writer, together
//! with the routing thresholds of the node.

mod ascending;
pub mod error;
pub mod location;
pub mod median;
pub mod ring;
pub mod table;

pub use error::{ConnError, RingProtoError};
pub use location::{Distance, Location};
pub use ring::Ring;
pub use table::ConnectionTable;
