//! A fixed-capacity pool that keeps its values packed at the front of one
//! vector and hands out generation-tagged handles that stay valid while other
//! values come and go.

pub mod error;
pub mod freelist;
pub mod ids;
pub mod laws;

pub use error::{AllocationError, NotFound};
pub use freelist::{PackedFreelist, MAX_SIZE};
pub use ids::AllocationID;
