//! A record laid over a caller-managed run of bytes: a metadata value, an
//! element count, and the elements themselves at the first suitably aligned
//! address after the count.
//!
//! Nothing here allocates or owns memory. A [`Region`] stands for the bytes
//! that the caller lends out, an [`Mbuf`] is the handle on the record in
//! them, and [`align`] is the rounding that finds where the elements start.
pub mod bytes;
pub mod layout;
pub mod mbuf;
pub mod plain;
pub mod record;
pub mod region;

pub use crate::bytes::ByteOrder;
pub use crate::layout::align;
pub use crate::mbuf::Mbuf;
pub use crate::plain::Plain;
pub use crate::region::Region;
