//! The owned bitmap, its containers and stores, and the readers of the
//! serialized form.

pub mod archive;
pub mod bits;
pub mod container;
pub mod inherent;
pub mod iter;
pub mod laws;
pub mod lazy;
pub mod le;
pub mod model;
pub mod serialization;
pub mod store;
pub mod view;
pub mod wire;

pub use self::archive::{ArchivedContainer, ArchivedRoaringBitmap, ArchivedStore};
pub use self::inherent::RoaringBitmap;
