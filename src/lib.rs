//! A spatial model of LED strips laid out along line segments in a plane,
//! with exact integer geometry for index, segment, vertex, direction and
//! distance queries.

pub mod config;
pub mod data;
pub mod distance;
pub mod error;
pub mod filter;
pub mod geometry;
pub mod layout;
pub mod lemmas;
pub mod queries;
pub mod segment;
pub mod sled;
pub mod sweep;

pub use config::{Config, SegmentConfig};
pub use data::{Data, DataValue, DataWrapper, StorableData};
pub use error::SledError;
pub use filter::Filter;
pub use geometry::Point;
pub use layout::Position;
pub use segment::{Density, LineSegment};
pub use sled::{CollectionOfLeds, CollectionOfLedsMut, Led, Sled};
pub use sweep::Sweep;
