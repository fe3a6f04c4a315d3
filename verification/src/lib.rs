//! Flat, offset-indexed storage for vector geometries, together with a
//! bidirectional bridge to a streaming geometry event protocol.
//!
//! Coordinates are stored as fixed-width tuples of `u64` scalar values (one
//! scalar per axis); a scalar is an opaque bit pattern that the library moves
//! around but never interprets numerically.

pub mod convert;
pub mod geometry;
pub mod protocol;
pub mod reader;
pub mod roundtrip;
pub mod writer;

pub use geometry::Geometry;
pub use geometry::LineString;
pub use geometry::MultiLineString;
pub use geometry::MultiPoint;
pub use geometry::MultiPolygon;
pub use geometry::Polygon;
pub use geometry::Geometry2;
pub use geometry::Geometry3;
pub use geometry::LineString2;
pub use geometry::LineString3;
pub use geometry::MultiLineString2;
pub use geometry::MultiLineString3;
pub use geometry::MultiPoint2;
pub use geometry::MultiPoint3;
pub use geometry::MultiPolygon2;
pub use geometry::MultiPolygon3;
pub use geometry::Polygon2;
pub use geometry::Polygon3;
