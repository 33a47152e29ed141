//! Objects ready for insertion into a tree.

pub mod cached_envelope;
pub mod geom_with_cached_envelope;
pub mod geom_with_data;
pub mod line;
pub mod object_ref;
pub mod point_with_data;
pub mod rectangle;
pub mod rectangle_with_data;

pub use self::cached_envelope::CachedEnvelope;
pub use self::geom_with_cached_envelope::GeomWithCachedEnvelope;
pub use self::geom_with_data::GeomWithData;
pub use self::line::{Line, SimpleEdge};
pub use self::object_ref::ObjectRef;
pub use self::point_with_data::PointWithData;
pub use self::rectangle::Rectangle;
pub use self::rectangle_with_data::RectangleWithData;
