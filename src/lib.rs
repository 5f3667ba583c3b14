//! Short, URL-safe identifiers built from random bytes, or from a timestamp
//! followed by random bytes, written in the URL-safe base64 alphabet without
//! padding.
pub mod encoding;
pub mod ids;
pub mod source;

pub use encoding::encode;
pub use ids::{short_id, short_id_ordered, short_id_ordered_with_bytes, short_id_with_bytes, ShortId};
pub use source::{
    generate_ordered, generate_random, ordered_layout, units_from_reading, IdError, Precision,
    DEFAULT_BYTES, MAX_BYTES,
};
