//! A codec for the deterministic "DAG" profile of CBOR.
//!
//! Every value has exactly one encoding: integers and lengths take the
//! narrowest width, floats are always written as doubles, containers always
//! carry their length and map entries are written in canonical order.
//! Content identifiers travel under tag 42.
//!
//! [`ser::Serializer`] writes values through one callback per shape;
//! [`ipld::to_vec`] encodes a whole value tree and [`de::from_slice`]
//! decodes one, strictly. [`laws`] states what holds of the two together.

pub mod de;
pub mod error;
pub mod float;
pub mod header;
pub mod ipld;
pub mod laws;
pub mod order;
pub mod ser;

pub use de::{from_slice, from_slice_f32, from_slice_prefix, from_slice_tuple, MAX_DEPTH};
pub use error::{DecodeError, EncodeError, Expected};
pub use ipld::{to_vec, to_vec_packed, Ipld};
pub use ser::{is_link_name, CollectionSerializer, Serializer, StructSerializer};
