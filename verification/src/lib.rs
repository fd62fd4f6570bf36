//! Decoder for EBML, the binary tagged-tree container format underneath
//! Matroska and WebM.
//!
//! An EBML document is a sequence of elements. Each element is an identifier,
//! a declared payload size and that many payload bytes; the payload of a
//! master element is itself a sequence of elements. Identifier and size are
//! written as variable-length integers whose width is announced by the
//! position of the highest set bit of their first byte.
//!
//! * [`varint`] reads the two flavours of variable-length integer.
//! * [`payload`] reads the payload of a single element as an unsigned
//!   integer, a text or plain bytes.
//! * [`element`] reads whole elements, nested ones included.
//! * [`schema`] reads a composite: a fixed set of fields whose children may
//!   come in any order.
//! * [`header`] reads the EBML header, the composite a document starts with.
//! * [`children`] proves what reading a composite comes to when its payload
//!   is seen as a list of children: their order does not matter.
//!
//! Every function is a pure function of a borrowed byte slice and hands back
//! what it decoded together with the bytes it did not use. Each comes with a
//! specification over `Seq<u8>` that fixes its result, including which error
//! is reported, for every input.

pub mod children;
pub mod element;
pub mod error;
pub mod header;
pub mod payload;
pub mod schema;
pub mod varint;

pub use crate::element::{
    id_and_size, parse_element, parse_element_id, parse_master, parse_str, parse_uint, Element,
    ElementData,
};
pub use crate::error::DecodeError;
pub use crate::header::{compose_header, ebml_header, header_schema, EBMLHeader};
pub use crate::payload::{parse_binary_data, parse_str_data, parse_uint_data};
pub use crate::schema::{compose, field_index, parse_field, Field, FieldKind, FieldValue};
pub use crate::varint::{vid, vint};
