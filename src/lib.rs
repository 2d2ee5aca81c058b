//! A codec for the VICI protocol, the length-prefixed, tag-delimited control
//! protocol of the strongSwan IKE daemon.
//!
//! The wire format is a stream of elements. Each element starts with a one-byte
//! tag; keys carry a one-byte length prefix and values a two-byte big-endian
//! length prefix.
use vstd::prelude::*;

pub mod de;
pub mod error;
pub mod laws;
pub mod read;
pub mod ser;
pub mod value;

pub use crate::de::{from_reader, from_slice, Deserializer};
pub use crate::error::Error;
pub use crate::ser::{to_vec, Serializer};

verus! {

/// The one-byte discriminant that starts every element of a message.
#[derive(Clone, Copy, Debug, PartialEq, Eq, Structural)]
pub enum ElementType {
    SectionStart,
    SectionEnd,
    KeyValue,
    ListStart,
    ListItem,
    ListEnd,
}

/// The byte that stands for `t` on the wire.
pub open spec fn tag_byte(t: ElementType) -> u8 {
    match t {
        ElementType::SectionStart => 1,
        ElementType::SectionEnd => 2,
        ElementType::KeyValue => 3,
        ElementType::ListStart => 4,
        ElementType::ListItem => 5,
        ElementType::ListEnd => 6,
    }
}

/// Whether `b` is one of the six valid tag bytes.
pub open spec fn is_tag_byte(b: u8) -> bool {
    1 <= b <= 6
}

impl ElementType {
    /// The wire byte of this tag.
    pub fn as_byte(&self) -> (r: u8)
        ensures
            r == tag_byte(*self),
    {
        match self {
            ElementType::SectionStart => 1,
            ElementType::SectionEnd => 2,
            ElementType::KeyValue => 3,
            ElementType::ListStart => 4,
            ElementType::ListItem => 5,
            ElementType::ListEnd => 6,
        }
    }

    /// The tag whose wire byte is `b`, if there is one.
    pub fn from_byte(b: u8) -> (r: Option<ElementType>)
        ensures
            r.is_some() <==> is_tag_byte(b),
            r matches Some(t) ==> tag_byte(t) == b,
    {
        match b {
            1 => Some(ElementType::SectionStart),
            2 => Some(ElementType::SectionEnd),
            3 => Some(ElementType::KeyValue),
            4 => Some(ElementType::ListStart),
            5 => Some(ElementType::ListItem),
            6 => Some(ElementType::ListEnd),
            _ => None,
        }
    }
}

} // verus!
