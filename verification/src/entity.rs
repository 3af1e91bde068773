//! Plain Rust types that are stored as a fixed set of attributes.
use vstd::prelude::*;

verus! {

/// A type that converts to and from the tuple of attributes it is stored as.
pub trait Entity: Sized {
    type Attributes;

    fn from_attributes(attrs: Self::Attributes) -> Self;

    fn into_attributes(self) -> Self::Attributes;
}

} // verus!
