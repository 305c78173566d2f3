//! String-like types for Object Identifiers (OIDs) kept in their BER/DER form.
//!
//! An OID is a sequence of non-negative integers, its arcs. In BER every arc
//! but the first two is written in base 128, most significant digit first,
//! with the high bit of each byte but the last one set. The first two arcs
//! are packed into a single leading byte.
//!
//! - [`RelativeOid`] is a view of zero or more base-128 arcs.
//! - [`AbsoluteOid`] is a view of a whole OID: the packed root byte and a tail
//!   of base-128 arcs.
//! - [`RelativeOidMut`] and [`AbsoluteOidMut`] are the views that may write.
//! - [`RelativeOidVec`] and [`AbsoluteOidVec`] own their bytes and grow.
//!
//! What the bytes mean is defined once, in [`base128`], as functions on
//! `Seq<u8>`; every contract of the crate is stated over those functions.
use vstd::prelude::*;

pub mod base128;
pub mod borrowed;
pub mod encode;
pub mod index;
pub mod iter;
pub mod laws;
pub mod lemmas;
pub mod ops;
pub mod owned;
pub mod parse;
pub mod root;
pub mod static_ref;
pub mod text;
pub mod text_lemmas;

pub use borrowed::{
    AbsoluteOid, AbsoluteOidMut, B128Error, B128ErrorKind, OidDecodingError, RelativeOid,
    RelativeOidMut, RootError, RootOid, MAX_ROOT_BYTE,
};
pub use encode::write_b128;
pub use index::{
    b128_len, index_bounds, slice_error_fail, truncate_to_arc_boundary, RangeEdge,
    MAX_DISPLAY_LENGTH,
};
pub use iter::{AbsoluteArcs, RelativeArcs, RootArcs};
pub use owned::{AbsoluteOidVec, RelativeOidVec};
pub use parse::{parse_absolute, parse_relative, OidParsingError, StrArcs};
pub use root::{Arc0, Arc1, IllegalArc1Error, IllegalRootNodeError};
pub use static_ref::{StaticAbsoluteOid, StaticRelativeOid};

verus! {

/// One component of an OID.
pub type Arc = u32;

/// A byte offset into the input of a validation, as kept in its errors.
pub type Position = u16;

/// The most bytes that the base-128 form of one [`Arc`] takes.
pub const ARC_LEN: usize = 5;

} // verus!
