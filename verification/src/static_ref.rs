//! Views for bytes that are written down once and for all.
use vstd::prelude::*;
use crate::base128::{fault_report, identifier_fault, is_fragment, is_identifier};
use crate::{AbsoluteOid, OidDecodingError, RelativeOid};

verus! {

/// A whole OID over bytes that a program holds as a constant.
pub struct StaticAbsoluteOid<'a> {
    bytes: &'a [u8],
}

/// A fragment over bytes that a program holds as a constant.
pub struct StaticRelativeOid<'a> {
    bytes: &'a [u8],
}

impl<'a> View for StaticAbsoluteOid<'a> {
    type V = Seq<u8>;

    closed spec fn view(&self) -> Seq<u8> {
        self.bytes@
    }
}

impl<'a> View for StaticRelativeOid<'a> {
    type V = Seq<u8>;

    closed spec fn view(&self) -> Seq<u8> {
        self.bytes@
    }
}

impl<'a> StaticAbsoluteOid<'a> {
    /// The bytes are a whole OID.
    pub open spec fn wf(&self) -> bool {
        is_identifier(self@)
    }

    /// Keeps `bytes` as an OID without testing them.
    pub fn from_bytes_unchecked(bytes: &'a [u8]) -> (r: StaticAbsoluteOid<'a>)
        requires
            is_identifier(bytes@),
        ensures
            r@ == bytes@,
            r.wf(),
    {
        StaticAbsoluteOid { bytes }
    }

    pub fn from_bytes(bytes: &'a [u8]) -> (r: Result<StaticAbsoluteOid<'a>, OidDecodingError>)
        ensures
            r is Ok <==> is_identifier(bytes@),
            r is Ok ==> r->Ok_0@ == bytes@ && r->Ok_0.wf(),
            r is Err ==> Some(r->Err_0) == identifier_fault(bytes@),
    {
        match AbsoluteOid::check_bytes(bytes) {
            Err(e) => Err(e),
            Ok(()) => Ok(StaticAbsoluteOid::from_bytes_unchecked(bytes)),
        }
    }

    /// The OID, as a view.
    pub fn as_oid(&self) -> (r: AbsoluteOid<'a>)
        requires
            self.wf(),
        ensures
            r@ == self@,
            r.wf(),
    {
        AbsoluteOid::from_bytes_unchecked(self.bytes)
    }
}

impl<'a> StaticRelativeOid<'a> {
    /// The bytes are a fragment.
    pub open spec fn wf(&self) -> bool {
        is_fragment(self@)
    }

    /// Keeps `bytes` as a fragment without testing them.
    pub fn from_bytes_unchecked(bytes: &'a [u8]) -> (r: StaticRelativeOid<'a>)
        requires
            is_fragment(bytes@),
        ensures
            r@ == bytes@,
            r.wf(),
    {
        StaticRelativeOid { bytes }
    }

    pub fn from_bytes(bytes: &'a [u8]) -> (r: Result<StaticRelativeOid<'a>, OidDecodingError>)
        ensures
            r is Ok <==> is_fragment(bytes@),
            r is Ok ==> r->Ok_0@ == bytes@ && r->Ok_0.wf(),
            r is Err ==> fault_report(bytes@) is Some && r->Err_0 == OidDecodingError::Base128(
                fault_report(bytes@)->Some_0,
            ),
    {
        match RelativeOid::check_bytes(bytes) {
            Err(e) => Err(OidDecodingError::from(e)),
            Ok(()) => Ok(StaticRelativeOid::from_bytes_unchecked(bytes)),
        }
    }

    /// The fragment, as a view.
    pub fn as_oid(&self) -> (r: RelativeOid<'a>)
        requires
            self.wf(),
        ensures
            r@ == self@,
            r.wf(),
    {
        RelativeOid::from_bytes_unchecked(self.bytes)
    }
}

} // verus!
