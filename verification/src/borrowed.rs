//! The views that only read, the packed root byte, and validation.
use vstd::prelude::*;
use crate::base128::{
    cont_run, fault_after, fault_report, first_fault, has_cont, head_fault, head_len,
    identifier_fault, is_fragment, is_identifier, lemma_cont_run, lemma_cont_run_is, tail_limit,
};
use crate::lemmas::lemma_fault_free_iff_fragment;
use crate::{Arc0, Arc1, Position};

verus! {

/// The first two arcs of an OID, packed into one byte as `arc0 * 40 + arc1`.
///
/// The first arc is one of `0`, `1`, `2` and the second is below 40, so the
/// byte is at most [`MAX_ROOT_BYTE`].
#[derive(Debug, Clone, Copy, PartialEq, Eq, Hash)]
pub struct RootOid(u8);

/// The largest byte that packs two arcs: `2 * 40 + 39`.
pub const MAX_ROOT_BYTE: u8 = 40 * 2 + 39;

/// The byte handed to [`RootOid::from_u8`] was above [`MAX_ROOT_BYTE`].
#[derive(Debug, Clone)]
pub struct RootError;

/// What is wrong with a run of bytes that is not a fragment.
#[derive(Debug, Clone)]
pub enum B128ErrorKind {
    /// An arc needs more bits than an [`Arc`](crate::Arc) has.
    OutOfRange,
    /// An arc begins with `0x80`, a zero digit that says nothing.
    ZeroByteWithCont,
    /// The bytes end inside an arc.
    Unfinished,
}

/// The first fault of a run of bytes that is not a fragment.
#[derive(Debug, Clone)]
pub struct B128Error {
    pub kind: B128ErrorKind,
    /// Where the arc at fault begins.
    pub pos: Position,
}

/// Why a run of bytes is not a whole OID.
#[derive(Debug, Clone)]
pub enum OidDecodingError {
    /// There is no byte to hold the root.
    Empty,
    /// The first byte packs no two arcs.
    Root(RootError),
    /// The bytes after the first are no fragment; the position counts from
    /// the first byte of the OID.
    Base128(B128Error),
}

impl From<RootError> for OidDecodingError {
    fn from(error: RootError) -> (r: OidDecodingError) {
        OidDecodingError::Root(error)
    }
}

impl vstd::std_specs::convert::FromSpecImpl<RootError> for OidDecodingError {
    open spec fn obeys_from_spec() -> bool {
        true
    }

    open spec fn from_spec(error: RootError) -> OidDecodingError {
        OidDecodingError::Root(error)
    }
}

impl From<B128Error> for OidDecodingError {
    fn from(error: B128Error) -> (r: OidDecodingError) {
        OidDecodingError::Base128(error)
    }
}

impl vstd::std_specs::convert::FromSpecImpl<B128Error> for OidDecodingError {
    open spec fn obeys_from_spec() -> bool {
        true
    }

    open spec fn from_spec(error: B128Error) -> OidDecodingError {
        OidDecodingError::Base128(error)
    }
}

impl RootOid {
    /// The packed byte.
    pub closed spec fn byte(self) -> u8 {
        self.0
    }

    /// Every `RootOid` that the constructors hand out packs two arcs.
    pub open spec fn wf(self) -> bool {
        self.byte() <= MAX_ROOT_BYTE
    }

    /// Wraps `byte` without testing it.
    pub fn from_u8_unchecked(byte: u8) -> (r: RootOid)
        requires
            byte <= MAX_ROOT_BYTE,
        ensures
            r.byte() == byte,
            r.wf(),
    {
        RootOid(byte)
    }

    pub fn into_u8(self) -> (r: u8)
        ensures
            r == self.byte(),
    {
        self.0
    }

    pub fn check(byte: u8) -> (r: Result<(), RootError>)
        ensures
            r is Ok <==> byte <= MAX_ROOT_BYTE,
    {
        if byte > MAX_ROOT_BYTE {
            return Err(RootError);
        }
        Ok(())
    }

    pub fn from_u8(byte: u8) -> (r: Result<RootOid, RootError>)
        ensures
            r is Ok <==> byte <= MAX_ROOT_BYTE,
            r is Ok ==> r->Ok_0.byte() == byte && r->Ok_0.wf(),
    {
        match RootOid::check(byte) {
            Err(e) => Err(e),
            Ok(()) => Ok(RootOid::from_u8_unchecked(byte)),
        }
    }

    pub fn new(arc0: Arc0, arc1: Arc1) -> (r: RootOid)
        requires
            arc1.wf(),
        ensures
            r.byte() == arc0.value() * 40 + arc1.value(),
            r.wf(),
    {
        let byte: u8 = arc0.as_u8() * 40 + arc1.as_u8();
        RootOid::from_u8_unchecked(byte)
    }
}

/// `core::slice::from_ref` views one value as a slice of length one.
pub assume_specification<T>[ core::slice::from_ref::<T> ](s: &T) -> (r: &[T])
    ensures
        r@ == seq![*s],
;

impl RootOid {
    /// This root alone, as an OID of two arcs.
    pub fn as_absolute(&self) -> (r: AbsoluteOid<'_>)
        requires
            self.wf(),
        ensures
            r@ == seq![self.byte()],
            r.wf(),
    {
        let bytes = core::slice::from_ref(&self.0);
        proof {
            assert(bytes@.skip(1).len() == 0);
        }
        AbsoluteOid::from_bytes_unchecked(bytes)
    }
}

/// A view of zero or more arcs: a part of an OID that does not hold its
/// first two arcs.
///
/// Each arc is a run of base-128 digits, most significant first, every byte
/// but the last with its high bit set. No arc begins with `0x80` and none is
/// above `Arc::MAX`; see [`is_fragment`].
#[derive(Debug, Clone, Copy, PartialEq, Eq, Hash)]
pub struct RelativeOid<'a> {
    bytes: &'a [u8],
}

/// A view of zero or more arcs that may overwrite them.
///
/// The field is open: whoever writes through it answers for [`Self::wf`].
#[derive(Debug, PartialEq, Eq, Hash)]
pub struct RelativeOidMut<'a> {
    pub bytes: &'a mut [u8],
}

impl<'a> View for RelativeOid<'a> {
    type V = Seq<u8>;

    closed spec fn view(&self) -> Seq<u8> {
        self.bytes@
    }
}

impl<'a> View for RelativeOidMut<'a> {
    type V = Seq<u8>;

    open spec fn view(&self) -> Seq<u8> {
        self.bytes@
    }
}

impl<'a> RelativeOid<'a> {
    /// The bytes are a fragment.
    pub open spec fn wf(&self) -> bool {
        is_fragment(self@)
    }

    /// Views `bytes` as arcs without testing them.
    pub fn from_bytes_unchecked(bytes: &'a [u8]) -> (r: RelativeOid<'a>)
        requires
            is_fragment(bytes@),
        ensures
            r@ == bytes@,
            r.wf(),
    {
        RelativeOid { bytes }
    }

    /// The bytes of the arcs, as BER writes them.
    pub fn as_bytes(&self) -> (r: &'a [u8])
        ensures
            r@ == self@,
    {
        self.bytes
    }

    /// Views `bytes` as arcs that may be overwritten, without testing them.
    pub fn from_mut_bytes_unchecked(bytes: &'a mut [u8]) -> (r: RelativeOidMut<'a>)
        requires
            is_fragment(old(bytes)@),
        ensures
            r@ == old(bytes)@,
            r.wf(),
            final(bytes)@ == final(r.bytes)@,
    {
        RelativeOidMut { bytes }
    }

    pub fn check_bytes(bytes: &[u8]) -> (r: Result<(), B128Error>)
        ensures
            r is Ok <==> is_fragment(bytes@),
            r is Err ==> Some(r->Err_0) == fault_report(bytes@),
    {
        match next_b128_error(bytes) {
            Some(error) => Err(error),
            None => Ok(()),
        }
    }

    /// Views `bytes` as arcs if they are a fragment, and says what is wrong
    /// with them if not.
    pub fn from_bytes(bytes: &'a [u8]) -> (r: Result<RelativeOid<'a>, B128Error>)
        ensures
            r is Ok <==> is_fragment(bytes@),
            r is Ok ==> r->Ok_0@ == bytes@ && r->Ok_0.wf(),
            r is Err ==> Some(r->Err_0) == fault_report(bytes@),
    {
        match RelativeOid::check_bytes(bytes) {
            Err(e) => Err(e),
            Ok(()) => Ok(RelativeOid::from_bytes_unchecked(bytes)),
        }
    }

    /// As [`Self::from_bytes`], for a view that may overwrite.
    pub fn from_mut_bytes(bytes: &'a mut [u8]) -> (r: Result<RelativeOidMut<'a>, B128Error>)
        ensures
            r is Ok <==> is_fragment(old(bytes)@),
            match r {
                Ok(oid) => oid@ == old(bytes)@ && oid.wf() && final(bytes)@ == final(oid.bytes)@,
                Err(e) => Some(e) == fault_report(old(bytes)@) && final(bytes)@ == old(bytes)@,
            },
    {
        match RelativeOid::check_bytes(bytes) {
            Err(e) => Err(e),
            Ok(()) => Ok(RelativeOid::from_mut_bytes_unchecked(bytes)),
        }
    }

    /// The view of no arcs at all.
    pub fn empty() -> (r: RelativeOid<'static>)
        ensures
            r@ == Seq::<u8>::empty(),
            r.wf(),
    {
        let bytes: &'static [u8] = &[];
        assert(bytes@ =~= Seq::<u8>::empty());
        RelativeOid::from_bytes_unchecked(bytes)
    }
}

impl<'a> RelativeOidMut<'a> {
    /// The bytes are a fragment.
    pub open spec fn wf(&self) -> bool {
        is_fragment(self@)
    }

    /// The same bytes, to read only.
    pub fn as_oid(&self) -> (r: RelativeOid<'_>)
        requires
            self.wf(),
        ensures
            r@ == self@,
            r.wf(),
    {
        RelativeOid::from_bytes_unchecked(&*self.bytes)
    }

    /// The bytes of the arcs, as BER writes them.
    pub fn as_bytes(&self) -> (r: &[u8])
        ensures
            r@ == self@,
    {
        &*self.bytes
    }

    /// The bytes, to be overwritten. What is written must again be a
    /// fragment of the same length for the view to stay well-formed.
    pub fn as_mut_bytes(&mut self) -> (r: &mut [u8])
        ensures
            r@ == old(self)@,
            final(self)@ == final(r)@,
            final(final(self).bytes)@ == final(old(self).bytes)@,
    {
        &mut *self.bytes
    }
}

/// A view of a whole OID: the byte that packs its first two arcs, then the
/// arcs that follow as a fragment. It is never empty.
#[derive(Debug, Clone, Copy, PartialEq, Eq, Hash)]
pub struct AbsoluteOid<'a> {
    bytes: &'a [u8],
}

/// A view of a whole OID that may overwrite the arcs after the root.
///
/// The field is open: whoever writes through it answers for [`Self::wf`].
#[derive(Debug, PartialEq, Eq, Hash)]
pub struct AbsoluteOidMut<'a> {
    pub bytes: &'a mut [u8],
}

impl<'a> View for AbsoluteOid<'a> {
    type V = Seq<u8>;

    closed spec fn view(&self) -> Seq<u8> {
        self.bytes@
    }
}

impl<'a> View for AbsoluteOidMut<'a> {
    type V = Seq<u8>;

    open spec fn view(&self) -> Seq<u8> {
        self.bytes@
    }
}

impl<'a> AbsoluteOid<'a> {
    /// The bytes are a whole OID.
    pub open spec fn wf(&self) -> bool {
        is_identifier(self@)
    }

    /// Views `bytes` as an OID without testing them.
    pub fn from_bytes_unchecked(bytes: &'a [u8]) -> (r: AbsoluteOid<'a>)
        requires
            is_identifier(bytes@),
        ensures
            r@ == bytes@,
            r.wf(),
    {
        AbsoluteOid { bytes }
    }

    /// The bytes of the OID, as BER writes them.
    pub fn as_bytes(&self) -> (r: &'a [u8])
        ensures
            r@ == self@,
    {
        self.bytes
    }

    /// Views `bytes` as an OID that may be overwritten, without testing them.
    pub fn from_mut_bytes_unchecked(bytes: &'a mut [u8]) -> (r: AbsoluteOidMut<'a>)
        requires
            is_identifier(old(bytes)@),
        ensures
            r@ == old(bytes)@,
            r.wf(),
            final(bytes)@ == final(r.bytes)@,
    {
        AbsoluteOidMut { bytes }
    }

    pub fn check_bytes(bytes: &[u8]) -> (r: Result<(), OidDecodingError>)
        ensures
            r is Ok <==> is_identifier(bytes@),
            r is Err ==> Some(r->Err_0) == identifier_fault(bytes@),
    {
        if bytes.len() == 0 {
            return Err(OidDecodingError::Empty);
        }
        let first_byte: u8 = bytes[0];
        match RootOid::check(first_byte) {
            Err(e) => {
                return Err(OidDecodingError::from(e));
            },
            Ok(()) => {},
        }
        match RelativeOid::check_bytes(vstd::slice::slice_subrange(bytes, 1, bytes.len())) {
            Err(e) => {
                // The fault was found in the bytes after the root: in
                // `bytes` it lies one byte further on.
                let pos: Position = if e.pos == 0xffff {
                    0
                } else {
                    e.pos + 1
                };
                return Err(OidDecodingError::from(B128Error { kind: e.kind, pos }));
            },
            Ok(()) => {
                proof {
                    lemma_fault_free_iff_fragment(bytes@.skip(1));
                }
            },
        }
        Ok(())
    }

    /// Views `bytes` as an OID if they are one, and says what is wrong with
    /// them if not.
    pub fn from_bytes(bytes: &'a [u8]) -> (r: Result<AbsoluteOid<'a>, OidDecodingError>)
        ensures
            r is Ok <==> is_identifier(bytes@),
            r is Ok ==> r->Ok_0@ == bytes@ && r->Ok_0.wf(),
            r is Err ==> Some(r->Err_0) == identifier_fault(bytes@),
    {
        match AbsoluteOid::check_bytes(bytes) {
            Err(e) => Err(e),
            Ok(()) => Ok(AbsoluteOid::from_bytes_unchecked(bytes)),
        }
    }

    /// As [`Self::from_bytes`], for a view that may overwrite.
    pub fn from_mut_bytes(bytes: &'a mut [u8]) -> (r: Result<AbsoluteOidMut<'a>, OidDecodingError>)
        ensures
            r is Ok <==> is_identifier(old(bytes)@),
            match r {
                Ok(oid) => oid@ == old(bytes)@ && oid.wf() && final(bytes)@ == final(oid.bytes)@,
                Err(e) => Some(e) == identifier_fault(old(bytes)@) && final(bytes)@ == old(
                    bytes,
                )@,
            },
    {
        match AbsoluteOid::check_bytes(bytes) {
            Err(e) => Err(e),
            Ok(()) => Ok(AbsoluteOid::from_mut_bytes_unchecked(bytes)),
        }
    }

    /// The first two arcs.
    pub fn root(&self) -> (r: RootOid)
        requires
            self.wf(),
        ensures
            r.byte() == self@[0],
            r.wf(),
    {
        RootOid::from_u8_unchecked(self.bytes[0])
    }

    /// All arcs but the first two.
    pub fn tail(&self) -> (r: RelativeOid<'a>)
        requires
            self.wf(),
        ensures
            r@ == self@.skip(1),
            r.wf(),
    {
        RelativeOid::from_bytes_unchecked(
            vstd::slice::slice_subrange(self.bytes, 1, self.bytes.len()),
        )
    }
}

impl<'a> AbsoluteOidMut<'a> {
    /// The bytes are a whole OID.
    pub open spec fn wf(&self) -> bool {
        is_identifier(self@)
    }

    /// The same bytes, to read only.
    pub fn as_oid(&self) -> (r: AbsoluteOid<'_>)
        requires
            self.wf(),
        ensures
            r@ == self@,
            r.wf(),
    {
        AbsoluteOid::from_bytes_unchecked(&*self.bytes)
    }

    /// The bytes of the OID, as BER writes them.
    pub fn as_bytes(&self) -> (r: &[u8])
        ensures
            r@ == self@,
    {
        &*self.bytes
    }

    /// The bytes, to be overwritten. What is written must again be a whole
    /// OID of the same length for the view to stay well-formed.
    pub fn as_mut_bytes(&mut self) -> (r: &mut [u8])
        ensures
            r@ == old(self)@,
            final(self)@ == final(r)@,
            final(final(self).bytes)@ == final(old(self).bytes)@,
    {
        &mut *self.bytes
    }

    /// All arcs but the first two, to be overwritten. The root stays as it
    /// is, and the OID is whole again as soon as the tail is a fragment.
    pub fn tail_mut(&mut self) -> (r: RelativeOidMut<'_>)
        requires
            old(self).wf(),
        ensures
            r@ == old(self)@.skip(1),
            r.wf(),
            final(self)@ == seq![old(self)@[0]] + final(r.bytes)@,
            is_fragment(final(r.bytes)@) ==> final(self).wf(),
            final(final(self).bytes)@ == final(old(self).bytes)@,
    {
        let ghost first = seq![self@[0]];
        let (root, tail) = self.bytes.split_at_mut(1);
        proof {
            assert(tail@ =~= old(self)@.skip(1));
            assert(root@ =~= first);
            assert forall|now: Seq<u8>| is_fragment(now) implies is_identifier(
                #[trigger] (first + now),
            ) by {
                assert((first + now).skip(1) =~= now);
            }
        }
        RelativeOid::from_mut_bytes_unchecked(tail)
    }
}

/// The first fault in `bytes`, if they are not a fragment.
fn next_b128_error(bytes: &[u8]) -> (r: Option<B128Error>)
    ensures
        r == fault_report(bytes@),
        r is None <==> is_fragment(bytes@),
{
    let ghost s = bytes@;
    let n: usize = bytes.len();
    let mut pos: usize = 0;
    proof {
        assert(s.skip(0) =~= s);
        lemma_fault_free_iff_fragment(s);
    }
    while pos < n
        invariant
            s == bytes@,
            n == s.len(),
            pos <= n,
            first_fault(s) == fault_after(pos as nat, first_fault(s.skip(pos as int))),
            first_fault(s) is None <==> is_fragment(s),
        decreases n - pos,
    {
        let ghost t = s.skip(pos as int);
        let byte: u8 = bytes[pos];
        assert(t[0] == byte);
        if byte < 0x80 {
            proof {
                assert(cont_run(t) == 0);
                assert(t.skip(1) =~= s.skip(pos + 1));
            }
            pos += 1;
            continue;
        }
        if byte == 0x80 {
            return Some(
                B128Error { kind: B128ErrorKind::ZeroByteWithCont, pos: (pos % 0x1_0000) as Position },
            );
        }
        // An arc of 32 bits is four digits of seven bits and four bits more:
        // a lead with any of its three upper digit bits set counts as a byte
        // of its own against the four that may follow.
        let first_byte: u8 = if byte & 0x70 == 0 {
            0
        } else {
            1
        };
        assert((byte & 0x70 == 0) == (byte % 0x80 < 16)) by (bit_vector);
        assert(tail_limit(byte) == 4 - first_byte);
        let mut n_bytes: u8 = first_byte;
        let mut i: usize = pos + 1;
        loop
            invariant_except_break
                pos < i <= n,
                n_bytes == first_byte + (i - pos - 1),
                n_bytes <= 4,
                forall|k: int| 0 <= k < i - pos ==> has_cont(#[trigger] t[k]),
            invariant
                s == bytes@,
                n == s.len(),
                t == s.skip(pos as int),
                first_byte <= 1,
                tail_limit(t[0]) == 4 - first_byte,
                t[0] != 0x80,
                pos < n,
                first_fault(s) == fault_after(pos as nat, first_fault(t)),
                first_fault(s) is None <==> is_fragment(s),
            ensures
                pos < i <= n,
                head_fault(t) is None,
                head_len(t) == i - pos,
            decreases n - i,
        {
            if i < n {
                let next: u8 = bytes[i];
                assert(t[i - pos] == next);
                n_bytes += 1;
                if n_bytes > 4 {
                    proof {
                        lemma_cont_run(t);
                        if cont_run(t) < i - pos {
                            assert(has_cont(t[cont_run(t) as int]));
                        }
                    }
                    return Some(
                        B128Error {
                            kind: B128ErrorKind::OutOfRange,
                            pos: (pos % 0x1_0000) as Position,
                        },
                    );
                }
                i += 1;
                if next < 0x80 {
                    proof {
                        lemma_cont_run_is(t, (i - pos - 1) as nat);
                    }
                    break;
                }
            } else {
                proof {
                    lemma_cont_run_is(t, (n - pos) as nat);
                }
                return Some(
                    B128Error { kind: B128ErrorKind::Unfinished, pos: (pos % 0x1_0000) as Position },
                );
            }
        }
        proof {
            assert(t.skip(i - pos) =~= s.skip(i as int));
        }
        pos = i;
    }
    proof {
        assert(s.skip(pos as int).len() == 0);
    }
    None
}

} // verus!
