//! The OIDs that own their bytes and grow by whole arcs.
use vstd::prelude::*;
use vstd::slice::slice_to_vec;
use crate::base128::{
    arcs_of, encoding, identifier_arcs, is_fragment, is_identifier, root_arcs,
};
use crate::encode::write_b128;
use crate::lemmas::lemma_fragment_concat;
use crate::{
    AbsoluteOid, AbsoluteOidMut, Arc, RelativeOid, RelativeOidMut, RootOid, ARC_LEN,
};

verus! {

/// A fragment that owns its bytes.
#[derive(Debug, Clone, PartialEq, Eq)]
pub struct RelativeOidVec {
    bytes: Vec<u8>,
}

/// A whole OID that owns its bytes.
#[derive(Debug, Clone, PartialEq, Eq)]
pub struct AbsoluteOidVec {
    bytes: Vec<u8>,
}

impl View for RelativeOidVec {
    type V = Seq<u8>;

    closed spec fn view(&self) -> Seq<u8> {
        self.bytes@
    }
}

impl View for AbsoluteOidVec {
    type V = Seq<u8>;

    closed spec fn view(&self) -> Seq<u8> {
        self.bytes@
    }
}

impl Default for RelativeOidVec {
    /// The fragment of no arcs.
    fn default() -> (r: Self)
        ensures
            r@ == Seq::<u8>::empty(),
            r.wf(),
    {
        RelativeOidVec::from_oid(&RelativeOid::empty())
    }
}

impl RelativeOidVec {
    /// The bytes are a fragment.
    pub open spec fn wf(&self) -> bool {
        is_fragment(self@)
    }

    /// A copy of the arcs of `oid`.
    pub fn from_oid(oid: &RelativeOid) -> (r: RelativeOidVec)
        requires
            oid.wf(),
        ensures
            r@ == oid@,
            r.wf(),
    {
        RelativeOidVec { bytes: slice_to_vec(oid.as_bytes()) }
    }

    pub fn into_bytes(self) -> (r: Vec<u8>)
        ensures
            r@ == self@,
    {
        self.bytes
    }

    /// The bytes of the arcs, as BER writes them.
    pub fn as_bytes(&self) -> (r: &[u8])
        ensures
            r@ == self@,
    {
        self.bytes.as_slice()
    }

    /// A view of the arcs.
    pub fn as_oid(&self) -> (r: RelativeOid<'_>)
        requires
            self.wf(),
        ensures
            r@ == self@,
            r.wf(),
    {
        RelativeOid::from_bytes_unchecked(self.bytes.as_slice())
    }

    /// A view of the arcs that may overwrite them.
    pub fn as_mut_oid(&mut self) -> (r: RelativeOidMut<'_>)
        requires
            old(self).wf(),
        ensures
            r@ == old(self)@,
            r.wf(),
            final(self)@ == final(r.bytes)@,
    {
        RelativeOid::from_mut_bytes_unchecked(self.bytes.as_mut_slice())
    }

    /// Adds `arc` at the end.
    pub fn push(&mut self, arc: Arc)
        requires
            old(self).wf(),
        ensures
            final(self)@ == old(self)@ + encoding(arc as nat),
            arcs_of(final(self)@) == arcs_of(old(self)@).push(arc),
            final(self).wf(),
    {
        let mut buffer = [0u8;ARC_LEN];
        let written = write_b128(&mut buffer, arc);
        proof {
            lemma_fragment_concat(self@, written@);
            assert(arcs_of(self@) + seq![arc] =~= arcs_of(self@).push(arc));
        }
        self.extend(&written.as_oid());
    }

    /// Adds the arcs of `oid` at the end.
    pub fn extend(&mut self, oid: &RelativeOid)
        requires
            old(self).wf(),
            oid.wf(),
        ensures
            final(self)@ == old(self)@ + oid@,
            arcs_of(final(self)@) == arcs_of(old(self)@) + arcs_of(oid@),
            final(self).wf(),
    {
        proof {
            lemma_fragment_concat(self@, oid@);
        }
        self.bytes.extend_from_slice(oid.as_bytes());
    }
}

impl AbsoluteOidVec {
    /// The bytes are a whole OID.
    pub open spec fn wf(&self) -> bool {
        is_identifier(self@)
    }

    /// The OID of the two arcs of `root`.
    pub fn from_root(root: RootOid) -> (r: AbsoluteOidVec)
        requires
            root.wf(),
        ensures
            r@ == seq![root.byte()],
            r.wf(),
    {
        AbsoluteOidVec::from_oid(&root.as_absolute())
    }

    /// A copy of `oid`.
    pub fn from_oid(oid: &AbsoluteOid) -> (r: AbsoluteOidVec)
        requires
            oid.wf(),
        ensures
            r@ == oid@,
            r.wf(),
    {
        AbsoluteOidVec { bytes: slice_to_vec(oid.as_bytes()) }
    }

    pub fn into_bytes(self) -> (r: Vec<u8>)
        ensures
            r@ == self@,
    {
        self.bytes
    }

    /// The bytes of the OID, as BER writes them.
    pub fn as_bytes(&self) -> (r: &[u8])
        ensures
            r@ == self@,
    {
        self.bytes.as_slice()
    }

    /// A view of the OID.
    pub fn as_oid(&self) -> (r: AbsoluteOid<'_>)
        requires
            self.wf(),
        ensures
            r@ == self@,
            r.wf(),
    {
        AbsoluteOid::from_bytes_unchecked(self.bytes.as_slice())
    }

    /// A view of the OID that may overwrite the arcs after the root.
    pub fn as_mut_oid(&mut self) -> (r: AbsoluteOidMut<'_>)
        requires
            old(self).wf(),
        ensures
            r@ == old(self)@,
            r.wf(),
            final(self)@ == final(r.bytes)@,
    {
        AbsoluteOid::from_mut_bytes_unchecked(self.bytes.as_mut_slice())
    }

    /// Adds `arc` at the end.
    pub fn push(&mut self, arc: Arc)
        requires
            old(self).wf(),
        ensures
            final(self)@ == old(self)@ + encoding(arc as nat),
            identifier_arcs(final(self)@) == identifier_arcs(old(self)@).push(arc),
            final(self).wf(),
    {
        let mut buffer = [0u8;ARC_LEN];
        let written = write_b128(&mut buffer, arc);
        proof {
            lemma_fragment_concat(self@.skip(1), written@);
            assert((self@ + written@).skip(1) =~= self@.skip(1) + written@);
            assert(root_arcs(self@[0]) + (arcs_of(self@.skip(1)) + seq![arc]) =~= identifier_arcs(
                self@,
            ).push(arc));
        }
        self.extend(&written.as_oid());
    }

    /// Adds the arcs of `oid` at the end.
    pub fn extend(&mut self, oid: &RelativeOid)
        requires
            old(self).wf(),
            oid.wf(),
        ensures
            final(self)@ == old(self)@ + oid@,
            identifier_arcs(final(self)@) == identifier_arcs(old(self)@) + arcs_of(oid@),
            final(self).wf(),
    {
        self.bytes.extend_from_slice(oid.as_bytes());
        proof {
            let before = old(self)@;
            lemma_fragment_concat(before.skip(1), oid@);
            assert(self@ == before + oid@);
            assert(self@[0] == before[0]);
            assert(self@.skip(1) =~= before.skip(1) + oid@);
            assert(root_arcs(before[0]) + (arcs_of(before.skip(1)) + arcs_of(oid@))
                =~= identifier_arcs(before) + arcs_of(oid@));
        }
    }
}

} // verus!
