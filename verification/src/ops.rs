//! Splitting a view, matching it against a prefix or a suffix, and
//! overwriting it.
use vstd::prelude::*;
use vstd::slice::slice_subrange;
use crate::base128::{is_boundary, is_fragment};
use crate::lemmas::{
    lemma_fragment_concat, lemma_fragment_ends, lemma_fragment_split, lemma_prefix_after_first,
};
use crate::{AbsoluteOid, RelativeOid, RelativeOidMut};

verus! {

/// Whether two runs of bytes are the same.
fn same_bytes(a: &[u8], b: &[u8]) -> (r: bool)
    ensures
        r == (a@ == b@),
{
    if a.len() != b.len() {
        return false;
    }
    let mut i: usize = 0;
    while i < a.len()
        invariant
            a@.len() == b@.len(),
            i <= a@.len(),
            a@.take(i as int) == b@.take(i as int),
        decreases a@.len() - i,
    {
        if a[i] != b[i] {
            return false;
        }
        assert(a@.take(i + 1) =~= a@.take(i as int).push(a@[i as int]));
        assert(b@.take(i + 1) =~= b@.take(i as int).push(b@[i as int]));
        i += 1;
    }
    assert(a@.take(i as int) =~= a@);
    assert(b@.take(i as int) =~= b@);
    true
}

/// Whether `bytes` begins with `prefix`.
fn bytes_start_with(bytes: &[u8], prefix: &[u8]) -> (r: bool)
    ensures
        r == prefix@.is_prefix_of(bytes@),
{
    prefix.len() <= bytes.len() && same_bytes(slice_subrange(bytes, 0, prefix.len()), prefix)
}

/// Whether `bytes` ends with `suffix`.
fn bytes_end_with(bytes: &[u8], suffix: &[u8]) -> (r: bool)
    ensures
        r == suffix@.is_suffix_of(bytes@),
{
    suffix.len() <= bytes.len() && same_bytes(
        slice_subrange(bytes, bytes.len() - suffix.len(), bytes.len()),
        suffix,
    )
}

impl<'a> RelativeOid<'a> {
    /// The arcs before byte `mid`, and those from it on.
    pub fn split_at(&self, mid: usize) -> (r: (RelativeOid<'a>, RelativeOid<'a>))
        requires
            self.wf(),
            is_boundary(self@, mid as int),
        ensures
            r.0@ == self@.take(mid as int),
            r.1@ == self@.skip(mid as int),
            r.0.wf(),
            r.1.wf(),
    {
        proof {
            lemma_fragment_split(self@, mid as int);
        }
        let (first, last) = self.as_bytes().split_at(mid);
        assert(first@ =~= self@.take(mid as int));
        assert(last@ =~= self@.skip(mid as int));
        (RelativeOid::from_bytes_unchecked(first), RelativeOid::from_bytes_unchecked(last))
    }

    /// Whether the bytes of this fragment begin with those of `prefix`.
    ///
    /// Where they do, the arcs of this fragment begin with the arcs of
    /// `prefix`: a fragment ends where an arc ends.
    pub fn starts_with(&self, prefix: &RelativeOid) -> (r: bool)
        ensures
            r == prefix@.is_prefix_of(self@),
            r && prefix.wf() ==> is_boundary(self@, prefix@.len() as int),
    {
        let r = bytes_start_with(self.as_bytes(), prefix.as_bytes());
        proof {
            if r && prefix.wf() && 0 < prefix@.len() < self@.len() {
                lemma_fragment_ends(prefix@);
                assert(self@.subrange(0, prefix@.len() as int)[prefix@.len() - 1] == self@[prefix@.len()
                    - 1]);
            }
        }
        r
    }

    /// Whether the arcs of this fragment end with those of `suffix`: its
    /// bytes end with the bytes of `suffix`, and an arc begins where they do.
    pub fn ends_with(&self, suffix: &RelativeOid) -> (r: bool)
        ensures
            r == (suffix@.is_suffix_of(self@) && is_boundary(self@, self@.len() - suffix@.len())),
    {
        // The bytes alone may match from the middle of an arc on: `81 01`
        // ends `81 81 01`, which is one arc.
        bytes_end_with(self.as_bytes(), suffix.as_bytes()) && self.is_arc_boundary(
            self.len() - suffix.len(),
        )
    }

    /// What follows `prefix` in this fragment, if it begins with `prefix`.
    pub fn strip_prefix(&self, prefix: &RelativeOid) -> (r: Option<RelativeOid<'a>>)
        requires
            self.wf(),
            prefix.wf(),
        ensures
            r is Some <==> prefix@.is_prefix_of(self@),
            r is Some ==> r->Some_0@ == self@.skip(prefix@.len() as int) && r->Some_0.wf(),
    {
        if self.starts_with(prefix) {
            let rest = self.get_unchecked(prefix.len()..self.len());
            assert(rest@ =~= self@.skip(prefix@.len() as int));
            Some(rest)
        } else {
            None
        }
    }

    /// What comes before `suffix` in this fragment, if it ends with
    /// `suffix`.
    pub fn strip_suffix(&self, suffix: &RelativeOid) -> (r: Option<RelativeOid<'a>>)
        requires
            self.wf(),
        ensures
            r is Some <==> suffix@.is_suffix_of(self@) && is_boundary(
                self@,
                self@.len() - suffix@.len(),
            ),
            r is Some ==> r->Some_0@ == self@.take(self@.len() - suffix@.len()) && r->Some_0.wf(),
    {
        if self.ends_with(suffix) {
            let head = self.get_unchecked(0..self.len() - suffix.len());
            assert(head@ =~= self@.take(self@.len() - suffix@.len()));
            Some(head)
        } else {
            None
        }
    }
}

impl<'a> RelativeOidMut<'a> {
    /// As [`RelativeOid::split_at`], for parts that may be overwritten.
    ///
    /// What is written to the parts is written to `self`, and nowhere else;
    /// `self` is a fragment again as soon as both parts are.
    pub fn split_at_mut(&mut self, mid: usize) -> (r: (RelativeOidMut<'_>, RelativeOidMut<'_>))
        requires
            old(self).wf(),
            is_boundary(old(self)@, mid as int),
        ensures
            r.0@ == old(self)@.take(mid as int),
            r.1@ == old(self)@.skip(mid as int),
            r.0.wf(),
            r.1.wf(),
            final(self)@ == final(r.0.bytes)@ + final(r.1.bytes)@,
            is_fragment(final(r.0.bytes)@) && is_fragment(final(r.1.bytes)@) ==> final(self).wf(),
            final(final(self).bytes)@ == final(old(self).bytes)@,
    {
        let ghost s = self@;
        proof {
            lemma_fragment_split(s, mid as int);
        }
        let (first, last) = self.bytes.split_at_mut(mid);
        proof {
            assert(first@ =~= s.take(mid as int));
            assert(last@ =~= s.skip(mid as int));
            assert forall|a: Seq<u8>, b: Seq<u8>| is_fragment(a) && is_fragment(b) implies is_fragment(
                #[trigger] (a + b),
            ) by {
                lemma_fragment_concat(a, b);
            }
        }
        (RelativeOid::from_mut_bytes_unchecked(first), RelativeOid::from_mut_bytes_unchecked(last))
    }

    /// Overwrites the arcs of this view with those of `src`, which takes as
    /// many bytes. The number of arcs may change; what lies around this view
    /// in a larger one is not touched.
    pub fn copy_from(&mut self, src: &RelativeOid)
        requires
            src.wf(),
            old(self)@.len() == src@.len(),
        ensures
            final(self)@ == src@,
            final(self).wf(),
            final(final(self).bytes)@ == final(old(self).bytes)@,
    {
        let from = src.as_bytes();
        let n: usize = from.len();
        let mut i: usize = 0;
        while i < n
            invariant
                n == from@.len(),
                from@ == src@,
                self@.len() == n,
                i <= n,
                self@.take(i as int) == from@.take(i as int),
                final(self.bytes)@ == final(old(self).bytes)@,
            decreases n - i,
        {
            let ghost before = self@;
            self.bytes[i] = from[i];
            assert(self@.take(i + 1) =~= before.take(i as int).push(from@[i as int]));
            assert(from@.take(i + 1) =~= from@.take(i as int).push(from@[i as int]));
            i += 1;
        }
        assert(self@.take(n as int) =~= self@);
        assert(from@.take(n as int) =~= from@);
    }
}

impl<'a> AbsoluteOid<'a> {
    /// Whether this OID begins with the arcs of `prefix`: it has the root of
    /// `prefix`, and its tail begins with the tail of `prefix`.
    pub fn starts_with(&self, prefix: &AbsoluteOid) -> (r: bool)
        requires
            self.wf(),
            prefix.wf(),
        ensures
            r == prefix@.is_prefix_of(self@),
    {
        let r = self.root().into_u8() == prefix.root().into_u8() && self.tail().starts_with(
            &prefix.tail(),
        );
        proof {
            lemma_prefix_after_first(self@, prefix@);
        }
        r
    }

    /// Whether the arcs after the root end with those of `suffix`.
    pub fn ends_with(&self, suffix: &RelativeOid) -> (r: bool)
        requires
            self.wf(),
        ensures
            r == (suffix@.is_suffix_of(self@.skip(1)) && is_boundary(
                self@.skip(1),
                self@.len() - 1 - suffix@.len(),
            )),
    {
        self.tail().ends_with(suffix)
    }

    /// What follows `prefix` in this OID, if it begins with `prefix`.
    pub fn strip_prefix(&self, prefix: &AbsoluteOid) -> (r: Option<RelativeOid<'a>>)
        requires
            self.wf(),
            prefix.wf(),
        ensures
            r is Some <==> prefix@.is_prefix_of(self@),
            r is Some ==> r->Some_0@ == self@.skip(prefix@.len() as int) && r->Some_0.wf(),
    {
        proof {
            lemma_prefix_after_first(self@, prefix@);
        }
        if self.root().into_u8() == prefix.root().into_u8() {
            self.tail().strip_prefix(&prefix.tail())
        } else {
            None
        }
    }

    /// This OID without `suffix`, if the arcs after its root end with
    /// `suffix`.
    pub fn strip_suffix(&self, suffix: &RelativeOid) -> (r: Option<AbsoluteOid<'a>>)
        requires
            self.wf(),
        ensures
            r is Some <==> suffix@.is_suffix_of(self@.skip(1)) && is_boundary(
                self@.skip(1),
                self@.len() - 1 - suffix@.len(),
            ),
            r is Some ==> r->Some_0@ == self@.take(self@.len() - suffix@.len()) && r->Some_0.wf(),
    {
        match self.tail().strip_suffix(suffix) {
            None => None,
            Some(tail) => {
                // The tail that is left begins where the tail of `self`
                // does, one byte after the root.
                assert(tail@.len() == self@.len() - 1 - suffix@.len());
                let bytes = slice_subrange(self.as_bytes(), 0, self.len() - suffix.len());
                assert(bytes@.skip(1) =~= tail@);
                assert(bytes@ =~= self@.take(self@.len() - suffix@.len()));
                Some(AbsoluteOid::from_bytes_unchecked(bytes))
            },
        }
    }
}

} // verus!
