//! Walking the arcs of a view, one `next` at a time.
use vstd::prelude::*;
use vstd::slice::slice_subrange;
use crate::base128::{
    arc_value, arcs_of, cont_run, digit, has_cont, head_len, identifier_arcs, is_fragment,
    lemma_cont_run, root_arcs,
};
use crate::borrowed::MAX_ROOT_BYTE;
use crate::lemmas::{lemma_arc_value_prefix, lemma_arc_value_push};
use crate::{AbsoluteOid, Arc, Arc0, Arc1, RelativeOid, RootOid};

verus! {

/// The two arcs of a root, first the one, then the other.
pub struct RootArcs {
    /// At most `MAX_ROOT_BYTE` while both arcs are to come; above it once
    /// the first is out, with the second still `byte % 40`; `0xff` at the end.
    byte: u8,
}

/// The arcs of a fragment, in order.
pub struct RelativeArcs<'a> {
    /// The bytes of the arcs that are still to come.
    bytes: &'a [u8],
}

/// The arcs of a whole OID: those of the root, then those of the tail.
pub struct AbsoluteArcs<'a> {
    root: RootArcs,
    tail: RelativeArcs<'a>,
}

impl<'a> AbsoluteOid<'a> {
    /// The arcs of this OID, from the first.
    pub fn arcs(&self) -> (r: AbsoluteArcs<'a>)
        requires
            self.wf(),
        ensures
            r.wf(),
            r.remaining() == identifier_arcs(self@),
    {
        AbsoluteArcs { root: self.root().arcs(), tail: self.tail().arcs() }
    }
}

impl RootOid {
    /// The two arcs of this root.
    pub fn arcs(&self) -> (r: RootArcs)
        requires
            self.wf(),
        ensures
            r.remaining() == root_arcs(self.byte()),
    {
        RootArcs { byte: self.into_u8() }
    }

    /// The two arcs of this root, each in its own type.
    pub fn into_arcs(self) -> (r: (Arc0, Arc1))
        requires
            self.wf(),
        ensures
            r.0.value() == self.byte() / 40,
            r.1.value() == self.byte() % 40,
            r.1.wf(),
    {
        let byte: u8 = self.into_u8();
        let arc0 = if byte < 40 {
            Arc0::ItuT
        } else if byte < 80 {
            Arc0::Iso
        } else {
            Arc0::JointIsoItuT
        };
        let arc1 = Arc1::new_unchecked(byte % 40);
        (arc0, arc1)
    }
}

impl<'a> RelativeOid<'a> {
    /// The arcs of this fragment, from the first.
    pub fn arcs(&self) -> (r: RelativeArcs<'a>)
        requires
            self.wf(),
        ensures
            r.wf(),
            r.remaining() == arcs_of(self@),
    {
        RelativeArcs { bytes: self.as_bytes() }
    }
}

impl RootArcs {
    /// The arcs that `next` has not handed out yet.
    pub closed spec fn remaining(&self) -> Seq<Arc> {
        if self.byte == 0xff {
            Seq::empty()
        } else if self.byte > MAX_ROOT_BYTE {
            seq![(self.byte % 40) as Arc]
        } else {
            root_arcs(self.byte)
        }
    }

    /// Hands out the next arc, if one is left.
    pub fn next(&mut self) -> (r: Option<Arc>)
        ensures
            old(self).remaining().len() == 0 ==> r is None && final(self).remaining().len() == 0,
            old(self).remaining().len() > 0 ==> r == Some(old(self).remaining()[0])
                && final(self).remaining() == old(self).remaining().drop_first(),
    {
        if self.byte == 0xff {
            return None;
        }
        let arc: u8 = if self.byte > MAX_ROOT_BYTE {
            let byte: u8 = self.byte;
            self.byte = 0xff;
            proof {
                assert(old(self).remaining().drop_first() =~= Seq::<Arc>::empty());
            }
            byte % 40
        } else {
            let arc: u8 = self.byte / 40;
            // The second arc, `byte % 40`, has to stay, and the sum must not
            // pass `0xff`.
            self.byte += (4 - arc) * 40;
            proof {
                assert(self.byte % 40 == old(self).byte % 40);
                assert(old(self).remaining().drop_first() =~= seq![(self.byte % 40) as Arc]);
            }
            arc
        };
        Some(arc as Arc)
    }
}

/// Takes one more byte into the arc that `accumulator` is collecting, and
/// says whether the arc goes on.
fn b128_eat_byte(accumulator: &mut Arc, byte: u8) -> (r: bool)
    requires
        *old(accumulator) * 128 + digit(byte) <= Arc::MAX,
    ensures
        *final(accumulator) == *old(accumulator) * 128 + digit(byte),
        r == has_cont(byte),
{
    assert(1u32 << 7 == 128) by (bit_vector);
    assert(byte & !0x80 == byte % 0x80) by (bit_vector);
    assert((byte & 0x80 != 0) == (byte >= 0x80)) by (bit_vector);
    *accumulator *= 1 << 7;
    *accumulator += (byte & !0x80) as Arc;
    (byte & 0x80) != 0
}

impl<'a> RelativeArcs<'a> {
    /// The bytes still to be read are a fragment.
    pub closed spec fn wf(&self) -> bool {
        is_fragment(self.bytes@)
    }

    /// The arcs that `next` has not handed out yet.
    pub closed spec fn remaining(&self) -> Seq<Arc> {
        arcs_of(self.bytes@)
    }

    /// Hands out the next arc, if one is left.
    pub fn next(&mut self) -> (r: Option<Arc>)
        requires
            old(self).wf(),
        ensures
            final(self).wf(),
            old(self).remaining().len() == 0 ==> r is None && final(self).remaining().len() == 0,
            old(self).remaining().len() > 0 ==> r == Some(old(self).remaining()[0])
                && final(self).remaining() == old(self).remaining().drop_first(),
    {
        let ghost s = self.bytes@;
        let bytes: &'a [u8] = self.bytes;
        let n: usize = bytes.len();
        let mut accumulator: Arc = 0;
        let mut i: usize = 0;
        proof {
            lemma_cont_run(s);
            assert(s.take(0).len() == 0);
        }
        while i < n
            invariant
                s == bytes@,
                s == self.bytes@,
                *self == *old(self),
                n == s.len(),
                is_fragment(s),
                i <= n,
                i <= cont_run(s),
                accumulator == arc_value(s.take(i as int)),
            decreases n - i,
        {
            let byte: u8 = bytes[i];
            proof {
                lemma_cont_run(s);
                lemma_arc_value_push(s.take(i as int), byte);
                assert(s.take(i as int).push(byte) =~= s.take(i + 1));
                assert(s.take(i + 1) =~= s.take(head_len(s) as int).take(i + 1));
                lemma_arc_value_prefix(s.take(head_len(s) as int), i + 1);
            }
            i += 1;
            if !b128_eat_byte(&mut accumulator, byte) {
                self.bytes = slice_subrange(bytes, i, n);
                proof {
                    assert(i == head_len(s));
                    assert(arcs_of(s).drop_first() =~= arcs_of(s.skip(i as int)));
                }
                return Some(accumulator);
            }
        }
        None
    }
}

impl<'a> AbsoluteArcs<'a> {
    /// The bytes of the tail still to be read are a fragment.
    pub closed spec fn wf(&self) -> bool {
        self.tail.wf()
    }

    /// The arcs that `next` has not handed out yet.
    pub closed spec fn remaining(&self) -> Seq<Arc> {
        self.root.remaining() + self.tail.remaining()
    }

    /// Hands out the next arc, if one is left.
    pub fn next(&mut self) -> (r: Option<Arc>)
        requires
            old(self).wf(),
        ensures
            final(self).wf(),
            old(self).remaining().len() == 0 ==> r is None && final(self).remaining().len() == 0,
            old(self).remaining().len() > 0 ==> r == Some(old(self).remaining()[0])
                && final(self).remaining() == old(self).remaining().drop_first(),
    {
        if let Some(s) = self.root.next() {
            proof {
                assert(self.remaining() =~= old(self).remaining().drop_first());
            }
            return Some(s);
        }
        let r = self.tail.next();
        proof {
            assert(old(self).remaining() =~= old(self).tail.remaining());
            assert(self.remaining() =~= self.tail.remaining());
        }
        r
    }
}

} // verus!
