//! Lengths, arc boundaries, and cutting a view at them.
//!
//! A view is cut only where one arc ends and the next begins, as a `str` is
//! cut only between characters. [`RelativeOid::get`] tests a range and gives
//! `None` for one that cannot be cut; [`RelativeOid::index`] is for a range
//! known to be good.
use core::ops::Range;
use vstd::prelude::*;
use vstd::slice::slice_subrange;
use vstd::string::*;
use crate::base128::{
    arcs_of, boundary_at_or_before, can_slice, encoding_len, has_cont, is_boundary, is_fragment,
};
use crate::lemmas::{
    lemma_arc_at_boundary, lemma_boundary_at_or_before, lemma_fragment_slice,
    lemma_fragment_splice, lemma_fragment_split,
};
use crate::text::{chars_of, dec_text, decimal_string, dotted};
use crate::{AbsoluteOid, Arc, RelativeOid, RelativeOidMut};

verus! {

/// One end of a range of bytes.
#[derive(Debug, Clone, Copy, PartialEq, Eq)]
pub enum RangeEdge {
    /// The byte at this offset belongs to the range.
    Included(usize),
    /// The byte at this offset does not belong to the range.
    Excluded(usize),
    /// The range goes on to the end of the fragment on this side.
    Unbounded,
}

/// The offset at which a range begins that has `start` for its first edge.
pub open spec fn start_offset(start: RangeEdge) -> int {
    match start {
        RangeEdge::Included(s) => s as int,
        RangeEdge::Excluded(s) => s + 1,
        RangeEdge::Unbounded => 0,
    }
}

/// The offset before which a range ends that has `end` for its last edge,
/// in a fragment of `len` bytes.
pub open spec fn end_offset(len: usize, end: RangeEdge) -> int {
    match end {
        RangeEdge::Included(e) => e + 1,
        RangeEdge::Excluded(e) => e as int,
        RangeEdge::Unbounded => len as int,
    }
}

/// The range of offsets between the edges `start` and `end`, in a fragment
/// of `len` bytes; `None` where one of the two offsets is beyond every
/// `usize`, and so beyond every fragment.
pub fn index_bounds(len: usize, start: RangeEdge, end: RangeEdge) -> (r: Option<Range<usize>>)
    ensures
        r is None <==> start == RangeEdge::Excluded(usize::MAX) || end == RangeEdge::Included(
            usize::MAX,
        ),
        r is Some ==> r->Some_0.start == start_offset(start) && r->Some_0.end == end_offset(
            len,
            end,
        ),
{
    let start: usize = match start {
        RangeEdge::Included(s) => s,
        RangeEdge::Excluded(s) => {
            if s == usize::MAX {
                return None;
            }
            s + 1
        },
        RangeEdge::Unbounded => 0,
    };
    let end: usize = match end {
        RangeEdge::Included(e) => {
            if e == usize::MAX {
                return None;
            }
            e + 1
        },
        RangeEdge::Excluded(e) => e,
        RangeEdge::Unbounded => len,
    };
    Some(start..end)
}

impl<'a> AbsoluteOid<'a> {
    /// The length of the OID in bytes, which is at least 1.
    pub fn len(&self) -> (r: usize)
        ensures
            r == self@.len(),
    {
        self.as_bytes().len()
    }
}

impl<'a> RelativeOid<'a> {
    /// The length of the fragment in bytes.
    pub fn len(&self) -> (r: usize)
        ensures
            r == self@.len(),
    {
        self.as_bytes().len()
    }

    pub fn is_empty(&self) -> (r: bool)
        ensures
            r == (self@.len() == 0),
    {
        self.len() == 0
    }

    /// Whether an arc begins at `index`, counted in bytes.
    ///
    /// An arc is taken to begin at the end of the fragment, so `self.len()`
    /// is a boundary. No index beyond it is one.
    pub fn is_arc_boundary(&self, index: usize) -> (r: bool)
        ensures
            r == is_boundary(self@, index as int),
    {
        if index == 0 || index == self.len() {
            return true;
        }
        match self.as_bytes().get(index - 1) {
            None => false,
            // the byte before is the last of its arc
            Some(b) => {
                let b: u8 = *b;
                assert((b & 0x80 == 0) == (b < 0x80)) by (bit_vector);
                b & 0x80 == 0
            },
        }
    }

    /// The arc that begins at byte `i`, if one does.
    pub fn get_arc_at(&self, i: usize) -> (r: Option<Arc>)
        requires
            self.wf(),
        ensures
            r is Some <==> is_boundary(self@, i as int) && i < self@.len(),
            r is Some ==> r->Some_0 == arcs_of(self@.skip(i as int))[0],
    {
        match self.get(i..self.len()) {
            None => None,
            Some(rest) => {
                assert(rest@ =~= self@.skip(i as int));
                let mut arcs = rest.arcs();
                arcs.next()
            },
        }
    }

    /// The part of the fragment from byte `range.start` up to byte
    /// `range.end`, if both are arc boundaries, in that order.
    pub fn get(&self, range: Range<usize>) -> (r: Option<RelativeOid<'a>>)
        requires
            self.wf(),
        ensures
            r is Some <==> can_slice(self@, range.start as int, range.end as int),
            r is Some ==> r->Some_0@ == self@.subrange(range.start as int, range.end as int)
                && r->Some_0.wf(),
    {
        if range.start <= range.end && self.is_arc_boundary(range.start) && self.is_arc_boundary(
            range.end,
        ) {
            Some(self.get_unchecked(range))
        } else {
            None
        }
    }

    /// The part of the fragment from byte `range.start` up to byte
    /// `range.end`, without a test of the two.
    pub fn get_unchecked(&self, range: Range<usize>) -> (r: RelativeOid<'a>)
        requires
            self.wf(),
            can_slice(self@, range.start as int, range.end as int),
        ensures
            r@ == self@.subrange(range.start as int, range.end as int),
            r.wf(),
    {
        proof {
            lemma_fragment_slice(self@, range.start as int, range.end as int);
        }
        RelativeOid::from_bytes_unchecked(slice_subrange(self.as_bytes(), range.start, range.end))
    }

    /// The part of the fragment from byte `range.start` up to byte
    /// `range.end`, for a range that [`Self::get`] would accept.
    pub fn index(&self, range: Range<usize>) -> (r: RelativeOid<'a>)
        requires
            self.wf(),
            can_slice(self@, range.start as int, range.end as int),
        ensures
            r@ == self@.subrange(range.start as int, range.end as int),
            r.wf(),
    {
        self.get_unchecked(range)
    }
}

impl<'a> RelativeOidMut<'a> {
    /// The length of the fragment in bytes.
    pub fn len(&self) -> (r: usize)
        ensures
            r == self@.len(),
    {
        self.bytes.len()
    }

    /// As [`RelativeOid::get`], for a part that may be overwritten.
    ///
    /// What is written to the part is written to `self`, and nowhere else;
    /// `self` is a fragment again as soon as the part is one.
    pub fn get_mut(&mut self, range: Range<usize>) -> (r: Option<RelativeOidMut<'_>>)
        requires
            old(self).wf(),
        ensures
            r is Some <==> can_slice(old(self)@, range.start as int, range.end as int),
            match r {
                Some(part) => {
                    &&& part@ == old(self)@.subrange(range.start as int, range.end as int)
                    &&& part.wf()
                    &&& final(self)@ == old(self)@.take(range.start as int) + final(part.bytes)@
                        + old(self)@.skip(range.end as int)
                    &&& is_fragment(final(part.bytes)@) ==> final(self).wf()
                },
                None => final(self)@ == old(self)@,
            },
            final(final(self).bytes)@ == final(old(self).bytes)@,
    {
        if range.start <= range.end && self.as_oid().is_arc_boundary(range.start)
            && self.as_oid().is_arc_boundary(range.end) {
            Some(self.get_unchecked_mut(range))
        } else {
            None
        }
    }

    /// As [`RelativeOid::get_unchecked`], for a part that may be overwritten.
    pub fn get_unchecked_mut(&mut self, range: Range<usize>) -> (r: RelativeOidMut<'_>)
        requires
            old(self).wf(),
            can_slice(old(self)@, range.start as int, range.end as int),
        ensures
            r@ == old(self)@.subrange(range.start as int, range.end as int),
            r.wf(),
            final(self)@ == old(self)@.take(range.start as int) + final(r.bytes)@ + old(
                self,
            )@.skip(range.end as int),
            is_fragment(final(r.bytes)@) ==> final(self).wf(),
            final(final(self).bytes)@ == final(old(self).bytes)@,
    {
        let ghost s = self@;
        proof {
            lemma_fragment_slice(s, range.start as int, range.end as int);
        }
        let (_, rest) = self.bytes.split_at_mut(range.start);
        let ghost from_start = rest@;
        let (part, _) = rest.split_at_mut(range.end - range.start);
        proof {
            assert(part@ =~= s.subrange(range.start as int, range.end as int));
            assert(from_start.skip(range.end - range.start) =~= s.skip(range.end as int));
            assert(s.subrange(0, range.start as int) =~= s.take(range.start as int));
            let before = s.take(range.start as int);
            let after = s.skip(range.end as int);
            assert forall|now: Seq<u8>| is_fragment(now) implies is_fragment(
                (#[trigger] (before + now)) + after,
            ) by {
                lemma_fragment_splice(before, now, after);
            }
            assert forall|now: Seq<u8>| is_fragment(now) implies is_fragment(
                before + #[trigger] (now + after),
            ) by {
                lemma_fragment_splice(before, now, after);
                assert(before + (now + after) =~= before + now + after);
            }
        }
        RelativeOid::from_mut_bytes_unchecked(part)
    }

    /// As [`RelativeOid::index`], for a part that may be overwritten.
    pub fn index_mut(&mut self, range: Range<usize>) -> (r: RelativeOidMut<'_>)
        requires
            old(self).wf(),
            can_slice(old(self)@, range.start as int, range.end as int),
        ensures
            r@ == old(self)@.subrange(range.start as int, range.end as int),
            r.wf(),
            final(self)@ == old(self)@.take(range.start as int) + final(r.bytes)@ + old(
                self,
            )@.skip(range.end as int),
            is_fragment(final(r.bytes)@) ==> final(self).wf(),
            final(final(self).bytes)@ == final(old(self).bytes)@,
    {
        self.get_unchecked_mut(range)
    }
}

/// The most bytes of a fragment that a message about it shows.
pub const MAX_DISPLAY_LENGTH: usize = 256;

/// How many bytes of `s` a message about it shows: all of them up to
/// [`MAX_DISPLAY_LENGTH`], else as many whole arcs as fit in that.
pub open spec fn shown_len(s: Seq<u8>) -> int {
    if s.len() <= MAX_DISPLAY_LENGTH {
        s.len() as int
    } else {
        boundary_at_or_before(s, MAX_DISPLAY_LENGTH as int)
    }
}

/// How a message shows the fragment `s`, from the text of its arcs on: the
/// arcs that are shown, the closing quote, and a mark where arcs are left
/// out.
pub open spec fn shown(s: Seq<u8>) -> Seq<char> {
    chars_of(dotted(arcs_of(s.take(shown_len(s))))) + "`"@ + if s.len() <= MAX_DISPLAY_LENGTH {
        ""@
    } else {
        "[...]"@
    }
}

/// The message that says why the fragment `s` cannot be cut from `start` up
/// to `end`: that one of the two is beyond its end, the first of them that
/// is; else that they are out of order; else that one of them, the first
/// that does, falls inside an arc, with the value of that arc and the bytes
/// that it takes.
pub open spec fn slice_error_text(s: Seq<u8>, start: int, end: int) -> Seq<char> {
    if start > s.len() || end > s.len() {
        let beyond = if start > s.len() {
            start
        } else {
            end
        };
        "byte index "@ + chars_of(dec_text(beyond as nat)) + " is out of bounds of `"@ + shown(s)
    } else if start > end {
        "start <= end ("@ + chars_of(dec_text(start as nat)) + " <= "@ + chars_of(
            dec_text(end as nat),
        ) + ") when slicing `"@ + shown(s)
    } else {
        let index = if !is_boundary(s, start) {
            start
        } else {
            end
        };
        let arc_start = boundary_at_or_before(s, index);
        let arc = arcs_of(s.skip(arc_start))[0];
        "byte index "@ + chars_of(dec_text(index as nat))
            + " is not an arc boundary; it is inside of an arc "@ + chars_of(dec_text(arc as nat))
            + " (bytes "@ + chars_of(dec_text(arc_start as nat)) + ".."@ + chars_of(
            dec_text((arc_start + encoding_len(arc)) as nat),
        ) + ") in `"@ + shown(s)
    }
}

/// The message that says why `oid` cannot be cut from `start` up to `end`,
/// for a range that [`RelativeOid::get`] refuses.
pub fn slice_error_fail(oid: &RelativeOid, start: usize, end: usize) -> (r: String)
    requires
        oid.wf(),
        !can_slice(oid@, start as int, end as int),
    ensures
        r@ == slice_error_text(oid@, start as int, end as int),
{
    let ghost s = oid@;
    let (truncated, oid_trunc) = truncate_to_arc_boundary(oid, MAX_DISPLAY_LENGTH);
    let ellipsis = if truncated {
        "[...]"
    } else {
        ""
    };
    let mut tail = oid_trunc.to_string();
    tail.append("`");
    tail.append(ellipsis);
    proof {
        assert(s.take(s.len() as int) =~= s);
        assert(oid_trunc@ == s.take(shown_len(s)));
        assert(tail@ =~= shown(s));
    }

    // 1. out of bounds
    if start > oid.len() || end > oid.len() {
        let oob_index = if start > oid.len() {
            start
        } else {
            end
        };
        let mut message = String::from_str("byte index ");
        message.append(decimal_string(oob_index as u64).as_str());
        message.append(" is out of bounds of `");
        message.append(tail.as_str());
        return message;
    }
    // 2. start <= end

    if start > end {
        let mut message = String::from_str("start <= end (");
        message.append(decimal_string(start as u64).as_str());
        message.append(" <= ");
        message.append(decimal_string(end as u64).as_str());
        message.append(") when slicing `");
        message.append(tail.as_str());
        return message;
    }
    // 3. arc boundary

    let index = if !oid.is_arc_boundary(start) {
        start
    } else {
        end
    };
    // find the arc
    let mut arc_start: usize = index;
    while !oid.is_arc_boundary(arc_start)
        invariant
            s == oid@,
            arc_start <= index,
            boundary_at_or_before(s, index as int) == boundary_at_or_before(s, arc_start as int),
        decreases arc_start,
    {
        arc_start -= 1;
    }
    proof {
        lemma_arc_at_boundary(s, arc_start as int);
    }
    let arc: Arc = match oid.get_arc_at(arc_start) {
        Some(arc) => arc,
        None => 0,
    };
    let arc_end: usize = arc_start + b128_len(arc);
    let mut message = String::from_str("byte index ");
    message.append(decimal_string(index as u64).as_str());
    message.append(" is not an arc boundary; it is inside of an arc ");
    message.append(decimal_string(arc as u64).as_str());
    message.append(" (bytes ");
    message.append(decimal_string(arc_start as u64).as_str());
    message.append("..");
    message.append(decimal_string(arc_end as u64).as_str());
    message.append(") in `");
    message.append(tail.as_str());
    message
}

/// The part of `oid` that a message shows where it may show `max` bytes:
/// all of it, or as many whole arcs as fit; and whether arcs are left out.
pub fn truncate_to_arc_boundary<'a>(oid: &RelativeOid<'a>, max: usize) -> (r: (
    bool,
    RelativeOid<'a>,
))
    requires
        oid.wf(),
    ensures
        r.0 == (oid@.len() > max),
        !r.0 ==> r.1@ == oid@,
        r.0 ==> r.1@ == oid@.take(boundary_at_or_before(oid@, max as int)),
        r.1@.len() <= max,
        is_boundary(oid@, r.1@.len() as int),
        r.1.wf(),
{
    proof {
        lemma_boundary_at_or_before(oid@, max as int);
    }
    if oid.len() <= max {
        (false, *oid)
    } else {
        let mut cut: usize = max;
        while !oid.is_arc_boundary(cut)
            invariant
                cut < oid@.len(),
                boundary_at_or_before(oid@, max as int) == boundary_at_or_before(oid@, cut as int),
            decreases cut,
        {
            cut -= 1;
        }
        let part = oid.index(0..cut);
        assert(part@ =~= oid@.take(cut as int));
        (true, part)
    }
}

/// How many bytes the base-128 form of `arc` takes.
pub fn b128_len(arc: Arc) -> (r: usize)
    ensures
        r == encoding_len(arc),
{
    if arc <= 0x7f {
        1
    } else if arc <= 0x3fff {
        2
    } else if arc <= 0x1f_ffff {
        3
    } else if arc <= 0xfff_ffff {
        4
    } else {
        5
    }
}

} // verus!
