//! What a run of base-128 bytes means.
//!
//! Everything here is a function on `Seq<u8>`: which byte runs are one arc,
//! which are a fragment (zero or more arcs, back to back), what their arcs
//! are, where the arcs start, and what is wrong with a run that is not a
//! fragment.
use vstd::prelude::*;
use crate::borrowed::{B128Error, B128ErrorKind, OidDecodingError, RootError, MAX_ROOT_BYTE};
use crate::{Arc, Position};

verus! {

/// Whether `b` has its high bit set: another byte of the same arc follows.
pub open spec fn has_cont(b: u8) -> bool {
    b >= 0x80
}

/// The seven low bits of `b`: one base-128 digit.
pub open spec fn digit(b: u8) -> nat {
    (b % 0x80) as nat
}

/// The number that the digits of `enc` spell, most significant first.
pub open spec fn arc_value(enc: Seq<u8>) -> nat
    decreases enc.len(),
{
    if enc.len() == 0 {
        0
    } else {
        arc_value(enc.drop_last()) * 128 + digit(enc.last())
    }
}

/// How many bytes at the head of `s` have their high bit set.
pub open spec fn cont_run(s: Seq<u8>) -> nat
    decreases s.len(),
{
    if s.len() == 0 || !has_cont(s[0]) {
        0
    } else {
        1 + cont_run(s.drop_first())
    }
}

/// The length of the arc at the head of `s`: its continued bytes and the
/// byte that ends it. Exceeds `s.len()` when the bytes run out first.
pub open spec fn head_len(s: Seq<u8>) -> nat {
    cont_run(s) + 1
}

/// `s` is zero or more arcs with nothing left over, each ended by a byte
/// without the high bit, none beginning with a redundant `0x80`, and none
/// above `Arc::MAX`.
pub open spec fn is_fragment(s: Seq<u8>) -> bool
    decreases s.len(),
{
    s.len() == 0 || {
        let n = head_len(s);
        &&& n <= s.len()
        &&& s[0] != 0x80
        &&& arc_value(s.take(n as int)) <= Arc::MAX
        &&& is_fragment(s.skip(n as int))
    }
}

/// `s` is a whole OID: a byte that packs the first two arcs, then a fragment.
pub open spec fn is_identifier(s: Seq<u8>) -> bool {
    &&& s.len() >= 1
    &&& s[0] <= MAX_ROOT_BYTE
    &&& is_fragment(s.skip(1))
}

/// The arcs of a fragment, in order.
pub open spec fn arcs_of(s: Seq<u8>) -> Seq<Arc>
    decreases s.len(),
{
    let n = head_len(s);
    if s.len() == 0 || n > s.len() {
        Seq::empty()
    } else {
        seq![arc_value(s.take(n as int)) as Arc] + arcs_of(s.skip(n as int))
    }
}

/// Whether an arc begins at offset `i` of `s`, or `s` ends there: `i` is
/// the start, the end, or comes right after a byte without the high bit.
pub open spec fn is_boundary(s: Seq<u8>, i: int) -> bool {
    i == 0 || i == s.len() || (0 < i < s.len() && !has_cont(s[i - 1]))
}

/// Whether `s` may be cut to its bytes from `start` up to `end`: the two are
/// in order and both on a boundary, hence within `s`.
pub open spec fn can_slice(s: Seq<u8>, start: int, end: int) -> bool {
    start <= end && is_boundary(s, start) && is_boundary(s, end)
}

/// Whether offset `i` of `s` is reached by walking `s` arc by arc from its
/// start: the offsets at which the arcs of `s` begin, and, where the arcs
/// fill `s`, its end.
pub open spec fn is_arc_start(s: Seq<u8>, i: int) -> bool
    decreases s.len(),
{
    i == 0 || {
        let n = head_len(s);
        &&& s.len() > 0
        &&& n <= s.len()
        &&& n <= i
        &&& is_arc_start(s.skip(n as int), i - n)
    }
}

/// The last boundary of `s` at or before offset `i`.
pub open spec fn boundary_at_or_before(s: Seq<u8>, i: int) -> int
    decreases i,
{
    if i <= 0 || is_boundary(s, i) {
        i
    } else {
        boundary_at_or_before(s, i - 1)
    }
}

/// The two arcs that the root byte `b` packs.
pub open spec fn root_arcs(b: u8) -> Seq<Arc> {
    seq![(b / 40) as Arc, (b % 40) as Arc]
}

/// The arcs of a whole OID: the two of its root, then those of its tail.
pub open spec fn identifier_arcs(s: Seq<u8>) -> Seq<Arc>
    recommends
        s.len() > 0,
{
    root_arcs(s[0]) + arcs_of(s.skip(1))
}

/// The digits of `q`, most significant first, each with the high bit set;
/// no digits at all for zero.
pub open spec fn cont_digits(q: nat) -> Seq<u8>
    decreases q,
{
    if q == 0 {
        Seq::empty()
    } else {
        cont_digits(q / 128).push((0x80 + q % 128) as u8)
    }
}

/// The base-128 form of `v`: its digits above the lowest with the high bit
/// set, then the lowest digit without it.
pub open spec fn encoding(v: nat) -> Seq<u8> {
    cont_digits(v / 128).push((v % 128) as u8)
}

/// The base-128 forms of `arcs`, one after the other.
pub open spec fn encoding_of(arcs: Seq<Arc>) -> Seq<u8>
    decreases arcs.len(),
{
    if arcs.len() == 0 {
        Seq::empty()
    } else {
        encoding(arcs[0] as nat) + encoding_of(arcs.drop_first())
    }
}

/// How many bytes the base-128 form of `arc` takes.
pub open spec fn encoding_len(arc: Arc) -> nat {
    if arc < 0x80 {
        1
    } else if arc < 0x4000 {
        2
    } else if arc < 0x20_0000 {
        3
    } else if arc < 0x1000_0000 {
        4
    } else {
        5
    }
}

/// `128` to the power `k`.
pub open spec fn pow128(k: nat) -> nat
    decreases k,
{
    if k == 0 {
        1
    } else {
        128 * pow128((k - 1) as nat)
    }
}

/// How many bytes may follow the leading byte `lead` of an arc that fits in
/// an [`Arc`]: four where the lead holds at most the four bits that 32 leaves
/// over from four full digits, else three.
pub open spec fn tail_limit(lead: u8) -> nat {
    if digit(lead) < 16 {
        4
    } else {
        3
    }
}

/// What is wrong with the arc at the head of the non-empty run `s`.
///
/// A leading `0x80` is a redundant zero digit. Otherwise the arc is out of
/// range once one byte more than `tail_limit` allows follows the lead, whether
/// or not that byte ends the arc; and it is unfinished where every byte up to
/// the end of `s` has its high bit set.
pub open spec fn head_fault(s: Seq<u8>) -> Option<B128ErrorKind>
    recommends
        s.len() > 0,
{
    let limit = tail_limit(s[0]);
    if s[0] == 0x80 {
        Some(B128ErrorKind::ZeroByteWithCont)
    } else if cont_run(s) > limit && s.len() > limit + 1 {
        Some(B128ErrorKind::OutOfRange)
    } else if cont_run(s) == s.len() {
        Some(B128ErrorKind::Unfinished)
    } else {
        None
    }
}

/// A fault found `by` bytes further on.
pub open spec fn fault_after(by: nat, fault: Option<(nat, B128ErrorKind)>) -> Option<
    (nat, B128ErrorKind),
> {
    match fault {
        Some((at, kind)) => Some((at + by, kind)),
        None => None,
    }
}

/// The first arc of `s` that is at fault, by the offset of its first byte,
/// and what is wrong with it.
pub open spec fn first_fault(s: Seq<u8>) -> Option<(nat, B128ErrorKind)>
    decreases s.len(),
    via first_fault_decreases
{
    if s.len() == 0 {
        None
    } else if head_fault(s) is Some {
        Some((0, head_fault(s)->Some_0))
    } else {
        fault_after(head_len(s), first_fault(s.skip(head_len(s) as int)))
    }
}

#[via_fn]
proof fn first_fault_decreases(s: Seq<u8>) {
    lemma_cont_run(s);
}

/// The error that validation reports for `s`: its first fault, with the
/// offset cut down to the sixteen bits of a [`Position`].
pub open spec fn fault_report(s: Seq<u8>) -> Option<B128Error> {
    match first_fault(s) {
        Some((at, kind)) => Some(B128Error { kind, pos: (at % 0x1_0000) as Position }),
        None => None,
    }
}

/// The error that validation reports for `s` as a whole OID: that it is
/// empty, else that its first byte packs no two arcs, else the first fault of
/// the bytes after the first. The offset of that fault counts from the start
/// of `s`, one more than it counts in the bytes after the first, and is cut
/// down to the sixteen bits of a [`Position`].
pub open spec fn identifier_fault(s: Seq<u8>) -> Option<OidDecodingError> {
    if s.len() == 0 {
        Some(OidDecodingError::Empty)
    } else if s[0] > MAX_ROOT_BYTE {
        Some(OidDecodingError::Root(RootError))
    } else {
        match first_fault(s.skip(1)) {
            Some((at, kind)) => Some(
                OidDecodingError::Base128(
                    B128Error { kind, pos: ((at + 1) % 0x1_0000) as Position },
                ),
            ),
            None => None,
        }
    }
}

/// `cont_run` counts exactly the bytes before the first one without the high
/// bit.
pub proof fn lemma_cont_run(s: Seq<u8>)
    ensures
        cont_run(s) <= s.len(),
        forall|i: int| 0 <= i < cont_run(s) ==> has_cont(#[trigger] s[i]),
        cont_run(s) < s.len() ==> !has_cont(s[cont_run(s) as int]),
    decreases s.len(),
{
    if s.len() != 0 && has_cont(s[0]) {
        let t = s.drop_first();
        lemma_cont_run(t);
        assert forall|i: int| 0 <= i < cont_run(s) implies has_cont(#[trigger] s[i]) by {
            if i > 0 {
                assert(s[i] == t[i - 1]);
            }
        }
        if cont_run(s) < s.len() {
            assert(s[cont_run(s) as int] == t[cont_run(t) as int]);
        }
    }
}

/// A count with the three properties of `lemma_cont_run` is `cont_run`.
pub proof fn lemma_cont_run_is(s: Seq<u8>, r: nat)
    requires
        r <= s.len(),
        forall|i: int| 0 <= i < r ==> has_cont(#[trigger] s[i]),
        r < s.len() ==> !has_cont(s[r as int]),
    ensures
        cont_run(s) == r,
    decreases s.len(),
{
    if r > 0 {
        let t = s.drop_first();
        assert(has_cont(s[0]));
        assert forall|i: int| 0 <= i < r - 1 implies has_cont(#[trigger] t[i]) by {
            assert(t[i] == s[i + 1]);
        }
        if r < s.len() {
            assert(t[r - 1] == s[r as int]);
        }
        lemma_cont_run_is(t, (r - 1) as nat);
    }
}

} // verus!
