//! Writing one arc in base 128.
use vstd::prelude::*;
use crate::base128::{arcs_of, cont_digits, encoding};
use crate::lemmas::lemma_encoding_is_fragment;
use crate::{Arc, RelativeOid, RelativeOidMut, ARC_LEN};

verus! {

/// Writes the base-128 form of `arc` at the end of `buf` and hands out the
/// bytes written, as a view of that one arc. The bytes before them stay as
/// they were.
pub fn write_b128(buf: &mut [u8; ARC_LEN], arc: Arc) -> (r: RelativeOidMut<'_>)
    ensures
        r@ == encoding(arc as nat),
        r.wf(),
        arcs_of(r@) == seq![arc],
        final(buf)@ == old(buf)@.take(ARC_LEN - r@.len()) + final(r.bytes)@,
{
    let ghost whole: nat = arc as nat;
    let mut arc: Arc = arc;
    let mut k: usize = ARC_LEN - 1;
    assert(arc & 0x7f == arc % 128) by (bit_vector);
    assert(arc >> 7 == arc / 128) by (bit_vector);
    buf[k] = (arc & 0x7f) as u8;
    arc >>= 7;
    while arc > 0
        invariant
            k <= 4,
            k == 4 ==> arc < 0x200_0000,
            k == 3 ==> arc < 0x4_0000,
            k == 2 ==> arc < 0x800,
            k == 1 ==> arc < 0x10,
            k == 0 ==> arc == 0,
            buf@.take(k as int) == old(buf)@.take(k as int),
            buf@[4] == (whole % 128) as u8,
            cont_digits(whole / 128) == cont_digits(arc as nat) + buf@.subrange(k as int, 4),
        decreases arc,
    {
        let ghost before = buf@;
        k -= 1;
        assert(arc & 0x7f == arc % 128) by (bit_vector);
        assert(arc >> 7 == arc / 128) by (bit_vector);
        let low: u8 = (arc & 0x7f) as u8;
        assert(0x80 | low == 0x80 + low) by (bit_vector)
            requires
                low < 0x80,
        ;
        buf[k] = 0x80 | low;
        proof {
            assert(buf@.subrange(k as int, 4) =~= seq![(0x80 + arc % 128) as u8]
                + before.subrange(k + 1, 4));
            assert(cont_digits(arc as nat) + before.subrange(k + 1, 4) =~= cont_digits(
                (arc / 128) as nat,
            ) + buf@.subrange(k as int, 4));
            assert(buf@.take(k as int) =~= before.take(k + 1).take(k as int));
            assert(old(buf)@.take(k as int) =~= old(buf)@.take(k + 1).take(k as int));
        }
        arc >>= 7;
    }
    let ghost written = buf@;
    let bytes: &mut [u8] = buf;
    let (_, tail) = bytes.split_at_mut(k);
    proof {
        assert(cont_digits(0) =~= Seq::<u8>::empty());
        assert(tail@ =~= written.subrange(k as int, 4).push(written[4]));
        assert(tail@ == encoding(whole));
        lemma_encoding_is_fragment(whole as Arc);
    }
    RelativeOid::from_mut_bytes_unchecked(tail)
}

} // verus!
