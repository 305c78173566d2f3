//! What holds of the library as a whole.
//!
//! Each law is a proof about the model of [`crate::base128`] and
//! [`crate::text`], in the terms in which the functions of the crate state
//! what they return.
use vstd::prelude::*;
use crate::base128::{
    arc_value, arcs_of, can_slice, cont_run, digit, encoding, encoding_len, encoding_of,
    fault_report, has_cont, head_len, is_arc_start, is_boundary, is_fragment, lemma_cont_run,
    pow128,
};
use crate::lemmas::{
    lemma_arc_is_encoding, lemma_arc_len, lemma_arc_value_bounds, lemma_boundary_is_arc_start,
    lemma_encoding_is_arc, lemma_encoding_is_fragment, lemma_encoding_of_is_fragment,
    lemma_fault_free_iff_fragment, lemma_head_is_arc, lemma_pow128_grows,
};
use crate::parse::{
    absolute_accepted, absolute_bytes, absolute_rejected, as_arcs, as_numbers, double_dot_at,
    in_range, is_plain, is_text_byte, joined, lemma_accepted_is_list, numbers, relative_bytes,
    text_accepted, text_rejected, without_leading_dot, OidParsingError,
};
use crate::text::{dec_text, dotted, identifier_text, root_text, DOT};
use crate::text_lemmas::{lemma_joined_is_dotted, lemma_joined_numbers, lemma_numbers_of_dotted};
use crate::Arc;

verus! {

/// What is written for one arc is read back as that arc and nothing else.
///
/// [`write_b128`](crate::write_b128) writes `encoding(arc)`; validation
/// accepts it, and [`RelativeArcs`](crate::RelativeArcs) walks `arcs_of` it.
pub proof fn law_decode_of_encode(arc: Arc)
    ensures
        is_fragment(encoding(arc as nat)),
        fault_report(encoding(arc as nat)) is None,
        arcs_of(encoding(arc as nat)) == seq![arc],
{
    lemma_encoding_is_fragment(arc);
    lemma_fault_free_iff_fragment(encoding(arc as nat));
}

/// What is written for arcs one after the other is accepted by validation,
/// and is read back as those arcs.
pub proof fn law_decode_of_encode_all(arcs: Seq<Arc>)
    ensures
        is_fragment(encoding_of(arcs)),
        fault_report(encoding_of(arcs)) is None,
        arcs_of(encoding_of(arcs)) == arcs,
{
    lemma_encoding_of_is_fragment(arcs);
    lemma_fault_free_iff_fragment(encoding_of(arcs));
}

/// Every fragment is what is written for its arcs one after the other: no
/// two fragments have the same arcs.
pub proof fn law_encode_of_decode(f: Seq<u8>)
    requires
        is_fragment(f),
    ensures
        encoding_of(arcs_of(f)) == f,
    decreases f.len(),
{
    if f.len() == 0 {
        assert(encoding_of(arcs_of(f)) =~= f);
    } else {
        let n = head_len(f) as int;
        let head = f.take(n);
        let rest = f.skip(n);
        lemma_head_is_arc(f);
        assert(head[0] == f[0]);
        lemma_arc_is_encoding(head);
        law_encode_of_decode(rest);
        let arcs = arcs_of(f);
        assert(arcs.drop_first() =~= arcs_of(rest));
        assert(arcs[0] as nat == arc_value(head));
        assert(head + rest =~= f);
    }
}

/// A fragment cut from its start up to its end is the fragment itself.
///
/// [`RelativeOid::get`](crate::RelativeOid::get) gives `Some` exactly on
/// `can_slice`, and then the bytes of the range.
pub proof fn law_slice_of_everything(s: Seq<u8>)
    ensures
        can_slice(s, 0, s.len() as int),
        s.subrange(0, s.len() as int) == s,
{
    assert(s.subrange(0, s.len() as int) =~= s);
}

/// In a fragment, [`is_boundary`] holds of exactly the offsets at which an
/// arc begins, and of the end.
///
/// [`RelativeOid::is_arc_boundary`](crate::RelativeOid::is_arc_boundary)
/// computes `is_boundary` from the one byte before the offset;
/// [`is_arc_start`] walks the fragment arc by arc.
pub proof fn law_boundary_is_arc_start(f: Seq<u8>, i: int)
    requires
        is_fragment(f),
    ensures
        is_boundary(f, i) <==> is_arc_start(f, i),
{
    lemma_boundary_is_arc_start(f, i);
}

/// What is written for an arc does not begin with `0x80`, and takes as many
/// bytes as [`encoding_len`] says.
pub proof fn law_encoding_has_no_leading_zero(arc: Arc)
    ensures
        encoding(arc as nat)[0] != 0x80,
        encoding(arc as nat).len() == encoding_len(arc),
{
    lemma_encoding_is_arc(arc as nat);
    lemma_arc_len(encoding(arc as nat));
}

/// No run of digits that ends where its high bits say, and spells `arc`, is
/// shorter than what is written for `arc`.
pub proof fn law_encoding_is_shortest(arc: Arc, enc: Seq<u8>)
    requires
        enc.len() > 0,
        cont_run(enc) == enc.len() - 1,
        arc_value(enc) == arc,
    ensures
        encoding(arc as nat).len() <= enc.len(),
{
    let short = encoding(arc as nat);
    lemma_encoding_is_arc(arc as nat);
    if short.len() > 1 {
        let a = (short.len() - 1) as nat;
        let b = (enc.len() - 1) as nat;
        lemma_arc_value_bounds(short);
        lemma_arc_value_bounds(enc);
        lemma_cont_run(short);
        let d = digit(short[0]);
        let e = digit(enc[0]);
        assert(has_cont(short[0]));
        assert(d >= 1);
        if b < a {
            lemma_pow128_grows(b + 1, a);
            lemma_pow128_grows(b, b);
            let pa = pow128(a);
            let pb = pow128(b);
            assert(pow128(b + 1) == 128 * pb);
            assert(false) by (nonlinear_arith)
                requires
                    d * pa <= arc,
                    arc < (e + 1) * pb,
                    d >= 1,
                    e < 128,
                    128 * pb <= pa,
                    pb > 0,
            ;
        }
    }
}

/// A whole OID that is read from text and written as text again is the
/// text that was read, without the dot at its start, where no number of the
/// text is written with a zero before its digits.
///
/// [`AbsoluteOidVec::parse`](crate::AbsoluteOidVec::parse) gives the bytes
/// `absolute_bytes` of a text that it accepts, and
/// [`AbsoluteOidVec::to_string`](crate::AbsoluteOidVec::to_string) gives
/// `identifier_text` of the bytes.
pub proof fn law_text_of_parsed_text(t: Seq<u8>)
    requires
        absolute_accepted(t),
        in_range(numbers(without_leading_dot(t))),
        is_plain(without_leading_dot(t)),
    ensures
        identifier_text(absolute_bytes(t)) == without_leading_dot(t),
{
    let u = without_leading_dot(t);
    let ns = numbers(u);
    let bytes = absolute_bytes(t);
    let tail = as_arcs(ns.skip(2));
    lemma_accepted_is_list(t);
    lemma_joined_numbers(u);
    lemma_encoding_of_is_fragment(tail);
    assert(bytes.skip(1) =~= encoding_of(tail));
    assert(bytes[0] == ns[0] * 40 + ns[1]);
    assert(bytes[0] / 40 == ns[0] && bytes[0] % 40 == ns[1]);
    lemma_joined_is_dotted(ns);
    let rest = ns.drop_first();
    assert forall|i: int| 0 <= i < rest.len() implies #[trigger] rest[i] <= Arc::MAX by {
        assert(rest[i] == ns[i + 1]);
    }
    lemma_joined_is_dotted(rest);
    assert(rest.drop_first() =~= ns.skip(2));
    assert(rest[0] == ns[1]);
    assert(joined(ns) == dec_text(ns[0]) + seq![DOT] + joined(rest));
    assert(identifier_text(bytes) =~= joined(ns));
}

/// A fragment that is written as text and read from that text again is
/// the fragment that was written.
///
/// [`RelativeOid::to_string`](crate::RelativeOid::to_string) gives `dotted`
/// of the arcs of the fragment, and
/// [`RelativeOidVec::parse`](crate::RelativeOidVec::parse) gives the bytes
/// `relative_bytes` of a text that it accepts, which it does where the text
/// is in order and its numbers are in range.
pub proof fn law_parse_of_written_text(f: Seq<u8>)
    requires
        is_fragment(f),
    ensures
        text_accepted(dotted(arcs_of(f))),
        in_range(numbers(without_leading_dot(dotted(arcs_of(f))))),
        relative_bytes(dotted(arcs_of(f))) == f,
{
    let arcs = arcs_of(f);
    lemma_numbers_of_dotted(arcs);
    assert(as_arcs(as_numbers(arcs)) =~= arcs);
    law_encode_of_decode(f);
}

/// A text is refused with one error only, and no text that is refused is
/// in order: [`parse_relative`](crate::parse_relative) gives the error `e`
/// exactly for the texts with `text_rejected(t, e)`.
pub proof fn law_text_is_refused_once(t: Seq<u8>, one: OidParsingError, other: OidParsingError)
    requires
        text_rejected(t, one),
        text_rejected(t, other),
    ensures
        one == other,
        !text_accepted(t),
{
    match (one, other) {
        (OidParsingError::InvalidChar(here), OidParsingError::InvalidChar(there)) => {
            if here < there {
                assert(is_text_byte(t[here as int]));
            }
            if there < here {
                assert(is_text_byte(t[there as int]));
            }
        },
        (OidParsingError::InvalidChar(p), OidParsingError::IntegerExpected(_)) => {
            assert(is_text_byte(t[p as int]));
        },
        (OidParsingError::IntegerExpected(_), OidParsingError::InvalidChar(p)) => {
            assert(is_text_byte(t[p as int]));
        },
        (OidParsingError::IntegerExpected(here), OidParsingError::IntegerExpected(there)) => {
            if double_dot_at(t, here as int) && double_dot_at(t, there as int) {
                if here < there {
                    assert(!double_dot_at(t, here as int));
                }
                if there < here {
                    assert(!double_dot_at(t, there as int));
                }
            }
        },
        _ => {},
    }
}

/// A text is refused as a whole OID with one error only, and no text that
/// is refused is one: [`parse_absolute`](crate::parse_absolute) gives the
/// error `e` exactly for the texts with `absolute_rejected(t, e)`.
pub proof fn law_absolute_is_refused_once(t: Seq<u8>, one: OidParsingError, other: OidParsingError)
    requires
        absolute_rejected(t, one),
        absolute_rejected(t, other),
    ensures
        one == other,
        !absolute_accepted(t),
{
    if !(t.len() == 0 || t == seq![DOT]) && !text_accepted(t) {
        law_text_is_refused_once(t, one, other);
    }
}

} // verus!
