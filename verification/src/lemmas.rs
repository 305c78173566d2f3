//! Facts about the model of [`crate::base128`] that the contracts of the
//! crate are proved from.
use vstd::prelude::*;
use crate::base128::{
    arc_value, arcs_of, boundary_at_or_before, can_slice, cont_digits, cont_run, digit, encoding, encoding_len,
    encoding_of, first_fault, has_cont, head_fault, head_len, is_arc_start, is_boundary,
    is_fragment, lemma_cont_run, lemma_cont_run_is, pow128, tail_limit,
};
use crate::Arc;

verus! {

/// The value of a non-empty digit run lies between its leading digit times
/// the weight of that digit and one weight more.
pub proof fn lemma_arc_value_bounds(enc: Seq<u8>)
    requires
        enc.len() > 0,
    ensures
        digit(enc[0]) * pow128((enc.len() - 1) as nat) <= arc_value(enc),
        arc_value(enc) < (digit(enc[0]) + 1) * pow128((enc.len() - 1) as nat),
    decreases enc.len(),
{
    let d0 = digit(enc[0]);
    if enc.len() == 1 {
        assert(enc.drop_last().len() == 0);
        assert(arc_value(enc.drop_last()) == 0);
        assert(arc_value(enc) == d0);
        assert(pow128(0) == 1);
    } else {
        let front = enc.drop_last();
        lemma_arc_value_bounds(front);
        assert(front[0] == enc[0]);
        let v = arc_value(front);
        let d = digit(enc.last());
        let p = pow128((enc.len() - 2) as nat);
        assert(pow128((enc.len() - 1) as nat) == 128 * p);
        assert(d0 * (128 * p) <= v * 128 + d && v * 128 + d < (d0 + 1) * (128 * p))
            by (nonlinear_arith)
            requires
                d0 * p <= v,
                v < (d0 + 1) * p,
                d < 128,
        ;
    }
}

/// From the fifth power on, `pow128` is beyond every [`Arc`].
pub proof fn lemma_pow128_large(k: nat)
    requires
        k >= 5,
    ensures
        pow128(k) >= 0x8_0000_0000,
    decreases k,
{
    reveal_with_fuel(pow128, 6);
    if k > 5 {
        lemma_pow128_large((k - 1) as nat);
    }
}

/// An arc that does not begin with `0x80` is at most `Arc::MAX` exactly when
/// no more bytes follow its lead than `tail_limit` allows.
pub proof fn lemma_arc_fits(enc: Seq<u8>)
    requires
        enc.len() > 0,
        cont_run(enc) == enc.len() - 1,
        enc[0] != 0x80,
    ensures
        arc_value(enc) <= Arc::MAX <==> cont_run(enc) <= tail_limit(enc[0]),
{
    let r = cont_run(enc);
    let d0 = digit(enc[0]);
    let p = pow128(r);
    let v = arc_value(enc);
    lemma_arc_value_bounds(enc);
    lemma_cont_run(enc);
    reveal_with_fuel(pow128, 6);
    assert(Arc::MAX == 0xffff_ffff);
    assert(d0 < 128);
    if r == 0 {
        assert(p == 1);
        assert(v < 128) by (nonlinear_arith)
            requires
                v < (d0 + 1) * p,
                d0 < 128,
                p == 1,
        ;
    } else if r <= 3 {
        assert(p <= 0x20_0000);
        assert(v < 0x1000_0000) by (nonlinear_arith)
            requires
                v < (d0 + 1) * p,
                d0 < 128,
                p <= 0x20_0000,
        ;
    } else if r == 4 {
        assert(p == 0x1000_0000);
        if d0 < 16 {
            assert(v < 0x1_0000_0000) by (nonlinear_arith)
                requires
                    v < (d0 + 1) * p,
                    d0 < 16,
                    p == 0x1000_0000,
            ;
        } else {
            assert(v >= 0x1_0000_0000) by (nonlinear_arith)
                requires
                    d0 * p <= v,
                    d0 >= 16,
                    p == 0x1000_0000,
            ;
        }
    } else {
        lemma_pow128_large(r);
        assert(has_cont(enc[0]));
        assert(d0 >= 1);
        assert(v >= 0x8_0000_0000) by (nonlinear_arith)
            requires
                d0 * p <= v,
                d0 >= 1,
                p >= 0x8_0000_0000,
        ;
    }
}

/// The bytes of the arc at the head of `s` form an arc of their own.
pub proof fn lemma_head_is_arc(s: Seq<u8>)
    requires
        head_len(s) <= s.len(),
    ensures
        cont_run(s.take(head_len(s) as int)) == cont_run(s),
{
    lemma_cont_run(s);
    let r = cont_run(s);
    let head = s.take(head_len(s) as int);
    assert forall|i: int| 0 <= i < r implies has_cont(#[trigger] head[i]) by {
        assert(head[i] == s[i]);
    }
    assert(head[r as int] == s[r as int]);
    lemma_cont_run_is(head, r);
}

/// The arc at the head of a non-empty run is without fault exactly when it
/// is complete, does not begin with `0x80` and is at most `Arc::MAX`.
pub proof fn lemma_head_fault(s: Seq<u8>)
    requires
        s.len() > 0,
    ensures
        head_fault(s) is None <==> {
            &&& head_len(s) <= s.len()
            &&& s[0] != 0x80
            &&& arc_value(s.take(head_len(s) as int)) <= Arc::MAX
        },
{
    lemma_cont_run(s);
    if head_len(s) <= s.len() && s[0] != 0x80 {
        let head = s.take(head_len(s) as int);
        lemma_head_is_arc(s);
        assert(head[0] == s[0]);
        lemma_arc_fits(head);
    }
}

/// A run of bytes is a fragment exactly when validation finds no fault in it.
pub proof fn lemma_fault_free_iff_fragment(s: Seq<u8>)
    ensures
        first_fault(s) is None <==> is_fragment(s),
    decreases s.len(),
{
    if s.len() > 0 {
        lemma_head_fault(s);
        if head_fault(s) is None {
            lemma_fault_free_iff_fragment(s.skip(head_len(s) as int));
        }
    }
}

/// The arc at the head of `a` is the arc at the head of `a + b`.
pub proof fn lemma_head_of_concat(a: Seq<u8>, b: Seq<u8>)
    requires
        head_len(a) <= a.len(),
    ensures
        cont_run(a + b) == cont_run(a),
{
    lemma_cont_run(a);
    let r = cont_run(a);
    assert forall|i: int| 0 <= i < r implies has_cont(#[trigger] (a + b)[i]) by {
        assert((a + b)[i] == a[i]);
    }
    assert((a + b)[r as int] == a[r as int]);
    lemma_cont_run_is(a + b, r);
}

/// Two fragments, one after the other, are a fragment of the arcs of both.
pub proof fn lemma_fragment_concat(a: Seq<u8>, b: Seq<u8>)
    requires
        is_fragment(a),
        is_fragment(b),
    ensures
        is_fragment(a + b),
        arcs_of(a + b) == arcs_of(a) + arcs_of(b),
    decreases a.len(),
{
    if a.len() == 0 {
        assert(a + b =~= b);
        assert(arcs_of(a) + arcs_of(b) =~= arcs_of(b));
    } else {
        let n = head_len(a) as int;
        lemma_head_of_concat(a, b);
        lemma_fragment_concat(a.skip(n), b);
        assert((a + b).take(n) =~= a.take(n));
        assert((a + b).skip(n) =~= a.skip(n) + b);
        assert((a + b)[0] == a[0]);
        assert(arcs_of(a + b) =~= arcs_of(a) + arcs_of(b));
    }
}

/// A fragment that is not empty ends with a byte without the high bit.
pub proof fn lemma_fragment_ends(s: Seq<u8>)
    requires
        is_fragment(s),
        s.len() > 0,
    ensures
        !has_cont(s.last()),
    decreases s.len(),
{
    let n = head_len(s) as int;
    lemma_cont_run(s);
    if n < s.len() {
        lemma_fragment_ends(s.skip(n));
        assert(s.skip(n).last() == s.last());
    }
}

/// No boundary of a fragment lies inside its first arc.
pub proof fn lemma_boundary_past_head(s: Seq<u8>, i: int)
    requires
        is_fragment(s),
        is_boundary(s, i),
        i != 0,
    ensures
        s.len() > 0,
        head_len(s) <= i <= s.len(),
        is_boundary(s.skip(head_len(s) as int), i - head_len(s)),
{
    lemma_cont_run(s);
    let n = head_len(s) as int;
    if i < n {
        assert(has_cont(s[i - 1]));
    }
    if n < i < s.len() {
        assert(s.skip(n)[i - n - 1] == s[i - 1]);
    }
}

/// The first arc of what a fragment holds up to a boundary past its first
/// arc is that same arc.
pub proof fn lemma_head_of_take(s: Seq<u8>, i: int)
    requires
        head_len(s) <= i <= s.len(),
    ensures
        cont_run(s.take(i)) == cont_run(s),
{
    lemma_cont_run(s);
    let r = cont_run(s);
    assert forall|k: int| 0 <= k < r implies has_cont(#[trigger] s.take(i)[k]) by {
        assert(s.take(i)[k] == s[k]);
    }
    assert(s.take(i)[r as int] == s[r as int]);
    lemma_cont_run_is(s.take(i), r);
}

/// A fragment cut at a boundary gives two fragments, whose arcs are those of
/// the whole.
pub proof fn lemma_fragment_split(s: Seq<u8>, i: int)
    requires
        is_fragment(s),
        is_boundary(s, i),
    ensures
        is_fragment(s.take(i)),
        is_fragment(s.skip(i)),
        arcs_of(s) == arcs_of(s.take(i)) + arcs_of(s.skip(i)),
    decreases s.len(),
{
    if i == 0 {
        assert(s.skip(0) =~= s);
        assert(arcs_of(s.take(0)) + arcs_of(s) =~= arcs_of(s));
    } else {
        let n = head_len(s) as int;
        lemma_boundary_past_head(s, i);
        let rest = s.skip(n);
        lemma_fragment_split(rest, i - n);
        lemma_head_of_take(s, i);
        let front = s.take(i);
        assert(front.take(n) =~= s.take(n));
        assert(front.skip(n) =~= rest.take(i - n));
        assert(rest.skip(i - n) =~= s.skip(i));
        assert(front[0] == s[0]);
        assert(arcs_of(s) =~= arcs_of(front) + arcs_of(s.skip(i)));
    }
}

/// A fragment cut at two boundaries in order gives a fragment.
pub proof fn lemma_fragment_slice(s: Seq<u8>, start: int, end: int)
    requires
        is_fragment(s),
        can_slice(s, start, end),
    ensures
        is_fragment(s.subrange(start, end)),
        is_fragment(s.take(start)),
        is_fragment(s.skip(end)),
{
    lemma_fragment_split(s, end);
    let front = s.take(end);
    if 0 < start < end {
        assert(front[start - 1] == s[start - 1]);
    }
    lemma_fragment_split(front, start);
    assert(front.skip(start) =~= s.subrange(start, end));
    assert(front.take(start) =~= s.take(start));
}

/// Where `before`, `now` and `after` are fragments, so is what they make up
/// together: a fragment stays one when a part of it that lies between two
/// boundaries is overwritten with a fragment.
pub proof fn lemma_fragment_splice(before: Seq<u8>, now: Seq<u8>, after: Seq<u8>)
    requires
        is_fragment(before),
        is_fragment(now),
        is_fragment(after),
    ensures
        is_fragment(before + now + after),
{
    lemma_fragment_concat(before, now);
    lemma_fragment_concat(before + now, after);
}

/// The digits of a run spell at least what fewer of them spell.
pub proof fn lemma_arc_value_prefix(enc: Seq<u8>, k: int)
    requires
        0 <= k <= enc.len(),
    ensures
        arc_value(enc.take(k)) <= arc_value(enc),
    decreases enc.len(),
{
    if k == enc.len() {
        assert(enc.take(k) =~= enc);
    } else {
        lemma_arc_value_prefix(enc.drop_last(), k);
        assert(enc.drop_last().take(k) =~= enc.take(k));
        assert(arc_value(enc.drop_last()) * 128 >= arc_value(enc.drop_last()));
    }
}

/// Appending a byte shifts the value by one digit and adds the new digit.
pub proof fn lemma_arc_value_push(enc: Seq<u8>, b: u8)
    ensures
        arc_value(enc.push(b)) == arc_value(enc) * 128 + digit(b),
{
    assert(enc.push(b).drop_last() =~= enc);
}

/// The continued digits of `q`: all with the high bit, spelling `q`, and
/// beginning with a digit that is not zero.
pub proof fn lemma_cont_digits(q: nat)
    ensures
        forall|i: int| 0 <= i < cont_digits(q).len() ==> has_cont(#[trigger] cont_digits(q)[i]),
        arc_value(cont_digits(q)) == q,
        q > 0 ==> cont_digits(q).len() > 0 && cont_digits(q)[0] != 0x80,
        q == 0 ==> cont_digits(q).len() == 0,
    decreases q,
{
    if q > 0 {
        let front = cont_digits(q / 128);
        let b = (0x80 + q % 128) as u8;
        lemma_cont_digits(q / 128);
        lemma_arc_value_push(front, b);
        assert(digit(b) == q % 128);
        assert(cont_digits(q) == front.push(b));
        if q / 128 > 0 {
            assert(cont_digits(q)[0] == front[0]);
        } else {
            assert(cont_digits(q)[0] == b);
        }
    }
}

/// The base-128 form of `v` is one arc: every byte but the last has the high
/// bit, it does not begin with `0x80`, and it spells `v`.
pub proof fn lemma_encoding_is_arc(v: nat)
    ensures
        encoding(v).len() > 0,
        cont_run(encoding(v)) == encoding(v).len() - 1,
        encoding(v)[0] != 0x80,
        arc_value(encoding(v)) == v,
{
    let front = cont_digits(v / 128);
    let b = (v % 128) as u8;
    let enc = encoding(v);
    lemma_cont_digits(v / 128);
    lemma_arc_value_push(front, b);
    assert(digit(b) == v % 128);
    assert forall|i: int| 0 <= i < front.len() implies has_cont(#[trigger] enc[i]) by {
        assert(enc[i] == front[i]);
    }
    assert(enc[front.len() as int] == b);
    lemma_cont_run_is(enc, front.len());
    if v / 128 > 0 {
        assert(enc[0] == front[0]);
    } else {
        assert(enc[0] == b);
    }
}

/// The base-128 form of an arc is a fragment of that one arc.
pub proof fn lemma_encoding_is_fragment(arc: Arc)
    ensures
        is_fragment(encoding(arc as nat)),
        arcs_of(encoding(arc as nat)) == seq![arc],
{
    let enc = encoding(arc as nat);
    lemma_encoding_is_arc(arc as nat);
    assert(head_len(enc) == enc.len());
    assert(enc.take(enc.len() as int) =~= enc);
    assert(enc.skip(enc.len() as int).len() == 0);
    assert(is_fragment(enc.skip(enc.len() as int)));
    assert(arcs_of(enc.skip(enc.len() as int)) =~= Seq::<Arc>::empty());
    assert(arcs_of(enc) =~= seq![arc]);
}

/// The base-128 forms of arcs, one after the other, grow at the end as the
/// arcs do.
pub proof fn lemma_encoding_of_push(arcs: Seq<Arc>, arc: Arc)
    ensures
        encoding_of(arcs.push(arc)) == encoding_of(arcs) + encoding(arc as nat),
    decreases arcs.len(),
{
    let more = arcs.push(arc);
    if arcs.len() == 0 {
        assert(more.drop_first() =~= Seq::<Arc>::empty());
        assert(encoding_of(more.drop_first()) =~= Seq::<u8>::empty());
        assert(encoding_of(more) =~= encoding(arc as nat));
        assert(encoding_of(arcs) + encoding(arc as nat) =~= encoding(arc as nat));
    } else {
        lemma_encoding_of_push(arcs.drop_first(), arc);
        assert(more.drop_first() =~= arcs.drop_first().push(arc));
        assert(more[0] == arcs[0]);
        assert(encoding_of(more) =~= encoding_of(arcs) + encoding(arc as nat));
    }
}

/// The base-128 forms of arcs, one after the other, are a fragment of those
/// arcs.
pub proof fn lemma_encoding_of_is_fragment(arcs: Seq<Arc>)
    ensures
        is_fragment(encoding_of(arcs)),
        arcs_of(encoding_of(arcs)) == arcs,
    decreases arcs.len(),
{
    if arcs.len() == 0 {
        assert(arcs_of(encoding_of(arcs)) =~= arcs);
    } else {
        lemma_encoding_is_fragment(arcs[0]);
        lemma_encoding_of_is_fragment(arcs.drop_first());
        lemma_fragment_concat(encoding(arcs[0] as nat), encoding_of(arcs.drop_first()));
        assert(seq![arcs[0]] + arcs.drop_first() =~= arcs);
    }
}

/// An arc that does not begin with `0x80` and is at most `Arc::MAX` takes
/// as many bytes as [`encoding_len`] says of its value.
pub proof fn lemma_arc_len(enc: Seq<u8>)
    requires
        enc.len() > 0,
        cont_run(enc) == enc.len() - 1,
        enc[0] != 0x80,
        arc_value(enc) <= Arc::MAX,
    ensures
        enc.len() == encoding_len(arc_value(enc) as Arc),
{
    let r = cont_run(enc);
    let d0 = digit(enc[0]);
    let p = pow128(r);
    let v = arc_value(enc);
    lemma_arc_value_bounds(enc);
    lemma_cont_run(enc);
    lemma_arc_fits(enc);
    reveal_with_fuel(pow128, 6);
    assert(d0 < 128);
    if r == 0 {
        assert(p == 1);
        assert(v < 128) by (nonlinear_arith)
            requires
                v < (d0 + 1) * p,
                d0 < 128,
                p == 1,
        ;
    } else {
        assert(has_cont(enc[0]));
        assert(d0 >= 1);
        assert(r <= 4);
        assert(p <= v && v < 128 * p) by (nonlinear_arith)
            requires
                d0 * p <= v,
                v < (d0 + 1) * p,
                1 <= d0 < 128,
                p > 0,
        ;
    }
}

/// In a fragment, the arc that begins at a boundary before the end lies
/// within the fragment, and takes as many bytes as [`encoding_len`] says of
/// its value.
pub proof fn lemma_arc_at_boundary(s: Seq<u8>, i: int)
    requires
        is_fragment(s),
        is_boundary(s, i),
        i < s.len(),
    ensures
        arcs_of(s.skip(i)).len() > 0,
        head_len(s.skip(i)) == encoding_len(arcs_of(s.skip(i))[0]),
        i + encoding_len(arcs_of(s.skip(i))[0]) <= s.len(),
{
    lemma_fragment_split(s, i);
    let rest = s.skip(i);
    let head = rest.take(head_len(rest) as int);
    lemma_head_is_arc(rest);
    assert(head[0] == rest[0]);
    lemma_arc_len(head);
}

/// `pow128` grows with its exponent.
pub proof fn lemma_pow128_grows(a: nat, b: nat)
    requires
        a <= b,
    ensures
        0 < pow128(a) <= pow128(b),
    decreases b,
{
    if b > 0 {
        lemma_pow128_grows(if a == b {
            (b - 1) as nat
        } else {
            a
        }, (b - 1) as nat);
    }
}

/// Bytes that all have the high bit, the first of them not `0x80`, are the
/// continued digits of the number that they spell, and that number is not
/// zero unless there are no bytes.
pub proof fn lemma_cont_digits_unique(x: Seq<u8>)
    requires
        forall|i: int| 0 <= i < x.len() ==> has_cont(#[trigger] x[i]),
        x.len() > 0 ==> x[0] != 0x80,
    ensures
        x == cont_digits(arc_value(x)),
        x.len() > 0 ==> arc_value(x) > 0,
    decreases x.len(),
{
    if x.len() == 0 {
        assert(x =~= cont_digits(0));
    } else {
        let y = x.drop_last();
        let b = x.last();
        let d = digit(b);
        assert(has_cont(b));
        assert(b == 0x80 + d);
        if y.len() == 0 {
            assert(x[0] == b);
            assert(arc_value(y) == 0);
            assert(cont_digits(d / 128) =~= Seq::<u8>::empty());
            assert(x =~= cont_digits(d));
        } else {
            assert(y[0] == x[0]);
            assert forall|i: int| 0 <= i < y.len() implies has_cont(#[trigger] y[i]) by {
                assert(y[i] == x[i]);
            }
            lemma_cont_digits_unique(y);
            let v = arc_value(x);
            assert(v == arc_value(y) * 128 + d);
            assert(v / 128 == arc_value(y) && v % 128 == d);
            assert(x =~= y.push(b));
        }
    }
}

/// An arc that does not begin with `0x80` is the base-128 form of its value.
pub proof fn lemma_arc_is_encoding(enc: Seq<u8>)
    requires
        enc.len() > 0,
        cont_run(enc) == enc.len() - 1,
        enc[0] != 0x80,
    ensures
        enc == encoding(arc_value(enc)),
{
    lemma_cont_run(enc);
    let front = enc.drop_last();
    let last = enc.last();
    assert forall|i: int| 0 <= i < front.len() implies has_cont(#[trigger] front[i]) by {
        assert(front[i] == enc[i]);
    }
    if front.len() > 0 {
        assert(front[0] == enc[0]);
    }
    lemma_cont_digits_unique(front);
    let v = arc_value(enc);
    assert(digit(last) == last);
    assert(v == arc_value(front) * 128 + last);
    assert(v / 128 == arc_value(front) && v % 128 == last);
    assert(enc =~= front.push(last));
}

/// Whether an arc begins at an offset of a fragment, as the bytes around the
/// offset show and as walking the fragment arc by arc shows.
pub proof fn lemma_boundary_is_arc_start(s: Seq<u8>, i: int)
    requires
        is_fragment(s),
    ensures
        is_boundary(s, i) <==> is_arc_start(s, i),
    decreases s.len(),
{
    if i != 0 && s.len() > 0 {
        let n = head_len(s) as int;
        let rest = s.skip(n);
        lemma_cont_run(s);
        lemma_boundary_is_arc_start(rest, i - n);
        if is_boundary(s, i) {
            lemma_boundary_past_head(s, i);
        }
        if is_arc_start(s, i) {
            assert(is_boundary(rest, i - n));
            if n < i < s.len() {
                assert(rest[i - n - 1] == s[i - 1]);
            }
        }
    }
}

/// Of two runs that are not empty, the one begins with the other exactly
/// when they have the same first byte and what follows it in the one begins
/// with what follows it in the other; what is left of the one is then the
/// same either way.
pub proof fn lemma_prefix_after_first(s: Seq<u8>, prefix: Seq<u8>)
    requires
        s.len() > 0,
        prefix.len() > 0,
    ensures
        prefix.is_prefix_of(s) <==> s[0] == prefix[0] && prefix.skip(1).is_prefix_of(s.skip(1)),
        prefix.is_prefix_of(s) ==> s.skip(1).skip(prefix.len() - 1) == s.skip(prefix.len() as int),
{
    let n = prefix.len() as int;
    if s[0] == prefix[0] && prefix.skip(1).is_prefix_of(s.skip(1)) {
        assert(prefix =~= seq![prefix[0]] + prefix.skip(1));
        assert(s.subrange(0, n) =~= seq![s[0]] + s.skip(1).subrange(0, n - 1));
    }
    if prefix.is_prefix_of(s) {
        assert(s.subrange(0, n)[0] == s[0]);
        assert(prefix.skip(1) =~= s.skip(1).subrange(0, n - 1));
        assert(s.skip(1).skip(n - 1) =~= s.skip(n));
    }
}

/// The last boundary of a run at or before an offset is a boundary, and
/// lies at or before the offset.
pub proof fn lemma_boundary_at_or_before(s: Seq<u8>, i: int)
    requires
        0 <= i,
    ensures
        0 <= boundary_at_or_before(s, i) <= i,
        is_boundary(s, boundary_at_or_before(s, i)),
    decreases i,
{
    if i > 0 && !is_boundary(s, i) {
        lemma_boundary_at_or_before(s, i - 1);
    }
}

} // verus!
