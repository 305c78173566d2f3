//! OIDs as text: decimal arcs with dots between them.
//!
//! A fragment is written with a dot before each arc (`.840.10045`), so the
//! fragment of no arcs is the empty text. A whole OID is written without the
//! leading dot (`1.2.840.10045`). Text is modelled as the `Seq<u8>` of its
//! bytes, all of them ASCII; [`chars_of`] gives the characters.
use vstd::prelude::*;
use crate::base128::{arcs_of, is_fragment, is_identifier};
use crate::{AbsoluteOid, AbsoluteOidVec, Arc, RelativeOid, RelativeOidVec, RootOid};

verus! {

/// The byte of a dot.
pub const DOT: u8 = 0x2e;

/// The byte of the digit zero.
pub const ZERO: u8 = 0x30;

/// Whether `b` is the byte of a decimal digit.
pub open spec fn is_digit(b: u8) -> bool {
    ZERO <= b <= ZERO + 9
}

/// The number that the decimal digits `d` spell.
pub open spec fn dec_value(d: Seq<u8>) -> nat
    decreases d.len(),
{
    if d.len() == 0 {
        0
    } else {
        dec_value(d.drop_last()) * 10 + (d.last() - ZERO) as nat
    }
}

/// The decimal digits of `q`, most significant first; none for zero.
pub open spec fn dec_digits(q: nat) -> Seq<u8>
    decreases q,
{
    if q == 0 {
        Seq::empty()
    } else {
        dec_digits(q / 10).push((ZERO + q % 10) as u8)
    }
}

/// `n` in decimal, without leading zeros; `0` for zero.
pub open spec fn dec_text(n: nat) -> Seq<u8> {
    dec_digits(n / 10).push((ZERO + n % 10) as u8)
}

/// `10` to the power `k`.
pub open spec fn pow10(k: nat) -> nat
    decreases k,
{
    if k == 0 {
        1
    } else {
        10 * pow10((k - 1) as nat)
    }
}

/// No power of ten is zero.
pub proof fn lemma_pow10_positive(k: nat)
    ensures
        pow10(k) > 0,
    decreases k,
{
    if k > 0 {
        lemma_pow10_positive((k - 1) as nat);
    }
}

/// The text of a fragment: each arc in decimal, with a dot before it.
pub open spec fn dotted(arcs: Seq<Arc>) -> Seq<u8>
    decreases arcs.len(),
{
    if arcs.len() == 0 {
        Seq::empty()
    } else {
        dotted(arcs.drop_last()) + seq![DOT] + dec_text(arcs.last() as nat)
    }
}

/// The text of the two arcs that the root byte `b` packs.
pub open spec fn root_text(b: u8) -> Seq<u8> {
    dec_text((b / 40) as nat) + seq![DOT] + dec_text((b % 40) as nat)
}

/// The text of the whole OID with the bytes `s`.
pub open spec fn identifier_text(s: Seq<u8>) -> Seq<u8>
    recommends
        s.len() > 0,
{
    root_text(s[0]) + dotted(arcs_of(s.skip(1)))
}

/// The characters whose codes are the bytes of `t`.
pub open spec fn chars_of(t: Seq<u8>) -> Seq<char> {
    Seq::new(t.len(), |i: int| t[i] as char)
}

/// `String::push` appends one character.
pub assume_specification[ String::push ](s: &mut String, ch: char)
    ensures
        final(s)@ == old(s)@.push(ch),
;

/// The string of the characters whose codes are the bytes of `t`.
pub fn string_of(t: &[u8]) -> (r: String)
    ensures
        r@ == chars_of(t@),
{
    let mut out = String::new();
    let mut i: usize = 0;
    while i < t.len()
        invariant
            i <= t@.len(),
            out@ == chars_of(t@.take(i as int)),
        decreases t@.len() - i,
    {
        out.push(t[i] as char);
        assert(chars_of(t@.take(i + 1)) =~= chars_of(t@.take(i as int)).push(t@[i as int] as char));
        i += 1;
    }
    assert(t@.take(i as int) =~= t@);
    out
}

/// Appends `n` in decimal to `out`.
pub fn push_decimal(out: &mut Vec<u8>, n: u64)
    ensures
        final(out)@ == old(out)@ + dec_text(n as nat),
{
    let ghost whole: nat = n as nat;
    let mut digits = [0u8;20];
    let mut n: u64 = n;
    let mut k: usize = 19;
    digits[k] = ZERO + (n % 10) as u8;
    n = n / 10;
    assert(n * pow10(0) == n) by {
        assert(pow10(0) == 1);
    }
    while n > 0
        invariant
            k <= 19,
            n * pow10((19 - k) as nat) <= 1844674407370955161,
            digits@[19] == (ZERO + whole % 10) as u8,
            dec_digits(whole / 10) == dec_digits(n as nat) + digits@.subrange(k as int, 19),
        decreases n,
    {
        let ghost before = digits@;
        proof {
            let p = pow10((19 - k) as nat);
            lemma_pow10_positive((19 - k) as nat);
            if k == 0 {
                reveal_with_fuel(pow10, 20);
                assert(p == 10000000000000000000int);
                assert(false) by (nonlinear_arith)
                    requires
                        n >= 1,
                        p == 10000000000000000000int,
                        n * p <= 1844674407370955161,
                ;
            }
            let m: int = n as int;
            assert(pow10((19 - k + 1) as nat) == 10 * p);
            assert((m / 10) * (10 * p) <= m * p) by (nonlinear_arith)
                requires
                    m >= 0,
                    p > 0,
            ;
        }
        k -= 1;
        digits[k] = ZERO + (n % 10) as u8;
        proof {
            assert(digits@.subrange(k as int, 19) =~= seq![(ZERO + n % 10) as u8]
                + before.subrange(k + 1, 19));
            assert(dec_digits(n as nat) + before.subrange(k + 1, 19) =~= dec_digits(
                (n / 10) as nat,
            ) + digits@.subrange(k as int, 19));
        }
        n = n / 10;
    }
    proof {
        assert(dec_digits(0) =~= Seq::<u8>::empty());
        assert(digits@.subrange(k as int, 20) =~= digits@.subrange(k as int, 19).push(digits@[19]));
        assert(digits@.subrange(k as int, 20) == dec_text(whole));
    }
    let mut i: usize = k;
    while i < 20
        invariant
            k <= i <= 20,
            out@ == old(out)@ + digits@.subrange(k as int, i as int),
        decreases 20 - i,
    {
        out.push(digits[i]);
        assert(digits@.subrange(k as int, i + 1) =~= digits@.subrange(k as int, i as int).push(
            digits@[i as int],
        ));
        i += 1;
    }
}

/// `n` in decimal, as a string.
pub fn decimal_string(n: u64) -> (r: String)
    ensures
        r@ == chars_of(dec_text(n as nat)),
{
    let mut out: Vec<u8> = Vec::new();
    push_decimal(&mut out, n);
    assert(out@ =~= dec_text(n as nat));
    string_of(out.as_slice())
}

/// The text of the arcs of `oid`, as bytes.
fn fragment_text(oid: &RelativeOid) -> (r: Vec<u8>)
    requires
        oid.wf(),
    ensures
        r@ == dotted(arcs_of(oid@)),
{
    let mut out: Vec<u8> = Vec::new();
    push_fragment_text(&mut out, oid);
    out
}

/// Appends the text of the arcs of `oid` to `out`.
fn push_fragment_text(out: &mut Vec<u8>, oid: &RelativeOid)
    requires
        oid.wf(),
    ensures
        final(out)@ == old(out)@ + dotted(arcs_of(oid@)),
{
    let ghost all = arcs_of(oid@);
    let ghost done: Seq<Arc> = Seq::empty();
    let mut arcs = oid.arcs();
    loop
        invariant
            arcs.wf(),
            all == done + arcs.remaining(),
            out@ == old(out)@ + dotted(done),
        ensures
            out@ == old(out)@ + dotted(all),
        decreases arcs.remaining().len(),
    {
        let ghost left = arcs.remaining();
        let ghost text = out@;
        match arcs.next() {
            None => {
                proof {
                    assert(all =~= done);
                }
                break ;
            },
            Some(arc) => {
                out.push(DOT);
                push_decimal(out, arc as u64);
                proof {
                    let more = done.push(arc);
                    assert(more.drop_last() =~= done);
                    assert(all =~= more + left.drop_first());
                    assert(out@ =~= old(out)@ + dotted(more));
                    done = more;
                }
            },
        }
    }
}

/// The text of the two arcs of `root`, as bytes.
fn push_root_text(out: &mut Vec<u8>, root: RootOid)
    requires
        root.wf(),
    ensures
        final(out)@ == old(out)@ + root_text(root.byte()),
{
    let (arc0, arc1) = root.into_arcs();
    push_decimal(out, arc0.as_u8() as u64);
    out.push(DOT);
    push_decimal(out, arc1.as_u8() as u64);
    proof {
        let b = root.byte();
        assert(out@ =~= old(out)@ + root_text(b));
    }
}

impl RootOid {
    /// The two arcs in decimal, with a dot between them.
    pub fn to_string(&self) -> (r: String)
        requires
            self.wf(),
        ensures
            r@ == chars_of(root_text(self.byte())),
    {
        let mut out: Vec<u8> = Vec::new();
        push_root_text(&mut out, *self);
        assert(out@ =~= root_text(self.byte()));
        string_of(out.as_slice())
    }
}

impl<'a> RelativeOid<'a> {
    /// The arcs in decimal, each with a dot before it.
    pub fn to_string(&self) -> (r: String)
        requires
            self.wf(),
        ensures
            r@ == chars_of(dotted(arcs_of(self@))),
    {
        let out = fragment_text(self);
        string_of(out.as_slice())
    }
}

impl<'a> AbsoluteOid<'a> {
    /// The arcs in decimal, with dots between them.
    pub fn to_string(&self) -> (r: String)
        requires
            self.wf(),
        ensures
            r@ == chars_of(identifier_text(self@)),
    {
        let mut out: Vec<u8> = Vec::new();
        push_root_text(&mut out, self.root());
        push_fragment_text(&mut out, &self.tail());
        assert(out@ =~= identifier_text(self@));
        string_of(out.as_slice())
    }
}

impl RelativeOidVec {
    /// The arcs in decimal, each with a dot before it.
    pub fn to_string(&self) -> (r: String)
        requires
            self.wf(),
        ensures
            r@ == chars_of(dotted(arcs_of(self@))),
    {
        self.as_oid().to_string()
    }
}

impl AbsoluteOidVec {
    /// The arcs in decimal, with dots between them.
    pub fn to_string(&self) -> (r: String)
        requires
            self.wf(),
        ensures
            r@ == chars_of(identifier_text(self@)),
    {
        self.as_oid().to_string()
    }
}

} // verus!
