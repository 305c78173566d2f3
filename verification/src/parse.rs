//! Reading OIDs from text.
//!
//! Text is accepted where it holds digits and dots only, no two dots in a
//! row, and no dot at its end, but for the text that is one dot alone. A dot
//! at the start is passed over. What is left is a list of numbers with dots
//! between them; [`StrArcs`] hands them out one by one.
use vstd::prelude::*;
use vstd::slice::slice_subrange;
use vstd::string::*;
use crate::base128::{encoding_of, identifier_arcs, is_fragment, is_identifier, root_arcs};
use crate::lemmas::{lemma_encoding_of_push, lemma_encoding_of_is_fragment};
use crate::text::{dec_text, dec_value, is_digit, DOT, ZERO};
use crate::{AbsoluteOidVec, Arc, Arc0, Arc1, RelativeOidVec, RootOid};

verus! {

/// Why a text is not an OID.
#[derive(Debug, Clone)]
pub enum OidParsingError {
    /// The byte at this offset is neither a digit nor a dot.
    InvalidChar(usize),
    /// A number was to begin at this offset, or to follow the dot at it.
    IntegerExpected(usize),
    /// A number is too large for its arc.
    OverflowError,
    /// A whole OID has one number only.
    NoArc1,
}

/// Whether `b` may stand in the text of an OID.
pub open spec fn is_text_byte(b: u8) -> bool {
    is_digit(b) || b == DOT
}

/// Every byte of `t` is a digit or a dot.
pub open spec fn all_text_bytes(t: Seq<u8>) -> bool {
    forall|j: int| 0 <= j < t.len() ==> is_text_byte(#[trigger] t[j])
}

/// The first byte of `t` that is neither a digit nor a dot is at `p`.
pub open spec fn first_invalid_at(t: Seq<u8>, p: int) -> bool {
    &&& 0 <= p < t.len()
    &&& !is_text_byte(t[p])
    &&& forall|j: int| 0 <= j < p ==> is_text_byte(#[trigger] t[j])
}

/// Two dots stand at `p` and right after it.
pub open spec fn double_dot_at(t: Seq<u8>, p: int) -> bool {
    0 <= p && p + 1 < t.len() && t[p] == DOT && t[p + 1] == DOT
}

/// The first two dots in a row stand at `p`.
pub open spec fn first_double_dot_at(t: Seq<u8>, p: int) -> bool {
    &&& double_dot_at(t, p)
    &&& forall|j: int| 0 <= j < p ==> !#[trigger] double_dot_at(t, j)
}

/// Nowhere in `t` do two dots stand in a row.
pub open spec fn no_double_dot(t: Seq<u8>) -> bool {
    forall|j: int| !#[trigger] double_dot_at(t, j)
}

/// `t` is longer than one byte and ends with a dot.
pub open spec fn dangling_dot(t: Seq<u8>) -> bool {
    t.len() > 1 && t.last() == DOT
}

/// The text `t` is in order: digits and dots, no two dots in a row, no dot
/// at the end of more than one byte.
pub open spec fn text_accepted(t: Seq<u8>) -> bool {
    all_text_bytes(t) && no_double_dot(t) && !dangling_dot(t)
}

/// The text `t` is refused with the error `e`: for its first byte that may
/// not stand there; else for its first two dots in a row; else for the dot at
/// its end.
pub open spec fn text_rejected(t: Seq<u8>, e: OidParsingError) -> bool {
    match e {
        OidParsingError::InvalidChar(p) => first_invalid_at(t, p as int),
        OidParsingError::IntegerExpected(p) => all_text_bytes(t) && (first_double_dot_at(
            t,
            p as int,
        ) || (no_double_dot(t) && dangling_dot(t) && p == t.len() - 1)),
        _ => false,
    }
}

/// `t` without the dot at its start, if it has one.
pub open spec fn without_leading_dot(t: Seq<u8>) -> Seq<u8> {
    if t.len() > 0 && t[0] == DOT {
        t.skip(1)
    } else {
        t
    }
}

/// How many bytes at the head of `t` are digits.
pub open spec fn digit_run(t: Seq<u8>) -> nat
    decreases t.len(),
{
    if t.len() == 0 || !is_digit(t[0]) {
        0
    } else {
        1 + digit_run(t.drop_first())
    }
}

/// `t` is one number or more, each of one digit or more, with one dot
/// between each two.
pub open spec fn is_numbers(t: Seq<u8>) -> bool
    decreases t.len(),
{
    let n = digit_run(t);
    n >= 1 && (n == t.len() || (n < t.len() && t[n as int] == DOT && is_numbers(
        t.skip(n as int + 1),
    )))
}

/// `t` is empty, or numbers with dots between them.
pub open spec fn is_list(t: Seq<u8>) -> bool {
    t.len() == 0 || is_numbers(t)
}

/// What is left of the list `t` after its first number and the dot that
/// follows it.
pub open spec fn after_number(t: Seq<u8>) -> Seq<u8> {
    if digit_run(t) < t.len() {
        t.skip(digit_run(t) as int + 1)
    } else {
        Seq::empty()
    }
}

/// The numbers of the list `t`, in order.
pub open spec fn numbers(t: Seq<u8>) -> Seq<nat>
    decreases t.len(),
{
    if t.len() == 0 {
        Seq::empty()
    } else if digit_run(t) < t.len() {
        seq![dec_value(t.take(digit_run(t) as int))] + numbers(
            t.skip(digit_run(t) as int + 1),
        )
    } else {
        seq![dec_value(t)]
    }
}

/// The arc that the number `v` is, if it is small enough for one.
pub open spec fn arc_of_number(v: nat) -> Result<Arc, OidParsingError> {
    if v <= Arc::MAX {
        Ok(v as Arc)
    } else {
        Err(OidParsingError::OverflowError)
    }
}

/// Every number of `ns` is small enough for an arc.
pub open spec fn in_range(ns: Seq<nat>) -> bool {
    forall|i: int| 0 <= i < ns.len() ==> #[trigger] ns[i] <= Arc::MAX
}

/// The numbers `ns` as arcs.
pub open spec fn as_arcs(ns: Seq<nat>) -> Seq<Arc> {
    Seq::new(ns.len(), |i: int| ns[i] as Arc)
}

/// The arcs `arcs` as numbers.
pub open spec fn as_numbers(arcs: Seq<Arc>) -> Seq<nat> {
    Seq::new(arcs.len(), |i: int| arcs[i] as nat)
}

/// The bytes of the whole OID that the text `t` writes down: the root that
/// packs its first two numbers, then the rest of them in base 128.
pub open spec fn absolute_bytes(t: Seq<u8>) -> Seq<u8> {
    let ns = numbers(without_leading_dot(t));
    seq![(ns[0] * 40 + ns[1]) as u8] + encoding_of(as_arcs(ns.skip(2)))
}

/// The bytes of the fragment that the text `t` writes down: its numbers in
/// base 128.
pub open spec fn relative_bytes(t: Seq<u8>) -> Seq<u8> {
    encoding_of(as_arcs(numbers(without_leading_dot(t))))
}

/// No number of the list `t` is written with a zero before its digits.
pub open spec fn is_plain(t: Seq<u8>) -> bool
    decreases t.len(),
{
    t.len() == 0 || {
        &&& (digit_run(t) == 1 || t[0] != ZERO)
        &&& (digit_run(t) < t.len() ==> is_plain(t.skip(digit_run(t) as int + 1)))
    }
}

/// The numbers `ns` in decimal, with a dot between each two.
pub open spec fn joined(ns: Seq<nat>) -> Seq<u8>
    decreases ns.len(),
{
    if ns.len() == 0 {
        Seq::empty()
    } else if ns.len() == 1 {
        dec_text(ns[0])
    } else {
        dec_text(ns[0]) + seq![DOT] + joined(ns.drop_first())
    }
}

/// The text `t` is a whole OID: it is in order and more than a dot, it has
/// two numbers at least, the first at most 2 and the second at most 39.
pub open spec fn absolute_accepted(t: Seq<u8>) -> bool {
    let ns = numbers(without_leading_dot(t));
    &&& t.len() > 0
    &&& t != seq![DOT]
    &&& text_accepted(t)
    &&& ns.len() >= 2
    &&& ns[0] <= 2
    &&& ns[1] <= 39
}

/// The text `t` is refused as the start of a whole OID with the error `e`:
/// for being empty or a dot alone; else as [`text_rejected`] has it; else for
/// a first number above 2; else for being one number only; else for a second
/// number above 39.
pub open spec fn absolute_rejected(t: Seq<u8>, e: OidParsingError) -> bool {
    let ns = numbers(without_leading_dot(t));
    if t.len() == 0 || t == seq![DOT] {
        e == OidParsingError::IntegerExpected(0)
    } else if !text_accepted(t) {
        text_rejected(t, e)
    } else if ns[0] > 2 {
        e == OidParsingError::OverflowError
    } else if ns.len() < 2 {
        e == OidParsingError::NoArc1
    } else if ns[1] > 39 {
        e == OidParsingError::OverflowError
    } else {
        false
    }
}

/// `digit_run` counts exactly the bytes before the first one that is no
/// digit.
pub proof fn lemma_digit_run(t: Seq<u8>)
    ensures
        digit_run(t) <= t.len(),
        forall|i: int| 0 <= i < digit_run(t) ==> is_digit(#[trigger] t[i]),
        digit_run(t) < t.len() ==> !is_digit(t[digit_run(t) as int]),
    decreases t.len(),
{
    if t.len() != 0 && is_digit(t[0]) {
        let u = t.drop_first();
        lemma_digit_run(u);
        assert forall|i: int| 0 <= i < digit_run(t) implies is_digit(#[trigger] t[i]) by {
            if i > 0 {
                assert(t[i] == u[i - 1]);
            }
        }
        if digit_run(t) < t.len() {
            assert(t[digit_run(t) as int] == u[digit_run(u) as int]);
        }
    }
}

/// A count with the three properties of `lemma_digit_run` is `digit_run`.
pub proof fn lemma_digit_run_is(t: Seq<u8>, r: nat)
    requires
        r <= t.len(),
        forall|i: int| 0 <= i < r ==> is_digit(#[trigger] t[i]),
        r < t.len() ==> !is_digit(t[r as int]),
    ensures
        digit_run(t) == r,
    decreases t.len(),
{
    if r > 0 {
        let u = t.drop_first();
        assert(is_digit(t[0]));
        assert forall|i: int| 0 <= i < r - 1 implies is_digit(#[trigger] u[i]) by {
            assert(u[i] == t[i + 1]);
        }
        if r < t.len() {
            assert(u[r - 1] == t[r as int]);
        }
        lemma_digit_run_is(u, (r - 1) as nat);
    }
}

/// Digits and dots that neither begin nor end with a dot, nor hold two in a
/// row, are a list of numbers.
pub proof fn lemma_text_is_list(t: Seq<u8>)
    requires
        all_text_bytes(t),
        no_double_dot(t),
        t.len() > 0 ==> t[0] != DOT && t.last() != DOT,
    ensures
        is_list(t),
    decreases t.len(),
{
    if t.len() > 0 {
        lemma_digit_run(t);
        let n = digit_run(t) as int;
        assert(is_text_byte(t[0]));
        if n < t.len() {
            assert(is_text_byte(t[n]));
            let rest = t.skip(n + 1);
            assert(n + 1 < t.len());
            assert(!double_dot_at(t, n));
            assert(rest[0] == t[n + 1]);
            assert(rest.last() == t.last());
            assert forall|j: int| 0 <= j < rest.len() implies is_text_byte(#[trigger] rest[j]) by {
                assert(rest[j] == t[j + n + 1]);
            }
            assert forall|j: int| !#[trigger] double_dot_at(rest, j) by {
                if double_dot_at(rest, j) {
                    assert(double_dot_at(t, j + n + 1));
                }
            }
            lemma_text_is_list(rest);
        }
    }
}

/// A text that is in order is, without the dot at its start, a list.
pub proof fn lemma_accepted_is_list(t: Seq<u8>)
    requires
        text_accepted(t),
    ensures
        is_list(without_leading_dot(t)),
{
    let u = without_leading_dot(t);
    if u.len() > 0 {
        if t[0] == DOT {
            assert(!double_dot_at(t, 0));
            assert(u[0] == t[1]);
            assert(u.last() == t.last());
            assert forall|j: int| 0 <= j < u.len() implies is_text_byte(#[trigger] u[j]) by {
                assert(u[j] == t[j + 1]);
            }
            assert forall|j: int| !#[trigger] double_dot_at(u, j) by {
                if double_dot_at(u, j) {
                    assert(double_dot_at(t, j + 1));
                }
            }
        }
        lemma_text_is_list(u);
    }
}

/// The digits of a run spell at least what fewer of them spell.
pub proof fn lemma_dec_value_prefix(d: Seq<u8>, k: int)
    requires
        0 <= k <= d.len(),
        forall|i: int| 0 <= i < d.len() ==> is_digit(#[trigger] d[i]),
    ensures
        dec_value(d.take(k)) <= dec_value(d),
    decreases d.len(),
{
    if k == d.len() {
        assert(d.take(k) =~= d);
    } else {
        lemma_dec_value_prefix(d.drop_last(), k);
        assert(d.drop_last().take(k) =~= d.take(k));
        assert(dec_value(d.drop_last()) * 10 >= dec_value(d.drop_last()));
    }
}

/// The numbers of a list, as [`StrArcs`] hands them out.
pub struct StrArcs<'a> {
    /// The text of the numbers that are still to come.
    text: &'a [u8],
}

impl<'a> StrArcs<'a> {
    /// The text of the numbers that `next` has not handed out yet.
    pub closed spec fn text(&self) -> Seq<u8> {
        self.text@
    }

    /// The text still to be read is a list.
    pub open spec fn wf(&self) -> bool {
        is_list(self.text())
    }

    /// The numbers that `next` has not handed out yet.
    pub open spec fn remaining(&self) -> Seq<nat> {
        numbers(self.text())
    }

    fn new(text: &'a [u8]) -> (r: StrArcs<'a>)
        requires
            is_list(text@),
        ensures
            r.text() == text@,
            r.wf(),
    {
        StrArcs { text }
    }

    /// Hands out the next number as an arc, or the error that it is too
    /// large for one; `None` when no number is left.
    pub fn next(&mut self) -> (r: Option<Result<Arc, OidParsingError>>)
        requires
            old(self).wf(),
        ensures
            final(self).wf(),
            old(self).remaining().len() == 0 ==> r is None && final(self).remaining().len() == 0,
            old(self).remaining().len() > 0 ==> r == Some(arc_of_number(old(self).remaining()[0]))
                && final(self).remaining() == old(self).remaining().drop_first()
                && final(self).text() == after_number(old(self).text()),
    {
        let text: &'a [u8] = self.text;
        let len: usize = text.len();
        if len == 0 {
            return None;
        }
        let ghost t = text@;
        let mut n: usize = 0;
        while n < len && ZERO <= text[n] && text[n] <= ZERO + 9
            invariant
                t == text@,
                len == t.len(),
                n <= len,
                forall|i: int| 0 <= i < n ==> is_digit(#[trigger] t[i]),
            decreases len - n,
        {
            n += 1;
        }
        proof {
            lemma_digit_run_is(t, n as nat);
            assert(numbers(t).drop_first() =~= numbers(after_number(t)));
            if n == len {
                assert(t.take(n as int) =~= t);
            }
        }
        let value = parse_arc(slice_subrange(text, 0, n));
        self.text = if n < len {
            slice_subrange(text, n + 1, len)
        } else {
            slice_subrange(text, len, len)
        };
        match value {
            Some(arc) => Some(Ok(arc)),
            None => Some(Err(OidParsingError::OverflowError)),
        }
    }
}

/// The arc that the digits `d` spell, if they spell one.
fn parse_arc(d: &[u8]) -> (r: Option<Arc>)
    requires
        forall|i: int| 0 <= i < d@.len() ==> is_digit(#[trigger] d@[i]),
    ensures
        arc_of_number(dec_value(d@)) is Ok <==> r is Some,
        r is Some ==> r->Some_0 == dec_value(d@),
{
    let mut value: u64 = 0;
    let mut i: usize = 0;
    assert(d@.take(0).len() == 0);
    while i < d.len()
        invariant
            i <= d@.len(),
            forall|i: int| 0 <= i < d@.len() ==> is_digit(#[trigger] d@[i]),
            value == dec_value(d@.take(i as int)),
            value <= Arc::MAX,
        decreases d@.len() - i,
    {
        assert(is_digit(d@[i as int]));
        value = value * 10 + (d[i] - ZERO) as u64;
        i += 1;
        proof {
            assert(d@.take(i as int).drop_last() =~= d@.take(i - 1));
            lemma_dec_value_prefix(d@, i as int);
        }
        if value > 0xffff_ffff {
            return None;
        }
    }
    assert(d@.take(i as int) =~= d@);
    Some(value as Arc)
}

/// Refuses the empty text and the text that is one dot.
fn check_not_empty(s: &[u8]) -> (r: Result<(), OidParsingError>)
    ensures
        r is Err <==> s@.len() == 0 || s@ == seq![DOT],
        r is Err ==> r->Err_0 == OidParsingError::IntegerExpected(0),
{
    if s.len() == 0 || (s.len() == 1 && s[0] == DOT) {
        assert(s@.len() == 1 && s@[0] == DOT ==> s@ =~= seq![DOT]);
        return Err(OidParsingError::IntegerExpected(0));
    }
    assert(seq![DOT].len() == 1 && seq![DOT][0] == DOT);
    Ok(())
}

/// Refuses a text that is not in order.
fn check_str(s: &[u8]) -> (r: Result<(), OidParsingError>)
    ensures
        r is Ok <==> text_accepted(s@),
        r is Err ==> text_rejected(s@, r->Err_0),
{
    let len: usize = s.len();
    let mut p: usize = 0;
    while p < len
        invariant
            len == s@.len(),
            p <= len,
            forall|j: int| 0 <= j < p ==> is_text_byte(#[trigger] s@[j]),
        decreases len - p,
    {
        let b: u8 = s[p];
        if !(ZERO <= b && b <= ZERO + 9) && b != DOT {
            return Err(OidParsingError::InvalidChar(p));
        }
        p += 1;
    }
    let mut p: usize = 0;
    while p + 1 < len
        invariant
            len == s@.len(),
            p < len || p == 0,
            all_text_bytes(s@),
            forall|j: int| 0 <= j < p ==> !#[trigger] double_dot_at(s@, j),
        decreases len - p,
    {
        if s[p] == DOT && s[p + 1] == DOT {
            assert(double_dot_at(s@, p as int));
            return Err(OidParsingError::IntegerExpected(p));
        }
        p += 1;
    }
    if len > 1 && s[len - 1] == DOT {
        return Err(OidParsingError::IntegerExpected(len - 1));
    }
    Ok(())
}

/// Passes over the dot at the start of `s`, if there is one.
fn strip_leading_dot(s: &[u8]) -> (r: &[u8])
    ensures
        r@ == without_leading_dot(s@),
{
    if s.len() > 0 && s[0] == DOT {
        slice_subrange(s, 1, s.len())
    } else {
        s
    }
}

/// Reads the two arcs of the root from the start of `s`, and hands out the
/// numbers after them as they stand.
pub fn parse_absolute(s: &str) -> (r: Result<(RootOid, StrArcs<'_>), OidParsingError>)
    ensures
        r is Ok <==> absolute_accepted(s.spec_bytes()),
        match r {
            Ok((root, arcs)) => {
                let ns = numbers(without_leading_dot(s.spec_bytes()));
                &&& root.wf()
                &&& root.byte() == ns[0] * 40 + ns[1]
                &&& arcs.wf()
                &&& arcs.remaining() == ns.skip(2)
            },
            Err(e) => absolute_rejected(s.spec_bytes(), e),
        },
{
    let bytes = s.as_bytes();
    match check_not_empty(bytes) {
        Err(e) => {
            return Err(e);
        },
        Ok(()) => {},
    }
    match check_str(bytes) {
        Err(e) => {
            return Err(e);
        },
        Ok(()) => {},
    }
    let text = strip_leading_dot(bytes);
    proof {
        lemma_accepted_is_list(bytes@);
        if bytes@[0] == DOT && bytes@.len() == 1 {
            assert(bytes@ =~= seq![DOT]);
        }
    }
    let ghost ns = numbers(text@);
    let mut parts = StrArcs::new(text);
    let arc0 = match parts.next() {
        Some(Ok(v)) => {
            if v > 2 {
                return Err(OidParsingError::OverflowError);
            }
            match Arc0::new(v as u8) {
                Ok(arc0) => arc0,
                Err(_) => {
                    return Err(OidParsingError::OverflowError);
                },
            }
        },
        Some(Err(e)) => {
            return Err(e);
        },
        None => {
            return Err(OidParsingError::IntegerExpected(0));
        },
    };
    let arc1 = match parts.next() {
        Some(Ok(v)) => {
            if v > 39 {
                return Err(OidParsingError::OverflowError);
            }
            match Arc1::new(v as u8) {
                Ok(arc1) => arc1,
                Err(_) => {
                    return Err(OidParsingError::OverflowError);
                },
            }
        },
        Some(Err(e)) => {
            return Err(e);
        },
        None => {
            return Err(OidParsingError::NoArc1);
        },
    };
    proof {
        assert(ns.drop_first().drop_first() =~= ns.skip(2));
    }
    let root = RootOid::new(arc0, arc1);
    Ok((root, parts))
}

/// Hands out the numbers of `s` as they stand.
pub fn parse_relative(s: &str) -> (r: Result<StrArcs<'_>, OidParsingError>)
    ensures
        r is Ok <==> text_accepted(s.spec_bytes()),
        match r {
            Ok(arcs) => arcs.wf() && arcs.text() == without_leading_dot(s.spec_bytes()),
            Err(e) => text_rejected(s.spec_bytes(), e),
        },
{
    let bytes = s.as_bytes();
    match check_str(bytes) {
        Err(e) => {
            return Err(e);
        },
        Ok(()) => {},
    }
    let text = strip_leading_dot(bytes);
    proof {
        lemma_accepted_is_list(bytes@);
    }
    Ok(StrArcs::new(text))
}

impl RelativeOidVec {
    /// The fragment that the text `s` writes down, with or without a dot at
    /// its start.
    pub fn parse(s: &str) -> (r: Result<RelativeOidVec, OidParsingError>)
        ensures
            r is Ok <==> text_accepted(s.spec_bytes()) && in_range(
                numbers(without_leading_dot(s.spec_bytes())),
            ),
            match r {
                Ok(oid) => {
                    let ns = numbers(without_leading_dot(s.spec_bytes()));
                    &&& oid.wf()
                    &&& oid@ == relative_bytes(s.spec_bytes())
                },
                Err(e) => if text_accepted(s.spec_bytes()) {
                    e == OidParsingError::OverflowError
                } else {
                    text_rejected(s.spec_bytes(), e)
                },
            },
    {
        let mut arcs = match parse_relative(s) {
            Err(e) => {
                return Err(e);
            },
            Ok(arcs) => arcs,
        };
        let ghost ns = arcs.remaining();
        let ghost done: Seq<nat> = Seq::empty();
        let mut vec = RelativeOidVec::default();
        proof {
            assert(as_arcs(done) =~= Seq::<Arc>::empty());
        }
        loop
            invariant
                text_accepted(s.spec_bytes()),
                ns == numbers(without_leading_dot(s.spec_bytes())),
                arcs.wf(),
                ns == done + arcs.remaining(),
                in_range(done),
                vec.wf(),
                vec@ == encoding_of(as_arcs(done)),
            ensures
                in_range(ns),
                vec.wf(),
                vec@ == encoding_of(as_arcs(ns)),
            decreases arcs.remaining().len(),
        {
            let ghost left = arcs.remaining();
            match arcs.next() {
                None => {
                    proof {
                        assert(ns =~= done);
                    }
                    break ;
                },
                Some(Err(e)) => {
                    proof {
                        assert(ns[done.len() as int] == left[0]);
                    }
                    return Err(e);
                },
                Some(Ok(arc)) => {
                    vec.push(arc);
                    proof {
                        let more = done.push(left[0]);
                        assert(ns =~= more + left.drop_first());
                        assert(as_arcs(more) =~= as_arcs(done).push(arc));
                        lemma_encoding_of_push(as_arcs(done), arc);
                        done = more;
                    }
                },
            }
        }
        Ok(vec)
    }
}

impl AbsoluteOidVec {
    /// The OID that the text `s` writes down, with or without a dot at its
    /// start.
    pub fn parse(s: &str) -> (r: Result<AbsoluteOidVec, OidParsingError>)
        ensures
            r is Ok <==> absolute_accepted(s.spec_bytes()) && in_range(
                numbers(without_leading_dot(s.spec_bytes())),
            ),
            match r {
                Ok(oid) => {
                    let ns = numbers(without_leading_dot(s.spec_bytes()));
                    &&& oid.wf()
                    &&& oid@ == absolute_bytes(s.spec_bytes())
                },
                Err(e) => if absolute_accepted(s.spec_bytes()) {
                    e == OidParsingError::OverflowError
                } else {
                    absolute_rejected(s.spec_bytes(), e)
                },
            },
    {
        let (root, mut arcs) = match parse_absolute(s) {
            Err(e) => {
                return Err(e);
            },
            Ok(parsed) => parsed,
        };
        let ghost all = numbers(without_leading_dot(s.spec_bytes()));
        let ghost ns = arcs.remaining();
        let ghost done: Seq<nat> = Seq::empty();
        let mut vec = AbsoluteOidVec::from_root(root);
        proof {
            assert(as_arcs(done) =~= Seq::<Arc>::empty());
            assert(vec@ =~= seq![root.byte()] + encoding_of(as_arcs(done)));
        }
        loop
            invariant
                absolute_accepted(s.spec_bytes()),
                all == numbers(without_leading_dot(s.spec_bytes())),
                ns == all.skip(2),
                arcs.wf(),
                ns == done + arcs.remaining(),
                in_range(done),
                vec.wf(),
                vec@ == seq![root.byte()] + encoding_of(as_arcs(done)),
            ensures
                in_range(ns),
                vec.wf(),
                vec@ == seq![root.byte()] + encoding_of(as_arcs(ns)),
            decreases arcs.remaining().len(),
        {
            let ghost left = arcs.remaining();
            match arcs.next() {
                None => {
                    proof {
                        assert(ns =~= done);
                    }
                    break ;
                },
                Some(Err(e)) => {
                    proof {
                        assert(ns.len() == done.len() + left.len());
                        assert(ns[done.len() as int] == left[0]);
                        assert(all.skip(2)[done.len() as int] == all[done.len() as int + 2]);
                    }
                    return Err(e);
                },
                Some(Ok(arc)) => {
                    let ghost before = vec@;
                    vec.push(arc);
                    proof {
                        let more = done.push(left[0]);
                        assert(ns =~= more + left.drop_first());
                        assert(as_arcs(more) =~= as_arcs(done).push(arc));
                        lemma_encoding_of_push(as_arcs(done), arc);
                        assert(vec@ =~= seq![root.byte()] + encoding_of(as_arcs(more)));
                        done = more;
                    }
                },
            }
        }
        proof {
            assert forall|i: int| 0 <= i < all.len() implies #[trigger] all[i] <= Arc::MAX by {
                if i >= 2 {
                    assert(all[i] == ns[i - 2]);
                }
            }
        }
        Ok(vec)
    }
}

impl core::str::FromStr for RelativeOidVec {
    type Err = OidParsingError;

    /// The fragment that the text `s` writes down, as [`RelativeOidVec::parse`]
    /// reads it.
    fn from_str(s: &str) -> (r: Result<Self, Self::Err>)
        ensures
            r is Ok <==> text_accepted(s.spec_bytes()) && in_range(
                numbers(without_leading_dot(s.spec_bytes())),
            ),
            match r {
                Ok(oid) => oid.wf() && oid@ == relative_bytes(s.spec_bytes()),
                Err(e) => if text_accepted(s.spec_bytes()) {
                    e == OidParsingError::OverflowError
                } else {
                    text_rejected(s.spec_bytes(), e)
                },
            },
    {
        RelativeOidVec::parse(s)
    }
}

impl core::str::FromStr for AbsoluteOidVec {
    type Err = OidParsingError;

    /// The OID that the text `s` writes down, as [`AbsoluteOidVec::parse`]
    /// reads it.
    fn from_str(s: &str) -> (r: Result<Self, Self::Err>)
        ensures
            r is Ok <==> absolute_accepted(s.spec_bytes()) && in_range(
                numbers(without_leading_dot(s.spec_bytes())),
            ),
            match r {
                Ok(oid) => oid.wf() && oid@ == absolute_bytes(s.spec_bytes()),
                Err(e) => if absolute_accepted(s.spec_bytes()) {
                    e == OidParsingError::OverflowError
                } else {
                    absolute_rejected(s.spec_bytes(), e)
                },
            },
    {
        AbsoluteOidVec::parse(s)
    }
}

} // verus!
