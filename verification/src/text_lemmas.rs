//! Facts about decimal text that the laws of reading and writing it are
//! proved from.
use vstd::prelude::*;
use crate::parse::{
    all_text_bytes, as_arcs, as_numbers, dangling_dot, digit_run, double_dot_at, in_range,
    is_list, is_numbers, is_plain, is_text_byte, joined, lemma_digit_run, lemma_digit_run_is,
    no_double_dot, numbers, text_accepted, without_leading_dot,
};
use crate::text::{dec_digits, dec_text, dec_value, dotted, is_digit, DOT, ZERO};
use crate::Arc;

verus! {

/// Digits that do not begin with a zero are the decimal digits of the number
/// that they spell, and that number is not zero unless there are no digits.
pub proof fn lemma_dec_digits_unique(d: Seq<u8>)
    requires
        forall|i: int| 0 <= i < d.len() ==> is_digit(#[trigger] d[i]),
        d.len() > 0 ==> d[0] != ZERO,
    ensures
        d == dec_digits(dec_value(d)),
        d.len() > 0 ==> dec_value(d) > 0,
    decreases d.len(),
{
    if d.len() == 0 {
        assert(d =~= dec_digits(0));
    } else {
        let y = d.drop_last();
        let b = d.last();
        let k = (b - ZERO) as nat;
        assert(is_digit(b));
        if y.len() == 0 {
            assert(d[0] == b);
            assert(dec_value(y) == 0);
            assert(dec_digits(k / 10) =~= Seq::<u8>::empty());
            assert(d =~= dec_digits(k));
        } else {
            assert(y[0] == d[0]);
            assert forall|i: int| 0 <= i < y.len() implies is_digit(#[trigger] y[i]) by {
                assert(y[i] == d[i]);
            }
            lemma_dec_digits_unique(y);
            let v = dec_value(d);
            assert(v == dec_value(y) * 10 + k);
            assert(v / 10 == dec_value(y) && v % 10 == k);
            assert(d =~= y.push(b));
        }
    }
}

/// A number written without a zero before its digits is the decimal form of
/// its value.
pub proof fn lemma_dec_text_of_value(g: Seq<u8>)
    requires
        g.len() > 0,
        forall|i: int| 0 <= i < g.len() ==> is_digit(#[trigger] g[i]),
        g.len() == 1 || g[0] != ZERO,
    ensures
        dec_text(dec_value(g)) == g,
{
    let front = g.drop_last();
    let last = g.last();
    let k = (last - ZERO) as nat;
    assert(is_digit(last));
    assert forall|i: int| 0 <= i < front.len() implies is_digit(#[trigger] front[i]) by {
        assert(front[i] == g[i]);
    }
    if front.len() > 0 {
        assert(front[0] == g[0]);
    }
    lemma_dec_digits_unique(front);
    let v = dec_value(g);
    assert(v == dec_value(front) * 10 + k);
    assert(v / 10 == dec_value(front) && v % 10 == k);
    assert(g =~= front.push(last));
}

/// A list of numbers, none written with a zero before its digits, is its
/// numbers in decimal with dots between them.
pub proof fn lemma_joined_numbers(t: Seq<u8>)
    requires
        is_list(t),
        is_plain(t),
    ensures
        joined(numbers(t)) == t,
    decreases t.len(),
{
    if t.len() > 0 {
        lemma_digit_run(t);
        let n = digit_run(t) as int;
        let g = t.take(n);
        assert(g[0] == t[0]);
        assert forall|i: int| 0 <= i < g.len() implies is_digit(#[trigger] g[i]) by {
            assert(g[i] == t[i]);
        }
        lemma_dec_text_of_value(g);
        if n < t.len() {
            let rest = t.skip(n + 1);
            lemma_digit_run(rest);
            lemma_joined_numbers(rest);
            let ns = numbers(t);
            assert(is_numbers(rest));
            assert(rest.len() >= 1);
            assert(numbers(rest).len() >= 1);
            assert(ns.drop_first() =~= numbers(rest));
            assert(g + seq![DOT] + rest =~= t);
        } else {
            assert(g =~= t);
        }
    }
}

/// The text of a fragment begins with a dot and its first arc.
pub proof fn lemma_dotted_front(a: Arc, rest: Seq<Arc>)
    ensures
        dotted(seq![a] + rest) == seq![DOT] + dec_text(a as nat) + dotted(rest),
    decreases rest.len(),
{
    let all = seq![a] + rest;
    if rest.len() == 0 {
        assert(all.drop_last() =~= Seq::<Arc>::empty());
        assert(dotted(all.drop_last()) =~= Seq::<u8>::empty());
        assert(dotted(rest) =~= Seq::<u8>::empty());
        assert(all.last() == a);
        assert(dotted(all) =~= seq![DOT] + dec_text(a as nat) + dotted(rest));
    } else {
        lemma_dotted_front(a, rest.drop_last());
        assert(all.drop_last() =~= seq![a] + rest.drop_last());
        assert(all.last() == rest.last());
        assert(dotted(all) =~= seq![DOT] + dec_text(a as nat) + dotted(rest));
    }
}

/// Numbers with dots between them are the first of them and then the rest
/// as a fragment writes them.
pub proof fn lemma_joined_is_dotted(ns: Seq<nat>)
    requires
        in_range(ns),
        ns.len() >= 1,
    ensures
        joined(ns) == dec_text(ns[0]) + dotted(as_arcs(ns.drop_first())),
    decreases ns.len(),
{
    let rest = ns.drop_first();
    if ns.len() == 1 {
        assert(as_arcs(rest) =~= Seq::<Arc>::empty());
        assert(joined(ns) =~= dec_text(ns[0]) + dotted(as_arcs(rest)));
    } else {
        assert forall|i: int| 0 <= i < rest.len() implies #[trigger] rest[i] <= Arc::MAX by {
            assert(rest[i] == ns[i + 1]);
        }
        lemma_joined_is_dotted(rest);
        let a = rest[0] as Arc;
        assert(rest[0] == ns[1]);
        assert(as_arcs(rest) =~= seq![a] + as_arcs(rest.drop_first()));
        lemma_dotted_front(a, as_arcs(rest.drop_first()));
        assert(joined(ns) =~= dec_text(ns[0]) + dotted(as_arcs(rest)));
    }
}

/// The decimal digits of a number are digits, and spell the number.
pub proof fn lemma_dec_digits(q: nat)
    ensures
        forall|i: int| 0 <= i < dec_digits(q).len() ==> is_digit(#[trigger] dec_digits(q)[i]),
        dec_value(dec_digits(q)) == q,
    decreases q,
{
    if q > 0 {
        let front = dec_digits(q / 10);
        let b = (ZERO + q % 10) as u8;
        lemma_dec_digits(q / 10);
        assert(dec_digits(q) == front.push(b));
        assert(front.push(b).drop_last() =~= front);
    }
}

/// The decimal form of a number is one digit or more, all of them digits,
/// and spells the number.
pub proof fn lemma_dec_text(n: nat)
    ensures
        dec_text(n).len() > 0,
        forall|i: int| 0 <= i < dec_text(n).len() ==> is_digit(#[trigger] dec_text(n)[i]),
        dec_value(dec_text(n)) == n,
{
    let front = dec_digits(n / 10);
    let b = (ZERO + n % 10) as u8;
    lemma_dec_digits(n / 10);
    assert(front.push(b).drop_last() =~= front);
}

/// Numbers written with dots between them are a list of those numbers.
pub proof fn lemma_numbers_of_joined(ns: Seq<nat>)
    ensures
        is_list(joined(ns)),
        numbers(joined(ns)) == ns,
        ns.len() > 0 ==> joined(ns).len() > 0,
    decreases ns.len(),
{
    if ns.len() == 0 {
        assert(numbers(joined(ns)) =~= ns);
    } else {
        let g = dec_text(ns[0]);
        let t = joined(ns);
        lemma_dec_text(ns[0]);
        if ns.len() == 1 {
            lemma_digit_run_is(t, t.len());
            assert(numbers(t) =~= ns);
        } else {
            let rest = ns.drop_first();
            let u = joined(rest);
            lemma_numbers_of_joined(rest);
            assert(t == g + seq![DOT] + u);
            assert forall|i: int| 0 <= i < g.len() implies is_digit(#[trigger] t[i]) by {
                assert(t[i] == g[i]);
            }
            assert(t[g.len() as int] == DOT);
            lemma_digit_run_is(t, g.len());
            assert(t.take(g.len() as int) =~= g);
            assert(t.skip(g.len() as int + 1) =~= u);
            assert(numbers(t) =~= seq![ns[0]] + rest);
            assert(seq![ns[0]] + rest =~= ns);
        }
    }
}

/// A list holds digits and dots only, no two dots in a row, and neither
/// begins nor ends with a dot.
pub proof fn lemma_list_is_text(u: Seq<u8>)
    requires
        is_numbers(u),
    ensures
        all_text_bytes(u),
        no_double_dot(u),
        u.len() > 0,
        u[0] != DOT,
        u.last() != DOT,
    decreases u.len(),
{
    lemma_digit_run(u);
    let n = digit_run(u) as int;
    assert(is_digit(u[0]));
    if n == u.len() {
        assert(is_digit(u[u.len() - 1]));
        assert forall|j: int| !#[trigger] double_dot_at(u, j) by {
            if double_dot_at(u, j) {
                assert(is_digit(u[j]));
            }
        }
    } else {
        let rest = u.skip(n + 1);
        lemma_list_is_text(rest);
        assert(rest.last() == u.last());
        assert(rest[0] == u[n + 1]);
        assert forall|j: int| 0 <= j < u.len() implies is_text_byte(#[trigger] u[j]) by {
            if j > n {
                assert(u[j] == rest[j - n - 1]);
            }
        }
        assert forall|j: int| !#[trigger] double_dot_at(u, j) by {
            if double_dot_at(u, j) {
                if j < n {
                    assert(is_digit(u[j]));
                } else if j > n {
                    assert(double_dot_at(rest, j - n - 1));
                }
            }
        }
    }
}

/// The text of a fragment is in order, and its numbers are the arcs of the
/// fragment.
pub proof fn lemma_numbers_of_dotted(arcs: Seq<Arc>)
    ensures
        text_accepted(dotted(arcs)),
        numbers(without_leading_dot(dotted(arcs))) == as_numbers(arcs),
{
    let ns = as_numbers(arcs);
    let t = dotted(arcs);
    if arcs.len() == 0 {
        assert(numbers(t) =~= ns);
    } else {
        let u = joined(ns);
        lemma_joined_is_dotted(ns);
        lemma_dotted_front(arcs[0], arcs.drop_first());
        assert(seq![arcs[0]] + arcs.drop_first() =~= arcs);
        assert(as_arcs(ns.drop_first()) =~= arcs.drop_first());
        assert(t =~= seq![DOT] + u);
        lemma_numbers_of_joined(ns);
        lemma_list_is_text(u);
        assert(t.skip(1) =~= u);
        assert(t.last() == u.last());
        assert forall|j: int| 0 <= j < t.len() implies is_text_byte(#[trigger] t[j]) by {
            if j > 0 {
                assert(t[j] == u[j - 1]);
            }
        }
        assert forall|j: int| !#[trigger] double_dot_at(t, j) by {
            if double_dot_at(t, j) {
                if j == 0 {
                    assert(t[1] == u[0]);
                } else {
                    assert(double_dot_at(u, j - 1));
                }
            }
        }
    }
}

} // verus!
