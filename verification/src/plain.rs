//! Numbers written out: digits with a point among them, and no exponent.

use vstd::prelude::*;
use crate::double::all_digits;
use crate::double::digits_number;
use crate::double::fraction_sinks;
use crate::double::lemma_digits_concat;
use crate::double::lemma_p10_add;
use crate::double::lemma_p10_mono;
use crate::double::lemma_p10_p2;
use crate::double::lemma_p10_pos;
use crate::double::lemma_p2_mono;
use crate::double::p10;
use crate::double::p2;
use crate::double::sinks;
use crate::number::at;
use crate::number::at_least;
use crate::number::denom;
use crate::number::digit_char;
use crate::number::digit_run;
use crate::number::digit_value;
use crate::number::int_text;
use crate::number::is_digit;
use crate::number::is_number;
use crate::number::joined;
use crate::number::lemma_digit_run;
use crate::number::lemma_digit_run_step;
use crate::number::lemma_int_text;
use crate::number::lemma_leading_zeros;
use crate::number::lemma_significant;
use crate::number::lemma_whole_large;
use crate::number::number_at_least;
use crate::number::numer;
use crate::number::padded;
use crate::number::power;
use crate::number::scan;
use crate::number::scan_exp;
use crate::number::scan_frac;
use crate::number::scan_number;
use crate::number::sign_end;
use crate::number::significant;
use crate::number::unled;
use crate::number::Number;
use crate::number::NumberParts;
use crate::number::SINGLE_LIMIT;
use crate::strings::chars_of;
use crate::strings::string_of;

verus! {

/// `n` zeros.
pub open spec fn zeros(n: nat) -> Seq<u8> {
    Seq::new(n, |i: int| 0u8)
}

/// The digits up to the last that is not zero.
pub open spec fn untrailed(d: Seq<u8>) -> Seq<u8>
    decreases d.len(),
{
    if d.len() > 0 && d.last() == 0 {
        untrailed(d.drop_last())
    } else {
        d
    }
}

impl NumberParts {
    /// The digits from the first to the last that is not zero.
    pub open spec fn digits(self) -> Seq<u8> {
        untrailed(unled(self.whole + self.frac))
    }

    /// How many places behind the beginning of `digits` the point stands: with
    /// the digits 25, 2.5 has 1, 250 has 3 and 0.0025 has -2.
    pub open spec fn point(self) -> int {
        self.exponent() + unled(self.whole + self.frac).len()
    }
}

/// What stands in front of a point `p` places behind the beginning of `d`.
pub open spec fn before_point(d: Seq<u8>, p: int) -> Seq<u8> {
    if p <= 0 {
        seq![0u8]
    } else if p < d.len() {
        d.take(p)
    } else {
        d + zeros((p - d.len()) as nat)
    }
}

/// What stands behind a point `p` places behind the beginning of `d`.
pub open spec fn behind_point(d: Seq<u8>, p: int) -> Seq<u8> {
    if p <= 0 {
        zeros((-p) as nat) + d
    } else if p < d.len() {
        d.skip(p)
    } else {
        seq![0u8]
    }
}

/// The characters of digits.
pub open spec fn digits_text(d: Seq<u8>) -> Seq<char> {
    d.map_values(|x: u8| digit_char(x as nat))
}

/// The sign of a number.
pub open spec fn sign_text(neg: bool) -> Seq<char> {
    if neg {
        seq!['-']
    } else {
        Seq::empty()
    }
}

/// A sign, the digits `w`, a point and the digits `f`.
pub open spec fn point_text(neg: bool, w: Seq<u8>, f: Seq<u8>) -> Seq<char> {
    sign_text(neg) + digits_text(w) + seq!['.'] + digits_text(f)
}

/// The number, read as a double and then narrowed to single precision, is zero.
pub open spec fn vanishes(t: Seq<char>) -> bool {
    sinks(scan(t).numer(), scan(t).denom())
}

/// The text of a number as it is written: its digits with a point, at least one
/// digit on either side of it, and no other zeros at either end. What single
/// precision rounds to zero is zero, with its sign. No digit is rounded away
/// otherwise: those that single precision cannot hold stay as they are. What is
/// infinite in single precision stays as it is altogether.
pub open spec fn tidy(t: Seq<char>) -> Seq<char> {
    let n = scan(t);
    if !is_number(t) || at_least(t, SINGLE_LIMIT as nat) {
        t
    } else if vanishes(t) {
        point_text(n.neg, seq![0u8], seq![0u8])
    } else {
        point_text(
            n.neg,
            before_point(n.digits(), n.point()),
            behind_point(n.digits(), n.point()),
        )
    }
}

/// The text of a number as it is shown: as it is written, but without the point
/// where only a zero stands behind it.
pub open spec fn shown(t: Seq<char>) -> Seq<char> {
    let u = tidy(t);
    if u.len() >= 2 && u[u.len() - 2] == '.' && u.last() == '0' {
        u.take(u.len() - 2)
    } else {
        u
    }
}

proof fn lemma_untrailed(d: Seq<u8>)
    ensures
        untrailed(d).len() <= d.len(),
        d == untrailed(d) + zeros((d.len() - untrailed(d).len()) as nat),
        untrailed(d).len() > 0 ==> untrailed(d).last() != 0,
        d.len() > 0 && d[0] != 0 ==> untrailed(d).len() > 0 && untrailed(d)[0] == d[0],
    decreases d.len(),
{
    if d.len() > 0 && d.last() == 0 {
        let c = d.drop_last();
        lemma_untrailed(c);
        let k = (c.len() - untrailed(c).len()) as nat;
        assert(zeros(k + 1) == zeros(k).push(0));
        assert(d == c.push(0));
        if d[0] != 0 {
            assert(c[0] == d[0]);
        }
        assert(d == untrailed(d) + zeros((d.len() - untrailed(d).len()) as nat));
    } else {
        assert(d == d + zeros(0));
    }
}

proof fn lemma_untrailed_zeros(d: Seq<u8>, k: nat)
    requires
        d.len() > 0,
        d.last() != 0,
    ensures
        untrailed(d + zeros(k)) == d,
    decreases k,
{
    let e = d + zeros(k);
    if k > 0 {
        assert(e.drop_last() == d + zeros((k - 1) as nat));
        lemma_untrailed_zeros(d, (k - 1) as nat);
    } else {
        assert(e == d);
    }
}

proof fn lemma_unled(d: Seq<u8>)
    ensures
        unled(d).len() <= d.len(),
        d.skip(d.len() - unled(d).len()) == unled(d),
        forall|j: int| 0 <= j < d.len() - unled(d).len() ==> #[trigger] d[j] == 0,
        unled(d).len() > 0 ==> unled(d)[0] != 0,
    decreases d.len(),
{
    if d.len() > 0 && d[0] == 0 {
        let t = d.skip(1);
        lemma_unled(t);
        let k = t.len() - unled(t).len();
        assert(t.skip(k) == d.skip(k + 1));
        assert forall|j: int| 0 <= j < k + 1 implies #[trigger] d[j] == 0 by {
            if j > 0 {
                assert(t[j - 1] == d[j]);
            }
        }
    } else {
        assert(d.skip(0) == d);
    }
}

proof fn lemma_unled_zeros(k: nat, d: Seq<u8>)
    requires
        d.len() > 0,
        d[0] != 0,
    ensures
        unled(zeros(k) + d) == d,
    decreases k,
{
    let e = zeros(k) + d;
    if k > 0 {
        assert(e.skip(1) == zeros((k - 1) as nat) + d);
        lemma_unled_zeros((k - 1) as nat, d);
    } else {
        assert(e == d);
    }
}

proof fn lemma_zeros(k: nat)
    ensures
        digits_number(zeros(k)) == 0,
{
    lemma_leading_zeros(zeros(k), k as int);
    assert(zeros(k).skip(k as int) == Seq::<u8>::empty());
}

/// The digits of a number and the point among them are its value.
proof fn lemma_digits(n: NumberParts)
    requires
        all_digits(n.whole),
        all_digits(n.frac),
    ensures
        all_digits(n.digits()),
        n.digits().len() == 0 <==> n.mantissa() == 0,
        n.digits().len() > 0 ==> n.digits()[0] != 0 && n.digits().last() != 0,
        ({
            let e = n.point() - n.digits().len();
            numer(digits_number(n.digits()), e) * n.denom() == n.numer() * denom(e)
        }),
{
    let all = n.whole + n.frac;
    let u = unled(all);
    let d = n.digits();
    lemma_unled(all);
    lemma_untrailed(u);
    assert forall|i: int| 0 <= i < u.len() implies u[i] <= 9 by {
        assert(u[i] == all[i + all.len() - u.len()]);
    }
    assert forall|i: int| 0 <= i < d.len() implies d[i] <= 9 by {
        assert(d[i] == u[i]);
    }
    lemma_leading_zeros(all, all.len() - u.len());
    let k = (u.len() - d.len()) as nat;
    lemma_digits_concat(d, zeros(k));
    lemma_zeros(k);
    let m = digits_number(d);
    assert(n.mantissa() == m * p10(k));
    if d.len() > 0 {
        lemma_significant(d);
        lemma_p10_pos((d.len() - 1) as nat);
        lemma_p10_pos(k);
        assert(m * p10(k) > 0) by (nonlinear_arith)
            requires
                m > 0,
                p10(k) > 0,
        ;
    } else {
        assert(0 * p10(k) == 0) by (nonlinear_arith);
    }
    lemma_scaled(m, k, n.exponent());
}

/// Zeros at the end of a number against the power of ten that scales it.
proof fn lemma_scaled(m: nat, k: nat, e: int)
    ensures
        numer(m, e + k) * denom(e) == numer(m * p10(k), e) * denom(e + k),
{
    let a = p10(k);
    if e >= 0 {
        lemma_p10_add(k, e as nat);
        let b = p10(e as nat);
        assert((e + k) as nat == k + e as nat);
        assert(m * (a * b) * 1 == (m * a) * b * 1) by (nonlinear_arith);
    } else if e + k >= 0 {
        lemma_p10_add((e + k) as nat, (-e) as nat);
        let b = p10((e + k) as nat);
        let c = p10((-e) as nat);
        assert(k == (e + k) as nat + (-e) as nat);
        assert((m * b) * c == (m * (b * c)) * 1) by (nonlinear_arith);
    } else {
        lemma_p10_add(k, (-e - k) as nat);
        let b = p10((-e - k) as nat);
        assert((-e) as nat == k + (-e - k) as nat);
        assert(m * (a * b) == (m * a) * b) by (nonlinear_arith);
    }
}

proof fn lemma_denom(e: int)
    ensures
        denom(e) > 0,
{
    lemma_p10_pos((-e) as nat);
}

/// Two fractions of one value compare alike.
proof fn lemma_same_side(n1: nat, d1: nat, n2: nat, d2: nat, x: nat, y: nat)
    requires
        n1 * d2 == n2 * d1,
        d1 > 0,
        d2 > 0,
    ensures
        n1 * x <= y * d1 <==> n2 * x <= y * d2,
        n1 * x >= y * d1 <==> n2 * x >= y * d2,
{
    let u = n1 * x - y * d1;
    let v = n2 * x - y * d2;
    assert(u * d2 == v * d1) by (nonlinear_arith)
        requires
            u == n1 * x - y * d1,
            v == n2 * x - y * d2,
            n1 * d2 == n2 * d1,
    ;
    assert((u <= 0 <==> v <= 0) && (u >= 0 <==> v >= 0)) by (nonlinear_arith)
        requires
            u * d2 == v * d1,
            d1 > 0,
            d2 > 0,
    ;
}

/// Two numbers with the same digits and the same point have one value.
proof fn lemma_same_value(a: NumberParts, b: NumberParts)
    requires
        all_digits(a.whole),
        all_digits(a.frac),
        all_digits(b.whole),
        all_digits(b.frac),
        a.digits() == b.digits(),
        a.point() == b.point(),
    ensures
        a.numer() * b.denom() == b.numer() * a.denom(),
{
    let e = a.point() - a.digits().len();
    let n = numer(digits_number(a.digits()), e);
    let d = denom(e);
    lemma_digits(a);
    lemma_digits(b);
    lemma_denom(e);
    let (an, ad, bn, bd) = (a.numer(), a.denom(), b.numer(), b.denom());
    assert(an * bd == bn * ad) by (nonlinear_arith)
        requires
            n * ad == an * d,
            n * bd == bn * d,
            d > 0,
    {
        assert((an * bd) * d == (bn * ad) * d);
    }
}

proof fn lemma_digit_chars(d: Seq<u8>)
    requires
        all_digits(d),
    ensures
        forall|i: int|
            0 <= i < d.len() ==> is_digit(#[trigger] digits_text(d)[i]) && digit_value(
                digits_text(d)[i],
            ) == d[i],
{
}

/// How digits with a point among them, or without one, are read.
proof fn lemma_scan_digits(neg: bool, w: Seq<u8>, f: Seq<u8>)
    requires
        all_digits(w),
        all_digits(f),
        w.len() > 0,
    ensures
        scan(point_text(neg, w, f)) == (NumberParts {
            neg,
            whole: w,
            dot: true,
            frac: f,
            exp: None,
            len: point_text(neg, w, f).len() as int,
        }),
        scan(sign_text(neg) + digits_text(w)) == (NumberParts {
            neg,
            whole: w,
            dot: false,
            frac: Seq::empty(),
            exp: None,
            len: (sign_text(neg) + digits_text(w)).len() as int,
        }),
{
    let c = |c: char| digit_value(c);
    lemma_digit_chars(w);
    lemma_digit_chars(f);
    let i = sign_text(neg).len() as int;
    let j = i + w.len();
    let t = point_text(neg, w, f);
    let s = t.skip(i);
    assert(t[i] == digits_text(w)[0]);
    assert(sign_end(t) == i);
    assert forall|p: int| 0 <= p < w.len() implies is_digit(#[trigger] s[p]) by {
        assert(s[p] == digits_text(w)[p]);
    }
    lemma_digit_run_step(s, w.len() as int);
    assert(s.skip(w.len() as int)[0] == '.');
    assert(digit_run(s.skip(w.len() as int)) == Seq::<u8>::empty());
    assert(s.take(w.len() as int) == digits_text(w));
    assert(digits_text(w).map_values(c) == w);
    assert(digit_run(s) == w);
    assert(at(t, j, '.'));
    let u = t.skip(j + 1);
    assert(u == digits_text(f));
    lemma_digit_run_step(u, f.len() as int);
    assert(u.take(f.len() as int) == u);
    assert(digits_text(f).map_values(c) == f);
    assert(digit_run(u.skip(f.len() as int)) == Seq::<u8>::empty());
    assert(digit_run(u) == f);
    assert(scan_frac(t, j) == (f, t.len() as int));
    assert(scan_exp(t, t.len() as int) == (None::<(bool, Seq<u8>)>, t.len() as int));
    let v = sign_text(neg) + digits_text(w);
    let r = v.skip(i);
    assert(v[i] == digits_text(w)[0]);
    assert(sign_end(v) == i);
    assert(r == digits_text(w));
    lemma_digit_run_step(r, w.len() as int);
    assert(r.take(w.len() as int) == r);
    assert(digit_run(r.skip(w.len() as int)) == Seq::<u8>::empty());
    assert(digit_run(r) == w);
    assert(scan_frac(v, j) == (Seq::<u8>::empty(), j));
    assert(scan_exp(v, j) == (None::<(bool, Seq<u8>)>, j));
}

/// Digits with a point put among them are read as those digits with that point.
proof fn lemma_placed(neg: bool, d: Seq<u8>, p: int)
    requires
        all_digits(d),
        d.len() > 0,
        d[0] != 0,
        d.last() != 0,
    ensures
        ({
            let w = before_point(d, p);
            let f = behind_point(d, p);
            let t = point_text(neg, w, f);
            &&& all_digits(w) && all_digits(f)
            &&& is_number(t)
            &&& scan(t).neg == neg
            &&& scan(t).whole == w
            &&& scan(t).dot
            &&& scan(t).frac == f
            &&& scan(t).exp is None
            &&& scan(t).digits() == d
            &&& scan(t).point() == p
        }),
{
    let w = before_point(d, p);
    let f = behind_point(d, p);
    let t = point_text(neg, w, f);
    lemma_scan_digits(neg, w, f);
    let n = scan(t);
    let all = w + f;
    if p <= 0 {
        assert(all == zeros((1 - p) as nat) + d);
        lemma_unled_zeros((1 - p) as nat, d);
        assert(untrailed(d) == d);
    } else if p < d.len() {
        assert(all == d);
        assert(w[0] == d[0]);
        assert(unled(d) == d);
        assert(untrailed(d) == d);
    } else {
        let k = (p - d.len() + 1) as nat;
        assert(all == d + zeros(k));
        assert(all[0] == d[0]);
        assert(w[0] == d[0]);
        assert(unled(all) == all);
        lemma_untrailed_zeros(d, k);
    }
    assert(n.whole + n.frac == all);
}

/// Zero, written out, is zero.
pub proof fn lemma_placed_zero(neg: bool)
    ensures
        ({
            let t = point_text(neg, seq![0u8], seq![0u8]);
            &&& is_number(t)
            &&& scan(t).neg == neg
            &&& scan(t).dot
            &&& scan(t).exp is None
            &&& scan(t).numer() == 0
            &&& vanishes(t)
            &&& forall|b: nat| b > 0 ==> !#[trigger] at_least(t, b)
        }),
{
    let z = seq![0u8];
    let t = point_text(neg, z, z);
    lemma_scan_digits(neg, z, z);
    let n = scan(t);
    assert(n.whole + n.frac == zeros(2));
    lemma_zeros(2);
    assert(n.numer() == 0);
    let q = n.denom();
    lemma_denom(n.exponent());
    assert(0 * p2(203) == 0) by (nonlinear_arith);
    assert((p2(53) + 1) * q >= 0) by (nonlinear_arith);
    assert forall|b: nat| b > 0 implies !#[trigger] at_least(t, b) by {
        assert(b * q > 0) by (nonlinear_arith)
            requires
                b > 0,
                q > 0,
        ;
    }
}

proof fn lemma_scanned(t: Seq<char>)
    ensures
        all_digits(scan(t).whole),
        all_digits(scan(t).frac),
{
    let i = sign_end(t);
    lemma_digit_run(t.skip(i));
    let j = i + digit_run(t.skip(i)).len();
    if at(t, j, '.') {
        lemma_digit_run(t.skip(j + 1));
    }
}

/// A number without digits is zero.
proof fn lemma_nothing_sinks(n: NumberParts)
    requires
        all_digits(n.whole),
        all_digits(n.frac),
        n.digits().len() == 0,
    ensures
        sinks(n.numer(), n.denom()),
{
    lemma_digits(n);
    if n.exponent() >= 0 {
        assert(0 * p10(n.exponent() as nat) == 0) by (nonlinear_arith);
    }
    let q = n.denom();
    assert(0 * p2(203) == 0) by (nonlinear_arith);
    assert((p2(53) + 1) * q >= 0) by (nonlinear_arith);
}

/// What is written tidily is a number again, and tidy. Where it was finite in
/// single precision it has a point, no exponent and its sign, and where it was
/// not zero there, it has its value.
pub proof fn lemma_tidy(t: Seq<char>)
    requires
        is_number(t),
    ensures
        is_number(tidy(t)),
        tidy(tidy(t)) == tidy(t),
        scan(tidy(t)).neg == scan(t).neg,
        at_least(tidy(t), SINGLE_LIMIT as nat) == at_least(t, SINGLE_LIMIT as nat),
        vanishes(tidy(t)) == vanishes(t),
        !at_least(t, SINGLE_LIMIT as nat) ==> scan(tidy(t)).dot && scan(tidy(t)).exp is None,
        !at_least(t, SINGLE_LIMIT as nat) && vanishes(t) ==> scan(tidy(t)).numer() == 0,
        !vanishes(t) ==> scan(tidy(t)).numer() * scan(t).denom() == scan(t).numer() * scan(
            tidy(t),
        ).denom(),
{
    let lim = SINGLE_LIMIT as nat;
    let n = scan(t);
    if at_least(t, lim) {
    } else if vanishes(t) {
        lemma_placed_zero(n.neg);
    } else {
        let d = n.digits();
        lemma_scanned(t);
        if d.len() == 0 {
            lemma_nothing_sinks(n);
        }
        lemma_digits(n);
        lemma_placed(n.neg, d, n.point());
        let u = scan(tidy(t));
        lemma_same_value(u, n);
        lemma_denom(u.exponent());
        lemma_denom(n.exponent());
        lemma_same_side(u.numer(), u.denom(), n.numer(), n.denom(), p2(203), p2(53) + 1);
        lemma_same_side(u.numer(), u.denom(), n.numer(), n.denom(), 1, lim);
    }
}

/// Appends the characters of digits.
fn push_digits(out: &mut String, d: &Vec<u8>)
    requires
        all_digits(d@),
    ensures
        final(out)@ == old(out)@ + digits_text(d@),
{
    let ghost w = out@;
    let mut i: usize = 0;
    assert(w + digits_text(d@.take(0)) == w);
    while i < d.len()
        invariant
            i <= d@.len(),
            all_digits(d@),
            out@ == w + digits_text(d@.take(i as int)),
        decreases d@.len() - i,
    {
        let c: char = (48u8 + d[i]) as char;
        out.push(c);
        i = i + 1;
        proof {
            assert(out@ == w + digits_text(d@.take(i as int)));
        }
    }
    assert(d@.take(d@.len() as int) == d@);
}

/// A sign, digits, a point and digits.
fn with_point(neg: bool, w: &Vec<u8>, f: &Vec<u8>) -> (r: String)
    requires
        all_digits(w@),
        all_digits(f@),
    ensures
        r@ == point_text(neg, w@, f@),
{
    let mut r = String::new();
    if neg {
        r.push('-');
    }
    assert(r@ == sign_text(neg));
    push_digits(&mut r, w);
    r.push('.');
    push_digits(&mut r, f);
    assert(r@ == point_text(neg, w@, f@));
    r
}

/// The digits up to the last that is not zero.
fn without_zeros(d: Vec<u8>) -> (r: Vec<u8>)
    ensures
        r@ == untrailed(d@),
{
    let mut r = d;
    while r.len() > 0 && r[r.len() - 1] == 0
        invariant
            untrailed(r@) == untrailed(d@),
        decreases r@.len(),
    {
        r.pop();
    }
    r
}

/// Whether the magnitude of a number with digits vanishes, from its point.
proof fn lemma_vanishes(n: NumberParts)
    requires
        all_digits(n.whole),
        all_digits(n.frac),
        n.digits().len() > 0,
    ensures
        n.point() > 0 ==> !sinks(n.numer(), n.denom()),
        n.point() < -69 ==> sinks(n.numer(), n.denom()),
        n.point() <= 0 ==> {
            let f = behind_point(n.digits(), n.point());
            sinks(n.numer(), n.denom()) == sinks(digits_number(f), p10(f.len()))
        },
{
    let d = n.digits();
    let p = n.point();
    let e = p - d.len();
    let m = digits_number(d);
    let a = numer(m, e);
    let q = denom(e);
    lemma_digits(n);
    lemma_denom(e);
    lemma_denom(n.exponent());
    lemma_same_side(a, q, n.numer(), n.denom(), p2(203), p2(53) + 1);
    lemma_significant(d);
    lemma_p10_pos((d.len() - 1) as nat);
    lemma_limits();
    if p > 0 {
        if e >= 0 {
            lemma_p10_pos(e as nat);
            assert(m * p10(e as nat) >= 1) by (nonlinear_arith)
                requires
                    m >= 1,
                    p10(e as nat) >= 1,
            ;
        } else {
            lemma_p10_mono((-e) as nat, (d.len() - 1) as nat);
        }
        assert(a >= q);
        let b = p2(203);
        let c = p2(53) + 1;
        assert(a * b > c * q) by (nonlinear_arith)
            requires
                a >= q,
                q > 0,
                b > c,
        ;
    } else {
        let z = zeros((-p) as nat);
        lemma_zeros((-p) as nat);
        lemma_digits_concat(z, d);
        assert(0 * p10(d.len()) == 0) by (nonlinear_arith);
        assert(behind_point(d, p).len() == (-e) as nat);
        if p < -69 {
            lemma_p10_add(d.len(), (-p) as nat);
            lemma_p10_mono(69, (-p) as nat);
            let b = p2(203);
            let c = p2(53) + 1;
            let x = p10(d.len());
            let y = p10((-p) as nat);
            assert(d.len() + (-p) as nat == (-e) as nat);
            assert(m * b <= c * (x * y)) by (nonlinear_arith)
                requires
                    m <= x,
                    b <= y,
                    c >= 1,
            ;
        }
    }
}

proof fn lemma_limits()
    ensures
        p2(203) > 10 * (p2(53) + 1),
        p2(203) <= p10(69),
{
    lemma_p2_mono(57, 203);
    lemma_p2_mono(2, 53);
    assert(p2(57) == 16 * p2(53)) by {
        reveal_with_fuel(p2, 5);
    }
    assert(p2(2) == 4) by {
        reveal_with_fuel(p2, 3);
    }
    lemma_p10_p2(23);
    lemma_p2_mono(203, 207);
}

/// What stands in front of a point `p` places behind the beginning of `d`.
fn digits_before(d: &Vec<u8>, p: i32) -> (r: Vec<u8>)
    requires
        all_digits(d@),
        p <= 39,
    ensures
        r@ == before_point(d@, p as int),
        all_digits(r@),
{
    if p <= 0 {
        let r: Vec<u8> = vec![0u8];
        assert(r@ == before_point(d@, p as int));
        return r;
    }
    let k: usize = p as usize;
    let none: Vec<u8> = Vec::new();
    if k < d.len() {
        let mut r = d.clone();
        r.truncate(k);
        assert(r@ == before_point(d@, p as int));
        r
    } else {
        let r = joined(d, &padded(k - d.len(), &none, 0));
        assert(r@ == before_point(d@, p as int));
        r
    }
}

/// What stands behind a point `p` places behind the beginning of `d`.
fn digits_behind(d: &Vec<u8>, p: i32) -> (r: Vec<u8>)
    requires
        all_digits(d@),
        -69 <= p <= 39,
    ensures
        r@ == behind_point(d@, p as int),
        all_digits(r@),
{
    if p <= 0 {
        let r = padded((-p) as usize, d, 0);
        assert(r@ == behind_point(d@, p as int));
        r
    } else if (p as usize) < d.len() {
        let r = padded(0, d, p as usize);
        assert(r@ == behind_point(d@, p as int));
        r
    } else {
        let r: Vec<u8> = vec![0u8];
        assert(r@ == behind_point(d@, p as int));
        r
    }
}

/// A finite number with digits has few places in front of its point.
proof fn lemma_finite(n: NumberParts)
    requires
        all_digits(n.whole),
        all_digits(n.frac),
        n.digits().len() > 0,
        n.numer() < SINGLE_LIMIT as nat * n.denom(),
    ensures
        n.point() <= 39,
{
    let u = unled(n.whole + n.frac);
    lemma_unled(n.whole + n.frac);
    lemma_untrailed(u);
    if n.point() > 39 {
        let all = n.whole + n.frac;
        assert forall|i: int| 0 <= i < u.len() implies u[i] <= 9 by {
            assert(u[i] == all[i + all.len() - u.len()]);
        }
        lemma_leading_zeros(all, all.len() - u.len());
        lemma_whole_large(u, n.exponent());
        let q = n.denom();
        assert(0x1_0000_0000_0000_0000_0000_0000_0000_0000 * q >= SINGLE_LIMIT as nat * q)
            by (nonlinear_arith);
    }
}

/// The digits of a finite number and its point, unless it vanishes.
fn digits_of(n: &Number) -> (r: Option<(Vec<u8>, i32)>)
    requires
        all_digits(n.whole@),
        all_digits(n.frac@),
        n.exp matches Some((_, e)) ==> all_digits(e@),
        n@.numer() < SINGLE_LIMIT as nat * n@.denom(),
    ensures
        match r {
            Some((d, p)) => {
                &&& !sinks(n@.numer(), n@.denom())
                &&& d@ == n@.digits()
                &&& p == n@.point()
                &&& all_digits(d@)
                &&& -69 <= p <= 39
            },
            None => sinks(n@.numer(), n@.denom()),
        },
{
    let led = significant(&joined(&n.whole, &n.frac));
    let top: i128 = led.len() as i128 + power(n);
    proof {
        lemma_untrailed(led@);
        lemma_digits(n@);
    }
    if led.len() == 0 {
        proof {
            lemma_nothing_sinks(n@);
        }
        return None;
    }
    proof {
        lemma_vanishes(n@);
        lemma_finite(n@);
    }
    if top < -69 {
        return None;
    }
    let p: i32 = top as i32;
    let d = without_zeros(led);
    if p <= 0 && fraction_sinks(digits_behind(&d, p)) {
        return None;
    }
    Some((d, p))
}

/// The text of a number as it is written.
pub fn tidy_number(t: &String) -> (r: String)
    ensures
        r@ == tidy(t@),
{
    let b = chars_of(t.as_str());
    let n = scan_number(&b, 0);
    assert(b@.skip(0) == b@);
    if !n.is_valid() || n.len != b.len() || number_at_least(&b, SINGLE_LIMIT) {
        return t.clone();
    }
    match digits_of(&n) {
        Some((d, p)) => with_point(n.neg, &digits_before(&d, p), &digits_behind(&d, p)),
        None => {
            let zero: Vec<u8> = vec![0u8];
            assert(zero@ == seq![0u8]);
            with_point(n.neg, &zero, &zero)
        },
    }
}

/// What is left of digits with a point where only a zero stands behind it.
proof fn lemma_without_point(neg: bool, w: Seq<u8>, f: Seq<u8>)
    requires
        f.len() > 0,
        all_digits(f),
    ensures
        ({
            let u = point_text(neg, w, f);
            &&& u.len() >= 2
            &&& u.last() == '0' <==> f.last() == 0
            &&& f == seq![0u8] ==> u[u.len() - 2] == '.' && u.take(u.len() - 2) == sign_text(neg)
                + digits_text(w)
        }),
{
    let u = point_text(neg, w, f);
    assert(u.last() == digits_text(f).last());
    if f == seq![0u8] {
        assert(u.take(u.len() - 2) == sign_text(neg) + digits_text(w));
    }
}

proof fn lemma_tiny(t: Seq<char>, b: nat)
    requires
        vanishes(t),
        b > 0,
    ensures
        !at_least(t, b),
{
    let n = scan(t).numer();
    let q = scan(t).denom();
    lemma_denom(scan(t).exponent());
    lemma_limits();
    let x = p2(203);
    let y = p2(53) + 1;
    assert(n < q) by (nonlinear_arith)
        requires
            n * x <= y * q,
            x > y,
            q > 0,
    ;
    assert(b * q >= q) by (nonlinear_arith)
        requires
            b >= 1,
    ;
}

/// Zero without a point is zero.
proof fn lemma_shown_zero(neg: bool)
    ensures
        ({
            let v = sign_text(neg) + digits_text(seq![0u8]);
            &&& is_number(v)
            &&& scan(v).neg == neg
            &&& scan(v).exp is None
            &&& scan(v).numer() == 0
            &&& vanishes(v)
            &&& !at_least(v, SINGLE_LIMIT as nat)
        }),
{
    let z = seq![0u8];
    lemma_scan_digits(neg, z, z);
    let r = scan(sign_text(neg) + digits_text(z));
    assert(r.whole + r.frac == zeros(1));
    lemma_zeros(1);
    assert(p10(0) == 1);
    assert(r.numer() == 0 * 1);
    assert(0 * p2(203) == 0) by (nonlinear_arith);
    assert((p2(53) + 1) * 1 >= 0) by (nonlinear_arith);
}

/// Digits without a point are read as those digits with a point behind them.
proof fn lemma_placed_whole(neg: bool, d: Seq<u8>, k: nat)
    requires
        all_digits(d),
        d.len() > 0,
        d[0] != 0,
        d.last() != 0,
    ensures
        ({
            let w = d + zeros(k);
            let v = sign_text(neg) + digits_text(w);
            &&& is_number(v)
            &&& scan(v).neg == neg
            &&& scan(v).exp is None
            &&& scan(v).digits() == d
            &&& scan(v).point() == d.len() + k
        }),
{
    let w = d + zeros(k);
    lemma_scan_digits(neg, w, seq![0u8]);
    assert(w[0] == d[0]);
    assert(unled(w) == w);
    lemma_untrailed_zeros(d, k);
    let v = scan(sign_text(neg) + digits_text(w));
    assert(v.whole + v.frac == w);
}

/// What is shown of a number that does not vanish has its digits and its point.
proof fn lemma_shown_place(t: Seq<char>)
    requires
        is_number(t),
        !at_least(t, SINGLE_LIMIT as nat),
        !vanishes(t),
    ensures
        is_number(shown(t)),
        scan(shown(t)).neg == scan(t).neg,
        scan(shown(t)).exp is None,
        scan(shown(t)).digits() == scan(t).digits(),
        scan(shown(t)).point() == scan(t).point(),
{
    let n = scan(t);
    let d = n.digits();
    let p = n.point();
    let w = before_point(d, p);
    let f = behind_point(d, p);
    lemma_scanned(t);
    if d.len() == 0 {
        lemma_nothing_sinks(n);
    }
    lemma_digits(n);
    lemma_placed(n.neg, d, p);
    lemma_without_point(n.neg, w, f);
    if p >= d.len() {
        lemma_placed_whole(n.neg, d, (p - d.len()) as nat);
    } else {
        assert(f.last() == d.last());
    }
}

/// What is shown of a number that is finite in single precision is a number
/// without an exponent that is written as the number was. It has its sign and,
/// where that was not zero in single precision, its value.
pub proof fn lemma_shown(t: Seq<char>)
    requires
        is_number(t),
        !at_least(t, SINGLE_LIMIT as nat),
    ensures
        is_number(shown(t)),
        tidy(shown(t)) == tidy(t),
        shown(shown(t)) == shown(t),
        scan(shown(t)).neg == scan(t).neg,
        scan(shown(t)).exp is None,
        vanishes(t) ==> scan(shown(t)).numer() == 0,
        !vanishes(t) ==> scan(shown(t)).numer() * scan(t).denom() == scan(t).numer() * scan(
            shown(t),
        ).denom(),
{
    let lim = SINGLE_LIMIT as nat;
    let n = scan(t);
    let v = shown(t);
    if vanishes(t) {
        lemma_without_point(n.neg, seq![0u8], seq![0u8]);
        lemma_shown_zero(n.neg);
    } else {
        lemma_shown_place(t);
        let u = scan(v);
        lemma_scanned(t);
        lemma_scanned(v);
        lemma_same_value(u, n);
        lemma_denom(u.exponent());
        lemma_denom(n.exponent());
        lemma_same_side(u.numer(), u.denom(), n.numer(), n.denom(), p2(203), p2(53) + 1);
        lemma_same_side(u.numer(), u.denom(), n.numer(), n.denom(), 1, lim);
    }
}

/// What is shown of a number is as large as the number.
pub proof fn lemma_shown_at_least(t: Seq<char>, b: nat)
    requires
        is_number(t),
        !at_least(t, SINGLE_LIMIT as nat),
        b > 0,
    ensures
        at_least(shown(t), b) == at_least(t, b),
{
    let n = scan(t);
    let u = scan(shown(t));
    lemma_shown(t);
    lemma_denom(u.exponent());
    lemma_denom(n.exponent());
    if vanishes(t) {
        lemma_tiny(t, b);
        let q = u.denom();
        assert(b * q > 0) by (nonlinear_arith)
            requires
                b > 0,
                q > 0,
        ;
    } else {
        lemma_same_side(u.numer(), u.denom(), n.numer(), n.denom(), 1, b);
    }
}

/// Digits with a point among them are shown as they are, where the value is
/// neither small nor large and no zeros stand at either end.
pub proof fn lemma_shown_placed(d: Seq<u8>, p: int)
    requires
        all_digits(d),
        d.len() > 0,
        d[0] != 0,
        d.last() != 0,
        0 <= p < d.len(),
        p <= 30,
    ensures
        ({
            let t = point_text(false, before_point(d, p), behind_point(d, p));
            shown(t) == t
        }),
{
    let w = before_point(d, p);
    let f = behind_point(d, p);
    let t = point_text(false, w, f);
    lemma_placed(false, d, p);
    lemma_without_point(false, w, f);
    assert(f.last() == d.last());
    let n = scan(t);
    let e = p - d.len();
    let m = digits_number(d);
    let q = denom(e);
    lemma_digits(n);
    lemma_denom(e);
    lemma_denom(n.exponent());
    let lim = SINGLE_LIMIT as nat;
    lemma_same_side(m, q, n.numer(), n.denom(), p2(203), p2(53) + 1);
    lemma_same_side(m, q, n.numer(), n.denom(), 1, lim);
    lemma_significant(d);
    lemma_p10_mono((-e) as nat, d.len());
    assert(p10(d.len()) == 10 * p10((d.len() - 1) as nat));
    lemma_limits();
    let x = p2(203);
    let y = p2(53) + 1;
    assert(m * x > y * q) by (nonlinear_arith)
        requires
            10 * m >= q,
            x > 10 * y,
            q > 0,
    ;
    lemma_p10_add(p as nat, (-e) as nat);
    lemma_p10_mono(p as nat, 30);
    assert(p as nat + (-e) as nat == d.len());
    assert(p10(30) < lim) by {
        reveal_with_fuel(p10, 31);
    }
    let h = p10(p as nat);
    assert(m * 1 < lim * q) by (nonlinear_arith)
        requires
            m < h * q,
            h < lim,
            q > 0,
    ;
}

/// An integer is shown as its decimal text, and written with a point and a zero
/// behind it.
pub proof fn lemma_tidy_integer(v: nat)
    requires
        v < SINGLE_LIMIT,
    ensures
        tidy(int_text(v as int)) == int_text(v as int) + seq!['.', '0'],
        shown(int_text(v as int)) == int_text(v as int),
{
    let t = int_text(v as int);
    let n = scan(t);
    lemma_int_text(v as int);
    lemma_scanned(t);
    lemma_digits(n);
    assert(p10(0) == 1);
    assert(n.numer() == v * 1);
    assert(n.denom() == 1);
    lemma_limits();
    let w = n.whole;
    assert(t.skip(0) == t);
    assert(digit_run(t) == w);
    lemma_digit_run(t);
    lemma_digit_run_step(t, w.len() as int);
    assert(t =~= digits_text(w)) by {
        assert(digit_run(t) == t.take(w.len() as int).map_values(|c: char| digit_value(c))
            + digit_run(t.skip(w.len() as int)));
        assert forall|i: int| 0 <= i < t.len() implies t[i] == digits_text(w)[i] by {
            assert(is_digit(t[i]));
            assert(digit_run(t)[i] == digit_value(t[i]));
        }
    }
    assert(w + n.frac == w);
    assert(sign_text(false) + digits_text(w) == t);
    if v == 0 {
        assert(digits_number(w) == 0);
        if w.len() > 1 {
            lemma_significant(w);
            lemma_p10_pos((w.len() - 1) as nat);
        }
        reveal_with_fuel(digits_number, 2);
        assert(w == seq![0u8]);
        assert(0 * p2(203) == 0) by (nonlinear_arith);
    } else {
        assert(v * p2(203) > (p2(53) + 1) * 1) by (nonlinear_arith)
            requires
                v >= 1,
                p2(203) > p2(53) + 1,
        ;
        assert(w[0] != 0) by {
            if w[0] == 0 {
                reveal_with_fuel(digits_number, 2);
                assert(w.drop_last() == Seq::<u8>::empty());
            }
        }
        assert(unled(w) == w);
        lemma_untrailed(w);
        let d = n.digits();
        assert(before_point(d, n.point()) == w);
    }
    lemma_without_point(false, w, seq![0u8]);
    assert(tidy(t) == t + seq!['.', '0']) by {
        assert(digits_text(seq![0u8]) == seq!['0']);
    }
}

/// The text of a number as it is shown.
pub fn shown_number(t: &String) -> (r: String)
    ensures
        r@ == shown(t@),
{
    let u = tidy_number(t);
    let b = chars_of(u.as_str());
    let n: usize = b.len();
    if n >= 2 && b[n - 2] == '.' && b[n - 1] == '0' {
        let r = string_of(&b, 0, n - 2);
        assert(r@ == u@.take(n - 2));
        r
    } else {
        u
    }
}

} // verus!
