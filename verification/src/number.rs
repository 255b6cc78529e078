//! Decimal numbers as JSON documents write them.
//!
//! A number is kept as its text. What integer it denotes is settled by the
//! double nearest to it, since documents are read by programs that hold every
//! number as a double.

use vstd::prelude::*;
use crate::double::all_digits;
use crate::double::digits_number;
use crate::double::integral_double;
use crate::double::lemma_digits_bound;
use crate::double::lemma_digits_concat;
use crate::double::lemma_digits_first;
use crate::double::lemma_integral_beyond;
use crate::double::lemma_integral_exact;
use crate::double::lemma_integral_greatest;
use crate::double::lemma_integral_stable;
use crate::double::lemma_integral_tiny;
use crate::double::lemma_p10_add;
use crate::double::lemma_p10_mono;
use crate::double::lemma_p10_p2;
use crate::double::lemma_p10_pos;
use crate::double::lemma_p2_mono;
use crate::double::nearest_integral;
use crate::double::p10;
use crate::double::p2;
use crate::double::rounds_to;

verus! {

/// An ASCII decimal digit.
pub open spec fn is_digit(c: char) -> bool {
    '0' <= c <= '9'
}

/// What a decimal digit counts.
pub open spec fn digit_value(c: char) -> u8 {
    (c as int - '0' as int) as u8
}

/// The values of the digits at the start of `s`.
pub open spec fn digit_run(s: Seq<char>) -> Seq<u8>
    decreases s.len(),
{
    if s.len() > 0 && is_digit(s[0]) {
        seq![digit_value(s[0])] + digit_run(s.skip(1))
    } else {
        Seq::empty()
    }
}

/// `s` holds `c` at `i`.
pub open spec fn at(s: Seq<char>, i: int, c: char) -> bool {
    0 <= i < s.len() && s[i] == c
}

/// The parts of the number at the start of a text.
pub ghost struct NumberParts {
    pub neg: bool,
    pub whole: Seq<u8>,
    /// There is a point behind the whole part.
    pub dot: bool,
    pub frac: Seq<u8>,
    /// Whether the exponent is negative, and its digits.
    pub exp: Option<(bool, Seq<u8>)>,
    /// How many characters the number takes.
    pub len: int,
}

/// Where the digits of the number at the start of `s` begin.
pub open spec fn sign_end(s: Seq<char>) -> int {
    if at(s, 0, '-') {
        1
    } else {
        0
    }
}

/// The digits behind a point at `j`, and where they end.
pub open spec fn scan_frac(s: Seq<char>, j: int) -> (Seq<u8>, int) {
    if at(s, j, '.') {
        let frac = digit_run(s.skip(j + 1));
        (frac, j + 1 + frac.len())
    } else {
        (Seq::empty(), j)
    }
}

/// The exponent at `k`, and where it ends.
pub open spec fn scan_exp(s: Seq<char>, k: int) -> (Option<(bool, Seq<u8>)>, int) {
    if at(s, k, 'e') || at(s, k, 'E') {
        let minus = at(s, k + 1, '-');
        let m = if minus || at(s, k + 1, '+') {
            k + 2
        } else {
            k + 1
        };
        let e = digit_run(s.skip(m));
        (Some((minus, e)), m + e.len())
    } else {
        (None, k)
    }
}

/// Reads a number at the start of `s`: a sign, digits, a point with digits, an
/// exponent; each of them may be missing.
pub open spec fn scan(s: Seq<char>) -> NumberParts {
    let i = sign_end(s);
    let whole = digit_run(s.skip(i));
    let j = i + whole.len();
    let (frac, k) = scan_frac(s, j);
    let (exp, len) = scan_exp(s, k);
    NumberParts { neg: at(s, 0, '-'), whole, dot: at(s, j, '.'), frac, exp, len }
}

impl NumberParts {
    /// There are digits in front of the point, with no zero before another
    /// digit, and behind the point and in the exponent where these are there.
    pub open spec fn valid(self) -> bool {
        &&& self.whole.len() > 0
        &&& self.whole[0] == 0 ==> self.whole.len() == 1
        &&& self.dot ==> self.frac.len() > 0
        &&& self.exp matches Some((_, e)) ==> e.len() > 0
    }

    /// The digits without the point.
    pub open spec fn mantissa(self) -> nat {
        digits_number(self.whole + self.frac)
    }

    /// The power of ten that scales the mantissa.
    pub open spec fn exponent(self) -> int {
        let e: int = match self.exp {
            Some((true, e)) => -(digits_number(e) as int),
            Some((false, e)) => digits_number(e) as int,
            None => 0,
        };
        e - self.frac.len()
    }

    /// The magnitude, as a numerator.
    pub open spec fn numer(self) -> nat {
        numer(self.mantissa(), self.exponent())
    }

    /// The magnitude, as a denominator.
    pub open spec fn denom(self) -> nat {
        denom(self.exponent())
    }
}

/// The numerator of `m` times ten to the `e`.
pub open spec fn numer(m: nat, e: int) -> nat {
    if e >= 0 {
        m * p10(e as nat)
    } else {
        m
    }
}

/// The denominator of `m` times ten to the `e`.
pub open spec fn denom(e: int) -> nat {
    if e >= 0 {
        1
    } else {
        p10((-e) as nat)
    }
}

/// The text is one whole number.
pub open spec fn is_number(t: Seq<char>) -> bool {
    scan(t).valid() && scan(t).len == t.len()
}

/// The integer that the double nearest to the number is, where it is one and
/// between -2^63 and 2^63; 2^63 itself counts as 2^63 - 1.
pub open spec fn int_value(t: Seq<char>) -> Option<int> {
    let n = scan(t);
    if !is_number(t) {
        None
    } else {
        match integral_double(n.numer(), n.denom()) {
            Some(v) => if n.neg {
                Some(-(v as int))
            } else if v > i64::MAX {
                Some(i64::MAX as int)
            } else {
                Some(v as int)
            },
            None => None,
        }
    }
}

/// The parts of a number, as values.
pub struct Number {
    pub neg: bool,
    pub whole: Vec<u8>,
    pub dot: bool,
    pub frac: Vec<u8>,
    pub exp: Option<(bool, Vec<u8>)>,
    pub len: usize,
}

impl View for Number {
    type V = NumberParts;

    open spec fn view(&self) -> NumberParts {
        NumberParts {
            neg: self.neg,
            whole: self.whole@,
            dot: self.dot,
            frac: self.frac@,
            exp: match self.exp {
                Some((n, e)) => Some((n, e@)),
                None => None,
            },
            len: self.len as int,
        }
    }
}

impl Number {
    /// Whether the parts make up a number.
    pub fn is_valid(&self) -> (r: bool)
        ensures
            r == self@.valid(),
    {
        let exp_ok = match &self.exp {
            Some((_, e)) => e.len() > 0,
            None => true,
        };
        self.whole.len() > 0 && (self.whole[0] != 0 || self.whole.len() == 1) && (!self.dot
            || self.frac.len() > 0) && exp_ok
    }
}

pub proof fn lemma_digit_run(s: Seq<char>)
    ensures
        digit_run(s).len() <= s.len(),
        all_digits(digit_run(s)),
        forall|i: int| 0 <= i < digit_run(s).len() ==> is_digit(s[i]),
        digit_run(s).len() < s.len() ==> !is_digit(s[digit_run(s).len() as int]),
    decreases s.len(),
{
    if s.len() > 0 && is_digit(s[0]) {
        let t = s.skip(1);
        lemma_digit_run(t);
        assert(digit_run(s).len() == digit_run(t).len() + 1);
        assert forall|i: int| 0 <= i < digit_run(s).len() implies digit_run(s)[i] <= 9 && is_digit(
            s[i],
        ) by {
            if i > 0 {
                assert(t[i - 1] == s[i]);
                assert(digit_run(t)[i - 1] == digit_run(s)[i]);
            }
        }
        if digit_run(s).len() < s.len() {
            assert(t[digit_run(t).len() as int] == s[digit_run(s).len() as int]);
        }
    }
}

/// A run goes on as long as there are digits.
pub(crate) proof fn lemma_digit_run_step(s: Seq<char>, i: int)
    requires
        0 <= i <= s.len(),
        forall|j: int| 0 <= j < i ==> is_digit(#[trigger] s[j]),
    ensures
        digit_run(s) == s.take(i).map_values(|c: char| digit_value(c)) + digit_run(s.skip(i)),
    decreases i,
{
    let f = |c: char| digit_value(c);
    if i == 0 {
        assert(s.skip(0) == s);
        assert(s.take(0).map_values(f) == Seq::<u8>::empty());
        assert(digit_run(s) == s.take(i).map_values(f) + digit_run(s.skip(i)));
    } else {
        let t = s.skip(1);
        assert forall|j: int| 0 <= j < i - 1 implies is_digit(#[trigger] t[j]) by {
            assert(t[j] == s[j + 1]);
        }
        lemma_digit_run_step(t, i - 1);
        assert(t.skip(i - 1) == s.skip(i));
        assert(s.take(i).map_values(f) == seq![digit_value(s[0])] + t.take(i - 1).map_values(f));
        assert(is_digit(s[0]));
        assert(digit_run(s) == s.take(i).map_values(f) + digit_run(s.skip(i)));
    }
}

/// The digits from `from` on.
fn take_digits(b: &Vec<char>, from: usize) -> (r: Vec<u8>)
    requires
        from <= b@.len(),
    ensures
        r@ == digit_run(b@.skip(from as int)),
        from + r@.len() <= b@.len() <= usize::MAX,
        all_digits(r@),
{
    let ghost s = b@.skip(from as int);
    let mut r: Vec<u8> = Vec::new();
    let mut i: usize = from;
    proof {
        assert(s.take(0).map_values(|c: char| digit_value(c)) == r@);
    }
    while i < b.len() && '0' <= b[i] && b[i] <= '9'
        invariant
            from <= i <= b@.len(),
            s == b@.skip(from as int),
            r@ == s.take(i - from).map_values(|c: char| digit_value(c)),
            forall|j: int| 0 <= j < i - from ==> is_digit(#[trigger] s[j]),
        decreases b@.len() - i,
    {
        let d: u8 = (b[i] as u32 - '0' as u32) as u8;
        r.push(d);
        proof {
            assert(s[i - from] == b@[i as int]);
            assert(r@ == s.take(i + 1 - from).map_values(|c: char| digit_value(c)));
        }
        i = i + 1;
    }
    proof {
        lemma_digit_run_step(s, i - from);
        let t = s.skip(i - from);
        if t.len() > 0 {
            assert(t[0] == b@[i as int]);
        }
        assert(digit_run(t) == Seq::<u8>::empty());
        assert(digit_run(s) == r@);
        lemma_digit_run(s);
    }
    r
}

/// Whether `b` holds `c` at `i`.
fn holds(b: &Vec<char>, i: usize, c: char, Ghost(from): Ghost<int>) -> (r: bool)
    requires
        0 <= from <= i,
        from <= b@.len(),
    ensures
        r == at(b@.skip(from), i - from, c),
        r ==> i < b@.len() <= usize::MAX,
{
    i < b.len() && b[i] == c
}

/// The digits behind a point at `j`, and where they end.
fn frac_part(b: &Vec<char>, j: usize, Ghost(from): Ghost<int>) -> (r: (Vec<u8>, usize))
    requires
        0 <= from <= j <= b@.len(),
    ensures
        r.0@ == scan_frac(b@.skip(from), j - from).0,
        r.1 - from == scan_frac(b@.skip(from), j - from).1,
        j <= r.1 <= b@.len(),
        all_digits(r.0@),
{
    let frac: Vec<u8> = Vec::new();
    if holds(b, j, '.', Ghost(from)) {
        assert(b@.skip(j + 1) == b@.skip(from).skip(j + 1 - from));
        let d = take_digits(b, j + 1);
        let end: usize = j + 1 + d.len();
        (d, end)
    } else {
        assert(frac@ == Seq::<u8>::empty());
        (frac, j)
    }
}

/// The exponent at `k`, and where it ends.
fn exp_part(b: &Vec<char>, k: usize, Ghost(from): Ghost<int>) -> (r: (
    Option<(bool, Vec<u8>)>,
    usize,
))
    requires
        0 <= from <= k <= b@.len(),
    ensures
        match r.0 {
            Some((minus, e)) => scan_exp(b@.skip(from), k - from).0 == Some((minus, e@))
                && all_digits(e@),
            None => scan_exp(b@.skip(from), k - from).0 is None,
        },
        r.1 - from == scan_exp(b@.skip(from), k - from).1,
        k <= r.1 <= b@.len(),
{
    if holds(b, k, 'e', Ghost(from)) || holds(b, k, 'E', Ghost(from)) {
        let minus = holds(b, k + 1, '-', Ghost(from));
        let plus = holds(b, k + 1, '+', Ghost(from));
        let m: usize = if minus || plus {
            k + 2
        } else {
            k + 1
        };
        assert(b@.skip(m as int) == b@.skip(from).skip(m - from));
        let e = take_digits(b, m);
        let end: usize = m + e.len();
        (Some((minus, e)), end)
    } else {
        (None, k)
    }
}

/// Reads the number at `from`.
pub fn scan_number(b: &Vec<char>, from: usize) -> (r: Number)
    requires
        from <= b@.len(),
    ensures
        r@ == scan(b@.skip(from as int)),
        from + r.len <= b@.len(),
        all_digits(r.whole@),
        all_digits(r.frac@),
        r.exp matches Some((_, e)) ==> all_digits(e@),
{
    let neg = holds(b, from, '-', Ghost(from as int));
    let i: usize = if neg {
        from + 1
    } else {
        from
    };
    assert(b@.skip(i as int) == b@.skip(from as int).skip(i - from));
    let whole = take_digits(b, i);
    let j: usize = i + whole.len();
    let dot = holds(b, j, '.', Ghost(from as int));
    let (frac, k) = frac_part(b, j, Ghost(from as int));
    let (exp, end) = exp_part(b, k, Ghost(from as int));
    Number { neg, whole, dot, frac, exp, len: end - from }
}

/// The digits from the first that is not zero on.
pub open spec fn unled(d: Seq<u8>) -> Seq<u8>
    decreases d.len(),
{
    if d.len() > 0 && d[0] == 0 {
        unled(d.skip(1))
    } else {
        d
    }
}

proof fn lemma_unled_at(d: Seq<u8>, i: int)
    requires
        0 <= i <= d.len(),
        forall|j: int| 0 <= j < i ==> #[trigger] d[j] == 0,
        i < d.len() ==> d[i] != 0,
    ensures
        unled(d) == d.skip(i),
    decreases i,
{
    if i == 0 {
        assert(d.skip(0) == d);
    } else {
        assert(d[0] == 0);
        let t = d.skip(1);
        assert forall|j: int| 0 <= j < i - 1 implies #[trigger] t[j] == 0 by {
            assert(t[j] == d[j + 1]);
        }
        lemma_unled_at(t, i - 1);
        assert(t.skip(i - 1) == d.skip(i));
    }
}

/// Zeros in front change nothing.
pub(crate) proof fn lemma_leading_zeros(d: Seq<u8>, i: int)
    requires
        0 <= i <= d.len(),
        forall|j: int| 0 <= j < i ==> #[trigger] d[j] == 0,
    ensures
        digits_number(d.skip(i)) == digits_number(d),
    decreases i,
{
    if i == 0 {
        assert(d.skip(0) == d);
    } else {
        lemma_digits_first(d);
        assert(0 * p10((d.len() - 1) as nat) == 0) by (nonlinear_arith);
        let t = d.skip(1);
        assert forall|j: int| 0 <= j < i - 1 implies #[trigger] t[j] == 0 by {
            assert(t[j] == d[j + 1]);
        }
        lemma_leading_zeros(t, i - 1);
        assert(t.skip(i - 1) == d.skip(i));
    }
}

/// The digits from the first that is not zero on.
pub(crate) fn significant(d: &Vec<u8>) -> (r: Vec<u8>)
    requires
        all_digits(d@),
    ensures
        r@ == unled(d@),
        digits_number(r@) == digits_number(d@),
        r@.len() <= d@.len(),
        all_digits(r@),
        r@.len() > 0 ==> r@[0] > 0,
{
    let mut i: usize = 0;
    while i < d.len() && d[i] == 0
        invariant
            i <= d@.len(),
            forall|j: int| 0 <= j < i ==> #[trigger] d@[j] == 0,
        decreases d@.len() - i,
    {
        i = i + 1;
    }
    proof {
        lemma_leading_zeros(d@, i as int);
        lemma_unled_at(d@, i as int);
    }
    let mut r: Vec<u8> = Vec::new();
    let mut j: usize = i;
    proof {
        assert(r@ == d@.subrange(i as int, i as int));
    }
    while j < d.len()
        invariant
            i <= j <= d@.len(),
            r@ == d@.subrange(i as int, j as int),
        decreases d@.len() - j,
    {
        r.push(d[j]);
        j = j + 1;
        assert(r@ == d@.subrange(i as int, j as int));
    }
    assert(r@ == d@.skip(i as int));
    r
}

/// A run of digits that does not begin with zero lies between two powers of
/// ten.
pub(crate) proof fn lemma_significant(d: Seq<u8>)
    requires
        all_digits(d),
        d.len() > 0,
        d[0] > 0,
    ensures
        p10((d.len() - 1) as nat) <= digits_number(d) < p10(d.len()),
{
    lemma_digits_first(d);
    lemma_digits_bound(d);
    let w = p10((d.len() - 1) as nat);
    let c = d[0] as nat;
    assert(c * w >= w) by (nonlinear_arith)
        requires
            c >= 1,
    ;
}

/// The number that up to 30 digits denote.
fn small_number(d: &Vec<u8>, upto: usize) -> (r: u128)
    requires
        all_digits(d@),
        upto <= d@.len(),
        upto <= 30,
    ensures
        r == digits_number(d@.take(upto as int)),
        r < p10(upto as nat),
{
    let mut r: u128 = 0;
    let mut i: usize = 0;
    proof {
        lemma_ten_powers();
    }
    while i < upto
        invariant
            i <= upto <= d@.len(),
            upto <= 30,
            all_digits(d@),
            r == digits_number(d@.take(i as int)),
            r < p10(i as nat),
            p10(30) == 1_000_000_000_000_000_000_000_000_000_000,
        decreases upto - i,
    {
        proof {
            lemma_p10_mono((i + 1) as nat, 30);
            let t = d@.take(i + 1);
            assert(t.drop_last() == d@.take(i as int));
            assert(t.last() == d@[i as int]);
            assert(p10((i + 1) as nat) == 10 * p10(i as nat));
        }
        r = 10 * r + d[i] as u128;
        i = i + 1;
    }
    r
}

proof fn lemma_ten_powers()
    ensures
        p10(20) == 100_000_000_000_000_000_000,
        p10(25) == 10_000_000_000_000_000_000_000_000,
        p10(24) == 1_000_000_000_000_000_000_000_000,
        p10(30) == 1_000_000_000_000_000_000_000_000_000_000,
{
    reveal_with_fuel(p10, 31);
}

/// More than twenty digits before the point.
proof fn lemma_too_large(d: Seq<u8>, e: int)
    requires
        all_digits(d),
        d.len() > 0,
        d[0] > 0,
        d.len() + e > 20,
    ensures
        integral_double(numer(digits_number(d), e), denom(e)) is None,
{
    let m = digits_number(d);
    let n = (d.len() - 1) as nat;
    let top = (n + e) as nat;
    lemma_significant(d);
    lemma_ten_powers();
    lemma_p10_mono(20, top);
    lemma_p2_64();
    if e >= 0 {
        lemma_p10_add(n, e as nat);
        assert(n + e as nat == top);
        let w = p10(e as nat);
        assert(m * w >= p10(n) * w) by (nonlinear_arith)
            requires
                m >= p10(n),
        ;
        assert(1 * p2(64) == p2(64)) by (nonlinear_arith);
        lemma_integral_beyond(m * w, 1);
    } else {
        let q = p10((-e) as nat);
        lemma_p10_pos((-e) as nat);
        lemma_p10_add((-e) as nat, top);
        assert((-e) as nat + top == n);
        assert(m >= q * p2(64)) by (nonlinear_arith)
            requires
                m >= q * p10(top),
                p10(top) >= p2(64),
        ;
        lemma_integral_beyond(m, q);
    }
}

proof fn lemma_p2_64()
    ensures
        p2(64) == 0x1_0000_0000_0000_0000,
{
    reveal_with_fuel(p2, 65);
}

/// More than 360 zeros behind the point.
proof fn lemma_too_small(d: Seq<u8>, e: int)
    requires
        all_digits(d),
        d.len() > 0,
        d.len() + e < -360,
    ensures
        integral_double(numer(digits_number(d), e), denom(e)) == Some(0nat),
{
    let m = digits_number(d);
    let n = d.len();
    let k = (-e) as nat;
    lemma_digits_bound(d);
    lemma_p10_p2(120);
    lemma_p2_mono(1075, 1080);
    lemma_p10_pos(n);
    lemma_p10_add(n, (k - n) as nat);
    lemma_p10_mono(360, (k - n) as nat);
    assert(m * p2(1075) <= p10(k)) by (nonlinear_arith)
        requires
            m < p10(n),
            p2(1075) <= p10((k - n) as nat),
            p10(k) == p10(n) * p10((k - n) as nat),
    ;
    assert(p10(1) == 10) by {
        reveal_with_fuel(p10, 2);
    }
    lemma_p10_mono(1, (k - n) as nat);
    assert(2 * m < p10(k)) by (nonlinear_arith)
        requires
            m < p10(n),
            p10((k - n) as nat) >= 2,
            p10(k) == p10(n) * p10((k - n) as nat),
    ;
    lemma_integral_tiny(m, p10(k));
}

/// Ten to the `k`.
fn ten_power(k: usize) -> (r: u128)
    requires
        k <= 30,
    ensures
        r == p10(k as nat),
{
    let mut r: u128 = 1;
    let mut i: usize = 0;
    proof {
        lemma_ten_powers();
    }
    while i < k
        invariant
            i <= k <= 30,
            r == p10(i as nat),
            p10(30) == 1_000_000_000_000_000_000_000_000_000_000,
        decreases k - i,
    {
        proof {
            lemma_p10_mono((i + 1) as nat, 30);
            assert(p10((i + 1) as nat) == 10 * p10(i as nat));
        }
        r = 10 * r;
        i = i + 1;
    }
    r
}

/// `zeros` zeros and then the digits from `from` on.
pub(crate) fn padded(zeros: usize, d: &Vec<u8>, from: usize) -> (r: Vec<u8>)
    requires
        all_digits(d@),
        from <= d@.len(),
    ensures
        r@ == Seq::new(zeros as nat, |i: int| 0u8) + d@.skip(from as int),
        all_digits(r@),
{
    let mut r: Vec<u8> = Vec::new();
    let mut i: usize = 0;
    while i < zeros
        invariant
            i <= zeros,
            r@ == Seq::new(i as nat, |i: int| 0u8),
        decreases zeros - i,
    {
        r.push(0);
        i = i + 1;
        assert(r@ == Seq::new(i as nat, |i: int| 0u8));
    }
    let ghost z = r@;
    let mut j: usize = from;
    assert(r@ == z + d@.subrange(from as int, from as int));
    while j < d.len()
        invariant
            from <= j <= d@.len(),
            r@ == z + d@.subrange(from as int, j as int),
        decreases d@.len() - j,
    {
        r.push(d[j]);
        j = j + 1;
        assert(r@ == z + d@.subrange(from as int, j as int));
    }
    assert(d@.subrange(from as int, d@.len() as int) == d@.skip(from as int));
    r
}

/// The integer nearest double of digits scaled by a power of ten.
fn magnitude(d: &Vec<u8>, e: i128) -> (r: Option<u64>)
    requires
        all_digits(d@),
        d@.len() > 0,
        d@[0] > 0,
        -0x1_0000_0000_0000_0000_0000_0000 < e < 0x1_0000_0000_0000_0000_0000_0000,
    ensures
        rounds_to(numer(digits_number(d@), e as int), denom(e as int), r),
{
    let n: usize = d.len();
    let top: i128 = n as i128 + e;
    if top > 20 {
        proof {
            lemma_too_large(d@, e as int);
        }
        return None;
    }
    if top < -360 {
        proof {
            lemma_too_small(d@, e as int);
        }
        return Some(0);
    }
    if e >= 0 {
        let m: u128 = small_number(d, n);
        let w: u128 = ten_power(e as usize);
        proof {
            assert(d@.take(n as int) == d@);
            lemma_ten_powers();
            lemma_p10_add(n as nat, e as nat);
            lemma_p10_mono(top as nat, 24);
            lemma_p10_pos(e as nat);
            assert(m * w < p10(n as nat) * w) by (nonlinear_arith)
                requires
                    m < p10(n as nat),
                    w > 0,
            ;
        }
        let whole: u128 = m * w;
        let none: Vec<u8> = Vec::new();
        proof {
            assert(whole * 1 == whole);
        }
        nearest_integral(whole, none)
    } else {
        let k: i128 = -e;
        if top >= 0 {
            let cut: usize = top as usize;
            let whole: u128 = small_number(d, cut);
            let frac = padded(0, d, cut);
            proof {
                assert(frac@ == d@.skip(cut as int));
                assert(d@ == d@.take(cut as int) + d@.skip(cut as int));
                lemma_digits_concat(d@.take(cut as int), d@.skip(cut as int));
                lemma_ten_powers();
                lemma_p10_mono(cut as nat, 24);
            }
            nearest_integral(whole, frac)
        } else {
            let zeros: usize = (-top) as usize;
            let frac = padded(zeros, d, 0);
            proof {
                assert(frac@.skip(zeros as int) == d@);
                lemma_leading_zeros(frac@, zeros as int);
                assert(0 * p10(frac@.len()) == 0) by (nonlinear_arith);
            }
            nearest_integral(0, frac)
        }
    }
}

/// Zero stays zero however it is scaled.
proof fn lemma_zero(e: int)
    ensures
        integral_double(numer(0, e), denom(e)) == Some(0nat),
{
    if e >= 0 {
        assert(0 * p10(e as nat) == 0) by (nonlinear_arith);
    } else {
        lemma_p10_pos((-e) as nat);
    }
    assert(0 * p2(1075) == 0) by (nonlinear_arith);
    lemma_integral_tiny(0, denom(e));
}

/// `a` and behind it `b`.
pub(crate) fn joined(a: &Vec<u8>, b: &Vec<u8>) -> (r: Vec<u8>)
    ensures
        r@ == a@ + b@,
{
    let mut r: Vec<u8> = a.clone();
    let mut i: usize = 0;
    assert(r@ == a@ + b@.take(0));
    while i < b.len()
        invariant
            i <= b@.len(),
            r@ == a@ + b@.take(i as int),
        decreases b@.len() - i,
    {
        r.push(b[i]);
        i = i + 1;
        assert(r@ == a@ + b@.take(i as int));
    }
    assert(b@.take(b@.len() as int) == b@);
    r
}

/// The power of ten that scales the mantissa. One of more than 25 digits is
/// held at 10^25 or -10^25, short of which the exact one lies nowhere near.
pub(crate) fn power(n: &Number) -> (r: i128)
    requires
        n.exp matches Some((_, e)) ==> all_digits(e@),
    ensures
        -0x1_0000_0000_0000_0000_0000_0000 < r < 0x1_0000_0000_0000_0000_0000_0000,
        r == n@.exponent() || n@.exponent() > r > 0x1_0000_0000_0000_0000_0000 || n@.exponent() < r
            < -0x1_0000_0000_0000_0000_0000,
{
    let f: usize = n.frac.len();
    match &n.exp {
        None => -(f as i128),
        Some((minus, digits)) => {
            let ed = significant(digits);
            proof {
                lemma_ten_powers();
            }
            let v: u128;
            if ed.len() > 25 {
                proof {
                    lemma_significant(ed@);
                    lemma_p10_mono(25, (ed@.len() - 1) as nat);
                }
                v = 9_000_000_000_000_000_000_000_000;
            } else {
                v = small_number(&ed, ed.len());
                proof {
                    assert(ed@.take(ed@.len() as int) == ed@);
                    lemma_p10_mono(ed@.len(), 25);
                }
            }
            let x: i128 = if *minus {
                -(v as i128)
            } else {
                v as i128
            };
            x - f as i128
        },
    }
}

/// The magnitude of a scanned number, where its double is an integer.
fn number_magnitude(n: &Number) -> (r: Option<u64>)
    requires
        all_digits(n.whole@),
        all_digits(n.frac@),
        n.exp matches Some((_, e)) ==> all_digits(e@),
    ensures
        rounds_to(n@.numer(), n@.denom(), r),
{
    let all = joined(&n.whole, &n.frac);
    let d = significant(&all);
    if d.len() == 0 {
        proof {
            lemma_zero(n@.exponent());
        }
        return Some(0);
    }
    let e: i128 = power(n);
    if e > 0x1_0000_0000_0000_0000_0000 {
        proof {
            lemma_too_large(d@, n@.exponent());
        }
        return None;
    }
    if e < -0x1_0000_0000_0000_0000_0000 {
        proof {
            lemma_too_small(d@, n@.exponent());
        }
        return Some(0);
    }
    magnitude(&d, e)
}

/// `w` is what stands before the point.
pub open spec fn is_whole_part(n: NumberParts, w: nat) -> bool {
    w * n.denom() <= n.numer() < (w + 1) * n.denom()
}

/// What stands before the point, where that is below 2^128.
pub fn whole_part(n: &Number) -> (r: Option<u128>)
    requires
        all_digits(n.whole@),
        all_digits(n.frac@),
        n.exp matches Some((_, e)) ==> all_digits(e@),
    ensures
        match r {
            Some(w) => is_whole_part(n@, w as nat),
            None => n@.numer() >= 0x1_0000_0000_0000_0000_0000_0000_0000_0000 * n@.denom(),
        },
{
    let all = joined(&n.whole, &n.frac);
    let d = significant(&all);
    let ghost e = n@.exponent();
    if d.len() == 0 {
        proof {
            lemma_whole_zero(d@, e);
        }
        return Some(0);
    }
    let x: i128 = power(n);
    let top: i128 = d.len() as i128 + x;
    if top > 39 {
        proof {
            lemma_whole_large(d@, e);
        }
        return None;
    }
    if top <= 0 {
        proof {
            lemma_whole_zero(d@, e);
        }
        return Some(0);
    }
    let count: usize = top as usize;
    let mut w: u128 = 0;
    let mut i: usize = 0;
    let ghost whole = whole_digits(d@, count as nat);
    proof {
        lemma_whole_digits(d@, e);
        lemma_p10_pos((-e) as nat);
        assert(whole.take(0) == Seq::<u8>::empty());
    }
    while i < count
        invariant
            i <= count,
            all_digits(d@),
            whole == whole_digits(d@, count as nat),
            is_whole_part(n@, digits_number(whole)),
            n@.denom() > 0,
            w == digits_number(whole.take(i as int)),
        decreases count - i,
    {
        let c: u8 = if i < d.len() {
            d[i]
        } else {
            0
        };
        proof {
            let t = whole.take(i + 1);
            assert(t.drop_last() == whole.take(i as int));
            assert(t.last() == c);
        }
        if w > (u128::MAX - c as u128) / 10 {
            proof {
                lemma_prefix_below(whole, i + 1);
                lemma_beyond(n@, digits_number(whole));
            }
            return None;
        }
        w = 10 * w + c as u128;
        i = i + 1;
    }
    assert(whole.take(count as int) == whole);
    Some(w)
}

/// The first `count` digits, with zeros behind the last of them.
spec fn whole_digits(d: Seq<u8>, count: nat) -> Seq<u8> {
    Seq::new(
        count,
        |i: int|
            if i < d.len() {
                d[i]
            } else {
                0
            },
    )
}

proof fn lemma_beyond(n: NumberParts, w: nat)
    requires
        is_whole_part(n, w),
        w >= 0x1_0000_0000_0000_0000_0000_0000_0000_0000,
    ensures
        n.numer() >= 0x1_0000_0000_0000_0000_0000_0000_0000_0000 * n.denom(),
{
    let q = n.denom();
    assert(w * q >= 0x1_0000_0000_0000_0000_0000_0000_0000_0000 * q) by (nonlinear_arith)
        requires
            w >= 0x1_0000_0000_0000_0000_0000_0000_0000_0000,
    ;
}

proof fn lemma_prefix_below(d: Seq<u8>, i: int)
    requires
        0 <= i <= d.len(),
    ensures
        digits_number(d.take(i)) <= digits_number(d),
{
    let a = d.take(i);
    let b = d.skip(i);
    assert(a + b == d);
    lemma_digits_concat(a, b);
    lemma_p10_pos(b.len());
    let x = digits_number(a);
    let y = p10(b.len());
    assert(x * y >= x) by (nonlinear_arith)
        requires
            y >= 1,
    ;
}

proof fn lemma_whole_zero(d: Seq<u8>, e: int)
    requires
        all_digits(d),
        d.len() == 0 || d.len() + e <= 0,
    ensures
        0 * denom(e) <= numer(digits_number(d), e) < 1 * denom(e),
{
    lemma_digits_bound(d);
    lemma_p10_pos((-e) as nat);
    assert(0 * denom(e) == 0) by (nonlinear_arith);
    if d.len() == 0 {
        if e >= 0 {
            assert(0 * p10(e as nat) == 0) by (nonlinear_arith);
        }
    } else {
        lemma_p10_mono(d.len(), (-e) as nat);
    }
}

pub(crate) proof fn lemma_whole_large(d: Seq<u8>, e: int)
    requires
        all_digits(d),
        d.len() > 0,
        d[0] > 0,
        d.len() + e > 39,
    ensures
        numer(digits_number(d), e) >= 0x1_0000_0000_0000_0000_0000_0000_0000_0000 * denom(e),
{
    let m = digits_number(d);
    let n = (d.len() - 1) as nat;
    let top = (n + e) as nat;
    lemma_significant(d);
    lemma_p10_39();
    lemma_p10_mono(39, top);
    if e >= 0 {
        lemma_p10_add(n, e as nat);
        assert(n + e as nat == top);
        let w = p10(e as nat);
        assert(m * w >= p10(n) * w) by (nonlinear_arith)
            requires
                m >= p10(n),
        ;
    } else {
        let q = p10((-e) as nat);
        lemma_p10_add((-e) as nat, top);
        assert((-e) as nat + top == n);
        assert(m >= 0x1_0000_0000_0000_0000_0000_0000_0000_0000 * q) by (nonlinear_arith)
            requires
                m >= q * p10(top),
                p10(top) >= 0x1_0000_0000_0000_0000_0000_0000_0000_0000,
        ;
    }
}

proof fn lemma_p10_39()
    ensures
        p10(39) >= 0x1_0000_0000_0000_0000_0000_0000_0000_0000,
{
    reveal_with_fuel(p10, 40);
}

proof fn lemma_whole_digits(d: Seq<u8>, e: int)
    requires
        all_digits(d),
        d.len() + e > 0,
    ensures
        ({
            let w = digits_number(whole_digits(d, (d.len() + e) as nat));
            w * denom(e) <= numer(digits_number(d), e) < (w + 1) * denom(e)
        }),
{
    let count = (d.len() + e) as nat;
    let p = whole_digits(d, count);
    let m = digits_number(d);
    if e >= 0 {
        let z = Seq::new(e as nat, |i: int| 0u8);
        assert(p == d + z);
        lemma_digits_concat(d, z);
        lemma_leading_zeros(z, e);
        assert(z.skip(e) == Seq::<u8>::empty());
        assert(digits_number(p) == m * p10(e as nat));
    } else {
        let k = (-e) as nat;
        let tail = d.skip(count as int);
        assert(p == d.take(count as int));
        assert(d == p + tail);
        lemma_digits_concat(p, tail);
        assert forall|i: int| 0 <= i < tail.len() implies tail[i] <= 9 by {
            assert(tail[i] == d[i + count]);
        }
        lemma_digits_bound(tail);
        let w = digits_number(p);
        assert((w + 1) * p10(k) == w * p10(k) + p10(k)) by (nonlinear_arith);
    }
}

/// The integer that a text denotes (`int_value`).
pub fn number_int(t: &Vec<char>) -> (r: Option<i64>)
    ensures
        match int_value(t@) {
            Some(v) => r == Some(v as i64) && i64::MIN <= v <= i64::MAX,
            None => r is None,
        },
{
    let n = scan_number(t, 0);
    assert(t@.skip(0) == t@);
    if !n.is_valid() || n.len != t.len() {
        return None;
    }
    match number_magnitude(&n) {
        None => None,
        Some(v) => if n.neg {
            Some((-(v as i128)) as i64)
        } else if v > 0x7fff_ffff_ffff_ffff {
            Some(i64::MAX)
        } else {
            Some(v as i64)
        },
    }
}

/// The decimal digit that counts `d`.
pub open spec fn digit_char(d: nat) -> char {
    (48 + d) as char
}

/// A natural number in decimal, without leading zeros.
pub open spec fn decimal(n: nat) -> Seq<char>
    decreases n,
{
    if n < 10 {
        seq![digit_char(n)]
    } else {
        decimal(n / 10).push(digit_char(n % 10))
    }
}

/// An integer in decimal.
pub open spec fn int_text(v: int) -> Seq<char> {
    if v < 0 {
        seq!['-'] + decimal((-v) as nat)
    } else {
        decimal(v as nat)
    }
}

/// Appends a natural number in decimal.
pub fn push_decimal(out: &mut String, n: u64)
    ensures
        final(out)@ == old(out)@ + decimal(n as nat),
    decreases n,
{
    if n >= 10 {
        push_decimal(out, n / 10);
    }
    let c: char = (48u8 + (n % 10) as u8) as char;
    out.push(c);
    proof {
        let w = old(out)@;
        if n >= 10 {
            assert(w + decimal(n as nat) == (w + decimal(n as nat / 10)).push(
                digit_char(n as nat % 10),
            ));
        } else {
            assert(w + decimal(n as nat) == w.push(digit_char(n as nat)));
        }
    }
}

/// Appends an integer in decimal.
pub fn push_int(out: &mut String, v: i64)
    ensures
        final(out)@ == old(out)@ + int_text(v as int),
{
    let ghost w = out@;
    if v < 0 {
        out.push('-');
        let m: u64 = (-(v as i128)) as u64;
        push_decimal(out, m);
        assert(w.push('-') + decimal((-v) as nat) == w + int_text(v as int));
    } else {
        push_decimal(out, v as u64);
    }
}

/// `s` does not begin with a character that a number can go on with.
pub open spec fn ends_number(s: Seq<char>) -> bool {
    s.len() > 0 ==> !is_digit(s[0]) && s[0] != '.' && s[0] != 'e' && s[0] != 'E' && s[0] != '+'
        && s[0] != '-'
}

proof fn lemma_run_more(u: Seq<char>, rest: Seq<char>)
    requires
        ends_number(rest),
    ensures
        digit_run(u + rest) == digit_run(u),
    decreases u.len(),
{
    if u.len() == 0 {
        assert(u + rest == rest);
    } else {
        assert((u + rest).skip(1) == u.skip(1) + rest);
        lemma_run_more(u.skip(1), rest);
    }
}

proof fn lemma_run_more_at(t: Seq<char>, rest: Seq<char>, i: int)
    requires
        ends_number(rest),
        0 <= i <= t.len(),
    ensures
        digit_run((t + rest).skip(i)) == digit_run(t.skip(i)),
        i + digit_run(t.skip(i)).len() <= t.len(),
{
    assert((t + rest).skip(i) == t.skip(i) + rest);
    lemma_run_more(t.skip(i), rest);
    lemma_digit_run(t.skip(i));
}

/// What follows a number does not change how it is read.
pub proof fn lemma_scan_more(t: Seq<char>, rest: Seq<char>)
    requires
        ends_number(rest),
    ensures
        scan(t + rest) == scan(t),
        0 <= scan(t).len <= t.len(),
{
    let s = t + rest;
    assert forall|j: int, c: char|
        0 <= j <= t.len() && (c == '-' || c == '+' || c == '.' || c == 'e' || c
            == 'E') implies #[trigger] at(s, j, c) == at(t, j, c) by {
        if j < t.len() {
            assert(s[j] == t[j]);
        } else if rest.len() > 0 {
            assert(s[j] == rest[0]);
        }
    }
    let i = sign_end(t);
    assert(sign_end(s) == i);
    lemma_run_more_at(t, rest, i);
    let j = i + digit_run(t.skip(i)).len();
    if at(t, j, '.') {
        lemma_run_more_at(t, rest, j + 1);
    }
    let (frac, k) = scan_frac(t, j);
    assert(scan_frac(s, j) == scan_frac(t, j));
    if at(t, k, 'e') || at(t, k, 'E') {
        let m = if at(t, k + 1, '-') || at(t, k + 1, '+') {
            k + 2
        } else {
            k + 1
        };
        assert(at(s, k + 1, '-') == at(t, k + 1, '-'));
        assert(at(s, k + 1, '+') == at(t, k + 1, '+'));
        lemma_run_more_at(t, rest, m);
    }
    assert(scan_exp(s, k) == scan_exp(t, k));
}

proof fn lemma_decimal(n: nat)
    ensures
        decimal(n).len() > 0,
        forall|i: int| 0 <= i < decimal(n).len() ==> is_digit(#[trigger] decimal(n)[i]),
        digits_number(decimal(n).map_values(|c: char| digit_value(c))) == n,
        n > 0 ==> decimal(n)[0] != '0',
        n < 10 ==> decimal(n).len() == 1,
    decreases n,
{
    let f = |c: char| digit_value(c);
    let d = decimal(n);
    if n < 10 {
        assert(d.map_values(f).drop_last() == Seq::<u8>::empty());
        assert(d.map_values(f).last() == n);
        assert(digits_number(Seq::<u8>::empty()) == 0);
    } else {
        let c = decimal(n / 10);
        lemma_decimal(n / 10);
        assert(d.map_values(f).drop_last() == c.map_values(f));
        assert(d.map_values(f).last() == n % 10);
        assert(d[0] == c[0]);
        assert forall|i: int| 0 <= i < d.len() implies is_digit(#[trigger] d[i]) by {
            if i < c.len() {
                assert(d[i] == c[i]);
            }
        }
    }
}

/// Decimal text is a number, and denotes what was written.
pub proof fn lemma_int_text(v: int)
    ensures
        is_number(int_text(v)),
        scan(int_text(v)).neg == (v < 0),
        scan(int_text(v)).exp is None,
        scan(int_text(v)).frac.len() == 0,
        scan(int_text(v)).mantissa() == if v < 0 {
            -v
        } else {
            v
        },
        at(int_text(v), 0, '-') || is_digit(int_text(v)[0]),
{
    let n = (if v < 0 {
        -v
    } else {
        v
    }) as nat;
    let t = int_text(v);
    let d = decimal(n);
    lemma_decimal(n);
    let i = sign_end(t);
    if v < 0 {
        assert(t[0] == '-');
    } else {
        assert(is_digit(t[0]));
    }
    assert(t.skip(i) == d);
    lemma_digit_run_step(d, d.len() as int);
    assert(d.skip(d.len() as int) == Seq::<char>::empty());
    assert(d.take(d.len() as int) == d);
    let w = d.map_values(|c: char| digit_value(c));
    assert(w + Seq::<u8>::empty() == w);
    assert(digit_run(d) == w);
    assert(scan(t).whole + scan(t).frac == w);
    assert(w[0] == digit_value(d[0]));
}

/// An integer that a double holds is read back from its decimal text.
pub proof fn lemma_int_value(v: int)
    requires
        i64::MIN <= v <= i64::MAX,
        integral_double(
            (if v < 0 {
                -v
            } else {
                v
            }) as nat,
            1,
        ) == Some(
            (if v < 0 {
                -v
            } else {
                v
            }) as nat,
        ),
    ensures
        int_value(int_text(v)) == Some(v),
{
    lemma_int_text(v);
    let n = scan(int_text(v)).mantissa();
    assert(p10(0) == 1);
    assert(n * 1 == n);
}

/// Integers up to 2^53 in magnitude are such.
pub proof fn lemma_int_value_small(v: int)
    requires
        -0x20_0000_0000_0000 <= v <= 0x20_0000_0000_0000,
    ensures
        int_value(int_text(v)) == Some(v),
{
    lemma_integral_exact(
        (if v < 0 {
            -v
        } else {
            v
        }) as nat,
    );
    lemma_int_value(v);
}

/// The magnitude of the number is `bound` or more.
pub open spec fn at_least(t: Seq<char>, bound: nat) -> bool {
    scan(t).numer() >= bound * scan(t).denom()
}

/// From here on a number, read as a double and then narrowed to single
/// precision, is infinite: 2^128 - 2^103 - 2^74.
pub const SINGLE_LIMIT: u128 = 0xffff_ff7f_ffff_fc00_0000_0000_0000_0000_u128;

proof fn lemma_at_least(n: NumberParts, w: nat, bound: nat)
    requires
        is_whole_part(n, w),
    ensures
        w >= bound <==> n.numer() >= bound * n.denom(),
{
    let q = n.denom();
    if w >= bound {
        assert(w * q >= bound * q) by (nonlinear_arith)
            requires
                w >= bound,
        ;
    } else {
        assert((w + 1) * q <= bound * q) by (nonlinear_arith)
            requires
                w + 1 <= bound,
        ;
    }
}

/// Whether the magnitude of a number is `bound` or more.
pub fn number_at_least(t: &Vec<char>, bound: u128) -> (r: bool)
    ensures
        r == at_least(t@, bound as nat),
{
    let n = scan_number(t, 0);
    assert(t@.skip(0) == t@);
    match whole_part(&n) {
        Some(w) => {
            proof {
                lemma_at_least(n@, w as nat, bound as nat);
            }
            w >= bound
        },
        None => {
            proof {
                let q = n@.denom();
                let b = bound as nat;
                assert(0x1_0000_0000_0000_0000_0000_0000_0000_0000 * q >= b * q)
                    by (nonlinear_arith)
                    requires
                        b <= 0x1_0000_0000_0000_0000_0000_0000_0000_0000,
                ;
            }
            true
        },
    }
}

/// Whether a text is one whole number.
pub fn check_number(t: &Vec<char>) -> (r: bool)
    ensures
        r == is_number(t@),
{
    let n = scan_number(t, 0);
    assert(t@.skip(0) == t@);
    n.is_valid() && n.len == t.len()
}

/// How digits with a point among them are read.
pub proof fn lemma_scan_point(t: Seq<char>, j: int)
    requires
        0 < j < t.len() - 1,
        t[j] == '.',
        forall|i: int| 0 <= i < t.len() && i != j ==> is_digit(#[trigger] t[i]),
        t[0] != '0' || j == 1,
    ensures
        is_number(t),
        !scan(t).neg,
        scan(t).mantissa() == digits_number(
            t.remove(j).map_values(|c: char| digit_value(c)),
        ),
        scan(t).exponent() == j + 1 - t.len(),
{
    let f = |c: char| digit_value(c);
    assert(is_digit(t[0]));
    assert(t.skip(0) == t);
    lemma_digit_run_step(t, j);
    assert(digit_run(t.skip(j)) == Seq::<u8>::empty());
    let whole = t.take(j).map_values(f);
    assert(whole + Seq::<u8>::empty() == whole);
    let u = t.skip(j + 1);
    lemma_digit_run_step(u, u.len() as int);
    assert(digit_run(u.skip(u.len() as int)) == Seq::<u8>::empty());
    assert(u.take(u.len() as int) == u);
    let frac = u.map_values(f);
    assert(frac + Seq::<u8>::empty() == frac);
    assert(whole + frac == t.remove(j).map_values(f));
    assert(whole[0] == digit_value(t[0]));
}

/// An integer that was read is read back from its decimal text.
pub proof fn lemma_read_integer(t: Seq<char>)
    requires
        int_value(t) is Some,
    ensures
        ({
            let v = int_value(t)->Some_0;
            i64::MIN <= v <= i64::MAX && int_value(int_text(v)) == Some(v)
        }),
{
    let n = scan(t);
    let v = int_value(t)->Some_0;
    lemma_p10_pos((-n.exponent()) as nat);
    lemma_integral_stable(n.numer(), n.denom());
    let u = integral_double(n.numer(), n.denom())->Some_0;
    if !n.neg && u > i64::MAX {
        lemma_int_text(v);
        lemma_integral_greatest();
        let m = scan(int_text(v)).mantissa();
        assert(p10(0) == 1);
        assert(m * 1 == m);
    } else {
        lemma_int_value(v);
    }
}

proof fn lemma_run_take(u: Seq<char>, k: int)
    requires
        digit_run(u).len() <= k <= u.len(),
    ensures
        digit_run(u.take(k)) == digit_run(u),
    decreases u.len(),
{
    if u.len() > 0 && is_digit(u[0]) {
        assert(k > 0);
        let v = u.skip(1);
        assert(u.take(k).skip(1) == v.take(k - 1));
        lemma_run_take(v, k - 1);
    } else if k > 0 {
        assert(u.take(k)[0] == u[0]);
    }
}

proof fn lemma_run_take_at(s: Seq<char>, n: int, i: int)
    requires
        0 <= i <= n <= s.len(),
        i + digit_run(s.skip(i)).len() <= n,
    ensures
        digit_run(s.take(n).skip(i)) == digit_run(s.skip(i)),
{
    assert(s.take(n).skip(i) == s.skip(i).take(n - i));
    lemma_run_take(s.skip(i), n - i);
}

/// The characters of a number alone are read as the same number.
pub proof fn lemma_scan_alone(s: Seq<char>)
    ensures
        0 <= scan(s).len <= s.len(),
        scan(s.take(scan(s).len)) == scan(s),
{
    let n = scan(s).len;
    let i = sign_end(s);
    lemma_digit_run(s.skip(i));
    let j = i + digit_run(s.skip(i)).len();
    if at(s, j, '.') {
        lemma_digit_run(s.skip(j + 1));
    }
    let k = scan_frac(s, j).1;
    assert(j <= k <= s.len());
    let m = if at(s, k + 1, '-') || at(s, k + 1, '+') {
        k + 2
    } else {
        k + 1
    };
    if at(s, k, 'e') || at(s, k, 'E') {
        lemma_digit_run(s.skip(m));
        assert(m <= n <= s.len());
    }
    let t = s.take(n);
    assert forall|p: int, c: char| 0 <= p < n implies #[trigger] at(t, p, c) == at(s, p, c) by {
        assert(t[p] == s[p]);
    }
    assert(sign_end(t) == i);
    lemma_run_take_at(s, n, i);
    if at(s, j, '.') {
        lemma_run_take_at(s, n, j + 1);
        assert(at(t, j, '.'));
    }
    assert(scan_frac(t, j) == scan_frac(s, j));
    if at(s, k, 'e') || at(s, k, 'E') {
        lemma_run_take_at(s, n, m);
        assert(at(t, k, 'e') == at(s, k, 'e') && at(t, k, 'E') == at(s, k, 'E'));
    }
    assert(scan_exp(t, k) == scan_exp(s, k));
}

/// A digit more behind the point counts a tenth of the place before it.
pub proof fn digits_behind_the_point_count_tenths(n: NumberParts, x: u8)
    requires
        n.exp is None,
    ensures
        (NumberParts { frac: n.frac.push(x), ..n }).numer() == 10 * n.numer() + x,
        (NumberParts { frac: n.frac.push(x), ..n }).denom() == 10 * n.denom(),
        n.frac.len() == 0 ==> n.denom() == 1 && n.numer() == digits_number(n.whole),
{
    let m = NumberParts { frac: n.frac.push(x), ..n };
    let d = n.whole + n.frac;
    assert(m.whole + m.frac == d.push(x));
    assert(d.push(x).drop_last() == d);
    assert(p10(0) == 1);
    assert(digits_number(d) * 1 == digits_number(d));
    assert(m.denom() == p10((n.frac.len() + 1) as nat));
    assert(p10((n.frac.len() + 1) as nat) == 10 * p10(n.frac.len()));
    if n.frac.len() == 0 {
        assert(d == n.whole);
    }
}

/// An exponent that is greater by one makes the number ten times as large.
pub proof fn an_exponent_scales_by_ten(m: nat, e: int)
    ensures
        numer(m, e + 1) * denom(e) == 10 * (numer(m, e) * denom(e + 1)),
        numer(m, 0) == m,
        denom(0) == 1,
{
    assert(p10(0) == 1);
    assert(m * 1 == m);
    if e >= 0 {
        assert(p10((e + 1) as nat) == 10 * p10(e as nat));
        assert((m * (10 * p10(e as nat))) * 1 == 10 * ((m * p10(e as nat)) * 1)) by (nonlinear_arith);
    } else if e == -1 {
        assert(p10(1) == 10 * p10(0));
        assert(m * 10 == 10 * (m * 1));
    } else {
        let a = (-e - 1) as nat;
        assert((-(e + 1)) as nat == a);
        assert(p10((a + 1) as nat) == 10 * p10(a));
        assert(m * (10 * p10(a)) == 10 * (m * p10(a))) by (nonlinear_arith);
    }
}

/// The exponent that is written counts up or down by its sign, and each digit
/// behind the point takes one from it.
pub proof fn the_written_exponent_counts(n: NumberParts, e: Seq<u8>)
    ensures
        n.exp == Some((false, e)) ==> n.exponent() == digits_number(e) - n.frac.len(),
        n.exp == Some((true, e)) ==> n.exponent() == -digits_number(e) - n.frac.len(),
        n.exp is None ==> n.exponent() == -(n.frac.len() as int),
{
}

/// A number starts with a digit or a minus sign and a digit, and no zero stands
/// in front of another digit of its whole part. It ends with a digit.
pub proof fn numbers_start_and_end_with_digits(t: Seq<char>)
    requires
        is_number(t),
    ensures
        t.len() > 0,
        '0' <= t[0] <= '9' || (t[0] == '-' && t.len() > 1 && '0' <= t[1] <= '9'),
        t[0] == '0' && t.len() > 1 ==> !('0' <= t[1] <= '9'),
        t[0] == '-' && t[1] == '0' && t.len() > 2 ==> !('0' <= t[2] <= '9'),
        '0' <= t.last() <= '9',
{
    let n = scan(t);
    let i = sign_end(t);
    let u = t.skip(i);
    lemma_digit_run(u);
    let w = n.whole.len() as int;
    assert(u[0] == t[i]);
    assert(digit_run(u)[0] == digit_value(u[0]));
    if w < u.len() {
        assert(u[w] == t[i + w]);
    }
    let j = i + w;
    let (f, k) = scan_frac(t, j);
    if at(t, j, '.') {
        let v = t.skip(j + 1);
        lemma_digit_run(v);
        assert(v[f.len() - 1] == t[k - 1]);
    } else {
        assert(u[w - 1] == t[k - 1]);
    }
    if at(t, k, 'e') || at(t, k, 'E') {
        let a = if at(t, k + 1, '-') || at(t, k + 1, '+') {
            k + 2
        } else {
            k + 1
        };
        let v = t.skip(a);
        lemma_digit_run(v);
        let e = digit_run(v);
        assert(v[e.len() - 1] == t[n.len - 1]);
    }
}

/// A minus sign in front of a number that has none turns its sign, and nothing
/// else of it.
pub proof fn a_minus_sign_turns_the_sign(t: Seq<char>)
    requires
        t.len() > 0,
        t[0] != '-',
    ensures
        !scan(t).neg,
        scan(seq!['-'] + t).neg,
        scan(seq!['-'] + t).whole == scan(t).whole,
        scan(seq!['-'] + t).frac == scan(t).frac,
        scan(seq!['-'] + t).exp == scan(t).exp,
        is_number(seq!['-'] + t) == is_number(t),
        int_value(t) is Some && int_value(t)->Some_0 < i64::MAX ==> int_value(seq!['-'] + t) == Some(
            -int_value(t)->Some_0,
        ),
{
    let s = seq!['-'] + t;
    assert(s.skip(1) == t.skip(0));
    let j = scan(t).whole.len() as int;
    lemma_digit_run(t.skip(0));
    assert(forall|i: int| 0 <= i < t.len() ==> s[i + 1] == #[trigger] t[i]);
    assert(at(s, j + 1, '.') == at(t, j, '.'));
    if at(t, j, '.') {
        assert(s.skip(j + 2) == t.skip(j + 1));
        lemma_digit_run(t.skip(j + 1));
    }
    let k = scan_frac(t, j).1;
    assert(scan_frac(s, j + 1) == (scan_frac(t, j).0, k + 1));
    assert(at(s, k + 1, 'e') == at(t, k, 'e') && at(s, k + 1, 'E') == at(t, k, 'E'));
    assert(at(s, k + 2, '-') == at(t, k + 1, '-') && at(s, k + 2, '+') == at(t, k + 1, '+'));
    if at(t, k, 'e') || at(t, k, 'E') {
        assert(s.skip(k + 2) == t.skip(k + 1));
        if at(t, k + 1, '-') || at(t, k + 1, '+') {
            assert(s.skip(k + 3) == t.skip(k + 2));
        }
    }
}

} // verus!
