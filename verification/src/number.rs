//! Exact decimal numbers: the values of number literals.
//!
//! A number literal is a run of digits, optionally followed by a point and
//! another run of digits. Its value is kept exactly, as the digits of its
//! whole part and of its fraction, without leading or trailing zeros.

use crate::text::{decimal_digits, is_digit, run_end, run_len, substring, to_chars, CharClass};
use crate::text::lemma_run_len;
use vstd::prelude::*;

verus! {

/// A non-negative decimal number.
#[derive(Debug, PartialEq, Eq)]
pub struct Decimal {
    whole: String,
    frac: String,
}

/// The digits of a decimal number: those before the point and those after it.
pub struct DecimalView {
    pub whole: Seq<char>,
    pub frac: Seq<char>,
}

/// Whether `s` is made of digits only.
pub open spec fn all_digits(s: Seq<char>) -> bool {
    forall|i: int| 0 <= i < s.len() ==> is_digit(#[trigger] s[i])
}

/// Whether `s` is a number literal: one or more digits, optionally followed
/// by a point and one or more digits.
pub open spec fn is_numeral(s: Seq<char>) -> bool {
    let n = run_len(s, 0, CharClass::Digit) as int;
    &&& n >= 1
    &&& n == s.len() || {
        &&& s[n] == '.'
        &&& n + 1 < s.len()
        &&& n + 1 + run_len(s, n + 1, CharClass::Digit) == s.len()
    }
}

/// `d` without its leading zeros; a last digit is always kept.
pub open spec fn trim_leading_zeros(d: Seq<char>) -> Seq<char>
    decreases d.len(),
{
    if d.len() > 1 && d[0] == '0' {
        trim_leading_zeros(d.drop_first())
    } else {
        d
    }
}

/// `d` without its trailing zeros.
pub open spec fn trim_trailing_zeros(d: Seq<char>) -> Seq<char>
    decreases d.len(),
{
    if d.len() > 0 && d.last() == '0' {
        trim_trailing_zeros(d.drop_last())
    } else {
        d
    }
}

/// The digits of the numeral `s` as they are written: those before the
/// point and those after it.
pub open spec fn written(s: Seq<char>) -> DecimalView
    recommends
        is_numeral(s),
{
    let n = run_len(s, 0, CharClass::Digit) as int;
    DecimalView {
        whole: s.take(n),
        frac: if n < s.len() {
            s.skip(n + 1)
        } else {
            Seq::empty()
        },
    }
}

/// The number that the numeral `s` denotes, in canonical form.
pub open spec fn decimal_of(s: Seq<char>) -> DecimalView
    recommends
        is_numeral(s),
{
    written(s).canonical()
}

/// Ten to the power of `n`.
pub open spec fn pow10(n: nat) -> int
    decreases n,
{
    if n == 0 {
        1
    } else {
        10 * pow10((n - 1) as nat)
    }
}

/// The value of the digit `c`.
pub open spec fn digit_value(c: char) -> int {
    c as int - '0' as int
}

/// The natural number that the digits `d` spell in base ten.
pub open spec fn digits_value(d: Seq<char>) -> int
    decreases d.len(),
{
    if d.len() == 0 {
        0
    } else {
        10 * digits_value(d.drop_last()) + digit_value(d.last())
    }
}

impl DecimalView {
    /// Digits only, and at least one before the point.
    pub open spec fn is_digits(self) -> bool {
        self.whole.len() >= 1 && all_digits(self.whole) && all_digits(self.frac)
    }

    /// The same number without the zeros that do not count: those that
    /// lead the whole part and those that end the fraction.
    pub open spec fn canonical(self) -> DecimalView {
        DecimalView {
            whole: trim_leading_zeros(self.whole),
            frac: trim_trailing_zeros(self.frac),
        }
    }

    /// The digits of the number, read as one natural number: the number
    /// is `numerator() / pow10(scale())`.
    pub open spec fn numerator(self) -> int {
        digits_value(self.whole + self.frac)
    }

    /// The number of digits after the point.
    pub open spec fn scale(self) -> nat {
        self.frac.len()
    }

    /// Whether `self` and `other` are the same number, however they are
    /// written: their fractions are equal, `a / 10^m == b / 10^n`.
    pub open spec fn same_number(self, other: DecimalView) -> bool {
        self.numerator() * pow10(other.scale()) == other.numerator() * pow10(self.scale())
    }

    /// Each number has one canonical form: digits only, a whole part of at
    /// least one digit that starts with a zero only when it is `0`, and a
    /// fraction that does not end with a zero.
    pub open spec fn is_canonical(self) -> bool {
        &&& self.whole.len() >= 1
        &&& all_digits(self.whole)
        &&& self.whole.len() > 1 ==> self.whole[0] != '0'
        &&& all_digits(self.frac)
        &&& self.frac.len() > 0 ==> self.frac.last() != '0'
    }

    /// The text of the number: the whole part, a point and the fraction,
    /// which is `0` where the number has none.
    pub open spec fn render(self) -> Seq<char> {
        self.whole.push('.') + if self.frac.len() == 0 {
            seq!['0']
        } else {
            self.frac
        }
    }
}

impl View for Decimal {
    type V = DecimalView;

    closed spec fn view(&self) -> DecimalView {
        DecimalView { whole: self.whole@, frac: self.frac@ }
    }
}

impl Clone for Decimal {
    fn clone(&self) -> (r: Self)
        ensures
            r@ == self@,
    {
        proof {
            use_type_invariant(self);
        }
        Decimal { whole: self.whole.clone(), frac: self.frac.clone() }
    }
}

/// Trimming digits leaves digits, in canonical form.
pub proof fn lemma_trim_leading_zeros(d: Seq<char>)
    requires
        d.len() >= 1,
        all_digits(d),
    ensures
        trim_leading_zeros(d).len() >= 1,
        all_digits(trim_leading_zeros(d)),
        trim_leading_zeros(d).len() > 1 ==> trim_leading_zeros(d)[0] != '0',
    decreases d.len(),
{
    if d.len() > 1 && d[0] == '0' {
        lemma_trim_leading_zeros(d.drop_first());
    }
}

/// Trimming digits leaves digits, in canonical form.
pub proof fn lemma_trim_trailing_zeros(d: Seq<char>)
    requires
        all_digits(d),
    ensures
        all_digits(trim_trailing_zeros(d)),
        trim_trailing_zeros(d).len() > 0 ==> trim_trailing_zeros(d).last() != '0',
    decreases d.len(),
{
    if d.len() > 0 && d.last() == '0' {
        lemma_trim_trailing_zeros(d.drop_last());
    }
}

/// The number that a numeral denotes is in canonical form.
pub proof fn lemma_decimal_of_canonical(s: Seq<char>)
    requires
        is_numeral(s),
    ensures
        written(s).is_digits(),
        decimal_of(s).is_canonical(),
{
    let n = run_len(s, 0, CharClass::Digit) as int;
    lemma_run_len(s, 0, CharClass::Digit);
    assert(all_digits(s.take(n)));
    lemma_trim_leading_zeros(s.take(n));
    if n < s.len() {
        lemma_run_len(s, n + 1, CharClass::Digit);
        assert(all_digits(s.skip(n + 1)));
        lemma_trim_trailing_zeros(s.skip(n + 1));
    }
}

/// Powers of ten are positive, and multiply as their exponents add.
pub proof fn lemma_pow10(a: nat, b: nat)
    ensures
        pow10(a) > 0,
        pow10(a + b) == pow10(a) * pow10(b),
    decreases a,
{
    if a > 0 {
        lemma_pow10((a - 1) as nat, b);
        assert(pow10(a + b) == 10 * pow10((a - 1 + b) as nat));
        assert(10 * (pow10((a - 1) as nat) * pow10(b)) == (10 * pow10((a - 1) as nat)) * pow10(b))
            by (nonlinear_arith);
    }
}

/// Powers of ten grow with their exponents.
pub proof fn lemma_pow10_increases(a: nat, b: nat)
    requires
        a <= b,
    ensures
        pow10(a) <= pow10(b),
{
    lemma_pow10(a, (b - a) as nat);
    lemma_pow10((b - a) as nat, 0);
    assert(pow10(a) <= pow10(a) * pow10((b - a) as nat)) by (nonlinear_arith)
        requires
            pow10(a) > 0,
            pow10((b - a) as nat) > 0,
    ;
}

/// Digits spell a natural number that is less than the power of ten of
/// their count.
pub proof fn lemma_value_bounds(d: Seq<char>)
    requires
        all_digits(d),
    ensures
        0 <= digits_value(d) < pow10(d.len()),
    decreases d.len(),
{
    if d.len() > 0 {
        lemma_value_bounds(d.drop_last());
        assert(is_digit(d.last()));
    }
}

/// The value of digits after digits: those in front count for as many
/// powers of ten as digits follow them.
pub proof fn lemma_value_concat(a: Seq<char>, b: Seq<char>)
    ensures
        digits_value(a + b) == digits_value(a) * pow10(b.len()) + digits_value(b),
    decreases b.len(),
{
    if b.len() == 0 {
        assert(a + b =~= a);
    } else {
        assert((a + b).drop_last() =~= a + b.drop_last());
        lemma_value_concat(a, b.drop_last());
        let va = digits_value(a);
        let vb = digits_value(b.drop_last());
        let p = pow10(b.drop_last().len());
        assert(10 * (va * p + vb) + digit_value(b.last()) == va * (10 * p) + (10 * vb
            + digit_value(b.last()))) by (nonlinear_arith);
    }
}

/// Leading zeros do not count.
pub proof fn lemma_trim_leading_value(d: Seq<char>)
    ensures
        digits_value(trim_leading_zeros(d)) == digits_value(d),
    decreases d.len(),
{
    if d.len() > 1 && d[0] == '0' {
        lemma_trim_leading_value(d.drop_first());
        lemma_value_concat(seq!['0'], d.drop_first());
        assert(seq!['0'] + d.drop_first() =~= d);
        assert(seq!['0'].drop_last() =~= Seq::<char>::empty());
        assert(digits_value(seq!['0']) == 10 * digits_value(Seq::<char>::empty()) + digit_value(
            '0',
        ));
    }
}

/// Each trailing zero counts for a factor of ten.
pub proof fn lemma_trim_trailing_value(d: Seq<char>)
    ensures
        trim_trailing_zeros(d).len() <= d.len(),
        digits_value(d) == digits_value(trim_trailing_zeros(d)) * pow10(
            (d.len() - trim_trailing_zeros(d).len()) as nat,
        ),
    decreases d.len(),
{
    if d.len() > 0 && d.last() == '0' {
        lemma_trim_trailing_value(d.drop_last());
        let t = trim_trailing_zeros(d);
        let k = (d.len() - 1 - t.len()) as nat;
        assert(pow10(k + 1) == 10 * pow10(k));
        assert(10 * (digits_value(t) * pow10(k)) == digits_value(t) * (10 * pow10(k)))
            by (nonlinear_arith);
    } else {
        assert(digits_value(d) * 1 == digits_value(d));
    }
}

/// The decimal numeral of a natural number spells that number, in digits
/// that do not start with a zero unless the number is zero.
pub proof fn law_decimal_digits(n: nat)
    ensures
        all_digits(decimal_digits(n)),
        digits_value(decimal_digits(n)) == n,
        decimal_digits(n).len() >= 1,
        decimal_digits(n).len() > 1 ==> decimal_digits(n)[0] != '0',
    decreases n,
{
    let d = decimal_digits(n);
    if n < 10 {
        assert(d.drop_last() =~= Seq::<char>::empty());
        assert(digits_value(d) == 10 * digits_value(d.drop_last()) + digit_value(d.last()));
    } else {
        law_decimal_digits(n / 10);
        assert(d.drop_last() =~= decimal_digits(n / 10));
        assert(d[0] == decimal_digits(n / 10)[0]);
        if decimal_digits(n / 10).len() == 1 {
            assert(digits_value(decimal_digits(n / 10).drop_last()) == 0);
        }
    }
}

/// The canonical form of a number is the same number.
pub proof fn law_canonical_is_same_number(v: DecimalView)
    ensures
        v.canonical().same_number(v),
{
    let c = v.canonical();
    let k = (v.frac.len() - c.frac.len()) as nat;
    lemma_trim_leading_value(v.whole);
    lemma_trim_trailing_value(v.frac);
    lemma_value_concat(v.whole, v.frac);
    lemma_value_concat(c.whole, c.frac);
    lemma_pow10(k, c.frac.len());
    let w = digits_value(v.whole);
    let f = digits_value(c.frac);
    let pc = pow10(c.frac.len());
    let pk = pow10(k);
    assert(k + c.frac.len() == v.frac.len());
    assert((w * pc + f) * (pk * pc) == (w * (pk * pc) + f * pk) * pc) by (nonlinear_arith);
}

/// Digits of equal count that spell the same number are the same digits.
pub proof fn lemma_value_injective(x: Seq<char>, y: Seq<char>)
    requires
        all_digits(x),
        all_digits(y),
        x.len() == y.len(),
        digits_value(x) == digits_value(y),
    ensures
        x == y,
    decreases x.len(),
{
    if x.len() > 0 {
        assert(is_digit(x.last()) && is_digit(y.last()));
        lemma_value_injective(x.drop_last(), y.drop_last());
        assert(x =~= x.drop_last().push(x.last()));
        assert(y =~= y.drop_last().push(y.last()));
    } else {
        assert(x =~= y);
    }
}

/// Digits that do not start with a zero spell a number of at least the
/// power of ten of their count less one.
pub proof fn lemma_leading_digit(d: Seq<char>)
    requires
        all_digits(d),
        d.len() >= 1,
        d[0] != '0',
    ensures
        digits_value(d) >= pow10((d.len() - 1) as nat),
    decreases d.len(),
{
    assert(is_digit(d.last()));
    if d.len() == 1 {
        assert(d.drop_last().len() == 0);
        assert(digits_value(d.drop_last()) == 0);
    } else {
        assert(d.drop_last()[0] == d[0]);
        lemma_leading_digit(d.drop_last());
    }
}

/// Whole parts in canonical form that spell the same number are equal.
pub proof fn lemma_whole_unique(x: Seq<char>, y: Seq<char>)
    requires
        all_digits(x),
        all_digits(y),
        x.len() >= 1,
        y.len() >= 1,
        x.len() > 1 ==> x[0] != '0',
        y.len() > 1 ==> y[0] != '0',
        digits_value(x) == digits_value(y),
    ensures
        x == y,
{
    lemma_value_bounds(x);
    lemma_value_bounds(y);
    if x.len() < y.len() {
        lemma_leading_digit(y);
        lemma_pow10_increases(x.len(), (y.len() - 1) as nat);
    } else if y.len() < x.len() {
        lemma_leading_digit(x);
        lemma_pow10_increases(y.len(), (x.len() - 1) as nat);
    } else {
        lemma_value_injective(x, y);
    }
}

/// Of two canonical forms of one number, neither has the shorter
/// fraction: its last digit would have to be a zero in the other.
pub proof fn lemma_scale_unique(a: DecimalView, b: DecimalView)
    requires
        a.is_canonical(),
        b.is_canonical(),
        a.same_number(b),
    ensures
        a.scale() >= b.scale(),
{
    if a.scale() < b.scale() {
        let d = (b.scale() - a.scale() - 1) as nat;
        lemma_pow10(a.scale(), d + 1);
        lemma_pow10(d, 0);
        assert(pow10(d + 1) == 10 * pow10(d));
        let pa = pow10(a.scale());
        let pd = pow10(d);
        let na = a.numerator();
        let nb = b.numerator();
        assert(nb == 10 * (na * pd)) by (nonlinear_arith)
            requires
                na * (pa * (10 * pd)) == nb * pa,
                pa > 0,
        ;
        let digits = b.whole + b.frac;
        assert(digits.last() == b.frac.last());
        assert(is_digit(b.frac.last()));
    }
}

/// A number has one canonical form: canonical forms of the same number
/// are equal.
pub proof fn law_canonical_is_unique(a: DecimalView, b: DecimalView)
    requires
        a.is_canonical(),
        b.is_canonical(),
        a.same_number(b),
    ensures
        a == b,
{
    lemma_scale_unique(a, b);
    lemma_scale_unique(b, a);
    let p = pow10(a.scale());
    lemma_pow10(a.scale(), 0);
    lemma_value_concat(a.whole, a.frac);
    lemma_value_concat(b.whole, b.frac);
    lemma_value_bounds(a.frac);
    lemma_value_bounds(b.frac);
    let wa = digits_value(a.whole);
    let wb = digits_value(b.whole);
    let fa = digits_value(a.frac);
    let fb = digits_value(b.frac);
    assert(wa == wb && fa == fb) by (nonlinear_arith)
        requires
            (wa * p + fa) * p == (wb * p + fb) * p,
            p > 0,
            0 <= fa < p,
            0 <= fb < p,
    ;
    lemma_value_injective(a.frac, b.frac);
    lemma_whole_unique(a.whole, b.whole);
}

/// Two numerals denote the same number exactly when their canonical
/// forms, and so their printed texts, are equal: `1.50` and `01.5` are
/// one number, `1.5` and `1.05` are two.
pub proof fn law_same_number_same_decimal(s: Seq<char>, t: Seq<char>)
    requires
        is_numeral(s),
        is_numeral(t),
    ensures
        written(s).same_number(written(t)) <==> decimal_of(s) == decimal_of(t),
        decimal_of(s) == decimal_of(t) ==> decimal_of(s).render() == decimal_of(t).render(),
{
    let a = written(s);
    let b = written(t);
    let ca = decimal_of(s);
    let cb = decimal_of(t);
    lemma_decimal_of_canonical(s);
    lemma_decimal_of_canonical(t);
    law_canonical_is_same_number(a);
    law_canonical_is_same_number(b);
    lemma_pow10(a.scale(), 0);
    lemma_pow10(b.scale(), 0);
    lemma_pow10(ca.scale(), 0);
    lemma_pow10(cb.scale(), 0);
    let (na, nb, nca, ncb) = (a.numerator(), b.numerator(), ca.numerator(), cb.numerator());
    let (pa, pb, pca, pcb) = (
        pow10(a.scale()),
        pow10(b.scale()),
        pow10(ca.scale()),
        pow10(cb.scale()),
    );
    if a.same_number(b) {
        assert(nca * pcb == ncb * pca) by (nonlinear_arith)
            requires
                nca * pa == na * pca,
                ncb * pb == nb * pcb,
                na * pb == nb * pa,
                pa > 0,
                pb > 0,
                pca > 0,
                pcb > 0,
        ;
        law_canonical_is_unique(ca, cb);
    }
    if ca == cb {
        assert(na * pb == nb * pa) by (nonlinear_arith)
            requires
                nca * pa == na * pca,
                nca * pb == nb * pca,
                pa > 0,
                pb > 0,
                pca > 0,
        ;
    }
}

impl Decimal {
    /// A number is always held in canonical form.
    #[verifier::type_invariant]
    spec fn held_canonical(self) -> bool {
        self@.is_canonical()
    }

    /// Reads a number literal. Text of any other shape, such as a signed
    /// number, one with an exponent or one that starts or ends with a point,
    /// gives `None`.
    pub fn parse(text: &str) -> (r: Option<Decimal>)
        ensures
            r is Some <==> is_numeral(text@),
            r matches Some(d) ==> d@ == decimal_of(text@) && d@.is_canonical(),
    {
        let chars = to_chars(text);
        let s = chars.as_slice();
        let n = run_end(s, 0, CharClass::Digit);
        if n == 0 {
            return None;
        }
        if n < s.len() {
            if s[n] != '.' || n + 1 >= s.len() {
                return None;
            }
            let end = run_end(s, n + 1, CharClass::Digit);
            if end != s.len() {
                return None;
            }
        }
        proof {
            lemma_decimal_of_canonical(s@);
        }
        Some(Decimal::build(s, n))
    }

    /// The number that the number literal `text` denotes.
    pub fn from_numeral(text: &str) -> (d: Decimal)
        requires
            is_numeral(text@),
        ensures
            d@ == decimal_of(text@),
            d@.is_canonical(),
    {
        let chars = to_chars(text);
        let s = chars.as_slice();
        let n = run_end(s, 0, CharClass::Digit);
        proof {
            lemma_decimal_of_canonical(s@);
        }
        Decimal::build(s, n)
    }

    /// Builds the number that the numeral `s`, whose whole part has `n`
    /// digits, denotes.
    fn build(s: &[char], n: usize) -> (d: Decimal)
        requires
            is_numeral(s@),
            n == run_len(s@, 0, CharClass::Digit),
        ensures
            d@ == decimal_of(s@),
    {
        proof {
            lemma_decimal_of_canonical(s@);
        }
        let ghost whole_part = s@.take(n as int);
        let mut first: usize = 0;
        while first + 1 < n && s[first] == '0'
            invariant
                first < n <= s@.len(),
                whole_part == s@.take(n as int),
                trim_leading_zeros(whole_part) == trim_leading_zeros(
                    s@.subrange(first as int, n as int),
                ),
            decreases n - first,
        {
            assert(s@.subrange(first as int, n as int).drop_first() == s@.subrange(
                first + 1,
                n as int,
            ));
            first += 1;
        }
        let whole = substring(s, first, n);
        if n == s.len() {
            return Decimal { whole, frac: String::new() };
        }
        let ghost frac_part = s@.skip(n + 1);
        let mut last: usize = s.len();
        while last > n + 1 && s[last - 1] == '0'
            invariant
                n + 1 <= last <= s@.len(),
                frac_part == s@.skip(n + 1),
                trim_trailing_zeros(frac_part) == trim_trailing_zeros(
                    s@.subrange(n + 1, last as int),
                ),
            decreases last,
        {
            assert(s@.subrange(n + 1, last as int).drop_last() == s@.subrange(n + 1, last - 1));
            last -= 1;
        }
        let frac = substring(s, n + 1, last);
        Decimal { whole, frac }
    }

    /// The digits before the point.
    pub fn whole(&self) -> (r: &str)
        ensures
            r@ == self@.whole,
            self@.is_canonical(),
    {
        proof {
            use_type_invariant(self);
        }
        self.whole.as_str()
    }

    /// The digits after the point; empty for a whole number.
    pub fn fraction(&self) -> (r: &str)
        ensures
            r@ == self@.frac,
            self@.is_canonical(),
    {
        proof {
            use_type_invariant(self);
        }
        self.frac.as_str()
    }

    /// The text of the number, always with a point: `123.0`, `45.67`.
    pub fn to_string(&self) -> (out: String)
        ensures
            out@ == self@.render(),
            self@.is_canonical(),
    {
        proof {
            use_type_invariant(self);
        }
        let mut out = self.whole.clone();
        out.push('.');
        if self.frac.as_str().unicode_len() == 0 {
            out.push('0');
        } else {
            out.append(self.frac.as_str());
        }
        out
    }
}

} // verus!
