use vstd::prelude::*;
use vstd::arithmetic::div_mod::{lemma_fundamental_div_mod, lemma_mod_multiples_basic};

verus! {

/// Greatest common divisor, by Euclid's rule.
pub open spec fn gcd(a: nat, b: nat) -> nat
    decreases b,
{
    if b == 0 {
        a
    } else {
        gcd(b, a % b)
    }
}

/// The greatest common divisor of two numbers, not both zero, is positive and divides both.
pub proof fn lemma_gcd_divides(a: nat, b: nat)
    requires
        a > 0 || b > 0,
    ensures
        gcd(a, b) > 0,
        a % gcd(a, b) == 0,
        b % gcd(a, b) == 0,
    decreases b,
{
    if b > 0 {
        let r = (a % b) as nat;
        lemma_gcd_divides(b, r);
        let g = gcd(b, r) as int;
        assert(gcd(a, b) == g);
        lemma_fundamental_div_mod(a as int, b as int);
        lemma_fundamental_div_mod(b as int, g);
        lemma_fundamental_div_mod(r as int, g);
        let k = (b as int / g) * (a as int / b as int) + (r as int / g);
        assert(a as int == k * g) by (nonlinear_arith)
            requires
                a as int == b as int * (a as int / b as int) + r as int,
                b as int == g * (b as int / g),
                r as int == g * (r as int / g),
                k == (b as int / g) * (a as int / b as int) + (r as int / g),
        ;
        lemma_mod_multiples_basic(k, g);
    }
}

fn gcd_u128(a: u128, b: u128) -> (r: u128)
    ensures
        r == gcd(a as nat, b as nat),
{
    let mut x: u128 = a;
    let mut y: u128 = b;
    while y != 0
        invariant
            gcd(x as nat, y as nat) == gcd(a as nat, b as nat),
        decreases y,
    {
        let t = x % y;
        x = y;
        y = t;
    }
    x
}

proof fn lemma_mul_bound(a: int, b: int)
    requires
        -0x8000_0000_0000_0000 <= a <= 0x7fff_ffff_ffff_ffff,
        -0x8000_0000_0000_0000 <= b <= 0x7fff_ffff_ffff_ffff,
    ensures
        -0x4000_0000_0000_0000_0000_0000_0000_0000 <= a * b <= 0x4000_0000_0000_0000_0000_0000_0000_0000,
{
    assert(-0x4000_0000_0000_0000_0000_0000_0000_0000 <= a * b <= 0x4000_0000_0000_0000_0000_0000_0000_0000) by (nonlinear_arith)
        requires
            -0x8000_0000_0000_0000 <= a <= 0x7fff_ffff_ffff_ffff,
            -0x8000_0000_0000_0000 <= b <= 0x7fff_ffff_ffff_ffff,
    ;
}

proof fn lemma_pow10_bound(n: nat)
    requires
        n <= 37,
    ensures
        1 <= pow10(n) <= 10_000_000_000_000_000_000_000_000_000_000_000_000,
    decreases 37 - n,
{
    if n < 37 {
        lemma_pow10_bound(n + 1);
        assert(pow10(n + 1) == 10 * pow10(n));
    } else {
        reveal_with_fuel(pow10, 38);
    }
}

proof fn lemma_point_index_le(w: Seq<char>)
    ensures
        0 <= point_index(w) <= w.len(),
    decreases w.len(),
{
    if w.len() > 0 {
        lemma_point_index_le(w.drop_last());
    }
}

/// The point index of a prefix tells that of the whole: the same where the prefix holds a
/// point, at least the prefix's length where it does not.
proof fn lemma_point_index_prefix(w: Seq<char>, j: int)
    requires
        0 <= j <= w.len(),
    ensures
        point_index(w.subrange(0, j)) < j ==> point_index(w) == point_index(w.subrange(0, j)),
        point_index(w.subrange(0, j)) == j ==> point_index(w) >= j,
    decreases w.len() - j,
{
    lemma_point_index_le(w);
    lemma_point_index_le(w.subrange(0, j));
    if j == w.len() {
        assert(w.subrange(0, j) =~= w);
    } else {
        let v = w.drop_last();
        assert(v.subrange(0, j) =~= w.subrange(0, j));
        lemma_point_index_prefix(v, j);
        lemma_point_index_le(v);
    }
}

proof fn lemma_not_decimal(w: Seq<char>, i: int, point: int)
    requires
        0 <= i < w.len(),
        point <= w.len(),
        w[i] != '.',
        !('0' <= w[i] <= '9'),
        point == w.len() ==> point_index(w.subrange(0, i + 1)) == i + 1,
        point < w.len() ==> point < i && point_index(w) == point,
    ensures
        !is_decimal(w),
{
    lemma_point_index_le(w);
    if point == w.len() {
        lemma_point_index_prefix(w, i + 1);
        let k = point_index(w);
        assert(w.subrange(0, k)[i] == w[i]);
    } else {
        assert(w.subrange(point + 1, w.len() as int)[i - point - 1] == w[i]);
    }
}

proof fn lemma_mul_den_bound(a: int, b: int)
    requires
        -0x8000_0000_0000_0000 <= a <= 0x7fff_ffff_ffff_ffff,
        0 < b <= 0x7fff_ffff_ffff_ffff,
    ensures
        -0x3fff_ffff_ffff_ffff_8000_0000_0000_0000 <= a * b <= 0x3fff_ffff_ffff_ffff_8000_0000_0000_0000,
{
    assert(-0x3fff_ffff_ffff_ffff_8000_0000_0000_0000 <= a * b <= 0x3fff_ffff_ffff_ffff_8000_0000_0000_0000) by (nonlinear_arith)
        requires
            -0x8000_0000_0000_0000 <= a <= 0x7fff_ffff_ffff_ffff,
            0 < b <= 0x7fff_ffff_ffff_ffff,
    ;
}

proof fn lemma_mul_positive(a: int, b: int)
    ensures
        a > 0 && b > 0 ==> a * b > 0,
        a > 0 && b < 0 ==> a * b < 0,
{
    if a > 0 && b > 0 {
        assert(a * b > 0) by (nonlinear_arith)
            requires
                a > 0,
                b > 0,
        ;
    }
    if a > 0 && b < 0 {
        assert(a * b < 0) by (nonlinear_arith)
            requires
                a > 0,
                b < 0,
        ;
    }
}

pub open spec fn abs(x: int) -> int {
    if x < 0 {
        -x
    } else {
        x
    }
}

pub open spec fn fits_i64(x: int) -> bool {
    i64::MIN <= x <= i64::MAX
}

/// Value of a sequence of decimal digits.
pub open spec fn digits_value(d: Seq<char>) -> int
    decreases d.len(),
{
    if d.len() == 0 {
        0
    } else {
        digits_value(d.drop_last()) * 10 + (d.last() as int - '0' as int)
    }
}

pub open spec fn pow10(n: nat) -> int
    decreases n,
{
    if n == 0 {
        1
    } else {
        10 * pow10((n - 1) as nat)
    }
}

/// Position of the first `.` in `w`, or its length.
pub open spec fn point_index(w: Seq<char>) -> int
    decreases w.len(),
{
    if w.len() == 0 {
        0
    } else {
        let k = point_index(w.drop_last());
        if k < w.len() - 1 {
            k
        } else if w.last() == '.' {
            w.len() - 1
        } else {
            w.len() as int
        }
    }
}

pub open spec fn all_digits(w: Seq<char>) -> bool {
    forall|i: int| 0 <= i < w.len() ==> '0' <= #[trigger] w[i] <= '9'
}

/// `w` is a number literal: digits, then optionally `.` and more digits.
pub open spec fn is_decimal(w: Seq<char>) -> bool {
    let k = point_index(w);
    &&& 0 < k
    &&& all_digits(w.subrange(0, k))
    &&& k < w.len() ==> k + 1 < w.len() && all_digits(w.subrange(k + 1, w.len() as int))
}

/// The digits of a number literal with its point left out, and how many follow the point.
pub open spec fn decimal_digits(w: Seq<char>) -> (Seq<char>, nat) {
    let k = point_index(w);
    if k < w.len() {
        (w.subrange(0, k) + w.subrange(k + 1, w.len() as int), (w.len() - k - 1) as nat)
    } else {
        (w, 0)
    }
}

/// Longest number literal read: its digits then fit in an `i128`.
pub const MAX_LITERAL_LEN: usize = 37;

/// The number a literal stands for, in lowest terms: `None` when `w` is not digits with an
/// optional fraction, is longer than `MAX_LITERAL_LEN`, or does not fit.
pub open spec fn literal_number(w: Seq<char>) -> Option<Number> {
    if is_decimal(w) && w.len() <= MAX_LITERAL_LEN {
        Number::from_fraction(digits_value(decimal_digits(w).0), pow10(decimal_digits(w).1))
    } else {
        None
    }
}

/// A rational number `num / den` with a positive denominator; the language's numbers.
#[derive(Debug, Clone, Copy)]
pub struct Number {
    num: i64,
    den: i64,
}

/// The numerator and denominator of `n / d` divided by their greatest common divisor.
pub open spec fn lowest_terms(n: int, d: int) -> (int, int) {
    let g = gcd(abs(n) as nat, d as nat) as int;
    (if n < 0 {
        -(abs(n) / g)
    } else {
        abs(n) / g
    }, d / g)
}

impl Number {
    #[verifier::type_invariant]
    spec fn inv(self) -> bool {
        self.den > 0
    }

    /// Numerator of the fraction held.
    pub closed spec fn numer(self) -> int {
        self.num as int
    }

    /// Denominator of the fraction held, always positive.
    pub closed spec fn denom(self) -> int {
        self.den as int
    }

    /// `self` stands for the rational number `n / d`.
    pub open spec fn stands_for(self, n: int, d: int) -> bool {
        self.numer() * d == n * self.denom()
    }

    /// `self` and `o` stand for the same rational number.
    pub open spec fn same_value(self, o: Number) -> bool {
        self.stands_for(o.numer(), o.denom())
    }

    /// The number `n / d` (for `d > 0`) in lowest terms, if both terms fit in an `i64`.
    pub closed spec fn from_fraction(n: int, d: int) -> Option<Number> {
        let (p, q) = lowest_terms(n, d);
        if fits_i64(p) && fits_i64(q) {
            Some(Number { num: p as i64, den: q as i64 })
        } else {
            None
        }
    }

    /// `self + o`, if its lowest terms fit.
    pub open spec fn sum(self, o: Number) -> Option<Number> {
        Number::from_fraction(self.numer() * o.denom() + o.numer() * self.denom(), self.denom() * o.denom())
    }

    /// `self - o`, if its lowest terms fit.
    pub open spec fn difference(self, o: Number) -> Option<Number> {
        Number::from_fraction(self.numer() * o.denom() - o.numer() * self.denom(), self.denom() * o.denom())
    }

    /// `self * o`, if its lowest terms fit.
    pub open spec fn product(self, o: Number) -> Option<Number> {
        Number::from_fraction(self.numer() * o.numer(), self.denom() * o.denom())
    }

    /// `self / o` for a nonzero `o`, if its lowest terms fit.
    pub open spec fn quotient(self, o: Number) -> Option<Number> {
        if o.numer() > 0 {
            Number::from_fraction(self.numer() * o.denom(), self.denom() * o.numer())
        } else {
            Number::from_fraction(-(self.numer() * o.denom()), -(self.denom() * o.numer()))
        }
    }

    /// `-self`, if its lowest terms fit.
    pub open spec fn negation(self) -> Option<Number> {
        Number::from_fraction(-self.numer(), self.denom())
    }

    /// `self < o` as rational numbers.
    pub open spec fn lt(self, o: Number) -> bool {
        self.numer() * o.denom() < o.numer() * self.denom()
    }

    /// The integer `n`.
    pub fn from_int(n: i64) -> (r: Number)
        ensures
            r.numer() == n,
            r.denom() == 1,
    {
        Number { num: n, den: 1 }
    }

    /// `num / den` in lowest terms; `None` when `den` is zero or a term does not fit.
    pub fn new(num: i64, den: i64) -> (r: Option<Number>)
        ensures
            den == 0 ==> r is None,
            den > 0 ==> r == Number::from_fraction(num as int, den as int),
            den < 0 ==> r == Number::from_fraction(-num, -den),
            r matches Some(x) ==> x.stands_for(num as int, den as int),
    {
        if den == 0 {
            None
        } else if den > 0 {
            Number::reduce(num as i128, den as i128)
        } else {
            let r = Number::reduce(-(num as i128), -(den as i128));
            proof {
                if let Some(x) = r {
                    assert(x.numer() * den == num * x.denom()) by (nonlinear_arith)
                        requires
                            x.numer() * (-den) == (-num) * x.denom(),
                    ;
                }
            }
            r
        }
    }

    /// Numerator of the fraction held.
    pub fn numerator(&self) -> (r: i64)
        ensures
            r == self.numer(),
    {
        self.num
    }

    /// Denominator of the fraction held; always positive.
    pub fn denominator(&self) -> (r: i64)
        ensures
            r == self.denom(),
            r > 0,
    {
        proof {
            use_type_invariant(self);
        }
        self.den
    }

    /// `self + o`; `None` when the result does not fit.
    pub fn checked_add(self, o: Number) -> (r: Option<Number>)
        ensures
            r == self.sum(o),
            r matches Some(x) ==> x.stands_for(
                self.numer() * o.denom() + o.numer() * self.denom(),
                self.denom() * o.denom(),
            ),
    {
        proof {
            use_type_invariant(&self);
            use_type_invariant(&o);
            lemma_mul_den_bound(self.num as int, o.den as int);
            lemma_mul_den_bound(o.num as int, self.den as int);
            lemma_mul_bound(self.den as int, o.den as int);
            lemma_mul_positive(self.den as int, o.den as int);
        }
        let n = (self.num as i128) * (o.den as i128) + (o.num as i128) * (self.den as i128);
        let d = (self.den as i128) * (o.den as i128);
        Number::reduce(n, d)
    }

    /// `self - o`; `None` when the result does not fit.
    pub fn checked_sub(self, o: Number) -> (r: Option<Number>)
        ensures
            r == self.difference(o),
            r matches Some(x) ==> x.stands_for(
                self.numer() * o.denom() - o.numer() * self.denom(),
                self.denom() * o.denom(),
            ),
    {
        proof {
            use_type_invariant(&self);
            use_type_invariant(&o);
            lemma_mul_den_bound(self.num as int, o.den as int);
            lemma_mul_den_bound(o.num as int, self.den as int);
            lemma_mul_bound(self.den as int, o.den as int);
            lemma_mul_positive(self.den as int, o.den as int);
        }
        let n = (self.num as i128) * (o.den as i128) - (o.num as i128) * (self.den as i128);
        let d = (self.den as i128) * (o.den as i128);
        Number::reduce(n, d)
    }

    /// `self * o`; `None` when the result does not fit.
    pub fn checked_mul(self, o: Number) -> (r: Option<Number>)
        ensures
            r == self.product(o),
            r matches Some(x) ==> x.stands_for(self.numer() * o.numer(), self.denom() * o.denom()),
    {
        proof {
            use_type_invariant(&self);
            use_type_invariant(&o);
            lemma_mul_bound(self.num as int, o.num as int);
            lemma_mul_bound(self.den as int, o.den as int);
            lemma_mul_positive(self.den as int, o.den as int);
        }
        let n = (self.num as i128) * (o.num as i128);
        let d = (self.den as i128) * (o.den as i128);
        Number::reduce(n, d)
    }

    /// `self / o` for a nonzero `o`; `None` when the result does not fit.
    pub fn checked_div(self, o: Number) -> (r: Option<Number>)
        requires
            o.numer() != 0,
        ensures
            r == self.quotient(o),
            r matches Some(x) ==> x.stands_for(self.numer() * o.denom(), self.denom() * o.numer()),
    {
        proof {
            use_type_invariant(&self);
            use_type_invariant(&o);
            lemma_mul_bound(self.num as int, o.den as int);
            lemma_mul_bound(self.den as int, o.num as int);
            lemma_mul_positive(self.den as int, o.num as int);
            lemma_mul_positive(self.den as int, -o.num);
        }
        let n = (self.num as i128) * (o.den as i128);
        let d = (self.den as i128) * (o.num as i128);
        if d > 0 {
            Number::reduce(n, d)
        } else {
            let r = Number::reduce(-n, -d);
            proof {
                if let Some(x) = r {
                    assert(x.numer() * d == n * x.denom()) by (nonlinear_arith)
                        requires
                            x.numer() * (-d) == (-n) * x.denom(),
                    ;
                }
            }
            r
        }
    }

    /// `-self`; `None` when the result does not fit.
    pub fn checked_neg(self) -> (r: Option<Number>)
        ensures
            r == self.negation(),
            r matches Some(x) ==> x.stands_for(-self.numer(), self.denom()),
    {
        proof {
            use_type_invariant(&self);
        }
        Number::reduce(-(self.num as i128), self.den as i128)
    }

    /// Whether `self` is zero.
    pub fn is_zero(&self) -> (r: bool)
        ensures
            r == (self.numer() == 0),
    {
        self.num == 0
    }

    /// Whether `self < o`.
    pub fn less_than(&self, o: &Number) -> (r: bool)
        ensures
            r == self.lt(*o),
    {
        proof {
            lemma_mul_bound(self.num as int, o.den as int);
            lemma_mul_bound(o.num as int, self.den as int);
        }
        (self.num as i128) * (o.den as i128) < (o.num as i128) * (self.den as i128)
    }

    /// Whether `self` and `o` stand for the same rational number.
    pub fn equals(&self, o: &Number) -> (r: bool)
        ensures
            r == self.same_value(*o),
    {
        proof {
            lemma_mul_bound(self.num as int, o.den as int);
            lemma_mul_bound(o.num as int, self.den as int);
        }
        (self.num as i128) * (o.den as i128) == (o.num as i128) * (self.den as i128)
    }

    /// The number a literal stands for, in lowest terms: `None` when `literal` is not
    /// digits with an optional fraction, is longer than `MAX_LITERAL_LEN`, or does not fit.
    pub fn parse_literal(literal: &str) -> (r: Option<Number>)
        ensures
            r == literal_number(literal@),
    {
        let ghost w = literal@;
        let n = literal.unicode_len();
        if n == 0 || n > MAX_LITERAL_LEN {
            return None;
        }
        let mut m: u128 = 0;
        let mut den: u128 = 1;
        let mut point: usize = n;
        let mut i: usize = 0;
        while i < n
            invariant
                w == literal@,
                n == w.len(),
                n <= MAX_LITERAL_LEN,
                i <= n,
                point <= n,
                point_index(w.subrange(0, i as int)) == (if point == n {
                    i as int
                } else {
                    point as int
                }),
                point == n ==> all_digits(w.subrange(0, i as int)),
                point == n ==> m == digits_value(w.subrange(0, i as int)),
                point == n ==> den == 1,
                point < n ==> point < i,
                point < n ==> 0 < point,
                point < n ==> all_digits(w.subrange(0, point as int)),
                point < n ==> all_digits(w.subrange(point + 1, i as int)),
                point < n ==> m == digits_value(
                    w.subrange(0, point as int) + w.subrange(point + 1, i as int),
                ),
                point < n ==> den == pow10((i - point - 1) as nat),
                m < pow10(i as nat),
                den <= pow10(i as nat),
            decreases n - i,
        {
            let c = literal.get_char(i);
            proof {
                lemma_pow10_bound(i as nat);
                lemma_pow10_bound((i + 1) as nat);
                assert(w.subrange(0, i + 1).drop_last() =~= w.subrange(0, i as int));
                lemma_point_index_le(w.subrange(0, i as int));
            }
            if c == '.' {
                if point < n || i == 0 {
                    proof {
                        lemma_point_index_prefix(w, i + 1);
                        lemma_point_index_prefix(w, i as int);
                        if point < n {
                            assert(w.subrange(point + 1, w.len() as int)[i - point - 1] == w[i as int]);
                        }
                    }
                    return None;
                }
                point = i;
                proof {
                    lemma_point_index_prefix(w, i + 1);
                    assert(w.subrange(0, point as int) + w.subrange(point + 1, i + 1) =~= w.subrange(
                        0,
                        i as int,
                    ));
                    assert(pow10(0) == 1);
                    assert(den <= pow10((i + 1) as nat));
                }
            } else if '0' <= c && c <= '9' {
                let d = (c as u32 - '0' as u32) as u128;
                proof {
                    let old_digits = if point == n {
                        w.subrange(0, i as int)
                    } else {
                        w.subrange(0, point as int) + w.subrange(point + 1, i as int)
                    };
                    let new_digits = if point == n {
                        w.subrange(0, i + 1)
                    } else {
                        w.subrange(0, point as int) + w.subrange(point + 1, i + 1)
                    };
                    assert(new_digits.drop_last() =~= old_digits);
                    assert(new_digits.last() == c);
                    assert(m * 10 + d < pow10((i + 1) as nat)) by (nonlinear_arith)
                        requires
                            m < pow10(i as nat),
                            d <= 9,
                            pow10((i + 1) as nat) == 10 * pow10(i as nat),
                    ;
                    if point < n {
                        assert(pow10((i + 1 - point - 1) as nat) == 10 * pow10((i - point - 1) as nat));
                        assert(den * 10 <= pow10((i + 1) as nat)) by (nonlinear_arith)
                            requires
                                den <= pow10(i as nat),
                                pow10((i + 1) as nat) == 10 * pow10(i as nat),
                        ;
                    }
                }
                m = m * 10 + d;
                if point < n {
                    den = den * 10;
                }
            } else {
                proof {
                    if point < n {
                        lemma_point_index_prefix(w, i as int);
                    }
                    lemma_not_decimal(w, i as int, point as int);
                }
                return None;
            }
            i = i + 1;
        }
        proof {
            lemma_pow10_bound(n as nat);
            assert(w.subrange(0, n as int) =~= w);
            if point < n {
                lemma_pow10_bound((n - point - 1) as nat);
            }
        }
        if point == n {
            Number::reduce(m as i128, den as i128)
        } else if point + 1 == n {
            None
        } else {
            Number::reduce(m as i128, den as i128)
        }
    }

    proof fn lemma_from_fraction(n: int, d: int)
        requires
            d > 0,
        ensures
            Number::from_fraction(n, d) matches Some(x) ==> x.stands_for(n, d) && x.denom() > 0,
    {
        let a = abs(n);
        lemma_gcd_divides(a as nat, d as nat);
        let g = gcd(a as nat, d as nat) as int;
        let (p, q) = lowest_terms(n, d);
        lemma_fundamental_div_mod(a, g);
        lemma_fundamental_div_mod(d, g);
        assert(a == g * (a / g));
        assert(d == g * (d / g));
        assert(p * d == n * q) by (nonlinear_arith)
            requires
                a == g * (a / g),
                d == g * (d / g),
                q == d / g,
                n < 0 ==> (a == -n && p == -(a / g)),
                n >= 0 ==> (a == n && p == a / g),
        ;
        assert(q > 0) by (nonlinear_arith)
            requires
                d == g * (d / g),
                q == d / g,
                d > 0,
                g > 0,
        ;
    }

    /// `n / d` in lowest terms, or `None` when a term does not fit in an `i64`.
    fn reduce(n: i128, d: i128) -> (r: Option<Number>)
        requires
            d > 0,
            n > i128::MIN,
        ensures
            r == Number::from_fraction(n as int, d as int),
            r matches Some(x) ==> x.stands_for(n as int, d as int),
    {
        proof {
            Number::lemma_from_fraction(n as int, d as int);
            lemma_gcd_divides(abs(n as int) as nat, d as nat);
        }
        let a: u128 = if n < 0 {
            (-n) as u128
        } else {
            n as u128
        };
        let g = gcd_u128(a, d as u128);
        let p = a / g;
        let q = (d as u128) / g;
        if n < 0 {
            if p > 9223372036854775808u128 || q > 9223372036854775807u128 {
                return None;
            }
            let num = (-(p as i128)) as i64;
            Some(Number { num, den: q as i64 })
        } else {
            if p > 9223372036854775807u128 || q > 9223372036854775807u128 {
                return None;
            }
            Some(Number { num: p as i64, den: q as i64 })
        }
    }
}

} // verus!

verus! {

/// Heap-held values; for now only strings.
#[derive(Debug)]
pub enum ObjectType {
    Str(String),
}

/// A runtime value of the language.
#[derive(Debug)]
pub enum Value {
    Bool(bool),
    Nil,
    Number(Number),
    Object(ObjectType),
}

/// What a value is, with a string seen as its characters.
pub ghost enum ValueView {
    Bool(bool),
    Nil,
    Number(Number),
    Str(Seq<char>),
}

/// Why an operator refused its operands.
#[derive(Debug, Clone, Copy, PartialEq, Eq, Structural)]
pub enum ValueFault {
    /// `+` on anything but two numbers or two strings.
    AddOperands,
    /// `-` on anything but two numbers.
    SubtractOperands,
    /// `*` on anything but two numbers.
    MultiplyOperands,
    /// `/` on anything but two numbers.
    DivideOperands,
    /// Unary `-` on anything but a number.
    NegateOperand,
    /// A comparison of two values of different kinds, or an ordering of non-numbers.
    CompareOperands,
    /// `/` with a zero divisor.
    DivisionByZero,
    /// A result whose numerator or denominator does not fit in 64 bits.
    NumberOverflow,
}

impl View for Value {
    type V = ValueView;

    open spec fn view(&self) -> ValueView {
        match self {
            Value::Bool(b) => ValueView::Bool(*b),
            Value::Nil => ValueView::Nil,
            Value::Number(n) => ValueView::Number(*n),
            Value::Object(ObjectType::Str(s)) => ValueView::Str(s@),
        }
    }
}

/// A number result, or `NumberOverflow` where it does not fit.
pub open spec fn number_or_overflow(r: Option<Number>) -> Result<ValueView, ValueFault> {
    match r {
        Some(n) => Ok(ValueView::Number(n)),
        None => Err(ValueFault::NumberOverflow),
    }
}

/// `a + b`: the sum of two numbers, the concatenation of two strings, else a fault.
pub open spec fn add_spec(a: ValueView, b: ValueView) -> Result<ValueView, ValueFault> {
    match (a, b) {
        (ValueView::Number(x), ValueView::Number(y)) => number_or_overflow(x.sum(y)),
        (ValueView::Str(s), ValueView::Str(t)) => Ok(ValueView::Str(s + t)),
        _ => Err(ValueFault::AddOperands),
    }
}

/// `a - b` on two numbers.
pub open spec fn subtract_spec(a: ValueView, b: ValueView) -> Result<ValueView, ValueFault> {
    match (a, b) {
        (ValueView::Number(x), ValueView::Number(y)) => number_or_overflow(x.difference(y)),
        _ => Err(ValueFault::SubtractOperands),
    }
}

/// `a * b` on two numbers.
pub open spec fn multiply_spec(a: ValueView, b: ValueView) -> Result<ValueView, ValueFault> {
    match (a, b) {
        (ValueView::Number(x), ValueView::Number(y)) => number_or_overflow(x.product(y)),
        _ => Err(ValueFault::MultiplyOperands),
    }
}

/// `a / b` on two numbers, `b` nonzero.
pub open spec fn divide_spec(a: ValueView, b: ValueView) -> Result<ValueView, ValueFault> {
    match (a, b) {
        (ValueView::Number(x), ValueView::Number(y)) => if y.numer() == 0 {
            Err(ValueFault::DivisionByZero)
        } else {
            number_or_overflow(x.quotient(y))
        },
        _ => Err(ValueFault::DivideOperands),
    }
}

/// `-a` on a number.
pub open spec fn negate_spec(a: ValueView) -> Result<ValueView, ValueFault> {
    match a {
        ValueView::Number(x) => number_or_overflow(x.negation()),
        _ => Err(ValueFault::NegateOperand),
    }
}

/// Nil and `false` are falsey; every other value, `0` and `""` included, is truthy.
pub open spec fn is_falsey_spec(a: ValueView) -> bool {
    a == ValueView::Nil || a == ValueView::Bool(false)
}

/// `a == b` for two values of one kind; values of different kinds are not compared.
pub open spec fn equal_spec(a: ValueView, b: ValueView) -> Result<bool, ValueFault> {
    match (a, b) {
        (ValueView::Bool(x), ValueView::Bool(y)) => Ok(x == y),
        (ValueView::Nil, ValueView::Nil) => Ok(true),
        (ValueView::Number(x), ValueView::Number(y)) => Ok(x.same_value(y)),
        (ValueView::Str(s), ValueView::Str(t)) => Ok(s == t),
        _ => Err(ValueFault::CompareOperands),
    }
}

/// `a > b` on two numbers.
pub open spec fn greater_spec(a: ValueView, b: ValueView) -> Result<bool, ValueFault> {
    match (a, b) {
        (ValueView::Number(x), ValueView::Number(y)) => Ok(y.lt(x)),
        _ => Err(ValueFault::CompareOperands),
    }
}

/// `a < b` on two numbers.
pub open spec fn less_spec(a: ValueView, b: ValueView) -> Result<bool, ValueFault> {
    match (a, b) {
        (ValueView::Number(x), ValueView::Number(y)) => Ok(x.lt(y)),
        _ => Err(ValueFault::CompareOperands),
    }
}

/// The view of an operator's outcome.
pub open spec fn outcome(r: Result<Value, ValueFault>) -> Result<ValueView, ValueFault> {
    match r {
        Ok(v) => Ok(v@),
        Err(e) => Err(e),
    }
}

impl Clone for Value {
    fn clone(&self) -> (r: Value)
        ensures
            r@ == self@,
    {
        match self {
            Value::Bool(b) => Value::Bool(*b),
            Value::Nil => Value::Nil,
            Value::Number(n) => Value::Number(*n),
            Value::Object(ObjectType::Str(s)) => Value::Object(ObjectType::Str(s.clone())),
        }
    }
}

impl PartialEq for Value {
    /// Equality of two values of one kind, numbers by the rational number they stand for;
    /// values of different kinds differ.
    fn eq(&self, o: &Value) -> (r: bool)
        ensures
            r == (equal_spec(self@, o@) == Ok::<bool, ValueFault>(true)),
    {
        match self.equals(o) {
            Ok(b) => b,
            Err(_) => false,
        }
    }
}

impl vstd::std_specs::cmp::PartialEqSpecImpl for Value {
    open spec fn obeys_eq_spec() -> bool {
        false
    }

    open spec fn eq_spec(&self, o: &Value) -> bool {
        equal_spec(self@, o@) == Ok::<bool, ValueFault>(true)
    }
}

impl Value {
    /// A string value.
    pub fn string(s: String) -> (r: Value)
        ensures
            r@ == ValueView::Str(s@),
    {
        Value::Object(ObjectType::Str(s))
    }

    /// `self + o`.
    pub fn add(self, o: Value) -> (r: Result<Value, ValueFault>)
        ensures
            outcome(r) == add_spec(self@, o@),
    {
        match (self, o) {
            (Value::Number(x), Value::Number(y)) => match x.checked_add(y) {
                Some(n) => Ok(Value::Number(n)),
                None => Err(ValueFault::NumberOverflow),
            },
            (Value::Object(ObjectType::Str(s)), Value::Object(ObjectType::Str(t))) => {
                let joined = s.concat(t.as_str());
                Ok(Value::Object(ObjectType::Str(joined)))
            },
            _ => Err(ValueFault::AddOperands),
        }
    }

    /// `self - o`.
    pub fn subtract(self, o: Value) -> (r: Result<Value, ValueFault>)
        ensures
            outcome(r) == subtract_spec(self@, o@),
    {
        match (self, o) {
            (Value::Number(x), Value::Number(y)) => match x.checked_sub(y) {
                Some(n) => Ok(Value::Number(n)),
                None => Err(ValueFault::NumberOverflow),
            },
            _ => Err(ValueFault::SubtractOperands),
        }
    }

    /// `self * o`.
    pub fn multiply(self, o: Value) -> (r: Result<Value, ValueFault>)
        ensures
            outcome(r) == multiply_spec(self@, o@),
    {
        match (self, o) {
            (Value::Number(x), Value::Number(y)) => match x.checked_mul(y) {
                Some(n) => Ok(Value::Number(n)),
                None => Err(ValueFault::NumberOverflow),
            },
            _ => Err(ValueFault::MultiplyOperands),
        }
    }

    /// `self / o`.
    pub fn divide(self, o: Value) -> (r: Result<Value, ValueFault>)
        ensures
            outcome(r) == divide_spec(self@, o@),
    {
        match (self, o) {
            (Value::Number(x), Value::Number(y)) => {
                if y.is_zero() {
                    Err(ValueFault::DivisionByZero)
                } else {
                    match x.checked_div(y) {
                        Some(n) => Ok(Value::Number(n)),
                        None => Err(ValueFault::NumberOverflow),
                    }
                }
            },
            _ => Err(ValueFault::DivideOperands),
        }
    }

    /// `-self`.
    pub fn negate(self) -> (r: Result<Value, ValueFault>)
        ensures
            outcome(r) == negate_spec(self@),
    {
        match self {
            Value::Number(x) => match x.checked_neg() {
                Some(n) => Ok(Value::Number(n)),
                None => Err(ValueFault::NumberOverflow),
            },
            _ => Err(ValueFault::NegateOperand),
        }
    }

    /// Whether the value counts as false.
    pub fn is_falsey(&self) -> (r: bool)
        ensures
            r == is_falsey_spec(self@),
    {
        match self {
            Value::Nil => true,
            Value::Bool(b) => !*b,
            _ => false,
        }
    }

    /// `self == o`, for two values of one kind.
    pub fn equals(&self, o: &Value) -> (r: Result<bool, ValueFault>)
        ensures
            r == equal_spec(self@, o@),
    {
        match (self, o) {
            (Value::Bool(x), Value::Bool(y)) => Ok(*x == *y),
            (Value::Nil, Value::Nil) => Ok(true),
            (Value::Number(x), Value::Number(y)) => Ok(x.equals(y)),
            (Value::Object(ObjectType::Str(s)), Value::Object(ObjectType::Str(t))) => Ok(s.eq(t)),
            _ => Err(ValueFault::CompareOperands),
        }
    }

    /// `self > o`, for two numbers.
    pub fn greater(&self, o: &Value) -> (r: Result<bool, ValueFault>)
        ensures
            r == greater_spec(self@, o@),
    {
        match (self, o) {
            (Value::Number(x), Value::Number(y)) => Ok(y.less_than(x)),
            _ => Err(ValueFault::CompareOperands),
        }
    }

    /// `self < o`, for two numbers.
    pub fn less(&self, o: &Value) -> (r: Result<bool, ValueFault>)
        ensures
            r == less_spec(self@, o@),
    {
        match (self, o) {
            (Value::Number(x), Value::Number(y)) => Ok(x.less_than(y)),
            _ => Err(ValueFault::CompareOperands),
        }
    }
}

/// Typing of arithmetic: two numbers add to their sum (refused only where it does not fit),
/// two strings add to their concatenation, and any other pair is refused; `-`, `*`, `/` and
/// negation refuse anything but numbers.
pub proof fn lemma_arithmetic_typing(a: ValueView, b: ValueView)
    requires
        a matches ValueView::Number(x) ==> x.denom() > 0,
        b matches ValueView::Number(y) ==> y.denom() > 0,
    ensures
        match (a, b) {
            (ValueView::Number(x), ValueView::Number(y)) => match add_spec(a, b) {
                Ok(ValueView::Number(z)) => z.stands_for(
                    x.numer() * y.denom() + y.numer() * x.denom(),
                    x.denom() * y.denom(),
                ),
                Err(f) => f == ValueFault::NumberOverflow,
                _ => false,
            },
            (ValueView::Str(s), ValueView::Str(t)) => add_spec(a, b) == Ok::<ValueView, ValueFault>(
                ValueView::Str(s + t),
            ),
            _ => add_spec(a, b) == Err::<ValueView, ValueFault>(ValueFault::AddOperands),
        },
        !(a is Number && b is Number) ==> subtract_spec(a, b) == Err::<ValueView, ValueFault>(
            ValueFault::SubtractOperands,
        ) && multiply_spec(a, b) == Err::<ValueView, ValueFault>(ValueFault::MultiplyOperands)
            && divide_spec(a, b) == Err::<ValueView, ValueFault>(ValueFault::DivideOperands),
        !(a is Number) ==> negate_spec(a) == Err::<ValueView, ValueFault>(
            ValueFault::NegateOperand,
        ),
{
    if let (ValueView::Number(x), ValueView::Number(y)) = (a, b) {
        lemma_mul_positive(x.denom(), y.denom());
        Number::lemma_from_fraction(
            x.numer() * y.denom() + y.numer() * x.denom(),
            x.denom() * y.denom(),
        );
    }
}

} // verus!
