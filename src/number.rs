use vstd::prelude::*;

verus! {

pub open spec fn fits_i64(x: int) -> bool {
    i64::MIN <= x <= i64::MAX
}

proof fn lemma_mul_bound(a: int, b: int)
    requires
        i64::MIN <= a <= i64::MAX,
        i64::MIN <= b <= i64::MAX,
    ensures
        -0x4000_0000_0000_0000_0000_0000_0000_0000 <= a * b <= 0x4000_0000_0000_0000_0000_0000_0000_0000,
{
    assert(-0x8000_0000_0000_0000 <= a <= 0x8000_0000_0000_0000);
    assert(-0x8000_0000_0000_0000 <= b <= 0x8000_0000_0000_0000);
    assert(-0x4000_0000_0000_0000_0000_0000_0000_0000 <= a * b <= 0x4000_0000_0000_0000_0000_0000_0000_0000)
        by (nonlinear_arith)
        requires
            -0x8000_0000_0000_0000 <= a <= 0x8000_0000_0000_0000,
            -0x8000_0000_0000_0000 <= b <= 0x8000_0000_0000_0000,
    ;
}

proof fn lemma_mul_den_bound(a: int, d: int)
    requires
        i64::MIN <= a <= i64::MAX,
        1 <= d <= i64::MAX,
    ensures
        -0x3fff_ffff_ffff_ffff_8000_0000_0000_0000 <= a * d <= 0x3fff_ffff_ffff_ffff_8000_0000_0000_0000,
{
    assert(-0x3fff_ffff_ffff_ffff_8000_0000_0000_0000 <= a * d <= 0x3fff_ffff_ffff_ffff_8000_0000_0000_0000)
        by (nonlinear_arith)
        requires
            -0x8000_0000_0000_0000 <= a <= 0x8000_0000_0000_0000,
            1 <= d <= 0x7fff_ffff_ffff_ffff,
    ;
}

proof fn lemma_den_product(a: int, b: int)
    requires
        1 <= a <= i64::MAX,
        1 <= b <= i64::MAX,
    ensures
        1 <= a * b <= 0x4000_0000_0000_0000_0000_0000_0000_0000,
{
    lemma_mul_bound(a, b);
    assert(1 <= a * b) by (nonlinear_arith)
        requires 1 <= a, 1 <= b;
}

/// A number of a query: an exact rational `num / den` with a positive
/// denominator, or, with denominator 0, one of the three non-finite values
/// `+inf` (num 1), `-inf` (num -1) and NaN (num 0).
///
/// Query numbers are decimal literals and the results of `+ - * /` on them,
/// so each finite one is a ratio of integers; holding it exactly keeps
/// equality and ordering exact. Division by zero and arithmetic on the
/// non-finite values follow IEEE 754. A finite result whose parts leave the
/// `i64` range is an error.
#[derive(Clone, Copy, Debug)]
pub struct Number {
    pub num: i64,
    pub den: i64,
}

/// Numerator and denominator of a sum: over the shared denominator when the
/// two are equal, over the product of the denominators otherwise.
pub open spec fn add_parts(a: Number, b: Number) -> (int, int) {
    if a.den == b.den {
        (a.num + b.num, a.den as int)
    } else {
        (a.num * b.den + b.num * a.den, a.den * b.den)
    }
}

pub open spec fn sub_parts(a: Number, b: Number) -> (int, int) {
    if a.den == b.den {
        (a.num - b.num, a.den as int)
    } else {
        (a.num * b.den - b.num * a.den, a.den * b.den)
    }
}

pub open spec fn mul_parts(a: Number, b: Number) -> (int, int) {
    (a.num * b.num, a.den * b.den)
}

/// For a non-zero divisor: the quotient, with the sign moved to the numerator.
pub open spec fn div_parts(a: Number, b: Number) -> (int, int) {
    if b.num > 0 {
        (a.num * b.den, a.den * b.num)
    } else {
        (-(a.num * b.den), -(a.den * b.num))
    }
}

pub open spec fn parts_fit(p: (int, int)) -> bool {
    fits_i64(p.0) && fits_i64(p.1)
}

/// The number with parts `p`, if they fit.
pub open spec fn from_parts_spec(p: (int, int)) -> Option<Number> {
    if parts_fit(p) {
        Some(Number { num: p.0 as i64, den: p.1 as i64 })
    } else {
        None
    }
}

pub open spec fn nan() -> Number {
    Number { num: 0, den: 0 }
}

/// `+inf` for a positive sign, `-inf` for a negative one, NaN for 0.
pub open spec fn inf_of_sign(s: int) -> Number {
    Number { num: (if s > 0 { 1int } else if s < 0 { -1int } else { 0int }) as i64, den: 0 }
}

/// `a + b`; `None` where a finite result leaves the `i64` range.
pub open spec fn add_num(a: Number, b: Number) -> Option<Number> {
    if a.is_finite() && b.is_finite() {
        from_parts_spec(add_parts(a, b))
    } else if a.is_nan() || b.is_nan() {
        Some(nan())
    } else if !a.is_finite() && !b.is_finite() {
        if a.num == b.num { Some(a) } else { Some(nan()) }
    } else if !a.is_finite() {
        Some(a)
    } else {
        Some(b)
    }
}

/// `a - b`; `None` where a finite result leaves the `i64` range.
pub open spec fn sub_num(a: Number, b: Number) -> Option<Number> {
    if a.is_finite() && b.is_finite() {
        from_parts_spec(sub_parts(a, b))
    } else if a.is_nan() || b.is_nan() {
        Some(nan())
    } else if !a.is_finite() && !b.is_finite() {
        if a.num != b.num { Some(a) } else { Some(nan()) }
    } else if !a.is_finite() {
        Some(a)
    } else {
        Some(inf_of_sign(-b.num))
    }
}

/// `a * b`; an infinity times zero is NaN.
pub open spec fn mul_num(a: Number, b: Number) -> Option<Number> {
    if a.is_finite() && b.is_finite() {
        from_parts_spec(mul_parts(a, b))
    } else if a.is_nan() || b.is_nan() {
        Some(nan())
    } else {
        Some(inf_of_sign(a.sign() * b.sign()))
    }
}

/// `a / b`: a finite number over zero is an infinity of its sign (NaN for
/// zero over zero); over an infinity it is zero.
pub open spec fn div_num(a: Number, b: Number) -> Option<Number> {
    if a.is_finite() && b.is_finite() {
        if b.num == 0 {
            Some(inf_of_sign(a.sign()))
        } else {
            from_parts_spec(div_parts(a, b))
        }
    } else if a.is_nan() || b.is_nan() {
        Some(nan())
    } else if a.is_finite() {
        Some(Number { num: 0, den: 1 })
    } else if b.is_finite() {
        Some(inf_of_sign(a.sign() * if b.num == 0 { 1 } else { b.sign() }))
    } else {
        Some(nan())
    }
}

/// `-a`; `None` only for the finite numerator `i64::MIN`.
pub open spec fn neg_num(a: Number) -> Option<Number> {
    if a.is_finite() && a.num == i64::MIN {
        None
    } else {
        Some(Number { num: (-a.num) as i64, den: a.den })
    }
}

impl Number {
    pub open spec fn wf(self) -> bool {
        self.den >= 1 || (self.den == 0 && -1 <= self.num <= 1)
    }

    pub open spec fn is_finite(self) -> bool {
        self.den >= 1
    }

    pub open spec fn is_nan(self) -> bool {
        self.den == 0 && self.num == 0
    }

    /// The sign: -1, 0 or 1 (0 for zero and for NaN).
    pub open spec fn sign(self) -> int {
        if self.num > 0 {
            1
        } else if self.num < 0 {
            -1
        } else {
            0
        }
    }

    /// The rational equality `a/b == c/d` of finite numbers, as `a*d == c*b`.
    pub open spec fn finite_same(self, o: Number) -> bool {
        self.num * o.den == o.num * self.den
    }

    pub open spec fn finite_less(self, o: Number) -> bool {
        self.num * o.den < o.num * self.den
    }

    /// Numeric equality: NaN equals nothing; an infinity equals itself only.
    pub open spec fn same_value(self, o: Number) -> bool {
        if self.is_finite() && o.is_finite() {
            self.finite_same(o)
        } else {
            !self.is_nan() && !o.is_nan() && self.den == o.den && self.num == o.num
        }
    }

    /// Numeric order: NaN is unordered; `-inf` is below and `+inf` above every other number.
    pub open spec fn less_than(self, o: Number) -> bool {
        if self.is_nan() || o.is_nan() {
            false
        } else if self.is_finite() && o.is_finite() {
            self.finite_less(o)
        } else if self.is_finite() {
            o.num == 1
        } else if o.is_finite() {
            self.num == -1
        } else {
            self.num == -1 && o.num == 1
        }
    }

    pub open spec fn has_parts(self, p: (int, int)) -> bool {
        self.num == p.0 && self.den == p.1
    }

    /// The integer `n`.
    pub fn from_int(n: i64) -> (r: Number)
        ensures
            r.wf(),
            r.num == n,
            r.den == 1,
    {
        Number { num: n, den: 1 }
    }

    fn from_parts(n: i128, d: i128) -> (r: Option<Number>)
        requires
            d >= 1,
        ensures
            r is Some <==> parts_fit((n as int, d as int)),
            r is Some ==> r->0.wf() && r->0.has_parts((n as int, d as int)),
    {
        if n < i64::MIN as i128 || n > i64::MAX as i128 || d > i64::MAX as i128 {
            None
        } else {
            Some(Number { num: n as i64, den: d as i64 })
        }
    }

    fn add_finite(self, o: Number) -> (r: Option<Number>)
        requires
            self.is_finite(),
            o.is_finite(),
        ensures
            r is Some <==> parts_fit(add_parts(self, o)),
            r is Some ==> r->0.wf() && r->0.has_parts(add_parts(self, o)),
    {
        if self.den == o.den {
            Number::from_parts(self.num as i128 + o.num as i128, self.den as i128)
        } else {
            proof {
                lemma_mul_den_bound(self.num as int, o.den as int);
                lemma_mul_den_bound(o.num as int, self.den as int);
                lemma_den_product(self.den as int, o.den as int);
            }
            let x = (self.num as i128) * (o.den as i128);
            let y = (o.num as i128) * (self.den as i128);
            Number::from_parts(x + y, (self.den as i128) * (o.den as i128))
        }
    }

    fn sub_finite(self, o: Number) -> (r: Option<Number>)
        requires
            self.is_finite(),
            o.is_finite(),
        ensures
            r is Some <==> parts_fit(sub_parts(self, o)),
            r is Some ==> r->0.wf() && r->0.has_parts(sub_parts(self, o)),
    {
        if self.den == o.den {
            Number::from_parts(self.num as i128 - o.num as i128, self.den as i128)
        } else {
            proof {
                lemma_mul_den_bound(self.num as int, o.den as int);
                lemma_mul_den_bound(o.num as int, self.den as int);
                lemma_den_product(self.den as int, o.den as int);
            }
            let x = (self.num as i128) * (o.den as i128);
            let y = (o.num as i128) * (self.den as i128);
            Number::from_parts(x - y, (self.den as i128) * (o.den as i128))
        }
    }

    fn mul_finite(self, o: Number) -> (r: Option<Number>)
        requires
            self.is_finite(),
            o.is_finite(),
        ensures
            r is Some <==> parts_fit(mul_parts(self, o)),
            r is Some ==> r->0.wf() && r->0.has_parts(mul_parts(self, o)),
    {
        proof {
            lemma_mul_bound(self.num as int, o.num as int);
            lemma_den_product(self.den as int, o.den as int);
        }
        Number::from_parts((self.num as i128) * (o.num as i128), (self.den as i128) * (o.den as i128))
    }

    /// The quotient; `None` where the divisor is zero or a part of the
    /// quotient leaves the `i64` range.
    fn div_finite(self, o: Number) -> (r: Option<Number>)
        requires
            self.is_finite(),
            o.is_finite(),
        ensures
            r is Some <==> o.num != 0 && parts_fit(div_parts(self, o)),
            r is Some ==> r->0.wf() && r->0.has_parts(div_parts(self, o)),
    {
        if o.num == 0 {
            return None;
        }
        proof {
            lemma_mul_bound(self.num as int, o.den as int);
            lemma_mul_bound(self.den as int, o.num as int);
        }
        let n = (self.num as i128) * (o.den as i128);
        let d = (self.den as i128) * (o.num as i128);
        if o.num > 0 {
            proof {
                assert(self.den * o.num >= 1) by (nonlinear_arith)
                    requires self.den >= 1, o.num >= 1;
            }
            Number::from_parts(n, d)
        } else {
            proof {
                assert(self.den * o.num <= -1) by (nonlinear_arith)
                    requires self.den >= 1, o.num <= -1;
            }
            Number::from_parts(-n, -d)
        }
    }

    /// The negation; `None` only for the numerator `i64::MIN`.
    fn neg_finite(self) -> (r: Option<Number>)
        requires
            self.is_finite(),
        ensures
            r is Some <==> self.num != i64::MIN,
            r is Some ==> r->0.wf() && r->0.num == -self.num && r->0.den == self.den,
    {
        if self.num == i64::MIN {
            None
        } else {
            Some(Number { num: -self.num, den: self.den })
        }
    }

    fn equals_finite(self, o: Number) -> (r: bool)
        ensures
            r == self.finite_same(o),
    {
        proof {
            lemma_mul_bound(self.num as int, o.den as int);
            lemma_mul_bound(o.num as int, self.den as int);
        }
        (self.num as i128) * (o.den as i128) == (o.num as i128) * (self.den as i128)
    }

    fn lt_finite(self, o: Number) -> (r: bool)
        ensures
            r == self.finite_less(o),
    {
        proof {
            lemma_mul_bound(self.num as int, o.den as int);
            lemma_mul_bound(o.num as int, self.den as int);
        }
        (self.num as i128) * (o.den as i128) < (o.num as i128) * (self.den as i128)
    }

    /// `+inf`.
    pub fn infinity() -> (r: Number)
        ensures
            r == inf_of_sign(1),
    {
        Number { num: 1, den: 0 }
    }

    /// NaN.
    pub fn nan() -> (r: Number)
        ensures
            r == nan(),
    {
        Number { num: 0, den: 0 }
    }

    fn of_sign(s: i64) -> (r: Number)
        ensures
            r == inf_of_sign(s as int),
    {
        Number { num: if s > 0 { 1 } else if s < 0 { -1 } else { 0 }, den: 0 }
    }

    fn sign_of(self) -> (r: i64)
        ensures
            r == self.sign(),
            -1 <= r <= 1,
    {
        if self.num > 0 {
            1
        } else if self.num < 0 {
            -1
        } else {
            0
        }
    }

    pub fn add(self, o: Number) -> (r: Option<Number>)
        requires
            self.wf(),
            o.wf(),
        ensures
            r == add_num(self, o),
            r matches Some(n) ==> n.wf(),
    {
        if self.den >= 1 && o.den >= 1 {
            self.add_finite(o)
        } else if (self.den == 0 && self.num == 0) || (o.den == 0 && o.num == 0) {
            Some(Number::nan())
        } else if self.den == 0 && o.den == 0 {
            if self.num == o.num { Some(self) } else { Some(Number::nan()) }
        } else if self.den == 0 {
            Some(self)
        } else {
            Some(o)
        }
    }

    pub fn sub(self, o: Number) -> (r: Option<Number>)
        requires
            self.wf(),
            o.wf(),
        ensures
            r == sub_num(self, o),
            r matches Some(n) ==> n.wf(),
    {
        if self.den >= 1 && o.den >= 1 {
            self.sub_finite(o)
        } else if (self.den == 0 && self.num == 0) || (o.den == 0 && o.num == 0) {
            Some(Number::nan())
        } else if self.den == 0 && o.den == 0 {
            if self.num != o.num { Some(self) } else { Some(Number::nan()) }
        } else if self.den == 0 {
            Some(self)
        } else {
            Some(Number::of_sign(-o.num))
        }
    }

    pub fn mul(self, o: Number) -> (r: Option<Number>)
        requires
            self.wf(),
            o.wf(),
        ensures
            r == mul_num(self, o),
            r matches Some(n) ==> n.wf(),
    {
        if self.den >= 1 && o.den >= 1 {
            self.mul_finite(o)
        } else if (self.den == 0 && self.num == 0) || (o.den == 0 && o.num == 0) {
            Some(Number::nan())
        } else {
            let a = self.sign_of();
            let b = o.sign_of();
            proof {
                assert(-1 <= a * b <= 1) by (nonlinear_arith)
                    requires -1 <= a <= 1, -1 <= b <= 1;
            }
            Some(Number::of_sign(a * b))
        }
    }

    /// The quotient; division by zero gives an infinity or NaN.
    pub fn div(self, o: Number) -> (r: Option<Number>)
        requires
            self.wf(),
            o.wf(),
        ensures
            r == div_num(self, o),
            r matches Some(n) ==> n.wf(),
    {
        if self.den >= 1 && o.den >= 1 {
            if o.num == 0 {
                Some(Number::of_sign(self.sign_of()))
            } else {
                self.div_finite(o)
            }
        } else if (self.den == 0 && self.num == 0) || (o.den == 0 && o.num == 0) {
            Some(Number::nan())
        } else if self.den >= 1 {
            Some(Number { num: 0, den: 1 })
        } else if o.den >= 1 {
            let s = if o.num == 0 { 1 } else { o.sign_of() };
            let a = self.sign_of();
            proof {
                assert(-1 <= a * s <= 1) by (nonlinear_arith)
                    requires -1 <= a <= 1, -1 <= s <= 1;
            }
            Some(Number::of_sign(a * s))
        } else {
            Some(Number::nan())
        }
    }

    pub fn neg(self) -> (r: Option<Number>)
        requires
            self.wf(),
        ensures
            r == neg_num(self),
            r matches Some(n) ==> n.wf(),
    {
        if self.den >= 1 {
            self.neg_finite()
        } else {
            Some(Number { num: -self.num, den: 0 })
        }
    }

    /// Numeric equality (see `same_value`).
    pub fn equals(self, o: Number) -> (r: bool)
        ensures
            r == self.same_value(o),
    {
        if self.den >= 1 && o.den >= 1 {
            self.equals_finite(o)
        } else {
            !(self.den == 0 && self.num == 0) && !(o.den == 0 && o.num == 0) && self.den == o.den
                && self.num == o.num
        }
    }

    /// Numeric order (see `less_than`).
    pub fn lt(self, o: Number) -> (r: bool)
        ensures
            r == self.less_than(o),
    {
        if (self.den == 0 && self.num == 0) || (o.den == 0 && o.num == 0) {
            false
        } else if self.den >= 1 && o.den >= 1 {
            self.lt_finite(o)
        } else if self.den >= 1 {
            o.num == 1
        } else if o.den >= 1 {
            self.num == -1
        } else {
            self.num == -1 && o.num == 1
        }
    }
}

} // verus!
