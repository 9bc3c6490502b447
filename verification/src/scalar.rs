//! The number type of the simulations, and formulas over it.
//!
//! The simulations are generic over their scalar. What a sum or a square root
//! yields is the scalar's own business; which values meet in which operation,
//! and in which order, is fixed here. A formula is written down as an
//! [`Expr`], and [`evaluates`] says that a scalar is what the scalar's
//! operations returned when the formula was worked out.

use vstd::prelude::*;

verus! {

/// Arithmetic of the number type in which a simulation computes.
pub trait Scalar: Copy {
    /// The scalar that stands for the count `n`.
    fn number(n: usize) -> Self;

    /// The scalar of the given number of hundredths.
    fn hundredths(h: u32) -> Self;

    /// The ratio of a circle's circumference to its diameter.
    fn pi() -> Self;

    /// `self` plus `other`.
    fn sum(self, other: Self) -> Self;

    /// `self` minus `other`.
    fn difference(self, other: Self) -> Self;

    /// `self` times `other`.
    fn product(self, other: Self) -> Self;

    /// `self` divided by `other`.
    fn quotient(self, other: Self) -> Self;

    /// `self` with the opposite sign.
    fn negated(self) -> Self;

    /// The square root of `self`.
    fn square_root(self) -> Self;

    /// The sine of `self`.
    fn sine(self) -> Self;

    /// The cosine of `self`.
    fn cosine(self) -> Self;

    /// Whether `self` is below `other`.
    fn less_than(self, other: Self) -> bool;

    /// The whole part of `self` as a count; the nearest count where `self`
    /// is outside the range of counts.
    fn truncated(self) -> usize;
}

/// A source of uniform random scalars in the range from zero to one.
pub trait UniformSource<S> {
    /// The next draw.
    fn draw(&self) -> S;
}

/// A formula over scalars.
pub enum Expr<S> {
    /// A given scalar.
    Val(S),
    /// A count.
    Number(usize),
    /// A number of hundredths.
    Hundredths(u32),
    /// Pi.
    Pi,
    /// The first plus the second.
    Sum(Box<Expr<S>>, Box<Expr<S>>),
    /// The first minus the second.
    Difference(Box<Expr<S>>, Box<Expr<S>>),
    /// The first times the second.
    Product(Box<Expr<S>>, Box<Expr<S>>),
    /// The first divided by the second.
    Quotient(Box<Expr<S>>, Box<Expr<S>>),
    /// The value with the opposite sign.
    Negated(Box<Expr<S>>),
    /// The square root of the value.
    SquareRoot(Box<Expr<S>>),
    /// The sine of the value.
    Sine(Box<Expr<S>>),
    /// The cosine of the value.
    Cosine(Box<Expr<S>>),
    /// The smaller of two values: the first where it is below the second,
    /// else the second.
    Least(Box<Expr<S>>, Box<Expr<S>>),
    /// The larger of two values: the first where the second is below it,
    /// else the second.
    Greatest(Box<Expr<S>>, Box<Expr<S>>),
    /// A value restricted to the range from minus the bound to the bound,
    /// the bound given in hundredths.
    Clamped(Box<Expr<S>>, u32),
}

/// `r` is `v` brought into the range from `lo` to `hi`: `lo` where `v` is
/// below `lo`, else `hi` where `hi` is below `v`, else `v` itself.
pub open spec fn is_clamp<S: Scalar>(v: S, lo: S, hi: S, r: S) -> bool {
    ||| call_ensures(S::less_than, (v, lo), true) && r == lo
    ||| call_ensures(S::less_than, (v, lo), false) && call_ensures(S::less_than, (hi, v), true) && r
        == hi
    ||| call_ensures(S::less_than, (v, lo), false) && call_ensures(S::less_than, (hi, v), false)
        && r == v
}

/// `r` is the smaller of `x` and `y`.
pub open spec fn is_least<S: Scalar>(x: S, y: S, r: S) -> bool {
    ||| call_ensures(S::less_than, (x, y), true) && r == x
    ||| call_ensures(S::less_than, (x, y), false) && r == y
}

/// `r` is the larger of `x` and `y`.
pub open spec fn is_greatest<S: Scalar>(x: S, y: S, r: S) -> bool {
    ||| call_ensures(S::less_than, (y, x), true) && r == x
    ||| call_ensures(S::less_than, (y, x), false) && r == y
}

/// `lo` and `hi` are the ends of the symmetric range of the given bound.
pub open spec fn is_range<S: Scalar>(bound_hundredths: u32, lo: S, hi: S) -> bool {
    &&& call_ensures(S::hundredths, (bound_hundredths,), hi)
    &&& call_ensures(S::negated, (hi,), lo)
}

/// `r` is a value of the formula `e`: what the scalar's operations returned
/// when they were applied as `e` says, to values of its parts.
pub open spec fn evaluates<S: Scalar>(e: Expr<S>, r: S) -> bool
    decreases e,
{
    match e {
        Expr::Val(v) => r == v,
        Expr::Number(n) => call_ensures(S::number, (n,), r),
        Expr::Hundredths(h) => call_ensures(S::hundredths, (h,), r),
        Expr::Pi => call_ensures(S::pi, (), r),
        Expr::Sum(a, b) => exists|x: S, y: S|
            evaluates(*a, x) && evaluates(*b, y) && #[trigger] call_ensures(S::sum, (x, y), r),
        Expr::Difference(a, b) => exists|x: S, y: S|
            evaluates(*a, x) && evaluates(*b, y) && #[trigger] call_ensures(
                S::difference,
                (x, y),
                r,
            ),
        Expr::Product(a, b) => exists|x: S, y: S|
            evaluates(*a, x) && evaluates(*b, y) && #[trigger] call_ensures(S::product, (x, y), r),
        Expr::Quotient(a, b) => exists|x: S, y: S|
            evaluates(*a, x) && evaluates(*b, y) && #[trigger] call_ensures(S::quotient, (x, y), r),
        Expr::Negated(a) => exists|x: S|
            evaluates(*a, x) && #[trigger] call_ensures(S::negated, (x,), r),
        Expr::SquareRoot(a) => exists|x: S|
            evaluates(*a, x) && #[trigger] call_ensures(S::square_root, (x,), r),
        Expr::Sine(a) => exists|x: S| evaluates(*a, x) && #[trigger] call_ensures(S::sine, (x,), r),
        Expr::Cosine(a) => exists|x: S|
            evaluates(*a, x) && #[trigger] call_ensures(S::cosine, (x,), r),
        Expr::Least(a, b) => exists|x: S, y: S|
            evaluates(*a, x) && evaluates(*b, y) && #[trigger] is_least(x, y, r),
        Expr::Greatest(a, b) => exists|x: S, y: S|
            evaluates(*a, x) && evaluates(*b, y) && #[trigger] is_greatest(x, y, r),
        Expr::Clamped(a, bound) => exists|x: S, lo: S, hi: S|
            evaluates(*a, x) && is_range(bound, lo, hi) && #[trigger] is_clamp(x, lo, hi, r),
    }
}

/// `verdict` is what comparing a value of `a` with a value of `b` gave: whether
/// the first is below the second.
pub open spec fn is_below<S: Scalar>(a: Expr<S>, b: Expr<S>, verdict: bool) -> bool {
    exists|x: S, y: S|
        evaluates(a, x) && evaluates(b, y) && #[trigger] call_ensures(S::less_than, (x, y), verdict)
}

/// `v` has compared as above zero.
pub open spec fn is_positive<S: Scalar>(v: S) -> bool {
    is_below(number(0), val(v), true)
}

/// `count` is the whole part of a value of `e`.
pub open spec fn is_count<S: Scalar>(e: Expr<S>, count: usize) -> bool {
    exists|x: S| evaluates(e, x) && #[trigger] call_ensures(S::truncated, (x,), count)
}

/// `r` is a draw from `source`.
pub open spec fn is_draw<S, R: UniformSource<S>>(source: &R, r: S) -> bool {
    call_ensures(R::draw, (source,), r)
}

/// The formula that is the scalar `v`.
pub open spec fn val<S>(v: S) -> Expr<S> {
    Expr::Val(v)
}

/// The formula that is the count `n`.
pub open spec fn number<S>(n: int) -> Expr<S> {
    Expr::Number(n as usize)
}

/// The formula that is `h` hundredths.
pub open spec fn hundredths<S>(h: u32) -> Expr<S> {
    Expr::Hundredths(h)
}

/// `a + b`.
pub open spec fn sum<S>(a: Expr<S>, b: Expr<S>) -> Expr<S> {
    Expr::Sum(Box::new(a), Box::new(b))
}

/// `a - b`.
pub open spec fn difference<S>(a: Expr<S>, b: Expr<S>) -> Expr<S> {
    Expr::Difference(Box::new(a), Box::new(b))
}

/// `a * b`.
pub open spec fn product<S>(a: Expr<S>, b: Expr<S>) -> Expr<S> {
    Expr::Product(Box::new(a), Box::new(b))
}

/// `a / b`.
pub open spec fn quotient<S>(a: Expr<S>, b: Expr<S>) -> Expr<S> {
    Expr::Quotient(Box::new(a), Box::new(b))
}

/// `-a`.
pub open spec fn negated<S>(a: Expr<S>) -> Expr<S> {
    Expr::Negated(Box::new(a))
}

/// The square root of `a`.
pub open spec fn square_root<S>(a: Expr<S>) -> Expr<S> {
    Expr::SquareRoot(Box::new(a))
}

/// The sine of `a`.
pub open spec fn sine<S>(a: Expr<S>) -> Expr<S> {
    Expr::Sine(Box::new(a))
}

/// The cosine of `a`.
pub open spec fn cosine<S>(a: Expr<S>) -> Expr<S> {
    Expr::Cosine(Box::new(a))
}

/// The smaller of `a` and `b`.
pub open spec fn least<S>(a: Expr<S>, b: Expr<S>) -> Expr<S> {
    Expr::Least(Box::new(a), Box::new(b))
}

/// The larger of `a` and `b`.
pub open spec fn greatest<S>(a: Expr<S>, b: Expr<S>) -> Expr<S> {
    Expr::Greatest(Box::new(a), Box::new(b))
}

/// `a` restricted to the symmetric range of the given bound.
pub open spec fn clamped<S>(a: Expr<S>, bound_hundredths: u32) -> Expr<S> {
    Expr::Clamped(Box::new(a), bound_hundredths)
}

/// `a * a`.
pub open spec fn square<S>(a: Expr<S>) -> Expr<S> {
    product(a, a)
}

/// `r` is one of the two ends of the symmetric range of the given bound, or
/// compares as neither below the lower end nor above the upper end.
pub open spec fn within_bound<S: Scalar>(r: S, bound_hundredths: u32) -> bool {
    exists|lo: S, hi: S| #[trigger]
        is_range(bound_hundredths, lo, hi) && (r == lo || r == hi || (call_ensures(
            S::less_than,
            (r, lo),
            false,
        ) && call_ensures(S::less_than, (hi, r), false)))
}

/// Whatever a clamped formula evaluates to lies within the bound.
pub proof fn lemma_clamped_within_bound<S: Scalar>(e: Expr<S>, bound_hundredths: u32, r: S)
    requires
        evaluates(clamped(e, bound_hundredths), r),
    ensures
        within_bound(r, bound_hundredths),
{
    let (x, lo, hi) = choose|x: S, lo: S, hi: S|
        evaluates(e, x) && is_range(bound_hundredths, lo, hi) && #[trigger] is_clamp(x, lo, hi, r);
    assert(is_range(bound_hundredths, lo, hi));
}

/// Whether `v` is above zero.
pub fn positive<S: Scalar>(v: S) -> (verdict: bool)
    ensures
        is_below(number(0), val(v), verdict),
{
    Term::number(0).below(&Term::of(v))
}

/// A scalar together with a formula of which it is a value.
pub(crate) struct Term<S> {
    pub value: S,
    pub expr: Ghost<Expr<S>>,
}

impl<S: Scalar> Term<S> {
    pub(crate) open spec fn wf(&self) -> bool {
        evaluates(self.expr@, self.value)
    }

    pub(crate) fn of(v: S) -> (t: Self)
        ensures
            t.wf(),
            t.value == v,
            t.expr@ == val(v),
    {
        Term { value: v, expr: Ghost(Expr::Val(v)) }
    }

    pub(crate) fn number(n: usize) -> (t: Self)
        ensures
            t.wf(),
            t.expr@ == number::<S>(n as int),
    {
        Term { value: S::number(n), expr: Ghost(Expr::Number(n)) }
    }

    pub(crate) fn hundredths(h: u32) -> (t: Self)
        ensures
            t.wf(),
            t.expr@ == hundredths::<S>(h),
    {
        Term { value: S::hundredths(h), expr: Ghost(Expr::Hundredths(h)) }
    }

    pub(crate) fn pi() -> (t: Self)
        ensures
            t.wf(),
            t.expr@ == Expr::<S>::Pi,
    {
        Term { value: S::pi(), expr: Ghost(Expr::Pi) }
    }

    pub(crate) fn plus(&self, other: &Self) -> (t: Self)
        requires
            self.wf(),
            other.wf(),
        ensures
            t.wf(),
            t.expr@ == sum(self.expr@, other.expr@),
    {
        Term { value: self.value.sum(other.value), expr: Ghost(sum(self.expr@, other.expr@)) }
    }

    pub(crate) fn minus(&self, other: &Self) -> (t: Self)
        requires
            self.wf(),
            other.wf(),
        ensures
            t.wf(),
            t.expr@ == difference(self.expr@, other.expr@),
    {
        Term {
            value: self.value.difference(other.value),
            expr: Ghost(difference(self.expr@, other.expr@)),
        }
    }

    pub(crate) fn times(&self, other: &Self) -> (t: Self)
        requires
            self.wf(),
            other.wf(),
        ensures
            t.wf(),
            t.expr@ == product(self.expr@, other.expr@),
    {
        Term { value: self.value.product(other.value), expr: Ghost(product(self.expr@, other.expr@)) }
    }

    pub(crate) fn over(&self, other: &Self) -> (t: Self)
        requires
            self.wf(),
            other.wf(),
        ensures
            t.wf(),
            t.expr@ == quotient(self.expr@, other.expr@),
    {
        Term {
            value: self.value.quotient(other.value),
            expr: Ghost(quotient(self.expr@, other.expr@)),
        }
    }

    pub(crate) fn opposite(&self) -> (t: Self)
        requires
            self.wf(),
        ensures
            t.wf(),
            t.expr@ == negated(self.expr@),
    {
        Term { value: self.value.negated(), expr: Ghost(negated(self.expr@)) }
    }

    pub(crate) fn root(&self) -> (t: Self)
        requires
            self.wf(),
        ensures
            t.wf(),
            t.expr@ == square_root(self.expr@),
    {
        Term { value: self.value.square_root(), expr: Ghost(square_root(self.expr@)) }
    }

    pub(crate) fn sin(&self) -> (t: Self)
        requires
            self.wf(),
        ensures
            t.wf(),
            t.expr@ == sine(self.expr@),
    {
        Term { value: self.value.sine(), expr: Ghost(sine(self.expr@)) }
    }

    pub(crate) fn cos(&self) -> (t: Self)
        requires
            self.wf(),
        ensures
            t.wf(),
            t.expr@ == cosine(self.expr@),
    {
        Term { value: self.value.cosine(), expr: Ghost(cosine(self.expr@)) }
    }

    pub(crate) fn squared(&self) -> (t: Self)
        requires
            self.wf(),
        ensures
            t.wf(),
            t.expr@ == square(self.expr@),
    {
        self.times(self)
    }

    pub(crate) fn at_most(&self, other: &Self) -> (t: Self)
        requires
            self.wf(),
            other.wf(),
        ensures
            t.wf(),
            t.expr@ == least(self.expr@, other.expr@),
    {
        let value = if self.value.less_than(other.value) {
            self.value
        } else {
            other.value
        };
        assert(is_least(self.value, other.value, value));
        Term { value, expr: Ghost(least(self.expr@, other.expr@)) }
    }

    pub(crate) fn at_least(&self, other: &Self) -> (t: Self)
        requires
            self.wf(),
            other.wf(),
        ensures
            t.wf(),
            t.expr@ == greatest(self.expr@, other.expr@),
    {
        let value = if other.value.less_than(self.value) {
            self.value
        } else {
            other.value
        };
        assert(is_greatest(self.value, other.value, value));
        Term { value, expr: Ghost(greatest(self.expr@, other.expr@)) }
    }

    pub(crate) fn below(&self, other: &Self) -> (verdict: bool)
        requires
            self.wf(),
            other.wf(),
        ensures
            is_below(self.expr@, other.expr@, verdict),
    {
        self.value.less_than(other.value)
    }

    pub(crate) fn count(&self) -> (count: usize)
        requires
            self.wf(),
        ensures
            is_count(self.expr@, count),
    {
        self.value.truncated()
    }

    pub(crate) fn clamp(&self, bound_hundredths: u32) -> (t: Self)
        requires
            self.wf(),
        ensures
            t.wf(),
            t.expr@ == clamped(self.expr@, bound_hundredths),
    {
        let hi = S::hundredths(bound_hundredths);
        let lo = hi.negated();
        let value = if self.value.less_than(lo) {
            lo
        } else if hi.less_than(self.value) {
            hi
        } else {
            self.value
        };
        assert(is_range(bound_hundredths, lo, hi));
        assert(is_clamp(self.value, lo, hi, value));
        Term { value, expr: Ghost(clamped(self.expr@, bound_hundredths)) }
    }
}

} // verus!
