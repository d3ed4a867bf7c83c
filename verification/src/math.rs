use vstd::prelude::*;

verus! {

/// The numbers a network computes with: single-precision floating point in
/// practice.
///
/// Nothing is assumed of an implementation: the operations carry no
/// contract. Contracts in this crate speak of what an operation returns
/// through the names below (`sum`, `product`, ...) and give exact values on
/// the condition that the operations they rest on are functions of their
/// arguments (`fixed_plus` and the like; `exact::<S>()` for all of them). An
/// implementation in verified code proves that condition from its own
/// contracts; of any other, the caller has to know it.
pub trait Scalar: Copy {
    /// The number zero.
    fn zero() -> Self;

    /// The number one.
    fn one() -> Self;

    /// The base of the natural logarithm.
    fn euler() -> Self;

    /// `self + rhs`.
    fn plus(self, rhs: Self) -> Self;

    /// `self - rhs`.
    fn minus(self, rhs: Self) -> Self;

    /// `self * rhs`.
    fn times(self, rhs: Self) -> Self;

    /// `self / rhs`.
    fn over(self, rhs: Self) -> Self;

    /// `-self`.
    fn negated(self) -> Self;

    /// `self` raised to the power `exponent`.
    fn powf(self, exponent: Self) -> Self;
}

/// The function that every node applies to its weighted input. It carries
/// no contract either: see `activated` and `fixed_eval`.
pub trait Activation<S: Scalar>: Copy {
    /// The function's value at `x`.
    fn eval(&self, x: S) -> S;
}

/// What `S::zero()` returns.
pub open spec fn zero<S: Scalar>() -> S {
    choose|r: S| call_ensures(S::zero, (), r)
}

/// What `S::one()` returns.
pub open spec fn one<S: Scalar>() -> S {
    choose|r: S| call_ensures(S::one, (), r)
}

/// What `S::euler()` returns.
pub open spec fn euler<S: Scalar>() -> S {
    choose|r: S| call_ensures(S::euler, (), r)
}

/// What `a.plus(b)` returns.
pub open spec fn sum<S: Scalar>(a: S, b: S) -> S {
    choose|r: S| call_ensures(S::plus, (a, b), r)
}

/// What `a.minus(b)` returns.
pub open spec fn difference<S: Scalar>(a: S, b: S) -> S {
    choose|r: S| call_ensures(S::minus, (a, b), r)
}

/// What `a.times(b)` returns.
pub open spec fn product<S: Scalar>(a: S, b: S) -> S {
    choose|r: S| call_ensures(S::times, (a, b), r)
}

/// What `a.over(b)` returns.
pub open spec fn quotient<S: Scalar>(a: S, b: S) -> S {
    choose|r: S| call_ensures(S::over, (a, b), r)
}

/// What `a.negated()` returns.
pub open spec fn negation<S: Scalar>(a: S) -> S {
    choose|r: S| call_ensures(S::negated, (a,), r)
}

/// What `a.powf(b)` returns.
pub open spec fn power<S: Scalar>(a: S, b: S) -> S {
    choose|r: S| call_ensures(S::powf, (a, b), r)
}

/// What `f.eval(x)` returns.
pub open spec fn activated<S: Scalar, A: Activation<S>>(f: A, x: S) -> S {
    choose|r: S| call_ensures(A::eval, (&f, x), r)
}

/// Whether `S::zero()` always returns the same number.
pub open spec fn fixed_zero<S: Scalar>() -> bool {
    forall|r: S| #[trigger] call_ensures(S::zero, (), r) ==> r == zero::<S>()
}

/// Whether `S::one()` always returns the same number.
pub open spec fn fixed_one<S: Scalar>() -> bool {
    forall|r: S| #[trigger] call_ensures(S::one, (), r) ==> r == one::<S>()
}

/// Whether `S::euler()` always returns the same number.
pub open spec fn fixed_euler<S: Scalar>() -> bool {
    forall|r: S| #[trigger] call_ensures(S::euler, (), r) ==> r == euler::<S>()
}

/// Whether `plus` is a function of its arguments.
pub open spec fn fixed_plus<S: Scalar>() -> bool {
    forall|a: S, b: S, r: S| #[trigger] call_ensures(S::plus, (a, b), r) ==> r == sum(a, b)
}

/// Whether `minus` is a function of its arguments.
pub open spec fn fixed_minus<S: Scalar>() -> bool {
    forall|a: S, b: S, r: S| #[trigger] call_ensures(S::minus, (a, b), r) ==> r == difference(a, b)
}

/// Whether `times` is a function of its arguments.
pub open spec fn fixed_times<S: Scalar>() -> bool {
    forall|a: S, b: S, r: S| #[trigger] call_ensures(S::times, (a, b), r) ==> r == product(a, b)
}

/// Whether `over` is a function of its arguments.
pub open spec fn fixed_over<S: Scalar>() -> bool {
    forall|a: S, b: S, r: S| #[trigger] call_ensures(S::over, (a, b), r) ==> r == quotient(a, b)
}

/// Whether `negated` is a function of its argument.
pub open spec fn fixed_negated<S: Scalar>() -> bool {
    forall|a: S, r: S| #[trigger] call_ensures(S::negated, (a,), r) ==> r == negation(a)
}

/// Whether `powf` is a function of its arguments.
pub open spec fn fixed_powf<S: Scalar>() -> bool {
    forall|a: S, b: S, r: S| #[trigger] call_ensures(S::powf, (a, b), r) ==> r == power(a, b)
}

/// Whether every activation of type `A` is a function of its argument.
pub open spec fn fixed_eval<S: Scalar, A: Activation<S>>() -> bool {
    forall|f: A, x: S, r: S| #[trigger] call_ensures(A::eval, (&f, x), r) ==> r == activated(f, x)
}

/// Whether every operation of `S` is a function of its arguments: equal
/// arguments always give the same result.
pub open spec fn exact<S: Scalar>() -> bool {
    &&& fixed_zero::<S>()
    &&& fixed_one::<S>()
    &&& fixed_euler::<S>()
    &&& fixed_plus::<S>()
    &&& fixed_minus::<S>()
    &&& fixed_times::<S>()
    &&& fixed_over::<S>()
    &&& fixed_negated::<S>()
    &&& fixed_powf::<S>()
}

/// Whether the numbers are exact and every activation of type `A` is a
/// function of its argument as well: what a training step rests on.
pub open spec fn pure<S: Scalar, A: Activation<S>>() -> bool {
    exact::<S>() && fixed_eval::<S, A>()
}

/// Whether what the value of a node is made with is a function of its
/// arguments: the activation, `plus` and `times`.
pub open spec fn node_pure<S: Scalar, A: Activation<S>>() -> bool {
    fixed_eval::<S, A>() && fixed_plus::<S>() && fixed_times::<S>()
}

/// Whether what a forward pass is made with is a function of its arguments:
/// the value of a node, and `zero`, with which each weighted sum begins.
pub open spec fn forward_pure<S: Scalar, A: Activation<S>>() -> bool {
    node_pure::<S, A>() && fixed_zero::<S>()
}

/// Whether what `sigmoid` is made with is a function of its arguments.
pub open spec fn squash_exact<S: Scalar>() -> bool {
    &&& fixed_one::<S>()
    &&& fixed_euler::<S>()
    &&& fixed_negated::<S>()
    &&& fixed_powf::<S>()
    &&& fixed_plus::<S>()
    &&& fixed_over::<S>()
}

/// Whether what `sigmoid_slope` is made with is a function of its
/// arguments.
pub open spec fn slope_exact<S: Scalar>() -> bool {
    fixed_one::<S>() && fixed_minus::<S>() && fixed_times::<S>()
}

/// The sigmoid, with which training squashes every value it reads:
/// `1 / (1 + e^(-a))`.
pub open spec fn squashed<S: Scalar>(a: S) -> S {
    quotient(one::<S>(), sum(one::<S>(), power(euler::<S>(), negation(a))))
}

/// The value of a node: `(f(x) + transform) * factor`.
pub open spec fn forwarded<S: Scalar, A: Activation<S>>(f: A, x: S, transform: S, factor: S) -> S {
    product(sum(activated(f, x), transform), factor)
}

/// The slope of the sigmoid where it has the value `y`: `y * (1 - y)`.
pub open spec fn slope<S: Scalar>(y: S) -> S {
    product(y, difference(one::<S>(), y))
}

/// Computes `squashed(a)`.
pub fn sigmoid<S: Scalar>(a: S) -> (r: S)
    ensures
        squash_exact::<S>() ==> r == squashed(a),
{
    S::one().over(S::one().plus(S::euler().powf(a.negated())))
}

/// Computes `forwarded(f, x, transform, factor)`.
pub fn forw_calc<S: Scalar, A: Activation<S>>(activ_f: &A, weighted_sum: S, activ_transform: S, activ_v: S) -> (r: S)
    ensures
        node_pure::<S, A>() ==> r == forwarded(*activ_f, weighted_sum, activ_transform, activ_v),
{
    activ_f.eval(weighted_sum).plus(activ_transform).times(activ_v)
}

/// Computes `slope(y)`.
pub fn sigmoid_slope<S: Scalar>(y: S) -> (r: S)
    ensures
        slope_exact::<S>() ==> r == slope(y),
{
    y.times(S::one().minus(y))
}

} // verus!
