use neural::math::{forw_calc, sigmoid, sigmoid_slope, Activation, Scalar};

#[derive(Clone, Copy, Debug, PartialEq)]
struct Float(f32);

impl Scalar for Float {
    fn zero() -> Self {
        Float(0.0)
    }

    fn one() -> Self {
        Float(1.0)
    }

    fn euler() -> Self {
        Float(std::f32::consts::E)
    }

    fn plus(self, rhs: Self) -> Self {
        Float(self.0 + rhs.0)
    }

    fn minus(self, rhs: Self) -> Self {
        Float(self.0 - rhs.0)
    }

    fn times(self, rhs: Self) -> Self {
        Float(self.0 * rhs.0)
    }

    fn over(self, rhs: Self) -> Self {
        Float(self.0 / rhs.0)
    }

    fn negated(self) -> Self {
        Float(-self.0)
    }

    fn powf(self, exponent: Self) -> Self {
        Float(self.0.powf(exponent.0))
    }
}

#[derive(Clone, Copy)]
struct Square;

impl Activation<Float> for Square {
    fn eval(&self, x: Float) -> Float {
        Float(x.0 * x.0)
    }
}

#[test]
fn sigmoid_of_zero_is_a_half() {
    assert_eq!(sigmoid(Float(0.0)), Float(0.5));
}

#[test]
fn sigmoid_is_one_over_one_plus_a_power_of_e() {
    for x in [-2.5f32, -1.0, 0.5, 1.0, 3.0] {
        assert_eq!(sigmoid(Float(x)), Float(1.0 / (1.0 + std::f32::consts::E.powf(-x))));
    }
    assert!(sigmoid(Float(1.0)).0 > 0.731 && sigmoid(Float(1.0)).0 < 0.7311);
    assert!(sigmoid(Float(-1.0)).0 > 0.2689 && sigmoid(Float(-1.0)).0 < 0.269);
}

#[test]
fn sigmoid_stays_between_zero_and_one() {
    assert_eq!(sigmoid(Float(-1000.0)), Float(0.0));
    assert_eq!(sigmoid(Float(1000.0)), Float(1.0));
    for x in [-20.0f32, -3.0, -0.1, 0.1, 3.0, 20.0] {
        let y = sigmoid(Float(x)).0;
        assert!(0.0 < y && y <= 1.0);
    }
}

#[test]
fn sigmoid_rises() {
    let mut last = 0.0f32;
    for x in [-4.0f32, -2.0, -1.0, 0.0, 1.0, 2.0, 4.0] {
        let y = sigmoid(Float(x)).0;
        assert!(y > last);
        last = y;
    }
}

#[test]
fn sigmoid_slope_is_y_times_one_minus_y() {
    assert_eq!(sigmoid_slope(Float(2.0)), Float(-2.0));
    assert_eq!(sigmoid_slope(Float(0.5)), Float(0.25));
    assert_eq!(sigmoid_slope(Float(1.0)), Float(0.0));
}

#[test]
fn forw_calc_adds_then_scales() {
    // (3 * 3 + 1) * 0.5
    assert_eq!(forw_calc(&Square, Float(3.0), Float(1.0), Float(0.5)), Float(5.0));
    assert_eq!(forw_calc(&Square, Float(-2.0), Float(0.0), Float(1.0)), Float(4.0));
}
