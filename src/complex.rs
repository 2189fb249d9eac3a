//! Complex numbers over any number type.
use core::ops::Add;
use vstd::prelude::*;
use vstd::std_specs::ops::AddSpec;

verus! {

/// The complex number `real + imaginary * i`.
#[derive(Default, Debug, PartialEq, Copy, Clone)]
pub struct Complex<T> {
    pub real: T,
    pub imaginary: T,
}

impl<T> Complex<T> {
    /// `re + im * i`.
    pub fn new(re: T, im: T) -> (r: Self)
        ensures
            r.real == re,
            r.imaginary == im,
    {
        Complex { real: re, imaginary: im }
    }
}

impl<T: Add<T, Output = T>> Add for Complex<T> {
    type Output = Complex<T>;

    /// Adds the real parts and the imaginary parts.
    fn add(self, rhs: Self) -> (r: Self::Output) {
        Complex::new(self.real + rhs.real, self.imaginary + rhs.imaginary)
    }
}

impl<T: Add<T, Output = T>> vstd::std_specs::ops::AddSpecImpl for Complex<T> {
    open spec fn obeys_add_spec() -> bool {
        T::obeys_add_spec()
    }

    open spec fn add_req(self, rhs: Self) -> bool {
        self.real.add_req(rhs.real) && self.imaginary.add_req(rhs.imaginary)
    }

    open spec fn add_spec(self, rhs: Self) -> Self {
        Complex { real: self.real.add_spec(rhs.real), imaginary: self.imaginary.add_spec(rhs.imaginary) }
    }
}

impl<T> From<(T, T)> for Complex<T> {
    /// The pair `(real, imaginary)`.
    fn from(value: (T, T)) -> (r: Self) {
        Complex { real: value.0, imaginary: value.1 }
    }
}

impl<T> vstd::std_specs::convert::FromSpecImpl<(T, T)> for Complex<T> {
    open spec fn obeys_from_spec() -> bool {
        true
    }

    open spec fn from_spec(value: (T, T)) -> Self {
        Complex { real: value.0, imaginary: value.1 }
    }
}

} // verus!
