//! The quorum: which share of the inputs must agree on a value.

use crate::error::DiffError;
use vstd::prelude::*;

verus! {

/// A fraction above zero and at most one, as numerator over denominator.
#[derive(Clone, Copy, Debug)]
pub struct Quorum {
    numerator: u64,
    denominator: u64,
}

/// The least whole number that is at least `numerator * inputs / denominator`:
/// how many of `inputs` inputs must agree.
pub open spec fn quorum_count(numerator: nat, denominator: nat, inputs: nat) -> nat {
    ((numerator * inputs + denominator - 1) / (denominator as int)) as nat
}

/// `quorum_count` is the ceiling of the product of the fraction and the
/// number of inputs, and lies between one and that number when there are
/// inputs.
pub proof fn lemma_quorum_count_is_ceiling(numerator: nat, denominator: nat, inputs: nat)
    requires
        0 < numerator <= denominator,
    ensures
        quorum_count(numerator, denominator, inputs) * denominator >= numerator * inputs,
        quorum_count(numerator, denominator, inputs) * denominator < numerator * inputs
            + denominator,
        quorum_count(numerator, denominator, inputs) <= inputs,
        inputs > 0 ==> quorum_count(numerator, denominator, inputs) >= 1,
{
    let p = numerator * inputs;
    let d = denominator as int;
    let c = (p + d - 1) / d;
    assert(p >= 0) by (nonlinear_arith)
        requires
            p == numerator * inputs,
    ;
    assert(c * d <= p + d - 1 < c * d + d) by (nonlinear_arith)
        requires
            d > 0,
            c == (p + d - 1) / d,
    ;
    assert(c >= 0) by (nonlinear_arith)
        requires
            d > 0,
            p + d - 1 < c * d + d,
            p >= 0,
    ;
    assert(p <= d * inputs) by (nonlinear_arith)
        requires
            p == numerator * inputs,
            numerator <= d,
    ;
    assert(c <= inputs) by (nonlinear_arith)
        requires
            d > 0,
            c * d <= p + d - 1,
            p <= d * inputs,
    ;
    if inputs > 0 {
        assert(p >= 1) by (nonlinear_arith)
            requires
                p == numerator * inputs,
                numerator >= 1,
                inputs >= 1,
        ;
        assert(c >= 1) by (nonlinear_arith)
            requires
                d > 0,
                p + d - 1 < c * d + d,
                p >= 1,
        ;
    }
}

/// With the whole as quorum, every input must agree.
pub proof fn lemma_full_quorum_counts_all(denominator: nat, inputs: nat)
    requires
        0 < denominator,
    ensures
        quorum_count(denominator, denominator, inputs) == inputs,
{
    let d = denominator as int;
    let p = denominator * inputs;
    let c = (p + d - 1) / d;
    assert(c == inputs) by (nonlinear_arith)
        requires
            d > 0,
            p == d * inputs,
            c == (p + d - 1) / d,
    ;
}

impl Quorum {
    /// The numerator of the fraction.
    pub closed spec fn numerator(&self) -> nat {
        self.numerator as nat
    }

    /// The denominator of the fraction.
    pub closed spec fn denominator(&self) -> nat {
        self.denominator as nat
    }

    #[verifier::type_invariant]
    pub closed spec fn valid(&self) -> bool {
        0 < self.numerator <= self.denominator
    }

    /// How many of `inputs` inputs must agree under this quorum.
    pub open spec fn count(&self, inputs: nat) -> nat {
        quorum_count(self.numerator(), self.denominator(), inputs)
    }

    /// The quorum `numerator / denominator`. It is refused unless it lies
    /// above zero and at most at one.
    pub fn new(numerator: u64, denominator: u64) -> (r: Result<Quorum, DiffError>)
        ensures
            match r {
                Ok(q) => 0 < numerator <= denominator && q.valid() && q.numerator() == numerator
                    && q.denominator() == denominator,
                Err(e) => e == DiffError::InvalidArgument && !(0 < numerator <= denominator),
            },
    {
        if numerator == 0 || numerator > denominator {
            Err(DiffError::InvalidArgument)
        } else {
            Ok(Quorum { numerator, denominator })
        }
    }

    /// How many of `inputs` inputs must agree under this quorum.
    pub fn count_for(&self, inputs: usize) -> (c: usize)
        ensures
            c == self.count(inputs as nat),
            c <= inputs,
            inputs > 0 ==> c >= 1,
    {
        proof {
            use_type_invariant(self);
            lemma_quorum_count_is_ceiling(self.numerator(), self.denominator(), inputs as nat);
        }
        let n: u128 = inputs as u128;
        let num: u128 = self.numerator as u128;
        let den: u128 = self.denominator as u128;
        assert(num * n <= 0xffff_ffff_ffff_ffff * 0xffff_ffff_ffff_ffff) by (nonlinear_arith)
            requires
                0 <= num <= 0xffff_ffff_ffff_ffff,
                0 <= n <= 0xffff_ffff_ffff_ffff,
        ;
        let c: u128 = (num * n + den - 1) / den;
        c as usize
    }
}

} // verus!
