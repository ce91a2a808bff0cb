//! A feed-forward network with one hidden layer.

use vstd::prelude::*;
use crate::grid::{
    Grid, gives_one, gives_one_of_two, is_image, is_product, is_sum, law_image_is_determined,
    law_product_is_determined, law_sum_is_determined, lemma_product_of_borrowed,
};
use crate::mat::Mat;

verus! {

/// The state of the network: the input, the weights and biases of the two
/// layers, and the hidden activation that the last forward pass left.
pub struct Xor<T> {
    pub x: Mat<T>,
    pub w1: Mat<T>,
    pub b1: Mat<T>,
    pub w2: Mat<T>,
    pub b2: Mat<T>,
    pub a1: Mat<T>,
}

/// `out` is what one layer may make of `input`: the product of `input` and
/// `weights`, then the sum of that product and `bias`, then `squash` on each
/// element of the sum.
pub open spec fn is_layer<T, M: Fn(T, T) -> T, P: Fn(T, T) -> T, S: Fn(T) -> T>(
    input: Grid<T>,
    weights: Grid<T>,
    bias: Grid<T>,
    out: Grid<T>,
    zero: T,
    times: M,
    plus: P,
    squash: S,
) -> bool {
    exists|product: Grid<T>, shifted: Grid<T>|
        {
            &&& #[trigger] is_product(input, weights, product, zero, times, plus)
            &&& #[trigger] is_sum(product, bias, shifted, plus)
            &&& is_image(shifted, out, squash)
        }
}

/// Where the operations give one result each, a layer makes one output only of
/// its input: a forward pass is a function of the input and the parameters.
pub proof fn law_layer_is_determined<T, M: Fn(T, T) -> T, P: Fn(T, T) -> T, S: Fn(T) -> T>(
    input: Grid<T>,
    weights: Grid<T>,
    bias: Grid<T>,
    out1: Grid<T>,
    out2: Grid<T>,
    zero: T,
    times: M,
    plus: P,
    squash: S,
)
    requires
        is_layer(input, weights, bias, out1, zero, times, plus, squash),
        is_layer(input, weights, bias, out2, zero, times, plus, squash),
        gives_one_of_two(times),
        gives_one_of_two(plus),
        gives_one(squash),
    ensures
        out1 == out2,
{
    let (product1, shifted1) = choose|product: Grid<T>, shifted: Grid<T>|
        {
            &&& #[trigger] is_product(input, weights, product, zero, times, plus)
            &&& #[trigger] is_sum(product, bias, shifted, plus)
            &&& is_image(shifted, out1, squash)
        };
    let (product2, shifted2) = choose|product: Grid<T>, shifted: Grid<T>|
        {
            &&& #[trigger] is_product(input, weights, product, zero, times, plus)
            &&& #[trigger] is_sum(product, bias, shifted, plus)
            &&& is_image(shifted, out2, squash)
        };
    law_product_is_determined(input, weights, product1, product2, zero, times, plus);
    law_sum_is_determined(product1, bias, shifted1, shifted2, plus);
    law_image_is_determined(shifted1, out1, out2, squash);
}

impl<T: Copy> Xor<T> {
    /// The shapes fit: the input has as many columns as the first weights have
    /// rows, the hidden layer as many units as the second weights have rows, and
    /// each bias has the shape of the product that it is added to.
    pub open spec fn wired(self) -> bool {
        &&& self.x@.cols == self.w1@.rows
        &&& self.b1@.rows == self.x@.rows
        &&& self.b1@.cols == self.w1@.cols
        &&& self.w1@.cols == self.w2@.rows
        &&& self.b2@.rows == self.x@.rows
        &&& self.b2@.cols == self.w2@.cols
    }

    /// Whether the shapes fit, so that a forward pass can run.
    pub fn is_wired(&self) -> (ok: bool)
        ensures
            ok == self.wired(),
    {
        self.x.cols() == self.w1.rows() && self.b1.rows() == self.x.rows() && self.b1.cols()
            == self.w1.cols() && self.w1.cols() == self.w2.rows() && self.b2.rows()
            == self.x.rows() && self.b2.cols() == self.w2.cols()
    }

    /// One forward pass: the hidden layer on the input, then the output layer on
    /// the hidden activation. The hidden activation is kept in `a1`; the input,
    /// the weights and the biases stay as they are.
    pub fn forward<M: Fn(T, T) -> T, P: Fn(T, T) -> T, S: Fn(T) -> T>(
        &mut self,
        zero: T,
        times: M,
        plus: P,
        squash: S,
    ) -> (out: Mat<T>)
        requires
            old(self).wired(),
            forall|x: T, y: T| call_requires(times, (x, y)),
            forall|x: T, y: T| call_requires(plus, (x, y)),
            forall|x: T| call_requires(squash, (x,)),
        ensures
            final(self).x@ == old(self).x@,
            final(self).w1@ == old(self).w1@,
            final(self).b1@ == old(self).b1@,
            final(self).w2@ == old(self).w2@,
            final(self).b2@ == old(self).b2@,
            is_layer(
                old(self).x@,
                old(self).w1@,
                old(self).b1@,
                final(self).a1@,
                zero,
                times,
                plus,
                squash,
            ),
            is_layer(final(self).a1@, old(self).w2@, old(self).b2@, out@, zero, times, plus, squash),
            out@.rows == old(self).x@.rows,
            out@.cols == old(self).w2@.cols,
    {
        // Each bias has the shape of the product that it is added to, so the
        // product is no larger than a matrix that exists.
        let _ = self.b1.rows();
        let _ = self.b2.rows();

        self.a1 = self.x.dot(&self.w1, zero, &times, &plus).unwrap();
        let ghost product1 = self.a1@;
        self.a1 = self.a1.add(&self.b1, &plus).unwrap();
        let ghost shifted1 = self.a1@;
        self.a1 = self.a1.sigmoid(&squash).unwrap();
        proof {
            lemma_product_of_borrowed(old(self).x@, old(self).w1@, product1, zero, times, plus);
            assert(is_sum(product1, old(self).b1@, shifted1, plus));
            assert(is_image(shifted1, self.a1@, squash));
        }

        let mut a2 = self.a1.dot(&self.w2, zero, &times, &plus).unwrap();
        let ghost product2 = a2@;
        a2 = a2.add(&self.b2, &plus).unwrap();
        let ghost shifted2 = a2@;
        a2 = a2.sigmoid(&squash).unwrap();
        proof {
            lemma_product_of_borrowed(self.a1@, old(self).w2@, product2, zero, times, plus);
            assert(is_sum(product2, old(self).b2@, shifted2, plus));
            assert(is_image(shifted2, a2@, squash));
        }

        a2
    }
}

} // verus!
