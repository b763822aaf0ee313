//! Sequential model composition.
//!
//! A model is an ordered sequence of layers plus one loss instance. The
//! forward pass pipes each layer's output into the next layer; the backward
//! pass starts from the loss gradient and pipes each layer's returned
//! input-gradient into the previous layer, in reverse order.

use vstd::prelude::*;

use crate::activation::ActivationFunction;
use crate::error::NnError;
use crate::layer::{grad_map, layer_bwd_ok, layer_fwd_ok, layer_out_spec, Layer};
use crate::loss::{mse_grad_fits, mse_grad_spec, MeanSquaredError};
use crate::matrix::{
    mat_mul_spec, mat_row_sum_spec, mat_transpose_spec, same_shape, Matrix,
};

verus! {

/// The input that reaches layer `k` when `x` is fed to layer zero.
pub open spec fn model_in_at<A: ActivationFunction>(
    layers: Seq<Layer<A>>,
    k: int,
    x: Seq<Seq<int>>,
) -> Seq<Seq<int>>
    decreases k,
{
    if k <= 0 {
        x
    } else {
        layer_out_spec::<A>(layers[k - 1].w@, layers[k - 1].b@, model_in_at(layers, k - 1, x))
    }
}

/// The first `k` layers accept `x` in sequence: shapes compose and every
/// intermediate value is representable.
pub open spec fn model_fwd_ok_upto<A: ActivationFunction>(
    layers: Seq<Layer<A>>,
    k: int,
    x: Seq<Seq<int>>,
) -> bool
    decreases k,
{
    if k <= 0 {
        true
    } else {
        model_fwd_ok_upto(layers, k - 1, x) && layer_fwd_ok(
            layers[k - 1].w@,
            layers[k - 1].b@,
            model_in_at(layers, k - 1, x),
        )
    }
}

/// A forward chain that succeeds up to `n` succeeds up to any prefix `j`.
pub proof fn lemma_fwd_ok_prefix<A: ActivationFunction>(
    layers: Seq<Layer<A>>,
    j: int,
    n: int,
    x: Seq<Seq<int>>,
)
    requires
        0 <= j <= n,
        model_fwd_ok_upto::<A>(layers, n, x),
    ensures
        model_fwd_ok_upto::<A>(layers, j, x),
    decreases n - j,
{
    if j < n {
        lemma_fwd_ok_prefix::<A>(layers, j, n - 1, x);
    }
}

/// The gradient fed into layer `k` by a backward pass that feeds `g0` into
/// the last layer; `ws` and `sts` are the layers' weights and stored
/// activation outputs. At `k == -1` this is the gradient the whole pass
/// returns with respect to the model input.
pub open spec fn grad_into_at<A: ActivationFunction>(
    ws: Seq<Seq<Seq<int>>>,
    sts: Seq<Seq<Seq<int>>>,
    g0: Seq<Seq<int>>,
    k: int,
) -> Seq<Seq<int>>
    decreases ws.len() - k,
{
    if k >= ws.len() - 1 {
        g0
    } else {
        mat_mul_spec(
            mat_transpose_spec(ws[k + 1]),
            grad_map::<A>(sts[k + 1], grad_into_at::<A>(ws, sts, g0, k + 1)),
        )
    }
}

/// Every layer's backward step accepts the gradient that reaches it: the
/// shapes match and every intermediate value is representable.
pub open spec fn bwd_all_ok<A: ActivationFunction>(
    ws: Seq<Seq<Seq<int>>>,
    sts: Seq<Seq<Seq<int>>>,
    xs: Seq<Seq<Seq<int>>>,
    g0: Seq<Seq<int>>,
) -> bool {
    forall|k: int|
        0 <= k < ws.len() ==> same_shape(#[trigger] grad_into_at::<A>(ws, sts, g0, k), sts[k])
            && layer_bwd_ok::<A>(ws[k], sts[k], xs[k], grad_into_at::<A>(ws, sts, g0, k))
}

/// An ordered sequence of layers plus one loss instance.
pub struct NeuralNetwork<A: ActivationFunction> {
    /// The layers, in forward application order.
    pub layers: Vec<Layer<A>>,
    /// The loss instance driving the backward pass.
    pub loss: MeanSquaredError,
}

impl<A: ActivationFunction> NeuralNetwork<A> {
    /// Every layer and the loss are well-formed.
    pub open spec fn wf(&self) -> bool {
        &&& forall|k: int| 0 <= k < self.layers@.len() ==> (#[trigger] self.layers@[k]).wf()
        &&& self.loss.wf()
    }

    /// The layers' weight views.
    pub open spec fn ws(&self) -> Seq<Seq<Seq<int>>> {
        Seq::new(self.layers@.len(), |k: int| self.layers@[k].w@)
    }

    /// The layers' stored activation outputs.
    pub open spec fn sts(&self) -> Seq<Seq<Seq<int>>> {
        Seq::new(self.layers@.len(), |k: int| self.layers@[k].act.stored().unwrap())
    }

    /// The layers' cached inputs.
    pub open spec fn xs(&self) -> Seq<Seq<Seq<int>>> {
        Seq::new(self.layers@.len(), |k: int| self.layers@[k].x_view().unwrap())
    }

    /// Every layer has been forwarded since construction.
    pub open spec fn all_forwarded(&self) -> bool {
        forall|k: int| 0 <= k < self.layers@.len() ==> (#[trigger] self.layers@[k]).x_view() is Some
    }

    /// A model from an already-wired layer sequence and a fresh loss.
    pub fn new(layers: Vec<Layer<A>>, loss: MeanSquaredError) -> (r: NeuralNetwork<A>)
        requires
            forall|k: int| 0 <= k < layers@.len() ==> (#[trigger] layers@[k]).wf(),
            loss.wf(),
        ensures
            r.wf(),
            r.layers == layers,
            r.loss == loss,
    {
        NeuralNetwork { layers, loss }
    }

    /// Applies each layer's forward pass in sequence order and returns the
    /// final layer's output. Succeeds exactly when the whole chain of
    /// shapes composes and every intermediate value is representable; the
    /// parameters are never changed.
    pub fn forward(&mut self, x: &Matrix) -> (r: Result<Matrix, NnError>)
        requires
            old(self).wf(),
        ensures
            final(self).wf(),
            final(self).layers@.len() == old(self).layers@.len(),
            final(self).loss == old(self).loss,
            forall|k: int|
                0 <= k < old(self).layers@.len() ==> (#[trigger] final(self).layers@[k]).w == old(
                    self,
                ).layers@[k].w && final(self).layers@[k].b == old(self).layers@[k].b,
            (r is Ok <==> model_fwd_ok_upto::<A>(
                old(self).layers@,
                old(self).layers@.len() as int,
                x@,
            )),
            match r {
                Ok(out) => {
                    &&& out@ == model_in_at::<A>(
                        old(self).layers@,
                        old(self).layers@.len() as int,
                        x@,
                    )
                    &&& forall|k: int|
                        0 <= k < old(self).layers@.len() ==> {
                            &&& (#[trigger] final(self).layers@[k]).x_view() == Some(
                                model_in_at::<A>(old(self).layers@, k, x@),
                            )
                            &&& final(self).layers@[k].act.stored() == Some(
                                model_in_at::<A>(old(self).layers@, k + 1, x@),
                            )
                            &&& final(self).layers@[k].dldw == old(self).layers@[k].dldw
                            &&& final(self).layers@[k].dldb == old(self).layers@[k].dldb
                        }
                },
                Err(e) => e == NnError::ShapeMismatch || e == NnError::Overflow,
            },
    {
        let ghost olds = old(self).layers@;
        let n = self.layers.len();
        let mut cur = x.duplicate();
        let mut k: usize = 0;
        while k < n
            invariant
                old(self).wf(),
                olds == old(self).layers@,
                n == self.layers@.len(),
                n == olds.len(),
                k <= n,
                self.loss == old(self).loss,
                forall|i: int| 0 <= i < n ==> (#[trigger] self.layers@[i]).wf(),
                forall|i: int| k <= i < n ==> #[trigger] self.layers@[i] == olds[i],
                forall|i: int|
                    0 <= i < n ==> (#[trigger] self.layers@[i]).w == olds[i].w
                        && self.layers@[i].b == olds[i].b,
                forall|i: int|
                    0 <= i < k ==> {
                        &&& (#[trigger] self.layers@[i]).x_view() == Some(
                            model_in_at::<A>(olds, i, x@),
                        )
                        &&& self.layers@[i].act.stored() == Some(model_in_at::<A>(olds, i + 1, x@))
                        &&& self.layers@[i].dldw == olds[i].dldw
                        &&& self.layers@[i].dldb == olds[i].dldb
                    },
                model_fwd_ok_upto::<A>(olds, k as int, x@),
                cur@ == model_in_at::<A>(olds, k as int, x@),
            decreases n - k,
        {
            let res = self.layers[k].forward(&cur);
            match res {
                Ok(m) => {
                    proof {
                        assert(model_in_at::<A>(olds, k as int + 1, x@) == layer_out_spec::<A>(
                            olds[k as int].w@,
                            olds[k as int].b@,
                            model_in_at::<A>(olds, k as int, x@),
                        ));
                        assert(model_fwd_ok_upto::<A>(olds, k as int + 1, x@));
                    }
                    cur = m;
                    k += 1;
                },
                Err(e) => {
                    proof {
                        if model_fwd_ok_upto::<A>(olds, n as int, x@) {
                            lemma_fwd_ok_prefix::<A>(olds, k as int + 1, n as int, x@);
                            assert(layer_fwd_ok(
                                olds[k as int].w@,
                                olds[k as int].b@,
                                model_in_at::<A>(olds, k as int, x@),
                            ));
                            assert(false);
                        }
                    }
                    return Err(e);
                },
            }
        }
        Ok(cur)
    }

    /// Obtains the initial gradient from the loss, then applies each
    /// layer's backward pass in reverse order, and returns the gradient
    /// with respect to the model input. Succeeds exactly when the loss has
    /// a stored pair whose gradient is representable, every layer has been
    /// forwarded, and the whole reverse chain of shapes composes with every
    /// intermediate value representable. Parameters and forward caches are
    /// never changed; on success every layer holds its parameter gradients.
    pub fn backward(&mut self) -> (r: Result<Matrix, NnError>)
        requires
            old(self).wf(),
        ensures
            final(self).wf(),
            final(self).layers@.len() == old(self).layers@.len(),
            final(self).loss == old(self).loss,
            forall|k: int|
                0 <= k < old(self).layers@.len() ==> {
                    &&& (#[trigger] final(self).layers@[k]).w == old(self).layers@[k].w
                    &&& final(self).layers@[k].b == old(self).layers@[k].b
                    &&& final(self).layers@[k].x == old(self).layers@[k].x
                    &&& final(self).layers@[k].z == old(self).layers@[k].z
                    &&& final(self).layers@[k].act == old(self).layers@[k].act
                },
            old(self).loss.cache_view() is None ==> r == Err::<Matrix, NnError>(
                NnError::NotForwarded,
            ),
            (r is Ok <==> old(self).loss.cache_view() is Some && mse_grad_fits(
                old(self).loss.cache_view().unwrap().0,
                old(self).loss.cache_view().unwrap().1,
            ) && old(self).all_forwarded() && bwd_all_ok::<A>(
                old(self).ws(),
                old(self).sts(),
                old(self).xs(),
                mse_grad_spec(
                    old(self).loss.cache_view().unwrap().0,
                    old(self).loss.cache_view().unwrap().1,
                ),
            )),
            match r {
                Ok(m) => {
                    &&& m@ == grad_into_at::<A>(
                        old(self).ws(),
                        old(self).sts(),
                        mse_grad_spec(
                            old(self).loss.cache_view().unwrap().0,
                            old(self).loss.cache_view().unwrap().1,
                        ),
                        -1,
                    )
                    &&& forall|k: int|
                        0 <= k < old(self).layers@.len() ==> {
                            &&& (#[trigger] final(self).layers@[k]).dldw_view() == Some(
                                mat_mul_spec(
                                    grad_map::<A>(
                                        old(self).sts()[k],
                                        grad_into_at::<A>(
                                            old(self).ws(),
                                            old(self).sts(),
                                            mse_grad_spec(
                                                old(self).loss.cache_view().unwrap().0,
                                                old(self).loss.cache_view().unwrap().1,
                                            ),
                                            k,
                                        ),
                                    ),
                                    mat_transpose_spec(old(self).xs()[k]),
                                ),
                            )
                            &&& final(self).layers@[k].dldb_view() == Some(
                                mat_row_sum_spec(
                                    grad_map::<A>(
                                        old(self).sts()[k],
                                        grad_into_at::<A>(
                                            old(self).ws(),
                                            old(self).sts(),
                                            mse_grad_spec(
                                                old(self).loss.cache_view().unwrap().0,
                                                old(self).loss.cache_view().unwrap().1,
                                            ),
                                            k,
                                        ),
                                    ),
                                ),
                            )
                        }
                },
                Err(_) => true,
            },
    {
        let ghost olds = old(self).layers@;
        let ghost ws = old(self).ws();
        let ghost sts = old(self).sts();
        let ghost xs = old(self).xs();
        let mut g = match self.loss.backward() {
            Ok(m) => m,
            Err(e) => {
                return Err(e);
            },
        };
        let ghost g0 = g@;
        let n = self.layers.len();
        let mut k: usize = n;
        while k > 0
            invariant
                old(self).wf(),
                olds == old(self).layers@,
                n == self.layers@.len(),
                n == olds.len(),
                k <= n,
                ws == old(self).ws(),
                sts == old(self).sts(),
                xs == old(self).xs(),
                g0 == mse_grad_spec(
                    old(self).loss.cache_view().unwrap().0,
                    old(self).loss.cache_view().unwrap().1,
                ),
                old(self).loss.cache_view() is Some,
                mse_grad_fits(
                    old(self).loss.cache_view().unwrap().0,
                    old(self).loss.cache_view().unwrap().1,
                ),
                self.loss == old(self).loss,
                forall|i: int| 0 <= i < n ==> (#[trigger] self.layers@[i]).wf(),
                forall|i: int|
                    0 <= i < n ==> {
                        &&& (#[trigger] self.layers@[i]).w == olds[i].w
                        &&& self.layers@[i].b == olds[i].b
                        &&& self.layers@[i].x == olds[i].x
                        &&& self.layers@[i].z == olds[i].z
                        &&& self.layers@[i].act == olds[i].act
                    },
                forall|i: int|
                    0 <= i < k ==> (#[trigger] self.layers@[i]).dldw == olds[i].dldw
                        && self.layers@[i].dldb == olds[i].dldb,
                forall|i: int|
                    k <= i < n ==> {
                        &&& (#[trigger] olds[i]).x_view() is Some
                        &&& same_shape(grad_into_at::<A>(ws, sts, g0, i), sts[i])
                        &&& layer_bwd_ok::<A>(ws[i], sts[i], xs[i], grad_into_at::<A>(ws, sts, g0, i))
                        &&& self.layers@[i].dldw_view() == Some(
                            mat_mul_spec(
                                grad_map::<A>(sts[i], grad_into_at::<A>(ws, sts, g0, i)),
                                mat_transpose_spec(xs[i]),
                            ),
                        )
                        &&& self.layers@[i].dldb_view() == Some(
                            mat_row_sum_spec(
                                grad_map::<A>(sts[i], grad_into_at::<A>(ws, sts, g0, i)),
                            ),
                        )
                    },
                g@ == grad_into_at::<A>(ws, sts, g0, k as int - 1),
            decreases k,
        {
            k -= 1;
            let res = self.layers[k].backward(&g);
            match res {
                Ok(m) => {
                    proof {
                        assert(olds[k as int].act.stored() == Some(sts[k as int]));
                        assert(olds[k as int].x_view() == Some(xs[k as int]));
                        assert(grad_into_at::<A>(ws, sts, g0, k as int - 1) == mat_mul_spec(
                            mat_transpose_spec(ws[k as int]),
                            grad_map::<A>(sts[k as int], grad_into_at::<A>(ws, sts, g0, k as int)),
                        ));
                    }
                    g = m;
                },
                Err(e) => {
                    proof {
                        assert(!(old(self).all_forwarded() && bwd_all_ok::<A>(ws, sts, xs, g0)))
                            by {
                            if old(self).all_forwarded() && bwd_all_ok::<A>(ws, sts, xs, g0) {
                                assert(same_shape(grad_into_at::<A>(ws, sts, g0, k as int), sts[
                                k as int]) && layer_bwd_ok::<A>(
                                    ws[k as int],
                                    sts[k as int],
                                    xs[k as int],
                                    grad_into_at::<A>(ws, sts, g0, k as int),
                                ));
                                assert(false);
                            }
                        }
                    }
                    return Err(e);
                },
            }
        }
        Ok(g)
    }
}

} // verus!
