//! Stochastic gradient descent, with optional momentum.
//!
//! One `update` call is a single atomic training step: a forward pass, a
//! loss evaluation, a backward pass, and one in-place parameter update per
//! layer. With `mu == 0` each parameter moves by `-lr` times its gradient;
//! with `mu > 0` a persistent velocity accumulates `mu` times itself plus
//! the gradient (heavy-ball momentum), and the parameter moves by `-lr`
//! times the velocity. A step that fails leaves every parameter and every
//! velocity unchanged.

use vstd::prelude::*;

use crate::activation::ActivationFunction;
use crate::error::NnError;
use crate::fx::{SCALE, UNIT_BOUND};
use crate::layer::{grad_map, Layer};
use crate::loss::{mse_fits, mse_grad_fits, mse_grad_spec};
use crate::matrix::{
    add_fits, mat_add_spec, mat_mul_spec, mat_row_sum_spec, mat_scale_spec, mat_sub_spec,
    mat_transpose_spec, same_shape, scale_fits, sub_fits, Matrix,
};
use crate::model::{
    bwd_all_ok, grad_into_at, model_fwd_ok_upto, model_in_at, NeuralNetwork,
};

verus! {

/// The layers' weight views.
pub open spec fn pass_ws<A: ActivationFunction>(olds: Seq<Layer<A>>) -> Seq<Seq<Seq<int>>> {
    Seq::new(olds.len(), |k: int| olds[k].w@)
}

/// The activation outputs a forward pass on `x` stores in each layer.
pub open spec fn pass_sts<A: ActivationFunction>(olds: Seq<Layer<A>>, x: Seq<Seq<int>>) -> Seq<
    Seq<Seq<int>>,
> {
    Seq::new(olds.len(), |k: int| model_in_at::<A>(olds, k + 1, x))
}

/// The inputs a forward pass on `x` hands to each layer.
pub open spec fn pass_xs<A: ActivationFunction>(olds: Seq<Layer<A>>, x: Seq<Seq<int>>) -> Seq<
    Seq<Seq<int>>,
> {
    Seq::new(olds.len(), |k: int| model_in_at::<A>(olds, k, x))
}

/// The model's prediction for `x`.
pub open spec fn pass_pred<A: ActivationFunction>(olds: Seq<Layer<A>>, x: Seq<Seq<int>>) -> Seq<
    Seq<int>,
> {
    model_in_at::<A>(olds, olds.len() as int, x)
}

/// The loss gradient that starts the backward pass for the pair `(x, y)`.
pub open spec fn pass_g0<A: ActivationFunction>(
    olds: Seq<Layer<A>>,
    x: Seq<Seq<int>>,
    y: Seq<Seq<int>>,
) -> Seq<Seq<int>> {
    mse_grad_spec(pass_pred::<A>(olds, x), y)
}

/// The gradient the backward pass feeds into layer `k`.
pub open spec fn pass_gin<A: ActivationFunction>(
    olds: Seq<Layer<A>>,
    x: Seq<Seq<int>>,
    y: Seq<Seq<int>>,
    k: int,
) -> Seq<Seq<int>> {
    grad_into_at::<A>(pass_ws::<A>(olds), pass_sts::<A>(olds, x), pass_g0::<A>(olds, x, y), k)
}

/// The weight gradient one training step on `(x, y)` computes for layer
/// `k`: `dLdZ · Xᵗ`.
pub open spec fn pass_gw<A: ActivationFunction>(
    olds: Seq<Layer<A>>,
    x: Seq<Seq<int>>,
    y: Seq<Seq<int>>,
    k: int,
) -> Seq<Seq<int>> {
    mat_mul_spec(
        grad_map::<A>(pass_sts::<A>(olds, x)[k], pass_gin::<A>(olds, x, y, k)),
        mat_transpose_spec(pass_xs::<A>(olds, x)[k]),
    )
}

/// The bias gradient one training step on `(x, y)` computes for layer `k`:
/// the row sums of `dLdZ`.
pub open spec fn pass_gb<A: ActivationFunction>(
    olds: Seq<Layer<A>>,
    x: Seq<Seq<int>>,
    y: Seq<Seq<int>>,
    k: int,
) -> Seq<Seq<int>> {
    mat_row_sum_spec(grad_map::<A>(pass_sts::<A>(olds, x)[k], pass_gin::<A>(olds, x, y, k)))
}

/// The velocity after one momentum step: `mu` times the old velocity plus
/// the fresh gradient.
pub open spec fn new_velocity(mu: int, v: Seq<Seq<int>>, g: Seq<Seq<int>>) -> Seq<Seq<int>> {
    mat_add_spec(mat_scale_spec(mu, v), g)
}

/// A parameter after one plain step: the parameter minus `lr` times the
/// gradient.
pub open spec fn plain_step(lr: int, p: Seq<Seq<int>>, g: Seq<Seq<int>>) -> Seq<Seq<int>> {
    mat_sub_spec(p, mat_scale_spec(lr, g))
}

/// Every value of a plain step is representable.
pub open spec fn plain_step_fits(lr: int, p: Seq<Seq<int>>, g: Seq<Seq<int>>) -> bool {
    scale_fits(lr, g) && sub_fits(p, mat_scale_spec(lr, g))
}

/// Every value of a momentum step is representable.
pub open spec fn momentum_step_fits(
    lr: int,
    mu: int,
    p: Seq<Seq<int>>,
    v: Seq<Seq<int>>,
    g: Seq<Seq<int>>,
) -> bool {
    &&& scale_fits(mu, v)
    &&& add_fits(mat_scale_spec(mu, v), g)
    &&& scale_fits(lr, new_velocity(mu, v, g))
    &&& sub_fits(p, mat_scale_spec(lr, new_velocity(mu, v, g)))
}

/// The parameter step of layer `k` is representable, in whichever mode
/// `mu` selects.
pub open spec fn step_fits_at<A: ActivationFunction>(
    olds: Seq<Layer<A>>,
    vws: Seq<Seq<Seq<int>>>,
    vbs: Seq<Seq<Seq<int>>>,
    lr: int,
    mu: int,
    x: Seq<Seq<int>>,
    y: Seq<Seq<int>>,
    k: int,
) -> bool {
    if mu == 0 {
        plain_step_fits(lr, olds[k].w@, pass_gw::<A>(olds, x, y, k)) && plain_step_fits(
            lr,
            olds[k].b@,
            pass_gb::<A>(olds, x, y, k),
        )
    } else {
        momentum_step_fits(lr, mu, olds[k].w@, vws[k], pass_gw::<A>(olds, x, y, k))
            && momentum_step_fits(lr, mu, olds[k].b@, vbs[k], pass_gb::<A>(olds, x, y, k))
    }
}

/// One whole training step on `(x, y)` succeeds: the forward chain, the
/// loss, the backward chain, and every per-layer parameter step are
/// representable.
pub open spec fn update_ok<A: ActivationFunction>(
    olds: Seq<Layer<A>>,
    vws: Seq<Seq<Seq<int>>>,
    vbs: Seq<Seq<Seq<int>>>,
    lr: int,
    mu: int,
    x: Seq<Seq<int>>,
    y: Seq<Seq<int>>,
) -> bool {
    &&& model_fwd_ok_upto::<A>(olds, olds.len() as int, x)
    &&& same_shape(pass_pred::<A>(olds, x), y)
    &&& mse_fits(pass_pred::<A>(olds, x), y)
    &&& mse_grad_fits(pass_pred::<A>(olds, x), y)
    &&& bwd_all_ok::<A>(pass_ws::<A>(olds), pass_sts::<A>(olds, x), pass_xs::<A>(olds, x), pass_g0::<A>(olds, x, y))
    &&& forall|k: int|
        0 <= k < olds.len() ==> #[trigger] step_fits_at::<A>(olds, vws, vbs, lr, mu, x, y, k)
}

/// Every entry of the grid is zero.
pub open spec fn all_zero(s: Seq<Seq<int>>) -> bool {
    forall|i: int, j: int| 0 <= i < s.len() && 0 <= j < s[i].len() ==> #[trigger] s[i][j] == 0
}

/// The stochastic gradient descent optimizer.
pub struct SGD<A: ActivationFunction> {
    /// The model whose parameters this optimizer owns and updates.
    pub model: NeuralNetwork<A>,
    /// Learning rate, in units; positive.
    pub lr: i64,
    /// Momentum coefficient, in units; zero disables momentum.
    pub mu: i64,
    /// Per-layer weight velocities, co-indexed with the layers.
    pub v_w: Vec<Matrix>,
    /// Per-layer bias velocities, co-indexed with the layers.
    pub v_b: Vec<Matrix>,
}

impl<A: ActivationFunction> SGD<A> {
    /// The weight-velocity views.
    pub open spec fn vw_views(&self) -> Seq<Seq<Seq<int>>> {
        Seq::new(self.v_w@.len(), |k: int| self.v_w@[k]@)
    }

    /// The bias-velocity views.
    pub open spec fn vb_views(&self) -> Seq<Seq<Seq<int>>> {
        Seq::new(self.v_b@.len(), |k: int| self.v_b@[k]@)
    }

    /// The model is well-formed, the hyperparameters are in range, and one
    /// velocity pair of matching shape exists per layer.
    pub open spec fn wf(&self) -> bool {
        &&& self.model.wf()
        &&& 0 < self.lr <= UNIT_BOUND
        &&& 0 <= self.mu < SCALE
        &&& self.v_w@.len() == self.model.layers@.len()
        &&& self.v_b@.len() == self.model.layers@.len()
        &&& forall|k: int|
            0 <= k < self.model.layers@.len() ==> (#[trigger] self.v_w@[k])@.len()
                == self.model.layers@[k].w@.len() && self.v_w@[k]@[0].len()
                == self.model.layers@[k].w@[0].len() && self.v_b@[k]@.len()
                == self.model.layers@[k].b@.len() && self.v_b@[k]@[0].len() == 1
    }

    /// A new optimizer that owns the model, with every velocity zero.
    pub fn new(model: NeuralNetwork<A>, lr: i64, mu: i64) -> (r: SGD<A>)
        requires
            model.wf(),
            0 < lr <= UNIT_BOUND,
            0 <= mu < SCALE,
        ensures
            r.wf(),
            r.model == model,
            r.lr == lr,
            r.mu == mu,
            forall|k: int|
                0 <= k < model.layers@.len() ==> all_zero(#[trigger] r.vw_views()[k]) && all_zero(
                    r.vb_views()[k],
                ),
    {
        let n = model.layers.len();
        let mut v_w: Vec<Matrix> = Vec::new();
        let mut v_b: Vec<Matrix> = Vec::new();
        let mut k: usize = 0;
        while k < n
            invariant
                model.wf(),
                n == model.layers@.len(),
                k <= n,
                v_w@.len() == k,
                v_b@.len() == k,
                forall|i: int|
                    0 <= i < k ==> (#[trigger] v_w@[i])@.len() == model.layers@[i].w@.len()
                        && v_w@[i]@[0].len() == model.layers@[i].w@[0].len() && v_b@[i]@.len()
                        == model.layers@[i].b@.len() && v_b@[i]@[0].len() == 1 && all_zero(
                        v_w@[i]@,
                    ) && all_zero(v_b@[i]@),
            decreases n - k,
        {
            let lay = &model.layers[k];
            proof {
                use_type_invariant(&lay.w);
                lay.w.lemma_shape();
                lay.w.lemma_data_len();
                use_type_invariant(&lay.b);
                lay.b.lemma_shape();
                lay.b.lemma_data_len();
            }
            let zw = Matrix::zeros(lay.w.nrows(), lay.w.ncols());
            let zb = Matrix::zeros(lay.b.nrows(), lay.b.ncols());
            v_w.push(zw);
            v_b.push(zb);
            k += 1;
        }
        SGD { model, lr, mu, v_w, v_b }
    }

    /// One atomic training step on `(x, y)`: forward pass, loss
    /// evaluation, backward pass, then one parameter update per layer.
    /// With `mu == 0` each parameter moves by `-lr` times its gradient and
    /// the velocities are never touched; otherwise each velocity becomes
    /// `mu` times itself plus the gradient and the parameter moves by `-lr`
    /// times the new velocity. Succeeds exactly when every stage is
    /// representable; on failure no parameter and no velocity has changed.
    #[verifier::rlimit(100)]
    pub fn update(&mut self, x: &Matrix, y: &Matrix) -> (r: Result<(), NnError>)
        requires
            old(self).wf(),
        ensures
            final(self).wf(),
            final(self).lr == old(self).lr,
            final(self).mu == old(self).mu,
            final(self).model.layers@.len() == old(self).model.layers@.len(),
            (r is Ok <==> update_ok::<A>(
                old(self).model.layers@,
                old(self).vw_views(),
                old(self).vb_views(),
                old(self).lr as int,
                old(self).mu as int,
                x@,
                y@,
            )),
            match r {
                Ok(()) => forall|k: int|
                    0 <= k < old(self).model.layers@.len() ==> {
                        let gw = #[trigger] pass_gw::<A>(old(self).model.layers@, x@, y@, k);
                        let gb = pass_gb::<A>(old(self).model.layers@, x@, y@, k);
                        if old(self).mu == 0 {
                            &&& final(self).model.layers@[k].w@ == plain_step(
                                old(self).lr as int,
                                old(self).model.layers@[k].w@,
                                gw,
                            )
                            &&& final(self).model.layers@[k].b@ == plain_step(
                                old(self).lr as int,
                                old(self).model.layers@[k].b@,
                                gb,
                            )
                            &&& final(self).v_w@[k] == old(self).v_w@[k]
                            &&& final(self).v_b@[k] == old(self).v_b@[k]
                        } else {
                            &&& final(self).vw_views()[k] == new_velocity(
                                old(self).mu as int,
                                old(self).vw_views()[k],
                                gw,
                            )
                            &&& final(self).vb_views()[k] == new_velocity(
                                old(self).mu as int,
                                old(self).vb_views()[k],
                                gb,
                            )
                            &&& final(self).model.layers@[k].w@ == mat_sub_spec(
                                old(self).model.layers@[k].w@,
                                mat_scale_spec(
                                    old(self).lr as int,
                                    new_velocity(old(self).mu as int, old(self).vw_views()[k], gw),
                                ),
                            )
                            &&& final(self).model.layers@[k].b@ == mat_sub_spec(
                                old(self).model.layers@[k].b@,
                                mat_scale_spec(
                                    old(self).lr as int,
                                    new_velocity(old(self).mu as int, old(self).vb_views()[k], gb),
                                ),
                            )
                        }
                    },
                Err(_) => {
                    &&& forall|k: int|
                        0 <= k < old(self).model.layers@.len()
                            ==> (#[trigger] final(self).model.layers@[k]).w
                            == old(self).model.layers@[k].w
                            && final(self).model.layers@[k].b == old(self).model.layers@[k].b
                    &&& final(self).v_w == old(self).v_w
                    &&& final(self).v_b == old(self).v_b
                },
            },
    {
        let ghost olds = old(self).model.layers@;
        let ghost vws = old(self).vw_views();
        let ghost vbs = old(self).vb_views();
        let ghost lri = old(self).lr as int;
        let ghost mui = old(self).mu as int;
        let pred = match self.model.forward(x) {
            Ok(p) => p,
            Err(e) => {
                return Err(e);
            },
        };
        let _lossv = match self.model.loss.forward(&pred, y) {
            Ok(v) => v,
            Err(e) => {
                return Err(e);
            },
        };
        let ghost s1 = *self;
        proof {
            assert(s1.model.ws() =~~= pass_ws::<A>(olds));
            assert(s1.model.sts() =~~= pass_sts::<A>(olds, x@));
            assert(s1.model.xs() =~~= pass_xs::<A>(olds, x@));
        }
        let _dldx = match self.model.backward() {
            Ok(m) => m,
            Err(e) => {
                proof {
                    assert(!update_ok::<A>(olds, vws, vbs, lri, mui, x@, y@));
                }
                return Err(e);
            },
        };
        proof {
            assert forall|k: int| 0 <= k < olds.len() implies (#[trigger] self.model.layers@[k]).dldw_view()
                == Some(pass_gw::<A>(olds, x@, y@, k)) && self.model.layers@[k].dldb_view()
                == Some(pass_gb::<A>(olds, x@, y@, k)) by {
                assert(self.model.layers@[k].dldw_view() == Some(
                    mat_mul_spec(
                        grad_map::<A>(
                            s1.model.sts()[k],
                            grad_into_at::<A>(
                                s1.model.ws(),
                                s1.model.sts(),
                                mse_grad_spec(
                                    s1.model.loss.cache_view().unwrap().0,
                                    s1.model.loss.cache_view().unwrap().1,
                                ),
                                k,
                            ),
                        ),
                        mat_transpose_spec(s1.model.xs()[k]),
                    ),
                ));
            }
        }
        let mu_zero = self.mu == 0;
        let n = self.model.layers.len();
        let mut new_ws: Vec<Matrix> = Vec::new();
        let mut new_bs: Vec<Matrix> = Vec::new();
        let mut new_vws: Vec<Matrix> = Vec::new();
        let mut new_vbs: Vec<Matrix> = Vec::new();
        let mut k: usize = 0;
        while k < n
            invariant
                old(self).wf(),
                olds == old(self).model.layers@,
                vws == old(self).vw_views(),
                vbs == old(self).vb_views(),
                lri == old(self).lr as int,
                mui == old(self).mu as int,
                self.lr == old(self).lr,
                self.mu == old(self).mu,
                mu_zero == (mui == 0),
                n == self.model.layers@.len(),
                n == olds.len(),
                k <= n,
                self.model.wf(),
                self.v_w == old(self).v_w,
                self.v_b == old(self).v_b,
                self.v_w@.len() == n,
                self.v_b@.len() == n,
                forall|i: int|
                    0 <= i < n ==> (#[trigger] self.model.layers@[i]).w == olds[i].w && self.model.layers@[i].b
                        == olds[i].b,
                forall|i: int|
                    0 <= i < n ==> (#[trigger] self.model.layers@[i]).dldw_view() == Some(
                        pass_gw::<A>(olds, x@, y@, i),
                    ) && self.model.layers@[i].dldb_view() == Some(pass_gb::<A>(olds, x@, y@, i)),
                forall|i: int|
                    0 <= i < n ==> (#[trigger] vws[i]).len() == olds[i].w@.len() && vws[i][0].len()
                        == olds[i].w@[0].len() && vbs[i].len() == olds[i].b@.len()
                        && vbs[i][0].len() == 1,
                new_ws@.len() == k,
                new_bs@.len() == k,
                new_vws@.len() == (if mu_zero { 0int } else { k as int }),
                new_vbs@.len() == (if mu_zero { 0int } else { k as int }),
                forall|i: int|
                    0 <= i < k ==> #[trigger] step_fits_at::<A>(
                        olds,
                        vws,
                        vbs,
                        lri,
                        mui,
                        x@,
                        y@,
                        i,
                    ),
                forall|i: int|
                    0 <= i < k ==> (#[trigger] new_ws@[i])@ == (if mui == 0 {
                        plain_step(lri, olds[i].w@, pass_gw::<A>(olds, x@, y@, i))
                    } else {
                        mat_sub_spec(
                            olds[i].w@,
                            mat_scale_spec(
                                lri,
                                new_velocity(mui, vws[i], pass_gw::<A>(olds, x@, y@, i)),
                            ),
                        )
                    }) && new_bs@[i]@ == (if mui == 0 {
                        plain_step(lri, olds[i].b@, pass_gb::<A>(olds, x@, y@, i))
                    } else {
                        mat_sub_spec(
                            olds[i].b@,
                            mat_scale_spec(
                                lri,
                                new_velocity(mui, vbs[i], pass_gb::<A>(olds, x@, y@, i)),
                            ),
                        )
                    }) && new_ws@[i]@.len() == olds[i].w@.len() && new_ws@[i]@[0].len()
                        == olds[i].w@[0].len() && new_bs@[i]@.len() == olds[i].b@.len()
                        && new_bs@[i]@[0].len() == 1,
                forall|i: int|
                    0 <= i < new_vws@.len() ==> (#[trigger] new_vws@[i])@ == new_velocity(
                        mui,
                        vws[i],
                        pass_gw::<A>(olds, x@, y@, i),
                    ) && new_vbs@[i]@ == new_velocity(mui, vbs[i], pass_gb::<A>(olds, x@, y@, i))
                        && new_vws@[i]@.len() == olds[i].w@.len() && new_vws@[i]@[0].len()
                        == olds[i].w@[0].len() && new_vbs@[i]@.len() == olds[i].b@.len()
                        && new_vbs@[i]@[0].len() == 1,
            decreases n - k,
        {
            let ghost gwk = pass_gw::<A>(olds, x@, y@, k as int);
            let ghost gbk = pass_gb::<A>(olds, x@, y@, k as int);
            let gw = match &self.model.layers[k].dldw {
                Some(m) => m,
                None => {
                    proof {
                        assert(false);
                    }
                    return Err(NnError::Overflow);
                },
            };
            let gb = match &self.model.layers[k].dldb {
                Some(m) => m,
                None => {
                    proof {
                        assert(false);
                    }
                    return Err(NnError::Overflow);
                },
            };
            proof {
                assert(self.model.layers@[k as int].dldw_view() == Some(gwk));
                assert(gw@ == gwk);
                assert(gb@ == gbk);
                assert(self.model.layers@[k as int].w == olds[k as int].w);
                assert(self.v_w@[k as int] == old(self).v_w@[k as int]);
                assert(self.v_w@[k as int]@ == vws[k as int]);
                assert(self.v_b@[k as int]@ == vbs[k as int]);
            }
            if mu_zero {
                let sw = match gw.scale(self.lr) {
                    Ok(m) => m,
                    Err(e) => {
                        proof {
                            assert(!step_fits_at::<A>(olds, vws, vbs, lri, mui, x@, y@, k as int));
                            assert(!update_ok::<A>(olds, vws, vbs, lri, mui, x@, y@));
                        }
                        return Err(NnError::Overflow);
                    },
                };
                let nw = match self.model.layers[k].w.sub(&sw) {
                    Ok(m) => m,
                    Err(e) => {
                        proof {
                            assert(e == NnError::Overflow);
                            assert(!step_fits_at::<A>(olds, vws, vbs, lri, mui, x@, y@, k as int));
                            assert(!update_ok::<A>(olds, vws, vbs, lri, mui, x@, y@));
                        }
                        return Err(NnError::Overflow);
                    },
                };
                let sb = match gb.scale(self.lr) {
                    Ok(m) => m,
                    Err(e) => {
                        proof {
                            assert(!step_fits_at::<A>(olds, vws, vbs, lri, mui, x@, y@, k as int));
                            assert(!update_ok::<A>(olds, vws, vbs, lri, mui, x@, y@));
                        }
                        return Err(NnError::Overflow);
                    },
                };
                let nb = match self.model.layers[k].b.sub(&sb) {
                    Ok(m) => m,
                    Err(e) => {
                        proof {
                            assert(e == NnError::Overflow);
                            assert(!step_fits_at::<A>(olds, vws, vbs, lri, mui, x@, y@, k as int));
                            assert(!update_ok::<A>(olds, vws, vbs, lri, mui, x@, y@));
                        }
                        return Err(NnError::Overflow);
                    },
                };
                proof {
                    assert(plain_step_fits(lri, olds[k as int].w@, gwk));
                    assert(plain_step_fits(lri, olds[k as int].b@, gbk));
                    assert(step_fits_at::<A>(olds, vws, vbs, lri, mui, x@, y@, k as int));
                }
                new_ws.push(nw);
                new_bs.push(nb);
            } else {
                let sv = match self.v_w[k].scale(self.mu) {
                    Ok(m) => m,
                    Err(e) => {
                        proof {
                            assert(self.v_w@[k as int]@ == vws[k as int]);
                            assert(!step_fits_at::<A>(olds, vws, vbs, lri, mui, x@, y@, k as int));
                            assert(!update_ok::<A>(olds, vws, vbs, lri, mui, x@, y@));
                        }
                        return Err(NnError::Overflow);
                    },
                };
                let nv = match sv.add(gw) {
                    Ok(m) => m,
                    Err(e) => {
                        proof {
                            assert(e == NnError::Overflow);
                            assert(!step_fits_at::<A>(olds, vws, vbs, lri, mui, x@, y@, k as int));
                            assert(!update_ok::<A>(olds, vws, vbs, lri, mui, x@, y@));
                        }
                        return Err(NnError::Overflow);
                    },
                };
                let sl = match nv.scale(self.lr) {
                    Ok(m) => m,
                    Err(e) => {
                        proof {
                            assert(!step_fits_at::<A>(olds, vws, vbs, lri, mui, x@, y@, k as int));
                            assert(!update_ok::<A>(olds, vws, vbs, lri, mui, x@, y@));
                        }
                        return Err(NnError::Overflow);
                    },
                };
                let nw = match self.model.layers[k].w.sub(&sl) {
                    Ok(m) => m,
                    Err(e) => {
                        proof {
                            assert(e == NnError::Overflow);
                            assert(!step_fits_at::<A>(olds, vws, vbs, lri, mui, x@, y@, k as int));
                            assert(!update_ok::<A>(olds, vws, vbs, lri, mui, x@, y@));
                        }
                        return Err(NnError::Overflow);
                    },
                };
                let svb = match self.v_b[k].scale(self.mu) {
                    Ok(m) => m,
                    Err(e) => {
                        proof {
                            assert(!step_fits_at::<A>(olds, vws, vbs, lri, mui, x@, y@, k as int));
                            assert(!update_ok::<A>(olds, vws, vbs, lri, mui, x@, y@));
                        }
                        return Err(NnError::Overflow);
                    },
                };
                let nvb = match svb.add(gb) {
                    Ok(m) => m,
                    Err(e) => {
                        proof {
                            assert(e == NnError::Overflow);
                            assert(!step_fits_at::<A>(olds, vws, vbs, lri, mui, x@, y@, k as int));
                            assert(!update_ok::<A>(olds, vws, vbs, lri, mui, x@, y@));
                        }
                        return Err(NnError::Overflow);
                    },
                };
                let slb = match nvb.scale(self.lr) {
                    Ok(m) => m,
                    Err(e) => {
                        proof {
                            assert(!step_fits_at::<A>(olds, vws, vbs, lri, mui, x@, y@, k as int));
                            assert(!update_ok::<A>(olds, vws, vbs, lri, mui, x@, y@));
                        }
                        return Err(NnError::Overflow);
                    },
                };
                let nb = match self.model.layers[k].b.sub(&slb) {
                    Ok(m) => m,
                    Err(e) => {
                        proof {
                            assert(e == NnError::Overflow);
                            assert(!step_fits_at::<A>(olds, vws, vbs, lri, mui, x@, y@, k as int));
                            assert(!update_ok::<A>(olds, vws, vbs, lri, mui, x@, y@));
                        }
                        return Err(NnError::Overflow);
                    },
                };
                proof {
                    assert(momentum_step_fits(lri, mui, olds[k as int].w@, vws[k as int], gwk));
                    assert(momentum_step_fits(lri, mui, olds[k as int].b@, vbs[k as int], gbk));
                    assert(step_fits_at::<A>(olds, vws, vbs, lri, mui, x@, y@, k as int));
                }
                new_ws.push(nw);
                new_bs.push(nb);
                new_vws.push(nv);
                new_vbs.push(nvb);
            }
            k += 1;
        }
        proof {
            assert(update_ok::<A>(olds, vws, vbs, lri, mui, x@, y@));
        }
        let ghost nwsv = new_ws@;
        let ghost nbsv = new_bs@;
        let ghost nvwv = new_vws@;
        let ghost nvbv = new_vbs@;
        proof {
            assert forall|i: int| 0 <= i < nvwv.len() implies (#[trigger] nvwv[i])@
                == new_velocity(mui, vws[i], pass_gw::<A>(olds, x@, y@, i)) && nvbv[i]@
                == new_velocity(mui, vbs[i], pass_gb::<A>(olds, x@, y@, i)) by {
                assert(new_vws@[i]@ == new_velocity(mui, vws[i], pass_gw::<A>(olds, x@, y@, i)));
                assert(new_vbs@[i]@ == new_velocity(mui, vbs[i], pass_gb::<A>(olds, x@, y@, i)));
            }
        }
        let mut k2: usize = n;
        while k2 > 0
            invariant
                old(self).wf(),
                olds == old(self).model.layers@,
                vws == old(self).vw_views(),
                vbs == old(self).vb_views(),
                lri == old(self).lr as int,
                mui == old(self).mu as int,
                self.lr == old(self).lr,
                self.mu == old(self).mu,
                mu_zero == (mui == 0),
                n == self.model.layers@.len(),
                n == olds.len(),
                k2 <= n,
                self.model.wf(),
                self.v_w@.len() == n,
                self.v_b@.len() == n,
                nwsv.len() == n,
                nbsv.len() == n,
                nvwv.len() == (if mu_zero { 0int } else { n as int }),
                nvbv.len() == (if mu_zero { 0int } else { n as int }),
                update_ok::<A>(olds, vws, vbs, lri, mui, x@, y@),
                forall|i: int|
                    0 <= i < n ==> (#[trigger] nwsv[i])@ == (if mui == 0 {
                        plain_step(lri, olds[i].w@, pass_gw::<A>(olds, x@, y@, i))
                    } else {
                        mat_sub_spec(
                            olds[i].w@,
                            mat_scale_spec(
                                lri,
                                new_velocity(mui, vws[i], pass_gw::<A>(olds, x@, y@, i)),
                            ),
                        )
                    }) && nbsv[i]@ == (if mui == 0 {
                        plain_step(lri, olds[i].b@, pass_gb::<A>(olds, x@, y@, i))
                    } else {
                        mat_sub_spec(
                            olds[i].b@,
                            mat_scale_spec(
                                lri,
                                new_velocity(mui, vbs[i], pass_gb::<A>(olds, x@, y@, i)),
                            ),
                        )
                    }),
                forall|i: int|
                    0 <= i < nvwv.len() ==> (#[trigger] nvwv[i])@ == new_velocity(
                        mui,
                        vws[i],
                        pass_gw::<A>(olds, x@, y@, i),
                    ) && nvbv[i]@ == new_velocity(mui, vbs[i], pass_gb::<A>(olds, x@, y@, i)),
                new_ws@ == nwsv.subrange(0, k2 as int),
                new_bs@ == nbsv.subrange(0, k2 as int),
                mu_zero ==> new_vws@ == nvwv && new_vbs@ == nvbv,
                !mu_zero ==> new_vws@ == nvwv.subrange(0, k2 as int) && new_vbs@ == nvbv.subrange(
                    0,
                    k2 as int,
                ),
                forall|i: int|
                    0 <= i < nwsv.len() ==> (#[trigger] nwsv[i])@.len() == olds[i].w@.len()
                        && nwsv[i]@[0].len() == olds[i].w@[0].len() && nbsv[i]@.len()
                        == olds[i].b@.len() && nbsv[i]@[0].len() == 1,
                forall|i: int|
                    0 <= i < nvwv.len() ==> (#[trigger] nvwv[i])@.len() == olds[i].w@.len()
                        && nvwv[i]@[0].len() == olds[i].w@[0].len() && nvbv[i]@.len()
                        == olds[i].b@.len() && nvbv[i]@[0].len() == 1,
                forall|i: int|
                    0 <= i < k2 ==> (#[trigger] self.model.layers@[i]).w == olds[i].w
                        && self.model.layers@[i].b == olds[i].b && self.v_w@[i] == old(
                        self,
                    ).v_w@[i] && self.v_b@[i] == old(self).v_b@[i],
                forall|i: int|
                    k2 <= i < n ==> (#[trigger] self.model.layers@[i]).w == nwsv[i]
                        && self.model.layers@[i].b == nbsv[i],
                mu_zero ==> forall|i: int|
                    k2 <= i < n ==> self.v_w@[i] == old(self).v_w@[i] && self.v_b@[i] == old(
                        self,
                    ).v_b@[i],
                !mu_zero ==> forall|i: int|
                    k2 <= i < n ==> self.v_w@[i] == nvwv[i] && self.v_b@[i] == nvbv[i],
            decreases k2,
        {
            k2 -= 1;
            let nw = match new_ws.pop() {
                Some(m) => m,
                None => {
                    proof {
                        assert(false);
                    }
                    return Err(NnError::Overflow);
                },
            };
            let nb = match new_bs.pop() {
                Some(m) => m,
                None => {
                    proof {
                        assert(false);
                    }
                    return Err(NnError::Overflow);
                },
            };
            self.model.layers[k2].w = nw;
            self.model.layers[k2].b = nb;
            if !mu_zero {
                let nv = match new_vws.pop() {
                    Some(m) => m,
                    None => {
                        proof {
                            assert(false);
                        }
                        return Err(NnError::Overflow);
                    },
                };
                let nvb = match new_vbs.pop() {
                    Some(m) => m,
                    None => {
                        proof {
                            assert(false);
                        }
                        return Err(NnError::Overflow);
                    },
                };
                self.v_w[k2] = nv;
                self.v_b[k2] = nvb;
            }
            proof {
                assert(new_ws@ =~= nwsv.subrange(0, k2 as int));
                assert(new_bs@ =~= nbsv.subrange(0, k2 as int));
                if !mu_zero {
                    assert(new_vws@ =~= nvwv.subrange(0, k2 as int));
                    assert(new_vbs@ =~= nvbv.subrange(0, k2 as int));
                }
                assert(olds[k2 as int].wf());
                assert(self.model.layers@[k2 as int].wf());
                assert forall|i: int| 0 <= i < n implies (#[trigger] self.model.layers@[i]).wf()
                    by {
                    assert(olds[i].wf());
                }
            }
        }
        proof {
            assert forall|kk: int| 0 <= kk < n implies (#[trigger] self.v_w@[kk])@.len()
                == self.model.layers@[kk].w@.len() && self.v_w@[kk]@[0].len()
                == self.model.layers@[kk].w@[0].len() && self.v_b@[kk]@.len()
                == self.model.layers@[kk].b@.len() && self.v_b@[kk]@[0].len() == 1 by {
                assert(old(self).wf());
                assert(old(self).v_w@[kk]@.len() == olds[kk].w@.len());
                assert(self.model.layers@[kk].w == nwsv[kk]);
                assert(self.model.layers@[kk].b == nbsv[kk]);
                if mu_zero {
                    assert(self.v_w@[kk] == old(self).v_w@[kk]);
                    assert(self.v_b@[kk] == old(self).v_b@[kk]);
                } else {
                    assert(self.v_w@[kk] == nvwv[kk]);
                    assert(self.v_b@[kk] == nvbv[kk]);
                }
            }
            if !mu_zero {
                assert forall|kk: int| 0 <= kk < n implies self.vw_views()[kk] == new_velocity(
                    mui,
                    vws[kk],
                    pass_gw::<A>(olds, x@, y@, kk),
                ) && self.vb_views()[kk] == new_velocity(
                    mui,
                    vbs[kk],
                    pass_gb::<A>(olds, x@, y@, kk),
                ) by {
                    assert(self.v_w@[kk] == nvwv[kk]);
                    assert(self.v_b@[kk] == nvbv[kk]);
                    assert(nvwv[kk]@ == new_velocity(mui, vws[kk], pass_gw::<A>(olds, x@, y@, kk)));
                    assert(self.vw_views()[kk] == self.v_w@[kk]@);
                    assert(self.vb_views()[kk] == self.v_b@[kk]@);
                }
            }
        }
        Ok(())
    }
}

} // verus!
