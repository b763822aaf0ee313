//! Algebraic laws of the pipeline, stated and proved over the same spec
//! functions the components' contracts use.

use vstd::prelude::*;

use crate::activation::{Identity, ReLU};
use crate::fx::{lemma_fx_mul_one, lemma_fx_mul_zero};
use crate::layer::{act_map, grad_map};
use crate::matrix::{
    is_grid, mat_add_spec, mat_mul_spec, mat_scale_spec, mat_transpose_spec, same_shape,
};
use crate::optim::{all_zero, new_velocity};

verus! {

/// The identity activation's forward pass returns its input unchanged,
/// entry for entry.
pub proof fn lemma_identity_forward_is_identity(z: Seq<Seq<int>>)
    requires
        is_grid(z, z.len() as int, z[0].len() as int),
    ensures
        act_map::<Identity>(z) == z,
{
    assert(act_map::<Identity>(z) =~~= z);
}

/// The identity activation's backward pass returns the incoming gradient
/// unchanged, whatever output is stored.
pub proof fn lemma_identity_backward_is_identity(st: Seq<Seq<int>>, d: Seq<Seq<int>>)
    requires
        is_grid(d, d.len() as int, d[0].len() as int),
    ensures
        grad_map::<Identity>(st, d) == d,
{
    assert forall|i: int, j: int|
        0 <= i < d.len() && 0 <= j < d[0].len() implies #[trigger] grad_map::<Identity>(st, d)[i][j]
        == d[i][j] by {
        lemma_fx_mul_one(d[i][j]);
    }
    assert(grad_map::<Identity>(st, d) =~~= d);
}

/// The rectified linear unit's backward pass keeps a gradient entry where
/// the stored output is positive and zeroes it elsewhere.
pub proof fn lemma_relu_backward_selects(st: Seq<Seq<int>>, d: Seq<Seq<int>>, i: int, j: int)
    requires
        0 <= i < d.len(),
        0 <= j < d[0].len(),
    ensures
        grad_map::<ReLU>(st, d)[i][j] == if st[i][j] > 0 {
            d[i][j]
        } else {
            0
        },
{
    if st[i][j] > 0 {
        lemma_fx_mul_one(d[i][j]);
    } else {
        lemma_fx_mul_zero(d[i][j]);
    }
}

/// Chain-rule wiring of a layer with the identity activation: the gradient
/// it propagates backward is exactly `Wᵗ` times the externally supplied
/// gradient, independent of any nonlinearity.
pub proof fn lemma_identity_layer_roundtrip(
    w: Seq<Seq<int>>,
    st: Seq<Seq<int>>,
    d: Seq<Seq<int>>,
)
    requires
        is_grid(d, d.len() as int, d[0].len() as int),
    ensures
        mat_mul_spec(mat_transpose_spec(w), grad_map::<Identity>(st, d)) == mat_mul_spec(
            mat_transpose_spec(w),
            d,
        ),
{
    lemma_identity_backward_is_identity(st, d);
}

/// Momentum from rest: with a zero velocity, one momentum step makes the
/// velocity exactly the fresh gradient, for every coefficient.
pub proof fn lemma_momentum_first_step(mu: int, v: Seq<Seq<int>>, g: Seq<Seq<int>>)
    requires
        is_grid(v, v.len() as int, v[0].len() as int),
        is_grid(g, g.len() as int, g[0].len() as int),
        same_shape(v, g),
        all_zero(v),
    ensures
        new_velocity(mu, v, g) == g,
{
    assert forall|i: int, j: int|
        0 <= i < g.len() && 0 <= j < g[0].len() implies #[trigger] new_velocity(mu, v, g)[i][j]
        == g[i][j] by {
        lemma_fx_mul_zero(mu);
    }
    assert(new_velocity(mu, v, g) =~~= g);
}

/// The second momentum step in closed form: feeding a second gradient into
/// a velocity that equals the first gradient accumulates `mu` times the
/// first plus the second.
pub proof fn lemma_momentum_second_step(mu: int, g1: Seq<Seq<int>>, g2: Seq<Seq<int>>)
    ensures
        new_velocity(mu, g1, g2) == mat_add_spec(mat_scale_spec(mu, g1), g2),
{
}

} // verus!
