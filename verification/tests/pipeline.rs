//! End-to-end tests of the fixed-point training pipeline.

use neuralnet::activation::{ActivationFunction, Identity, ReLU, Sigmoid};
use neuralnet::error::NnError;
use neuralnet::fx::{SCALE, UNIT_BOUND};
use neuralnet::layer::Layer;
use neuralnet::loss::MeanSquaredError;
use neuralnet::matrix::Matrix;
use neuralnet::model::NeuralNetwork;
use neuralnet::optim::SGD;

/// A real value as fixed-point units.
fn fx(x: f64) -> i64 {
    (x * SCALE as f64).round() as i64
}

fn mat(rows: usize, cols: usize, vals: &[f64]) -> Matrix {
    let data: Vec<i64> = vals.iter().map(|v| fx(*v)).collect();
    Matrix::from_units(rows, cols, data).unwrap()
}

fn assert_mat(m: &Matrix, rows: usize, cols: usize, expected: &[f64]) {
    assert_eq!(m.nrows(), rows);
    assert_eq!(m.ncols(), cols);
    for i in 0..rows {
        for j in 0..cols {
            assert_eq!(m.entry(i, j), fx(expected[i * cols + j]));
        }
    }
}

#[test]
fn test_identity_forward() {
    let mut identity = Identity::new();
    let z = mat(2, 2, &[1.0, 2.0, 3.0, 4.0]);
    let a = identity.forward(&z);
    assert_mat(&a, 2, 2, &[1.0, 2.0, 3.0, 4.0]);
}

#[test]
fn test_identity_backward() {
    let mut identity = Identity::new();
    let dlda = mat(2, 2, &[1.0, 2.0, 3.0, 4.0]);
    // The backward pass requires a forward pass first.
    let _ = identity.forward(&dlda);
    let dldz = identity.backward(&dlda).unwrap();
    assert_mat(&dldz, 2, 2, &[1.0, 2.0, 3.0, 4.0]);
}

#[test]
fn test_relu_forward() {
    let mut relu = ReLU::new();
    let z = mat(2, 3, &[0.0378, 0.3022, -1.6123, -2.5186, -1.9395, 1.4077]);
    let a = relu.forward(&z);
    assert_mat(&a, 2, 3, &[0.0378, 0.3022, 0.0, 0.0, 0.0, 1.4077]);
}

#[test]
fn test_relu_backward() {
    let mut relu = ReLU::new();
    let z = mat(2, 3, &[0.0378, 0.3022, -1.6123, -2.5186, -1.9395, 1.4077]);
    let _ = relu.forward(&z);
    let dlda = mat(2, 3, &[1.0, 2.0, 3.0, 4.0, 5.0, 6.0]);
    let dldz = relu.backward(&dlda).unwrap();
    assert_mat(&dldz, 2, 3, &[1.0, 2.0, 0.0, 0.0, 0.0, 6.0]);
}

#[test]
fn test_identity_backward_before_forward_fails() {
    let identity = Identity::new();
    let dlda = mat(1, 1, &[1.0]);
    assert_eq!(identity.backward(&dlda).unwrap_err(), NnError::NotForwarded);
}

#[test]
fn test_relu_backward_before_forward_fails() {
    let relu = ReLU::new();
    let dlda = mat(1, 1, &[1.0]);
    assert_eq!(relu.backward(&dlda).unwrap_err(), NnError::NotForwarded);
}

#[test]
fn test_sigmoid_backward_before_forward_fails() {
    let sigmoid = Sigmoid::new();
    let dlda = mat(1, 1, &[1.0]);
    assert_eq!(sigmoid.backward(&dlda).unwrap_err(), NnError::NotForwarded);
}

#[test]
fn test_activation_backward_shape_mismatch() {
    let mut relu = ReLU::new();
    let z = mat(2, 2, &[1.0, -1.0, 2.0, -2.0]);
    let _ = relu.forward(&z);
    let dlda = mat(1, 1, &[1.0]);
    assert_eq!(relu.backward(&dlda).unwrap_err(), NnError::ShapeMismatch);
}

#[test]
fn test_sigmoid_midpoint_and_range() {
    let mut sigmoid = Sigmoid::new();
    let z = mat(2, 3, &[0.0, -30.0, 30.0, -2.0, 0.5, 14.5]);
    let a = sigmoid.forward(&z);
    // Exactly one half at zero.
    assert_eq!(a.entry(0, 0), SCALE / 2);
    // Strictly inside (0, 1) everywhere, even far into saturation.
    for i in 0..2 {
        for j in 0..3 {
            let v = a.entry(i, j);
            assert!(v >= 1 && v <= SCALE - 1);
        }
    }
    // Monotone around the midpoint.
    assert!(a.entry(0, 1) < a.entry(0, 0));
    assert!(a.entry(0, 2) > a.entry(0, 0));
}

#[test]
fn test_sigmoid_backward_formula() {
    let mut sigmoid = Sigmoid::new();
    let z = mat(1, 1, &[0.0]);
    let _ = sigmoid.forward(&z);
    let dlda = mat(1, 1, &[1.0]);
    let dldz = sigmoid.backward(&dlda).unwrap();
    // A = 0.5, so dAdZ = 0.5 * (1 - 0.5) = 0.25 and dLdZ = 1.0 * 0.25.
    assert_eq!(dldz.entry(0, 0), fx(0.25));
}

#[test]
fn test_matrix_from_units_rejects_bad_shape() {
    assert_eq!(
        Matrix::from_units(2, 2, vec![1, 2, 3]).unwrap_err(),
        NnError::ShapeMismatch
    );
    assert_eq!(
        Matrix::from_units(0, 2, vec![]).unwrap_err(),
        NnError::ShapeMismatch
    );
}

#[test]
fn test_matrix_from_units_rejects_overflow() {
    assert_eq!(
        Matrix::from_units(1, 1, vec![UNIT_BOUND + 1]).unwrap_err(),
        NnError::Overflow
    );
}

#[test]
fn test_matrix_add_shape_mismatch() {
    let a = mat(1, 2, &[1.0, 2.0]);
    let b = mat(2, 1, &[1.0, 2.0]);
    assert_eq!(a.add(&b).unwrap_err(), NnError::ShapeMismatch);
}

#[test]
fn test_matrix_scale_overflow() {
    let a = Matrix::from_units(1, 1, vec![UNIT_BOUND]).unwrap();
    assert_eq!(a.scale(UNIT_BOUND).unwrap_err(), NnError::Overflow);
}

#[test]
fn test_matmul_values() {
    let a = mat(1, 2, &[1.0, 2.0]);
    let b = mat(2, 1, &[3.0, 4.0]);
    let c = a.matmul(&b).unwrap();
    assert_mat(&c, 1, 1, &[11.0]);
}

#[test]
fn test_transpose_and_row_sum() {
    let a = mat(2, 3, &[1.0, 2.0, 3.0, 4.0, 5.0, 6.0]);
    let t = a.transpose();
    assert_mat(&t, 3, 2, &[1.0, 4.0, 2.0, 5.0, 3.0, 6.0]);
    let s = a.row_sum().unwrap();
    assert_mat(&s, 2, 1, &[6.0, 15.0]);
}

#[test]
fn test_component_mul_values() {
    let a = mat(1, 2, &[0.5, -1.5]);
    let b = mat(1, 2, &[0.5, 2.0]);
    let c = a.component_mul(&b).unwrap();
    assert_mat(&c, 1, 2, &[0.25, -3.0]);
}

#[test]
fn test_layer_forward_affine() {
    let w = mat(1, 2, &[1.0, 2.0]);
    let b = mat(1, 1, &[0.5]);
    let mut layer = Layer::new(w, b, Identity::new()).unwrap();
    let x = mat(2, 1, &[1.0, 1.0]);
    let a = layer.forward(&x).unwrap();
    assert_mat(&a, 1, 1, &[3.5]);
}

#[test]
fn test_layer_backward_before_forward_fails() {
    let w = mat(1, 2, &[1.0, 2.0]);
    let b = mat(1, 1, &[0.0]);
    let mut layer = Layer::new(w, b, Identity::new()).unwrap();
    let dlda = mat(1, 1, &[1.0]);
    assert_eq!(layer.backward(&dlda).unwrap_err(), NnError::NotForwarded);
}

#[test]
fn test_layer_roundtrip_chain_rule() {
    // With the identity activation, the propagated gradient must be
    // exactly W-transpose times the supplied gradient.
    let w = mat(1, 2, &[1.0, 2.0]);
    let b = mat(1, 1, &[0.0]);
    let mut layer = Layer::new(w, b, Identity::new()).unwrap();
    let x = mat(2, 1, &[0.5, 0.25]);
    let _ = layer.forward(&x).unwrap();
    let dlda = mat(1, 1, &[2.0]);
    let dldx = layer.backward(&dlda).unwrap();
    assert_mat(&dldx, 2, 1, &[2.0, 4.0]);
    // And the parameter gradients match dLdZ·Xᵗ and the row sums of dLdZ.
    let gw = layer.dldw.as_ref().unwrap();
    assert_mat(gw, 1, 2, &[1.0, 0.5]);
    let gb = layer.dldb.as_ref().unwrap();
    assert_mat(gb, 1, 1, &[2.0]);
}

#[test]
fn test_model_two_layers() {
    let l1 = Layer::new(mat(1, 1, &[2.0]), mat(1, 1, &[0.0]), Identity::new()).unwrap();
    let l2 = Layer::new(mat(1, 1, &[3.0]), mat(1, 1, &[0.0]), Identity::new()).unwrap();
    let mut model = NeuralNetwork::new(vec![l1, l2], MeanSquaredError::new());
    let out = model.forward(&mat(1, 1, &[1.0])).unwrap();
    assert_mat(&out, 1, 1, &[6.0]);
}

#[test]
fn test_model_backward_before_loss_fails() {
    let l1 = Layer::new(mat(1, 1, &[2.0]), mat(1, 1, &[0.0]), Identity::new()).unwrap();
    let mut model = NeuralNetwork::new(vec![l1], MeanSquaredError::new());
    assert_eq!(model.backward().unwrap_err(), NnError::NotForwarded);
}

#[test]
fn test_loss_forward_and_backward_values() {
    let mut loss = MeanSquaredError::new();
    let p = mat(2, 2, &[1.0, 2.0, 3.0, 4.0]);
    let y = mat(2, 2, &[1.0, 2.0, 3.0, 5.0]);
    let v = loss.forward(&p, &y).unwrap();
    assert_eq!(v, fx(0.25));
    let g = loss.backward().unwrap();
    assert_mat(&g, 2, 2, &[0.0, 0.0, 0.0, -0.5]);
}

#[test]
fn test_loss_backward_before_forward_fails() {
    let loss = MeanSquaredError::new();
    assert_eq!(loss.backward().unwrap_err(), NnError::NotForwarded);
}

#[test]
fn test_loss_shape_mismatch() {
    let mut loss = MeanSquaredError::new();
    let p = mat(1, 2, &[1.0, 2.0]);
    let y = mat(2, 1, &[1.0, 2.0]);
    assert_eq!(loss.forward(&p, &y).unwrap_err(), NnError::ShapeMismatch);
}

#[test]
fn test_sgd_plain_step() {
    // One layer, 2 -> 1, identity activation, lr = 0.1, no momentum.
    let layer = Layer::new(mat(1, 2, &[0.5, 0.5]), mat(1, 1, &[0.0]), Identity::new()).unwrap();
    let model = NeuralNetwork::new(vec![layer], MeanSquaredError::new());
    let mut sgd = SGD::new(model, fx(0.1), 0);
    let x = mat(2, 1, &[1.0, 1.0]);
    let y = mat(1, 1, &[2.0]);
    sgd.update(&x, &y).unwrap();
    // Prediction 1.0, gradient 2*(1.0-2.0) = -2.0; dLdW = [-2, -2],
    // dLdb = [-2]; W <- W - 0.1*dLdW, b <- b - 0.1*dLdb, exactly.
    assert_mat(&sgd.model.layers[0].w, 1, 2, &[0.7, 0.7]);
    assert_mat(&sgd.model.layers[0].b, 1, 1, &[0.2]);
    // The mu == 0 path never touches the velocities.
    assert_mat(&sgd.v_w[0], 1, 2, &[0.0, 0.0]);
    assert_mat(&sgd.v_b[0], 1, 1, &[0.0]);
}

#[test]
fn test_sgd_momentum_two_steps() {
    let layer = Layer::new(mat(1, 2, &[0.5, 0.5]), mat(1, 1, &[0.0]), Identity::new()).unwrap();
    let model = NeuralNetwork::new(vec![layer], MeanSquaredError::new());
    let mut sgd = SGD::new(model, fx(0.1), fx(0.9));
    let x = mat(2, 1, &[1.0, 1.0]);
    let y = mat(1, 1, &[2.0]);
    // Step one from rest: v_W == dLdW and W == W_old - lr*dLdW.
    sgd.update(&x, &y).unwrap();
    assert_mat(&sgd.v_w[0], 1, 2, &[-2.0, -2.0]);
    assert_mat(&sgd.model.layers[0].w, 1, 2, &[0.7, 0.7]);
    assert_mat(&sgd.v_b[0], 1, 1, &[-2.0]);
    assert_mat(&sgd.model.layers[0].b, 1, 1, &[0.2]);
    // Step two: prediction 1.6, fresh gradient -0.8, so
    // v_W == mu*(-2.0) + (-0.8) == -2.6.
    sgd.update(&x, &y).unwrap();
    assert_mat(&sgd.v_w[0], 1, 2, &[-2.6, -2.6]);
}

#[test]
fn test_one_step_reduces_loss() {
    // A 1-layer model (2 -> 1, identity) trained by plain SGD for one step
    // must reduce the loss against the same pair.
    let layer = Layer::new(mat(1, 2, &[0.5, 0.5]), mat(1, 1, &[0.0]), Identity::new()).unwrap();
    let model = NeuralNetwork::new(vec![layer], MeanSquaredError::new());
    let mut sgd = SGD::new(model, fx(0.1), 0);
    let x = mat(2, 1, &[1.0, 1.0]);
    let y = mat(1, 1, &[2.0]);
    let pred_before = sgd.model.forward(&x).unwrap();
    let loss_before = sgd.model.loss.forward(&pred_before, &y).unwrap();
    sgd.update(&x, &y).unwrap();
    let pred_after = sgd.model.forward(&x).unwrap();
    let loss_after = sgd.model.loss.forward(&pred_after, &y).unwrap();
    assert!(loss_after < loss_before);
}
