use nanoserde::{DeJson, SerJson};
use neural_network::activations::ActivationFunction;
use neural_network::layers::{is_valid_topology, Layer};
use neural_network::matrix::{Matrix, MatrixError};
use neural_network::network::{reports_progress, Network, NetworkError};
use neural_network::scalar::Scalar;

#[derive(Clone, Copy, Debug, PartialEq)]
struct Real(f64);

impl Scalar for Real {
    fn spec_zero() -> Self {
        Real(0.0)
    }

    fn spec_plus(self, rhs: Self) -> Self {
        Real(self.0 + rhs.0)
    }

    fn spec_minus(self, rhs: Self) -> Self {
        Real(self.0 - rhs.0)
    }

    fn spec_times(self, rhs: Self) -> Self {
        Real(self.0 * rhs.0)
    }

    fn spec_activate(self, f: ActivationFunction) -> Self {
        let x = self.0;
        Real(match f {
            ActivationFunction::Sigmoid => 1.0 / (1.0 + (-x).exp()),
            ActivationFunction::Tanh => x.tanh(),
            ActivationFunction::Relu => 0.0f64.max(x),
            ActivationFunction::LeakyRelu => if x > 0.0 { x } else { 0.01 * x },
        })
    }

    fn spec_derivative(self, f: ActivationFunction) -> Self {
        let y = self.0;
        Real(match f {
            ActivationFunction::Sigmoid => y * (1.0 - y),
            ActivationFunction::Tanh => 1.0 - y * y,
            ActivationFunction::Relu => if y > 0.0 { 1.0 } else { 0.0 },
            ActivationFunction::LeakyRelu => if y > 0.0 { 1.0 } else { 0.01 },
        })
    }

    fn in_unit(self) -> bool {
        0.0 <= self.0 && self.0 < 1.0
    }

    fn is_positive(self) -> bool {
        self.0 > 0.0
    }

    fn zero() -> Self {
        Self::spec_zero()
    }

    fn plus(self, rhs: Self) -> Self {
        self.spec_plus(rhs)
    }

    fn minus(self, rhs: Self) -> Self {
        self.spec_minus(rhs)
    }

    fn times(self, rhs: Self) -> Self {
        self.spec_times(rhs)
    }

    fn activate(self, f: ActivationFunction) -> Self {
        self.spec_activate(f)
    }

    fn derivative(self, f: ActivationFunction) -> Self {
        self.spec_derivative(f)
    }

    fn random() -> Self {
        Real(rand::random::<f64>())
    }

    fn positive(self) -> bool {
        self.is_positive()
    }
}

fn reals(v: &[f64]) -> Vec<Real> {
    v.iter().map(|x| Real(*x)).collect()
}

fn values(v: &[Real]) -> Vec<f64> {
    v.iter().map(|x| x.0).collect()
}

fn relu_pair() -> Network<Real> {
    Network::from_parts(
        vec![Layer::input(2), Layer::hidden(1, ActivationFunction::Relu)],
        vec![Matrix::from_parts(1, 2, reals(&[1.0, 1.0])).unwrap()],
        vec![Matrix::from_parts(1, 1, reals(&[0.0])).unwrap()],
        Real(0.5),
    )
    .unwrap()
}

/// Uniform values in [0, 1) from a fixed linear congruential sequence.
fn fixed_values(seed: &mut u64, n: usize) -> Vec<Real> {
    let mut out = Vec::new();
    for _ in 0..n {
        *seed = seed.wrapping_mul(6364136223846793005).wrapping_add(1442695040888963407);
        out.push(Real((*seed >> 11) as f64 / (1u64 << 53) as f64));
    }
    out
}

#[test]
fn forward_through_one_relu_layer() {
    let mut n = relu_pair();
    let out = n.feed_forward(reals(&[1.0, 1.0])).unwrap();
    assert_eq!(values(&out), vec![2.0]);
    assert_eq!(n.data.len(), 2);
    assert_eq!(values(&n.data[0].data), vec![1.0, 1.0]);
    assert_eq!(values(&n.data[1].data), vec![2.0]);
}

#[test]
fn forward_with_bias_and_negative_sum() {
    let mut n = Network::from_parts(
        vec![Layer::input(2), Layer::hidden(2, ActivationFunction::Relu)],
        vec![Matrix::from_parts(2, 2, reals(&[1.0, 2.0, -3.0, 1.0])).unwrap()],
        vec![Matrix::from_parts(2, 1, reals(&[0.5, 1.0])).unwrap()],
        Real(0.1),
    )
    .unwrap();
    let out = n.feed_forward(reals(&[1.0, 1.0])).unwrap();
    assert_eq!(values(&out), vec![3.5, 0.0]);
}

#[test]
fn forward_with_wrong_width_is_refused() {
    let mut n = relu_pair();
    assert_eq!(n.feed_forward(reals(&[1.0])).unwrap_err(), NetworkError::InputSizeMismatch);
    assert!(n.data.is_empty());
}

#[test]
fn backward_with_wrong_target_width_is_refused() {
    let mut n = relu_pair();
    let out = n.feed_forward(reals(&[1.0, 1.0])).unwrap();
    let r = n.back_propogate(out, reals(&[1.0, 2.0]));
    assert_eq!(r.unwrap_err(), NetworkError::TargetSizeMismatch);
    assert_eq!(values(&n.weights[0].data), vec![1.0, 1.0]);
}

#[test]
fn backward_without_forward_is_refused() {
    let mut n = relu_pair();
    let r = n.back_propogate(reals(&[2.0]), reals(&[1.0]));
    assert_eq!(r.unwrap_err(), NetworkError::DimensionMismatch);
    assert_eq!(values(&n.weights[0].data), vec![1.0, 1.0]);
    assert_eq!(values(&n.biases[0].data), vec![0.0]);
}

#[test]
fn backward_step_values() {
    // output 2, target 1: error -1, relu gradient 1, scaled by 0.5 -> -0.5.
    let mut n = relu_pair();
    let out = n.feed_forward(reals(&[1.0, 1.0])).unwrap();
    n.back_propogate(out, reals(&[1.0])).unwrap();
    assert_eq!(values(&n.weights[0].data), vec![0.5, 0.5]);
    assert_eq!(values(&n.biases[0].data), vec![-0.5]);
}

#[test]
fn invalid_topologies_are_refused() {
    let one = vec![Layer::input(2)];
    assert!(!is_valid_topology(&one));
    assert_eq!(Network::<Real>::new(one, Real(0.5)).err(), Some(NetworkError::InvalidTopology));
    let first_activated = vec![Layer::hidden(2, ActivationFunction::Relu), Layer::hidden(1, ActivationFunction::Relu)];
    assert!(Network::<Real>::new(first_activated, Real(0.5)).is_err());
    let later_bare = vec![Layer::input(2), Layer::input(1)];
    assert!(Network::<Real>::new(later_bare, Real(0.5)).is_err());
    let empty_layer = vec![Layer::input(2), Layer::hidden(0, ActivationFunction::Sigmoid)];
    assert!(Network::<Real>::new(empty_layer, Real(0.5)).is_err());
}

#[test]
fn fresh_network_has_fitting_random_weights() {
    let layers = vec![
        Layer::input(2),
        Layer::hidden(3, ActivationFunction::Sigmoid),
        Layer::hidden(1, ActivationFunction::Sigmoid),
    ];
    let n = Network::<Real>::new(layers, Real(0.5)).unwrap();
    assert_eq!(n.weights.len(), 2);
    assert_eq!((n.weights[0].rows, n.weights[0].cols), (3, 2));
    assert_eq!((n.weights[1].rows, n.weights[1].cols), (1, 3));
    assert_eq!((n.biases[0].rows, n.biases[0].cols), (3, 1));
    for m in n.weights.iter().chain(n.biases.iter()) {
        for v in &m.data {
            assert!(v.0 >= 0.0 && v.0 < 1.0);
        }
    }
    assert!(n.data.is_empty());
}

#[test]
fn stored_parts_of_wrong_shape_are_refused() {
    let r = Network::from_parts(
        vec![Layer::input(2), Layer::hidden(1, ActivationFunction::Relu)],
        vec![Matrix::from_parts(2, 1, reals(&[1.0, 1.0])).unwrap()],
        vec![Matrix::from_parts(1, 1, reals(&[0.0])).unwrap()],
        Real(0.5),
    );
    assert_eq!(r.err(), Some(NetworkError::DimensionMismatch));
}

#[test]
fn training_set_that_does_not_fit_is_refused() {
    let mut n = relu_pair();
    let inputs = vec![reals(&[1.0, 1.0])];
    let wide_inputs = vec![reals(&[1.0, 1.0, 1.0])];
    let targets = vec![reals(&[1.0])];
    assert_eq!(n.train(&wide_inputs, &targets, 3).unwrap_err(), NetworkError::InputSizeMismatch);
    assert_eq!(n.train(&inputs, &vec![], 3).unwrap_err(), NetworkError::TargetSizeMismatch);
    assert_eq!(n.train(&inputs, &vec![reals(&[1.0, 0.0])], 3).unwrap_err(), NetworkError::TargetSizeMismatch);
    assert_eq!(values(&n.weights[0].data), vec![1.0, 1.0]);
}

#[test]
fn zero_epochs_change_nothing() {
    let mut n = relu_pair();
    n.train(&vec![reals(&[1.0, 1.0])], &vec![reals(&[0.0])], 0).unwrap();
    assert_eq!(values(&n.weights[0].data), vec![1.0, 1.0]);
    assert!(n.data.is_empty());
}

#[test]
fn progress_cadence() {
    assert!(reports_progress(7, 50));
    assert!(reports_progress(100, 10000));
    assert!(!reports_progress(150, 10000));
    assert!(reports_progress(3, 300));
    assert!(!reports_progress(4, 300));
}

#[test]
fn xor_training_converges() {
    let mut seed: u64 = 42;
    let mut n = Network::from_parts(
        vec![
            Layer::input(2),
            Layer::hidden(3, ActivationFunction::Sigmoid),
            Layer::hidden(1, ActivationFunction::Sigmoid),
        ],
        vec![
            Matrix::from_parts(3, 2, fixed_values(&mut seed, 6)).unwrap(),
            Matrix::from_parts(1, 3, fixed_values(&mut seed, 3)).unwrap(),
        ],
        vec![
            Matrix::from_parts(3, 1, fixed_values(&mut seed, 3)).unwrap(),
            Matrix::from_parts(1, 1, fixed_values(&mut seed, 1)).unwrap(),
        ],
        Real(0.5),
    )
    .unwrap();
    let inputs = vec![reals(&[0.0, 0.0]), reals(&[1.0, 0.0]), reals(&[0.0, 1.0]), reals(&[1.0, 1.0])];
    let targets = vec![reals(&[0.0]), reals(&[1.0]), reals(&[1.0]), reals(&[0.0])];
    n.train(&inputs, &targets, 10000).unwrap();
    for (input, target) in inputs.iter().zip(targets.iter()) {
        let out = n.feed_forward(input.clone()).unwrap();
        assert!((out[0].0 - target[0].0).abs() < 0.1, "{:?} -> {:?}", input, out);
    }
}

fn stored(m: &Matrix<Real>) -> (usize, usize, String) {
    (m.rows, m.cols, values(&m.data).serialize_json())
}

fn restored(s: &(usize, usize, String)) -> Matrix<Real> {
    let data: Vec<f64> = Vec::<f64>::deserialize_json(&s.2).unwrap();
    Matrix::from_parts(s.0, s.1, reals(&data)).unwrap()
}

#[test]
fn stored_and_reloaded_network_answers_identically() {
    let layers = vec![
        Layer::input(2),
        Layer::hidden(3, ActivationFunction::Tanh),
        Layer::hidden(2, ActivationFunction::LeakyRelu),
    ];
    let mut n = Network::<Real>::new(layers.clone(), Real(0.3)).unwrap();
    let w: Vec<_> = n.weights.iter().map(stored).collect();
    let b: Vec<_> = n.biases.iter().map(stored).collect();
    let mut back = Network::from_parts(
        layers,
        w.iter().map(restored).collect(),
        b.iter().map(restored).collect(),
        Real(0.3),
    )
    .unwrap();
    let probe = reals(&[0.125, -3.75]);
    let a = n.feed_forward(probe.clone()).unwrap();
    let c = back.feed_forward(probe).unwrap();
    let bits = |v: &Vec<Real>| v.iter().map(|x| x.0.to_bits()).collect::<Vec<u64>>();
    assert_eq!(bits(&a), bits(&c));
}

fn real_grid(rows: usize, cols: usize, v: &[f64]) -> Matrix<Real> {
    Matrix::from_parts(rows, cols, reals(v)).unwrap()
}

#[test]
fn arithmetic_through_the_number_type() {
    let a = real_grid(2, 2, &[1.0, 2.0, 3.0, 4.0]);
    let b = real_grid(2, 2, &[5.0, 6.0, 7.0, 8.0]);
    assert_eq!(values(&a.add(&b).unwrap().data), vec![6.0, 8.0, 10.0, 12.0]);
    assert_eq!(values(&a.sub(&b).unwrap().data), vec![-4.0, -4.0, -4.0, -4.0]);
    assert_eq!(values(&a.dot(&b).unwrap().data), vec![5.0, 12.0, 21.0, 32.0]);
    assert_eq!(values(&a.mul(&b).unwrap().data), vec![19.0, 22.0, 43.0, 50.0]);
    assert_eq!(values(&a.add(&b).unwrap().sub(&b).unwrap().data), values(&a.data));
    let z: Matrix<Real> = Matrix::zero(2, 1);
    assert_eq!(values(&z.data), vec![0.0, 0.0]);
}

#[test]
fn arithmetic_on_mismatched_shapes_is_refused() {
    let a = real_grid(2, 3, &[1.0; 6]);
    let b = real_grid(2, 3, &[1.0; 6]);
    let c = real_grid(3, 3, &[1.0; 9]);
    let d = real_grid(2, 2, &[1.0; 4]);
    assert_eq!(a.mul(&b).unwrap_err(), MatrixError::DimensionMismatch);
    assert_eq!(d.add(&c).unwrap_err(), MatrixError::DimensionMismatch);
    assert_eq!(d.sub(&c).unwrap_err(), MatrixError::DimensionMismatch);
    assert_eq!(a.dot(&c).unwrap_err(), MatrixError::DimensionMismatch);
}

#[test]
fn layer_constructors() {
    let l = Layer::new(4, Some(ActivationFunction::Tanh));
    assert_eq!(l.size, 4);
    assert_eq!(l.activation(), Some(ActivationFunction::Tanh));
    assert_eq!(Layer::input(3).activation(), None);
    assert_eq!(Layer::hidden(2, ActivationFunction::LeakyRelu), Layer::new(2, Some(ActivationFunction::LeakyRelu)));
    assert!(is_valid_topology(&vec![Layer::input(2), Layer::hidden(1, ActivationFunction::Sigmoid)]));
}

#[test]
fn non_positive_learning_rate_is_refused() {
    let layers = vec![Layer::input(2), Layer::hidden(1, ActivationFunction::Relu)];
    assert_eq!(Network::<Real>::new(layers.clone(), Real(0.0)).err(), Some(NetworkError::InvalidLearningRate));
    let r = Network::from_parts(
        layers,
        vec![Matrix::from_parts(1, 2, reals(&[1.0, 1.0])).unwrap()],
        vec![Matrix::from_parts(1, 1, reals(&[0.0])).unwrap()],
        Real(-0.5),
    );
    assert_eq!(r.err(), Some(NetworkError::InvalidLearningRate));
}

#[test]
fn backward_with_outputs_of_other_length_is_refused() {
    let mut n = relu_pair();
    n.feed_forward(reals(&[1.0, 1.0])).unwrap();
    let r = n.back_propogate(reals(&[2.0, 0.0]), reals(&[1.0]));
    assert_eq!(r.unwrap_err(), NetworkError::TargetSizeMismatch);
    assert_eq!(values(&n.weights[0].data), vec![1.0, 1.0]);
}

#[test]
fn product_of_square_and_wide_matrices() {
    let a = real_grid(2, 2, &[1.0, 2.0, 3.0, 4.0]);
    let b = real_grid(2, 3, &[5.0, 6.0, 7.0, 8.0, 9.0, 10.0]);
    let m = a.mul(&b).unwrap();
    assert_eq!((m.rows, m.cols), (2, 3));
    assert_eq!(values(&m.data), vec![21.0, 24.0, 27.0, 47.0, 54.0, 61.0]);
}

#[test]
fn random_entries_lie_in_the_unit_interval() {
    let m: Matrix<Real> = Matrix::random(4, 5);
    assert_eq!(m.data.len(), 20);
    assert!(m.data.iter().all(|x| 0.0 <= x.0 && x.0 < 1.0));
}

#[test]
fn repeated_forward_gives_the_same_output() {
    let layers = vec![
        Layer::input(2),
        Layer::hidden(3, ActivationFunction::Sigmoid),
        Layer::hidden(2, ActivationFunction::Tanh),
    ];
    let mut n = Network::<Real>::new(layers, Real(0.5)).unwrap();
    let a = n.feed_forward(reals(&[0.3, -0.7])).unwrap();
    let b = n.feed_forward(reals(&[0.3, -0.7])).unwrap();
    assert_eq!(a, b);
}

#[test]
fn training_is_forward_then_backward_per_example() {
    let layers = vec![
        Layer::input(2),
        Layer::hidden(2, ActivationFunction::Sigmoid),
        Layer::hidden(1, ActivationFunction::Sigmoid),
    ];
    let mut seed: u64 = 7;
    let weights = vec![
        Matrix::from_parts(2, 2, fixed_values(&mut seed, 4)).unwrap(),
        Matrix::from_parts(1, 2, fixed_values(&mut seed, 2)).unwrap(),
    ];
    let biases = vec![
        Matrix::from_parts(2, 1, fixed_values(&mut seed, 2)).unwrap(),
        Matrix::from_parts(1, 1, fixed_values(&mut seed, 1)).unwrap(),
    ];
    let mut trained = Network::from_parts(layers.clone(), weights.clone(), biases.clone(), Real(0.5)).unwrap();
    let mut stepped = Network::from_parts(layers, weights, biases, Real(0.5)).unwrap();
    let inputs = vec![reals(&[0.0, 1.0]), reals(&[1.0, 1.0])];
    let targets = vec![reals(&[1.0]), reals(&[0.0])];
    trained.train(&inputs, &targets, 2).unwrap();
    for _ in 0..2 {
        for (x, t) in inputs.iter().zip(targets.iter()) {
            let out = stepped.feed_forward(x.clone()).unwrap();
            stepped.back_propogate(out, t.clone()).unwrap();
        }
    }
    for k in 0..2 {
        assert_eq!(trained.weights[k].data, stepped.weights[k].data);
        assert_eq!(trained.biases[k].data, stepped.biases[k].data);
    }
}
