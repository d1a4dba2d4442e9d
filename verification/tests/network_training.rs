use neuralnet::activation::Activation;
use neuralnet::network::Network;
use neuralnet::network::NetworkError;
use neuralnet::rng::Rng;

fn plus(a: f64, b: f64) -> f64 {
    a + b
}

fn minus(a: f64, b: f64) -> f64 {
    a - b
}

fn times(a: f64, b: f64) -> f64 {
    a * b
}

fn sigmoid(x: f64) -> f64 {
    1.0 / (1.0 + (-x).exp())
}

fn sigmoid_derivative(y: f64) -> f64 {
    y * (1.0 - y)
}

fn uniform(w: u64) -> f64 {
    ((w >> 11) as f64) / 9007199254740992.0 * 2.0 - 1.0
}

fn sigmoid_pair() -> Activation<fn(f64) -> f64, fn(f64) -> f64> {
    Activation { function: sigmoid, derivative: sigmoid_derivative }
}

fn build(layers: Vec<usize>, rate: f64, seed: u64) -> Network<f64> {
    let mut rng = Rng::new(seed);
    Network::new(layers, rate, 0.0, &mut rng, &uniform).unwrap()
}

#[test]
fn rng_is_reproducible() {
    let mut a = Rng::new(1234);
    let mut b = Rng::new(1234);
    let mut i: usize = 0;
    while i < 50 {
        assert_eq!(a.next_u64(), b.next_u64());
        i += 1;
    }
    let mut c = Rng::new(1235);
    assert_ne!(Rng::new(1234).next_u64(), c.next_u64());
}

#[test]
fn uniform_draws_stay_in_range() {
    let mut rng = Rng::new(99);
    let mut i: usize = 0;
    while i < 1000 {
        let v = uniform(rng.next_u64());
        assert!(v >= -1.0 && v < 1.0);
        i += 1;
    }
}

#[test]
fn construction_rejects_short_topology() {
    let mut rng = Rng::new(5);
    let r = Network::new(vec![4], 0.5, 0.0, &mut rng, &uniform);
    assert_eq!(r.unwrap_err(), NetworkError::TopologyTooShort);
    let r = Network::new(Vec::new(), 0.5, 0.0, &mut rng, &uniform);
    assert_eq!(r.unwrap_err(), NetworkError::TopologyTooShort);
}

#[test]
fn construction_rejects_empty_layer() {
    let mut rng = Rng::new(5);
    let r = Network::new(vec![2, 0, 1], 0.5, 0.0, &mut rng, &uniform);
    assert_eq!(r.unwrap_err(), NetworkError::ZeroLayer);
}

#[test]
fn feed_forward_output_matches_last_layer() {
    let act = sigmoid_pair();
    let mut net = build(vec![3, 4, 2], 0.5, 7);
    let out = net.feed_forward(vec![0.25, -0.5, 1.0], &plus, &times, &act).unwrap();
    assert_eq!(out.len(), 2);
    let out = net.feed_forward(vec![0.0, 0.0, 0.0], &plus, &times, &act).unwrap();
    assert_eq!(out.len(), 2);
}

#[test]
fn feed_forward_rejects_wrong_input_length() {
    let act = sigmoid_pair();
    let mut net = build(vec![3, 4, 2], 0.5, 7);
    let r = net.feed_forward(vec![0.25, -0.5], &plus, &times, &act);
    assert_eq!(r.unwrap_err(), NetworkError::InputSizeMismatch);
}

#[test]
fn back_propagate_needs_a_forward_pass() {
    let act = sigmoid_pair();
    let mut net = build(vec![2, 2], 0.5, 7);
    let scale = |x: f64| x * 0.5;
    let r = net.back_propagate(vec![0.1, 0.2], vec![0.3, 0.4], &plus, &minus, &times, &scale, &act);
    assert_eq!(r.unwrap_err(), NetworkError::NoForwardPass);
}

#[test]
fn back_propagate_rejects_wrong_lengths() {
    let act = sigmoid_pair();
    let mut net = build(vec![2, 2], 0.5, 7);
    net.feed_forward(vec![0.1, 0.2], &plus, &times, &act).unwrap();
    let scale = |x: f64| x * 0.5;
    let r = net.back_propagate(vec![0.1, 0.2], vec![0.3], &plus, &minus, &times, &scale, &act);
    assert_eq!(r.unwrap_err(), NetworkError::TargetSizeMismatch);
    let r = net.back_propagate(vec![0.1], vec![0.3, 0.4], &plus, &minus, &times, &scale, &act);
    assert_eq!(r.unwrap_err(), NetworkError::OutputSizeMismatch);
}

#[test]
fn fixed_seed_gives_identical_predictions() {
    let act = sigmoid_pair();
    let mut first = build(vec![2, 3, 1], 0.5, 42);
    let mut second = build(vec![2, 3, 1], 0.5, 42);
    let samples = vec![vec![0.0, 0.0], vec![1.0, 0.0], vec![0.25, 0.75]];
    for s in samples {
        let a = first.feed_forward(s.clone(), &plus, &times, &act).unwrap();
        let b = second.feed_forward(s, &plus, &times, &act).unwrap();
        assert_eq!(a, b);
    }
}

#[test]
fn different_seeds_give_different_predictions() {
    let act = sigmoid_pair();
    let mut first = build(vec![2, 3, 1], 0.5, 42);
    let mut second = build(vec![2, 3, 1], 0.5, 43);
    let a = first.feed_forward(vec![1.0, 0.0], &plus, &times, &act).unwrap();
    let b = second.feed_forward(vec![1.0, 0.0], &plus, &times, &act).unwrap();
    assert_ne!(a, b);
}

#[test]
fn train_rejects_nonconforming_samples() {
    let act = sigmoid_pair();
    let mut net = build(vec![2, 3, 1], 0.5, 11);
    let scale = |x: f64| x * 0.5;
    let before = net.feed_forward(vec![0.5, 0.5], &plus, &times, &act).unwrap();

    let r = net.train(
        vec![vec![0.0, 0.0]],
        Vec::new(),
        10,
        &plus,
        &minus,
        &times,
        &scale,
        &act,
    );
    assert_eq!(r.unwrap_err(), NetworkError::SampleCountMismatch);

    let r = net.train(
        vec![vec![0.0, 0.0, 0.0]],
        vec![vec![1.0]],
        10,
        &plus,
        &minus,
        &times,
        &scale,
        &act,
    );
    assert_eq!(r.unwrap_err(), NetworkError::InputSizeMismatch);

    let r = net.train(
        vec![vec![0.0, 0.0]],
        vec![vec![1.0, 1.0]],
        10,
        &plus,
        &minus,
        &times,
        &scale,
        &act,
    );
    assert_eq!(r.unwrap_err(), NetworkError::TargetSizeMismatch);

    let after = net.feed_forward(vec![0.5, 0.5], &plus, &times, &act).unwrap();
    assert_eq!(before, after);
}

#[test]
fn xor_training_converges() {
    let act = sigmoid_pair();
    let mut net = build(vec![2, 3, 1], 0.5, 1);
    let rate = net.rate();
    let scale = move |x: f64| x * rate;
    let inputs = vec![
        vec![0.0, 0.0],
        vec![1.0, 0.0],
        vec![0.0, 1.0],
        vec![1.0, 1.0],
    ];
    let targets = vec![vec![0.0], vec![1.0], vec![1.0], vec![0.0]];
    net.train(inputs, targets, 10000, &plus, &minus, &times, &scale, &act).unwrap();

    let low_a = net.feed_forward(vec![0.0, 0.0], &plus, &times, &act).unwrap()[0];
    let high_a = net.feed_forward(vec![1.0, 0.0], &plus, &times, &act).unwrap()[0];
    let high_b = net.feed_forward(vec![0.0, 1.0], &plus, &times, &act).unwrap()[0];
    let low_b = net.feed_forward(vec![1.0, 1.0], &plus, &times, &act).unwrap()[0];

    assert!(low_a < 0.5 && low_b < 0.5);
    assert!(high_a > 0.5 && high_b > 0.5);
    assert!(low_a.abs() < 0.1 && low_b.abs() < 0.1);
    assert!((1.0 - high_a).abs() < 0.1 && (1.0 - high_b).abs() < 0.1);
}

#[test]
fn single_sample_overfit_runs_end_to_end() {
    let act = sigmoid_pair();
    let mut net = build(vec![1, 1], 0.5, 1);
    let scale = |x: f64| x * 0.5;
    net.train(
        vec![vec![0.5]],
        vec![vec![1.0]],
        5000,
        &plus,
        &minus,
        &times,
        &scale,
        &act,
    )
    .unwrap();
    let out = net.feed_forward(vec![0.5], &plus, &times, &act).unwrap();
    assert_eq!(out.len(), 1);
    assert!((1.0 - out[0]).abs() < 0.05);
}

#[test]
fn topology_and_rate_are_kept() {
    let net = build(vec![2, 3, 1], 0.5, 1);
    assert_eq!(net.layer_sizes(), &vec![2, 3, 1]);
    assert_eq!(net.rate(), 0.5);
}
