//! Network creation, inference and mutation behaviour.

use cannon_ai::neural_network::NeuralNetwork;

fn bounded_network(net: &NeuralNetwork) -> bool {
    net.weights.iter().all(|m| {
        m.iter().all(|row| row.iter().all(|w| -1000 <= *w && *w <= 1000))
    }) && net.biases.iter().all(|b| b.iter().all(|w| -1000 <= *w && *w <= 1000))
}

#[test]
fn infer_three_layer_shape_and_range() {
    let net = NeuralNetwork::new_random(&vec![20, 10, 3]).unwrap();
    let input: Vec<i64> = vec![0; 20];
    let out = net.run(&input).unwrap();
    assert_eq!(out.len(), 3);
    for v in out {
        assert!(-1000 < v && v < 1000);
    }
}

#[test]
fn infer_on_occupancy_like_input() {
    let net = NeuralNetwork::new_random_unchecked(&vec![20, 10, 2]);
    let mut input: Vec<i64> = vec![0; 20];
    input[3] = 1000;
    input[10] = 1000;
    let out = net.run_unchecked(&input);
    assert_eq!(out.len(), 2);
    for v in out {
        assert!(-1000 < v && v < 1000);
    }
}

#[test]
fn new_random_rejects_short_layer_lists() {
    assert!(NeuralNetwork::new_random(&vec![]).is_err());
    assert!(NeuralNetwork::new_random(&vec![7]).is_err());
    assert!(NeuralNetwork::new_random(&vec![7, 3]).is_ok());
}

#[test]
fn run_rejects_wrong_input_length() {
    let net = NeuralNetwork::new_random(&vec![4, 3, 2]).unwrap();
    assert!(net.run(&vec![0; 3]).is_err());
    assert!(net.run(&vec![0; 5]).is_err());
    assert!(net.run(&vec![0; 4]).is_ok());
}

#[test]
fn mutate_repeatedly_stays_in_unit_interval() {
    let mut net = NeuralNetwork::new_random_unchecked(&vec![6, 5, 4]);
    for _ in 0..50 {
        net.tweak_continuous(500);
        assert!(bounded_network(&net));
    }
}

#[test]
fn discrete_mutate_stays_in_unit_interval() {
    let mut net = NeuralNetwork::new_random_unchecked(&vec![5, 4, 2]);
    for _ in 0..20 {
        net.tweak_discrete(2);
        assert!(bounded_network(&net));
    }
}

#[test]
fn inference_formula_on_known_weights() {
    // One transition, one neuron: out = act(w * x / 1000 + b) with the
    // squashing activation act(v) = v * 1000 / (1000 + |v|), truncated.
    let net = NeuralNetwork {
        input_size: 1,
        output_size: 1,
        weights: vec![vec![vec![1000]]],
        biases: vec![vec![0]],
    };
    let out = net.run_unchecked(&vec![500]);
    // pre-activation 500, activation 500000 / 1500 = 333
    assert_eq!(out, vec![333]);

    let out = net.run_unchecked(&vec![-500]);
    assert_eq!(out, vec![-333]);

    let out = net.run_unchecked(&vec![0]);
    assert_eq!(out, vec![0]);
}

#[test]
fn inference_applies_bias() {
    let net = NeuralNetwork {
        input_size: 1,
        output_size: 1,
        weights: vec![vec![vec![0]]],
        biases: vec![vec![1000]],
    };
    // pre-activation 1000, activation 1000000 / 2000 = 500
    assert_eq!(net.run_unchecked(&vec![777]), vec![500]);
}

#[test]
fn duplicate_copies_every_field() {
    let net = NeuralNetwork::new_random_unchecked(&vec![8, 6, 3]);
    let copy = net.duplicate();
    assert_eq!(copy.input_size, net.input_size);
    assert_eq!(copy.output_size, net.output_size);
    assert_eq!(copy.weights, net.weights);
    assert_eq!(copy.biases, net.biases);
}

#[test]
fn random_creation_gives_expected_shapes() {
    let net = NeuralNetwork::new_random_unchecked(&vec![20, 10, 3]);
    assert_eq!(net.input_size, 20);
    assert_eq!(net.output_size, 3);
    assert_eq!(net.weights.len(), 2);
    assert_eq!(net.weights[0].len(), 10);
    assert_eq!(net.weights[0][0].len(), 20);
    assert_eq!(net.weights[1].len(), 3);
    assert_eq!(net.weights[1][0].len(), 10);
    assert_eq!(net.biases[0].len(), 10);
    assert_eq!(net.biases[1].len(), 3);
    assert!(net.validate());
    for m in &net.weights {
        for row in m {
            for w in row {
                assert!(0 <= *w && *w < 1000);
            }
        }
    }
}

#[test]
fn validate_rejects_shape_mismatches() {
    let mut net = NeuralNetwork::new_random_unchecked(&vec![4, 3, 2]);
    assert!(net.validate());
    net.output_size = 5;
    assert!(!net.validate());
    net.output_size = 2;
    assert!(net.validate());
    net.weights[0][1] = vec![0; 9];
    assert!(!net.validate());
}
