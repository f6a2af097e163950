//! The persistence format: token streams and whole network tables.

use cannon_ai::codec::{
    encode_values, decode_values, save_networks, load_networks, table_is_saveable,
    TOKEN_BYTES,
};
use cannon_ai::neural_network::NeuralNetwork;

#[test]
fn value_stream_round_trip() {
    let values: Vec<i64> = vec![0, 1, -1, 1000, -1000, 9_223_372_036_854_775_807, 42];
    let bytes = encode_values(&values);
    assert_eq!(bytes.len(), TOKEN_BYTES * (values.len() + 1));
    let back = decode_values(&bytes).unwrap();
    assert_eq!(back, values);
}

#[test]
fn the_document_is_plain_text_lines() {
    let bytes = encode_values(&vec![-5]);
    let text = String::from_utf8(bytes).unwrap();
    let lines: Vec<&str> = text.lines().collect();
    assert_eq!(lines.len(), 2);
    assert_eq!(lines[0], "+00000000000000000001");
    assert_eq!(lines[1], "-00000000000000000005");
}

#[test]
fn corrupted_documents_are_rejected() {
    let mut bytes = encode_values(&vec![7, 8]);
    bytes[25] = b'x';
    assert!(decode_values(&bytes).is_none());

    let bytes = encode_values(&vec![7, 8]);
    let mut truncated = bytes.clone();
    truncated.pop();
    assert!(decode_values(&truncated).is_none());

    assert!(decode_values(&Vec::new()).is_none());
    assert!(decode_values(&vec![b'+'; 11]).is_none());
}

#[test]
fn network_table_round_trip_preserves_inference() {
    let nets = vec![
        NeuralNetwork::new_random_unchecked(&vec![20, 10, 3]),
        NeuralNetwork::new_random_unchecked(&vec![20, 10, 3]),
        NeuralNetwork::new_random_unchecked(&vec![20, 10, 3]),
    ];
    let bytes = save_networks(&nets);
    let back = load_networks(&bytes).unwrap();
    assert_eq!(back.len(), nets.len());
    let mut probe: Vec<i64> = vec![0; 20];
    probe[2] = 1000;
    probe[17] = 1000;
    for (a, b) in nets.iter().zip(back.iter()) {
        assert_eq!(a.input_size, b.input_size);
        assert_eq!(a.output_size, b.output_size);
        assert_eq!(a.weights, b.weights);
        assert_eq!(a.biases, b.biases);
        assert_eq!(a.run_unchecked(&probe), b.run_unchecked(&probe));
    }
}

#[test]
fn network_table_round_trip_for_fire_networks() {
    let nets = vec![
        NeuralNetwork::new_random_unchecked(&vec![20, 10, 2]),
        NeuralNetwork::new_random_unchecked(&vec![20, 10, 2]),
    ];
    let bytes = save_networks(&nets);
    let back = load_networks(&bytes).unwrap();
    assert_eq!(back.len(), 2);
    for (a, b) in nets.iter().zip(back.iter()) {
        assert_eq!(a.weights, b.weights);
        assert_eq!(a.biases, b.biases);
    }
}

#[test]
fn large_population_tables_are_saveable() {
    // far more members than any single machine's parallelism
    let mut nets = Vec::new();
    for _ in 0..150 {
        nets.push(NeuralNetwork::new_random_unchecked(&vec![20, 10, 3]));
    }
    assert!(table_is_saveable(&nets));
    let bytes = save_networks(&nets);
    let back = load_networks(&bytes).unwrap();
    assert_eq!(back.len(), 150);
    for (a, b) in nets.iter().zip(back.iter()) {
        assert_eq!(a.weights, b.weights);
        assert_eq!(a.biases, b.biases);
    }
}

#[test]
fn loading_a_tampered_table_fails_cleanly() {
    let nets = vec![NeuralNetwork::new_random_unchecked(&vec![4, 3, 2])];
    let mut bytes = save_networks(&nets);
    let len = bytes.len();
    bytes.truncate(len - TOKEN_BYTES);
    assert!(load_networks(&bytes).is_none());
}
