use speedytree::{read_phylip_distance_matrix, DistanceMatrix};

fn to_f64_matrix(d: &DistanceMatrix) -> Vec<Vec<f64>> {
    let den = d.den as f64;
    d.matrix
        .iter()
        .map(|row| row.iter().map(|v| *v as f64 / den).collect())
        .collect()
}

#[test]
fn test_distance_matrix_from_stdin() {
    let input = "4
A 0.0 5.0 9.0 9.0
B 5.0 0.0 10.0 10.0
C 9.0 10.0 0.0 8.0
D 9.0 10.0 8.0 0.0
"
    .as_bytes();
    let distance_matrix = read_phylip_distance_matrix(input).unwrap();
    assert_eq!(
        to_f64_matrix(&distance_matrix),
        vec![
            vec![0.0, 5.0, 9.0, 9.0],
            vec![5.0, 0.0, 10.0, 10.0],
            vec![9.0, 10.0, 0.0, 8.0],
            vec![9.0, 10.0, 8.0, 0.0],
        ]
    );
    assert_eq!(
        distance_matrix.names,
        vec![
            "A".to_string(),
            "B".to_string(),
            "C".to_string(),
            "D".to_string()
        ]
    );
}

#[test]
fn distances_test_distance_matrix_from_stdin() {
    let input = "4
A 0.0 5.0 9.0 9.0
B 5.0 0.0 10.0 10.0
C 9.0 10.0 0.0 8.0
D 9.0 10.0 8.0 0.0
"
    .as_bytes();
    let distance_matrix = DistanceMatrix::read_from_phylip(input).unwrap();
    assert_eq!(
        to_f64_matrix(&distance_matrix),
        vec![
            vec![0.0, 5.0, 9.0, 9.0],
            vec![5.0, 0.0, 10.0, 10.0],
            vec![9.0, 10.0, 0.0, 8.0],
            vec![9.0, 10.0, 8.0, 0.0],
        ]
    );
    assert_eq!(
        distance_matrix.names,
        vec![
            "A".to_string(),
            "B".to_string(),
            "C".to_string(),
            "D".to_string()
        ]
    );
}

#[test]
fn phylip_rejects_malformed_input() {
    assert!(read_phylip_distance_matrix("".as_bytes())
        .unwrap_err()
        .is_input_invalid());
    assert!(read_phylip_distance_matrix("x\nA 0.0".as_bytes())
        .unwrap_err()
        .is_input_invalid());
    assert!(read_phylip_distance_matrix("2\nA 0.0 1.0".as_bytes())
        .unwrap_err()
        .is_input_invalid());
    assert!(read_phylip_distance_matrix("1\nA 0.0 1.0".as_bytes())
        .unwrap_err()
        .is_input_invalid());
}
