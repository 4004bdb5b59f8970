use std::io::Write;

use flate2::write::GzEncoder;
use flate2::Compression;
use xz2::write::XzEncoder;

use flipsat::formula::Formula;
use flipsat::input::Input;

#[test]
fn it_decodes_gzipped_payloads() {
    let text = "p cnf 2 1\n1 -2 0\n";
    let mut encoder = GzEncoder::new(Vec::new(), Compression::default());
    encoder.write_all(text.as_bytes()).unwrap();
    let compressed = encoder.finish().unwrap();
    assert_ne!(compressed, text.as_bytes());

    assert_eq!(Input::decode_dimacs(&compressed), Some(text.to_string()));
}

#[test]
fn it_decodes_xz_payloads() {
    let text = "p cnf 3 2\n1 2 0\n-3 0\n";
    let mut encoder = XzEncoder::new(Vec::new(), 6);
    encoder.write_all(text.as_bytes()).unwrap();
    let compressed = encoder.finish().unwrap();
    assert_ne!(compressed, text.as_bytes());

    assert_eq!(Input::decode_dimacs(&compressed), Some(text.to_string()));
}

#[test]
fn it_passes_plain_text_through() {
    let text = "p cnf 1 1\n1 0\n";
    let bytes = text.as_bytes().to_vec();
    assert_eq!(Input::decode_dimacs(&bytes), Some(text.to_string()));
}

#[test]
fn it_rejects_bytes_that_are_neither_compressed_nor_text() {
    let bytes = vec![0xff, 0xfe, 0x00, 0x80];
    assert_eq!(Input::decode_dimacs(&bytes), None);
}

#[test]
fn well_formed_formulas_are_accepted() {
    let formula = Formula {
        num_vars: 3,
        clauses: vec![vec![1, -2], vec![3], vec![-1, -3, 2]],
    };
    assert!(formula.is_well_formed());
}

#[test]
fn zero_literals_are_rejected() {
    let formula = Formula {
        num_vars: 3,
        clauses: vec![vec![1, 0]],
    };
    assert!(!formula.is_well_formed());
}

#[test]
fn out_of_range_literals_are_rejected() {
    let formula = Formula {
        num_vars: 3,
        clauses: vec![vec![1, -4]],
    };
    assert!(!formula.is_well_formed());
}
