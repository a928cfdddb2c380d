use matrix_service::matrix::Matrix;
use matrix_service::raw::{encode_matrix, RawDecoder};

fn word_stream(ws: &[i32]) -> Vec<u8> {
    let mut out = Vec::new();
    for w in ws {
        out.extend_from_slice(&w.to_be_bytes());
    }
    out
}

fn shapes_and_values(ms: &[Matrix]) -> Vec<((u32, u32), Vec<i32>)> {
    ms.iter().map(|m| (m.shape(), m.to_sequence())).collect()
}

#[test]
fn grouping_single_chunk() {
    let mut d = RawDecoder::new();
    let (ms, violation) = d.push_bytes(&word_stream(&[2, 2, 1, 2, 3, 4]));
    assert!(!violation);
    assert_eq!(shapes_and_values(&ms), vec![((2, 2), vec![1, 2, 3, 4])]);
}

#[test]
fn grouping_byte_at_a_time() {
    let bytes = word_stream(&[2, 2, 1, 2, 3, 4]);
    let mut d = RawDecoder::new();
    let mut all = Vec::new();
    for b in &bytes {
        let (ms, violation) = d.push_bytes(&vec![*b]);
        assert!(!violation);
        all.extend(ms);
    }
    assert_eq!(shapes_and_values(&all), vec![((2, 2), vec![1, 2, 3, 4])]);
}

#[test]
fn grouping_every_split_point() {
    let bytes = word_stream(&[2, 2, 1, 2, 3, 4]);
    for split in 0..=bytes.len() {
        let mut d = RawDecoder::new();
        let (mut ms, v1) = d.push_bytes(&bytes[..split].to_vec());
        let (ms2, v2) = d.push_bytes(&bytes[split..].to_vec());
        assert!(!v1 && !v2);
        ms.extend(ms2);
        assert_eq!(shapes_and_values(&ms), vec![((2, 2), vec![1, 2, 3, 4])]);
    }
}

#[test]
fn partial_final_word_is_held_back() {
    // A 1x1 record whose value arrives one byte short: no matrix and no
    // spurious word until the last byte lands.
    let bytes = word_stream(&[1, 1, 99]);
    let mut d = RawDecoder::new();
    let (ms, violation) = d.push_bytes(&bytes[..bytes.len() - 1].to_vec());
    assert!(ms.is_empty());
    assert!(!violation);
    let (ms, violation) = d.push_bytes(&vec![bytes[bytes.len() - 1]]);
    assert!(!violation);
    assert_eq!(shapes_and_values(&ms), vec![((1, 1), vec![99])]);
}

#[test]
fn zero_sized_record_is_a_valid_empty_matrix() {
    let mut d = RawDecoder::new();
    let (ms, violation) = d.push_bytes(&word_stream(&[0, 5, 3, 0, 1, 1, 8]));
    assert!(!violation);
    assert_eq!(
        shapes_and_values(&ms),
        vec![((0, 5), vec![]), ((3, 0), vec![]), ((1, 1), vec![8])]
    );
}

#[test]
fn incomplete_record_waits_for_more_data() {
    let mut d = RawDecoder::new();
    let (ms, violation) = d.push_bytes(&word_stream(&[2, 2, 1, 2]));
    assert!(ms.is_empty());
    assert!(!violation);
    let (ms, violation) = d.push_bytes(&word_stream(&[3, 4]));
    assert!(!violation);
    assert_eq!(shapes_and_values(&ms), vec![((2, 2), vec![1, 2, 3, 4])]);
}

#[test]
fn negative_dimension_is_a_violation() {
    let mut d = RawDecoder::new();
    let (ms, violation) = d.push_bytes(&word_stream(&[-1, 2]));
    assert!(ms.is_empty());
    assert!(violation);
}

#[test]
fn matrices_before_a_violation_still_come_out() {
    let mut d = RawDecoder::new();
    let (ms, violation) = d.push_bytes(&word_stream(&[1, 1, 7, -3, 0]));
    assert!(violation);
    assert_eq!(shapes_and_values(&ms), vec![((1, 1), vec![7])]);
}

#[test]
fn two_records_in_one_chunk() {
    let mut d = RawDecoder::new();
    let (ms, violation) = d.push_bytes(&word_stream(&[1, 1, 5, 1, 1, 6]));
    assert!(!violation);
    assert_eq!(
        shapes_and_values(&ms),
        vec![((1, 1), vec![5]), ((1, 1), vec![6])]
    );
}

#[test]
fn encode_matrix_emits_headers_then_values() {
    let mut m = Matrix::new(2, 2);
    m.fill(&vec![19, 22, 43, 50], 0).unwrap();
    assert_eq!(encode_matrix(&m), word_stream(&[2, 2, 19, 22, 43, 50]));
}
