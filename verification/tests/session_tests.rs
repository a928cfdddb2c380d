use matrix_service::session::{
    handle_request, MatrixRequest, PairSlot, ProtocolError, RawSession, SessionState, WireMatrix,
};

fn word_stream(ws: &[i32]) -> Vec<u8> {
    let mut out = Vec::new();
    for w in ws {
        out.extend_from_slice(&w.to_be_bytes());
    }
    out
}

fn wire(rows: u32, cols: u32, data: &[i32]) -> WireMatrix {
    WireMatrix { rows, cols, data: data.to_vec() }
}

#[test]
fn structured_request_is_served_with_its_id() {
    let req = MatrixRequest {
        id: 42,
        matrix1: Some(wire(2, 2, &[1, 2, 3, 4])),
        matrix2: Some(wire(2, 2, &[5, 6, 7, 8])),
    };
    let resp = handle_request(&req).unwrap();
    assert_eq!(resp.id, 42);
    assert_eq!(resp.matrix.rows, 2);
    assert_eq!(resp.matrix.cols, 2);
    assert_eq!(resp.matrix.data, vec![19, 22, 43, 50]);
}

#[test]
fn structured_missing_operand_is_malformed() {
    let req = MatrixRequest {
        id: 1,
        matrix1: Some(wire(2, 2, &[1, 2, 3, 4])),
        matrix2: None,
    };
    assert_eq!(handle_request(&req).err(), Some(ProtocolError::MalformedRequest));
}

#[test]
fn structured_short_data_is_malformed() {
    let req = MatrixRequest {
        id: 1,
        matrix1: Some(wire(2, 2, &[1, 2, 3])),
        matrix2: Some(wire(2, 2, &[5, 6, 7, 8])),
    };
    assert_eq!(handle_request(&req).err(), Some(ProtocolError::MalformedRequest));
}

#[test]
fn structured_shape_mismatch_is_rejected() {
    let req = MatrixRequest {
        id: 1,
        matrix1: Some(wire(2, 2, &[1, 2, 3, 4])),
        matrix2: Some(wire(3, 2, &[1, 2, 3, 4, 5, 6])),
    };
    assert_eq!(handle_request(&req).err(), Some(ProtocolError::DimensionMismatch));
}

#[test]
fn structured_extra_values_are_ignored() {
    let req = MatrixRequest {
        id: 9,
        matrix1: Some(wire(1, 1, &[3, 100, 200])),
        matrix2: Some(wire(1, 1, &[4])),
    };
    let resp = handle_request(&req).unwrap();
    assert_eq!(resp.matrix.data, vec![12]);
}

#[test]
fn single_matrix_messages_pair_in_order() {
    let mut slot = PairSlot::new();
    assert!(slot.offer(&wire(2, 2, &[1, 2, 3, 4])).unwrap().is_none());
    let reply = slot.offer(&wire(2, 2, &[5, 6, 7, 8])).unwrap().unwrap();
    assert_eq!(reply.rows, 2);
    assert_eq!(reply.cols, 2);
    assert_eq!(reply.data, vec![19, 22, 43, 50]);
    // the slot is empty again: a third matrix starts a new pair
    assert!(slot.offer(&wire(1, 1, &[9])).unwrap().is_none());
}

#[test]
fn single_matrix_mismatch_is_rejected() {
    let mut slot = PairSlot::new();
    assert!(slot.offer(&wire(1, 2, &[1, 2])).unwrap().is_none());
    assert_eq!(
        slot.offer(&wire(3, 1, &[1, 2, 3])).err(),
        Some(ProtocolError::DimensionMismatch)
    );
}

#[test]
fn single_matrix_malformed_leaves_held_operand() {
    let mut slot = PairSlot::new();
    assert!(slot.offer(&wire(1, 1, &[6])).unwrap().is_none());
    assert_eq!(
        slot.offer(&wire(2, 2, &[1])).err(),
        Some(ProtocolError::MalformedRequest)
    );
    let reply = slot.offer(&wire(1, 1, &[7])).unwrap().unwrap();
    assert_eq!(reply.data, vec![42]);
}

#[test]
fn raw_session_answers_each_pair() {
    let mut s = RawSession::new();
    let out = s.on_bytes(&word_stream(&[2, 2, 1, 2, 3, 4, 2, 2, 5, 6, 7, 8]));
    assert_eq!(out, word_stream(&[2, 2, 19, 22, 43, 50]));
    assert_eq!(s.state(), SessionState::AwaitingData);
}

#[test]
fn raw_session_split_feed_matches_single_chunk() {
    let bytes = word_stream(&[2, 2, 1, 2, 3, 4, 2, 2, 5, 6, 7, 8]);
    let mut s = RawSession::new();
    let mut all = Vec::new();
    for b in &bytes {
        all.extend(s.on_bytes(&vec![*b]));
    }
    assert_eq!(all, word_stream(&[2, 2, 19, 22, 43, 50]));
    assert_eq!(s.state(), SessionState::AwaitingData);
}

#[test]
fn raw_session_one_record_then_disconnect() {
    let mut s = RawSession::new();
    let out = s.on_bytes(&word_stream(&[2, 2, 1, 2, 3, 4]));
    assert!(out.is_empty());
    assert_eq!(s.state(), SessionState::AwaitingData);
    s.close();
    assert_eq!(s.state(), SessionState::Closed);
    let out = s.on_bytes(&word_stream(&[2, 2, 5, 6, 7, 8]));
    assert!(out.is_empty());
    assert_eq!(s.state(), SessionState::Closed);
}

#[test]
fn raw_session_incompatible_pair_closes_without_output() {
    let mut s = RawSession::new();
    let out = s.on_bytes(&word_stream(&[1, 2, 10, 20, 3, 1, 1, 2, 3]));
    assert!(out.is_empty());
    assert_eq!(s.state(), SessionState::Closed);
}

#[test]
fn raw_session_negative_dimension_closes() {
    let mut s = RawSession::new();
    let out = s.on_bytes(&word_stream(&[-4, 1]));
    assert!(out.is_empty());
    assert_eq!(s.state(), SessionState::Closed);
}

#[test]
fn raw_session_good_pair_before_bad_pair_still_answers() {
    let mut s = RawSession::new();
    let first = s.on_bytes(&word_stream(&[1, 1, 2, 1, 1, 3]));
    assert_eq!(first, word_stream(&[1, 1, 6]));
    let second = s.on_bytes(&word_stream(&[1, 2, 5, 5, 3, 3, 0, 0, 0, 0, 0, 0, 0, 0, 0]));
    assert!(second.is_empty());
    assert_eq!(s.state(), SessionState::Closed);
}
