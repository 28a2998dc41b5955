use tictactoe::storage::ParseError;
use tictactoe::table::{generate_table, Record, Table};

fn parse_err(bytes: &[u8]) -> ParseError {
    match Table::from_bytes(&bytes.to_vec()) {
        Err(e) => e,
        Ok(_) => panic!("expected a load failure"),
    }
}

#[test]
fn round_trip_preserves_every_record() {
    let table = generate_table();
    let bytes = table.to_bytes();
    let loaded = Table::from_bytes(&bytes).expect("a freshly written table must load");
    assert_eq!(loaded.records.len(), table.records.len());
    for (a, b) in table.records.iter().zip(loaded.records.iter()) {
        assert_eq!(a.key, b.key);
        assert_eq!(a.replies, b.replies);
    }
}

#[test]
fn serialization_format_is_the_delimited_text_file() {
    let table = Table {
        records: vec![
            Record { key: String::from("CEEEEEEEE"), replies: vec![(1, 1)] },
            Record { key: String::from("EEEECEEEE"), replies: vec![(0, 0), (2, 2)] },
        ],
    };
    let bytes = table.to_bytes();
    let text = String::from_utf8(bytes).unwrap();
    assert_eq!(text, "now,next_moves\nCEEEEEEEE,11\nEEEECEEEE,00:22\n");
}

#[test]
fn loading_a_handwritten_file_recovers_the_records() {
    let bytes = b"now,next_moves\nCEEEEEEEE,11\nEEEECEEEE,00:22\n".to_vec();
    let table = Table::from_bytes(&bytes).unwrap();
    assert_eq!(table.records.len(), 2);
    assert_eq!(table.records[0].key, "CEEEEEEEE");
    assert_eq!(table.records[0].replies, vec![(1, 1)]);
    assert_eq!(table.records[1].key, "EEEECEEEE");
    assert_eq!(table.records[1].replies, vec![(0, 0), (2, 2)]);
}

#[test]
fn missing_or_wrong_header_is_rejected() {
    assert_eq!(parse_err(b""), ParseError::BadHeader);
    assert_eq!(parse_err(b"key,moves\nCEEEEEEEE,11\n"), ParseError::BadHeader);
}

#[test]
fn bad_key_character_is_rejected() {
    assert_eq!(parse_err(b"now,next_moves\nCEEEXEEEE,11\n"), ParseError::BadKey);
}

#[test]
fn truncated_key_is_rejected() {
    assert_eq!(parse_err(b"now,next_moves\nCEE\n"), ParseError::BadKey);
}

#[test]
fn missing_comma_is_rejected() {
    assert_eq!(parse_err(b"now,next_moves\nCEEEEEEEE;11\n"), ParseError::BadSeparator);
}

#[test]
fn non_digit_coordinate_is_rejected() {
    assert_eq!(parse_err(b"now,next_moves\nCEEEEEEEE,1x\n"), ParseError::BadMove);
    assert_eq!(parse_err(b"now,next_moves\nCEEEEEEEE,91\n"), ParseError::BadMove);
}

#[test]
fn unsorted_replies_are_rejected() {
    assert_eq!(parse_err(b"now,next_moves\nCEEEEEEEE,22:00\n"), ParseError::OutOfOrderMove);
    assert_eq!(parse_err(b"now,next_moves\nCEEEEEEEE,11:11\n"), ParseError::OutOfOrderMove);
}

#[test]
fn duplicate_keys_are_rejected() {
    assert_eq!(parse_err(b"now,next_moves\nCEEEEEEEE,11\nCEEEEEEEE,11\n"), ParseError::DuplicateKey);
}

#[test]
fn unterminated_line_is_rejected() {
    assert_eq!(parse_err(b"now,next_moves\nCEEEEEEEE,11"), ParseError::BadSeparator);
}
