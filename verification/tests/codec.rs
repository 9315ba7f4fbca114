use bsv::decode_bsv;
use bsv::encode_bsv;
use bsv::DecodeError;

fn text(s: &str) -> Option<String> {
    Some(s.to_string())
}

#[test]
fn null_empty_and_text_are_distinct() {
    let array = vec![vec![None, Some(String::new()), text("x")]];
    let bytes = encode_bsv(&array);
    assert_eq!(bytes, vec![0xFD, 0xFE, 0xFC, 0xFE, 0x78]);
}

#[test]
fn rows_are_separated_without_trailing_separator() {
    let array = vec![vec![text("a")], vec![text("b")]];
    let bytes = encode_bsv(&array);
    assert_eq!(bytes, vec![0x61, 0xFF, 0x62]);
}

#[test]
fn markers_decode_back_to_null_and_empty() {
    let decoded = decode_bsv(vec![0xFD, 0xFE, 0xFC, 0xFE, 0x78]).unwrap();
    assert_eq!(decoded, vec![vec![None, Some(String::new()), text("x")]]);
}

#[test]
fn single_null_marker_is_one_null_cell() {
    assert_eq!(decode_bsv(vec![0xFD]).unwrap(), vec![vec![None]]);
}

#[test]
fn single_empty_marker_is_one_empty_cell() {
    assert_eq!(decode_bsv(vec![0xFC]).unwrap(), vec![vec![Some(String::new())]]);
}

#[test]
fn multibyte_text_round_trips() {
    let array = vec![
        vec![text("Hello"), text("\u{1F30E}"), None, Some(String::new())],
        vec![text("A\0B\nC"), text("Test \u{1D11E}")],
    ];
    let bytes = encode_bsv(&array);
    let decoded = decode_bsv(bytes).unwrap();
    assert_eq!(decoded, array);
}

#[test]
fn interior_low_bytes_are_never_delimiters() {
    let array = vec![vec![text("\0\n\t"), text("a\0b")]];
    let bytes = encode_bsv(&array);
    assert_eq!(bytes, vec![0x00, 0x0A, 0x09, 0xFE, 0x61, 0x00, 0x62]);
    assert_eq!(decode_bsv(bytes).unwrap(), array);
}

#[test]
fn non_ascii_text_decodes_to_characters() {
    let decoded = decode_bsv(vec![0xC3, 0xA9]).unwrap();
    assert_eq!(decoded, vec![vec![text("\u{E9}")]]);
}

#[test]
fn empty_stream_is_one_row_with_no_cells() {
    let decoded = decode_bsv(Vec::new()).unwrap();
    assert_eq!(decoded, vec![Vec::<Option<String>>::new()]);
}

#[test]
fn zero_rows_encode_to_empty_stream() {
    let bytes = encode_bsv(&Vec::new());
    assert_eq!(bytes, Vec::<u8>::new());
    // The empty stream reads back as one empty row, not as zero rows: the
    // zero-row array is the format's one departure from a perfect round trip.
    assert_eq!(decode_bsv(bytes).unwrap(), vec![Vec::<Option<String>>::new()]);
}

#[test]
fn empty_rows_round_trip() {
    let array: Vec<Vec<Option<String>>> = vec![vec![], vec![], vec![]];
    let bytes = encode_bsv(&array);
    assert_eq!(bytes, vec![0xFF, 0xFF]);
    assert_eq!(decode_bsv(bytes).unwrap(), array);
}

#[test]
fn single_empty_row_round_trips_through_empty_stream() {
    let array: Vec<Vec<Option<String>>> = vec![vec![]];
    let bytes = encode_bsv(&array);
    assert_eq!(bytes, Vec::<u8>::new());
    assert_eq!(decode_bsv(bytes).unwrap(), array);
}

#[test]
fn lone_continuation_byte_is_invalid_encoding() {
    assert_eq!(decode_bsv(vec![0x80]), Err(DecodeError::InvalidEncoding));
}

#[test]
fn truncated_utf8_sequence_is_invalid_encoding() {
    // 0xC3 opens a two-byte sequence that never finishes.
    assert_eq!(decode_bsv(vec![0x61, 0xFF, 0xC3]), Err(DecodeError::InvalidEncoding));
}

#[test]
fn marker_byte_inside_longer_segment_is_invalid_encoding() {
    // A two-byte segment is read as text, and 0xFC can never occur in UTF-8.
    assert_eq!(decode_bsv(vec![0xFC, 0x41]), Err(DecodeError::InvalidEncoding));
}

#[test]
fn empty_segment_before_cell_separator_is_invalid_structure() {
    assert_eq!(decode_bsv(vec![0xFE, 0x61]), Err(DecodeError::InvalidStructure));
}

#[test]
fn empty_segment_after_cell_separator_is_invalid_structure() {
    assert_eq!(decode_bsv(vec![0x61, 0xFE]), Err(DecodeError::InvalidStructure));
}

#[test]
fn empty_segment_between_cell_separators_is_invalid_structure() {
    assert_eq!(decode_bsv(vec![0x61, 0xFE, 0xFE, 0x62]), Err(DecodeError::InvalidStructure));
}

#[test]
fn empty_segment_between_row_and_cell_separator_is_invalid_structure() {
    assert_eq!(decode_bsv(vec![0x61, 0xFF, 0xFE, 0x62]), Err(DecodeError::InvalidStructure));
}

#[test]
fn utf8_error_before_structure_error_wins() {
    // The scan is left to right: the bad text segment comes first.
    assert_eq!(decode_bsv(vec![0x80, 0xFE]), Err(DecodeError::InvalidEncoding));
}

#[test]
fn jagged_rows_round_trip() {
    let array = vec![
        vec![text("one")],
        vec![],
        vec![None, None, text("three"), Some(String::new())],
        vec![text(""), text("x")],
    ];
    let decoded = decode_bsv(encode_bsv(&array)).unwrap();
    assert_eq!(decoded, array);
}
