use magic_cube::codec::{decode, encode};

fn rows(m: &[&[u32]]) -> Vec<Vec<u32>> {
    m.iter().map(|r| r.to_vec()).collect()
}

#[test]
fn lenient_parsing_drops_bad_tokens() {
    let got = decode(&b"1,x,2|3,,4".to_vec());
    assert_eq!(got, rows(&[&[1, 2], &[3, 4]]));
}

#[test]
fn decode_trims_whitespace() {
    let got = decode(&b" 1 ,\t2 | 3 ".to_vec());
    assert_eq!(got, rows(&[&[1, 2], &[3]]));
}

#[test]
fn decode_accepts_plus_and_leading_zeros() {
    let got = decode(&b"+7,007".to_vec());
    assert_eq!(got, rows(&[&[7, 7]]));
}

#[test]
fn decode_drops_overflowing_tokens() {
    let got = decode(&b"4294967295,4294967296".to_vec());
    assert_eq!(got, rows(&[&[4294967295]]));
}

#[test]
fn decode_empty_text_is_one_empty_row() {
    let got = decode(&b"".to_vec());
    assert_eq!(got, rows(&[&[]]));
}

#[test]
fn decode_lone_separator_is_two_empty_rows() {
    let got = decode(&b"|".to_vec());
    assert_eq!(got, rows(&[&[], &[]]));
}

#[test]
fn decode_keeps_jagged_rows() {
    let got = decode(&b"1|2,3,4|5,6".to_vec());
    assert_eq!(got, rows(&[&[1], &[2, 3, 4], &[5, 6]]));
}

#[test]
fn encode_joins_with_separators() {
    let text = encode(&rows(&[&[2, 3, 0, 1], &[1, 2, 3, 0]]));
    assert_eq!(text, b"2,3,0,1|1,2,3,0".to_vec());
}

#[test]
fn encode_empty_rows_leave_only_separators() {
    let text = encode(&rows(&[&[], &[]]));
    assert_eq!(text, b"|".to_vec());
}

#[test]
fn round_trip_restores_the_matrix() {
    let m = rows(&[&[12, 0], &[345], &[4294967295, 1, 9]]);
    assert_eq!(decode(&encode(&m)), m);
}

#[test]
fn round_trip_with_empty_row() {
    let m = rows(&[&[1], &[]]);
    assert_eq!(decode(&encode(&m)), m);
}
