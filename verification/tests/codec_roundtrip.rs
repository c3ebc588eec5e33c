use pack2::codec::{contains_nonprintable, decode_hex_if_needed, encode_hex_if_needed, unhex};

#[test]
fn printable_line_is_left_alone() {
    let line = b"abc123".to_vec();
    assert!(!contains_nonprintable(&line));
    let mut out = Vec::new();
    encode_hex_if_needed(line.clone(), &mut out);
    assert_eq!(out, line);
    let (decoded, len) = decode_hex_if_needed(line.clone());
    assert_eq!(decoded, line);
    assert_eq!(len, 6);
}

#[test]
fn space_is_printable_low_control_is_not() {
    assert!(!contains_nonprintable(&b" ".to_vec()));
    assert!(contains_nonprintable(&vec![0x1f]));
    assert!(contains_nonprintable(&vec![0x80]));
    assert!(contains_nonprintable(&vec![0xff]));
    assert!(!contains_nonprintable(&b"~".to_vec()));
}

#[test]
fn binary_line_is_hex_wrapped() {
    let line = vec![0x01u8, 0x02u8];
    assert!(contains_nonprintable(&line));
    let mut out = Vec::new();
    encode_hex_if_needed(line.clone(), &mut out);
    assert_eq!(out, b"$HEX[0102]".to_vec());
    let (decoded, len) = decode_hex_if_needed(out);
    assert_eq!(decoded, vec![0x01u8, 0x02u8]);
    assert_eq!(len, 2);
}

#[test]
fn binary_round_trip_restores_all_bytes() {
    let line: Vec<u8> = (0u8..=255u8).collect();
    let mut out = Vec::new();
    encode_hex_if_needed(line.clone(), &mut out);
    assert_eq!(out[0..5].to_vec(), b"$HEX[".to_vec());
    assert_eq!(*out.last().unwrap(), b']');
    assert_eq!(out.len(), 2 * 256 + 6);
    let (decoded, len) = decode_hex_if_needed(out);
    assert_eq!(decoded, line);
    assert_eq!(len, 256);
}

#[test]
fn uppercase_hex_also_decodes() {
    let (decoded, len) = decode_hex_if_needed(b"$HEX[00ABff]".to_vec());
    assert_eq!(decoded, vec![0x00u8, 0xabu8, 0xffu8]);
    assert_eq!(len, 3);
}

#[test]
fn malformed_wrapper_is_kept_as_literal_text() {
    let odd = b"$HEX[abc]".to_vec();
    let (decoded, len) = decode_hex_if_needed(odd.clone());
    assert_eq!(decoded, odd);
    assert_eq!(len, 9);

    let bad_digit = b"$HEX[zz]".to_vec();
    let (decoded, len) = decode_hex_if_needed(bad_digit.clone());
    assert_eq!(decoded, bad_digit);
    assert_eq!(len, 8);
}

#[test]
fn non_wrapper_lines_keep_their_raw_length() {
    let line = b"$HEX[12".to_vec();
    let (decoded, len) = decode_hex_if_needed(line.clone());
    assert_eq!(decoded, line);
    assert_eq!(len, 7);
}

#[test]
fn empty_wrapper_decodes_to_empty_payload() {
    let (decoded, len) = decode_hex_if_needed(b"$HEX[]".to_vec());
    assert_eq!(decoded, Vec::<u8>::new());
    assert_eq!(len, 0);
}

#[test]
fn unhex_decodes_and_terminates_line() {
    assert_eq!(unhex(b"$HEX[6162]".to_vec()), b"ab\n".to_vec());
    assert_eq!(unhex(b"plain".to_vec()), b"plain\n".to_vec());
}
