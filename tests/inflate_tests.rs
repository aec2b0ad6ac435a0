use inflate::{construct, inflate, payload_start, HeaderError, InflateError};

fn sample_text() -> Vec<u8> {
    let mut s = String::new();
    for i in 0..40u32 {
        s.push_str(&format!(
            "line {}: the quick brown fox jumps over the lazy dog {}\n",
            i,
            i * i % 17
        ));
    }
    s.into_bytes()
}

#[test]
fn round_trip_dynamic_level9() {
    let stream: Vec<u8> = vec![
        157, 149, 201, 17, 194, 48, 12, 69, 239, 84, 161, 18, 44, 201, 118, 108, 186, 97, 9, 16,
        8, 9, 4, 194, 86, 61, 3, 170, 64, 255, 236, 121, 99, 233, 47, 118, 223, 13, 45, 133, 37,
        221, 15, 45, 93, 231, 110, 115, 162, 245, 52, 62, 7, 218, 141, 47, 58, 206, 231, 203, 141,
        198, 71, 59, 253, 143, 251, 213, 231, 77, 219, 113, 79, 97, 209, 255, 40, 246, 81, 108,
        148, 248, 168, 104, 148, 250, 168, 106, 84, 116, 78, 152, 13, 75, 62, 172, 24, 149, 125,
        148, 24, 213, 56, 71, 76, 134, 21, 39, 166, 134, 85, 12, 227, 128, 77, 201, 12, 105, 194,
        2, 25, 192, 138, 217, 205, 17, 10, 23, 39, 40, 201, 156, 161, 218, 112, 131, 117, 180, 96,
        183, 85, 104, 55, 9, 144, 146, 194, 152, 113, 130, 229, 68, 20, 74, 165, 68, 172, 4, 146,
        176, 210, 73, 6, 57, 240, 73, 145, 130, 201, 82, 33, 19, 52, 96, 158, 43, 67, 17, 83, 240,
        219, 81, 168, 62, 26, 161, 178, 106, 194, 110, 203, 216, 110, 13, 166, 100, 1, 141, 115,
        231, 228, 11,
    ];
    let text = sample_text();
    assert_eq!(text.len(), 2203);
    assert_eq!(inflate(&stream), Ok(text));
}

#[test]
fn round_trip_level1() {
    let stream: Vec<u8> = vec![
        157, 213, 71, 14, 194, 64, 12, 64, 209, 61, 167, 240, 17, 176, 135, 126, 27, 74, 168, 129,
        208, 66, 59, 61, 2, 219, 236, 63, 235, 232, 75, 51, 227, 103, 165, 222, 28, 42, 233, 78,
        228, 186, 174, 228, 212, 110, 230, 59, 153, 157, 155, 251, 65, 150, 205, 67, 182, 237,
        254, 120, 145, 230, 86, 157, 191, 159, 235, 233, 235, 41, 139, 102, 37, 221, 78, 253, 169,
        148, 85, 234, 149, 177, 170, 231, 85, 97, 213, 216, 171, 30, 171, 116, 224, 89, 159, 101,
        35, 175, 6, 172, 50, 175, 134, 172, 210, 190, 103, 35, 152, 21, 207, 198, 255, 101, 10,
        129, 228, 41, 21, 18, 137, 55, 81, 104, 36, 6, 160, 16, 73, 142, 91, 33, 147, 192, 165,
        144, 73, 72, 86, 232, 36, 214, 70, 33, 148, 220, 81, 10, 197, 157, 40, 132, 18, 119, 51,
        232, 36, 94, 210, 32, 147, 28, 156, 253, 231, 196, 160, 147, 80, 105, 144, 73, 46, 129,
        65, 39, 26, 187, 106, 20, 74, 118, 80, 202, 239, 156, 144, 74, 62, 11, 164, 18, 203, 90,
        32, 149, 156, 121, 129, 86, 130, 88, 129, 84, 242, 183, 3, 169, 196, 178, 22, 72, 37, 150,
        181, 80, 41, 190, 172, 5, 66, 201, 187, 65, 39, 249, 146, 144, 201, 111, 112, 216, 201,
        27,
    ];
    assert_eq!(inflate(&stream), Ok(sample_text()));
}

#[test]
fn round_trip_empty_input() {
    assert_eq!(inflate(&[3, 0]), Ok(vec![]));
}

#[test]
fn stored_block_identity() {
    let data: Vec<u8> = b"stored bytes\x00\xff".to_vec();
    let n = data.len() as u16;
    let mut stream: Vec<u8> = vec![1, (n & 0xff) as u8, (n >> 8) as u8];
    stream.push((!n & 0xff) as u8);
    stream.push((!n >> 8) as u8);
    stream.extend_from_slice(&data);
    assert_eq!(inflate(&stream), Ok(data));
}

#[test]
fn stored_block_empty() {
    assert_eq!(inflate(&[1, 0, 0, 255, 255]), Ok(vec![]));
}

#[test]
fn fixed_block_literals() {
    assert_eq!(inflate(&[243, 72, 205, 201, 201, 7, 0]), Ok(b"Hello".to_vec()));
}

#[test]
fn fixed_block_every_byte_value() {
    let stream: Vec<u8> = vec![
        99, 96, 100, 98, 102, 97, 101, 99, 231, 224, 228, 226, 230, 225, 229, 227, 23, 16, 20, 18,
        22, 17, 21, 19, 151, 144, 148, 146, 150, 145, 149, 147, 87, 80, 84, 82, 86, 81, 85, 83,
        215, 208, 212, 210, 214, 209, 213, 211, 55, 48, 52, 50, 54, 49, 53, 51, 183, 176, 180,
        178, 182, 177, 181, 179, 119, 112, 116, 114, 118, 113, 117, 115, 247, 240, 244, 242, 246,
        241, 245, 243, 15, 8, 12, 10, 14, 9, 13, 11, 143, 136, 140, 138, 142, 137, 141, 139, 79,
        72, 76, 74, 78, 73, 77, 75, 207, 200, 204, 202, 206, 201, 205, 203, 47, 40, 44, 42, 46,
        41, 45, 43, 175, 168, 172, 170, 174, 169, 173, 171, 111, 104, 108, 106, 110, 105, 109,
        107, 239, 232, 236, 234, 238, 233, 237, 235, 159, 48, 113, 210, 228, 41, 83, 167, 77, 159,
        49, 115, 214, 236, 57, 115, 231, 205, 95, 176, 112, 209, 226, 37, 75, 151, 45, 95, 177,
        114, 213, 234, 53, 107, 215, 173, 223, 176, 113, 211, 230, 45, 91, 183, 109, 223, 177, 115,
        215, 238, 61, 123, 247, 237, 63, 112, 240, 208, 225, 35, 71, 143, 29, 63, 113, 242, 212,
        233, 51, 103, 207, 157, 191, 112, 241, 210, 229, 43, 87, 175, 93, 191, 113, 243, 214, 237,
        59, 119, 239, 221, 127, 240, 240, 209, 227, 39, 79, 159, 61, 127, 241, 242, 213, 235, 55,
        111, 223, 189, 255, 240, 241, 211, 231, 47, 95, 191, 125, 255, 241, 243, 215, 239, 63, 127,
        255, 253, 7, 0,
    ];
    let expected: Vec<u8> = (0..=255u8).collect();
    assert_eq!(inflate(&stream), Ok(expected));
}

#[test]
fn back_reference_overlapping_run() {
    assert_eq!(inflate(&[115, 116, 132, 3, 0]), Ok(vec![b'A'; 11]));
}

#[test]
fn multi_block_reaches_back_into_stored_block() {
    let stream: Vec<u8> = vec![0, 3, 0, 252, 255, 97, 98, 99, 3, 162, 20, 0];
    assert_eq!(inflate(&stream), Ok(b"abcabcd".to_vec()));
}

#[test]
fn construct_rejects_over_subscribed_lengths() {
    assert!(matches!(construct(&[1, 1, 1]), Err(InflateError::OverSubscribed)));
    assert!(matches!(construct(&[2, 2, 2, 2, 2]), Err(InflateError::OverSubscribed)));
}

#[test]
fn construct_accepts_complete_incomplete_and_empty() {
    assert!(construct(&[1, 1]).is_ok());
    assert!(construct(&[1, 2, 3, 3]).is_ok());
    assert!(construct(&[0, 2, 0]).is_ok());
    assert!(construct(&[0, 0, 0]).is_ok());
    assert!(construct(&[]).is_ok());
}

#[test]
fn dynamic_over_subscribed_code_length_code_fails() {
    assert_eq!(inflate(&[5, 0, 146, 0, 0]), Err(InflateError::OverSubscribed));
}

#[test]
fn empty_input_is_truncated() {
    assert_eq!(inflate(&[]), Err(InflateError::Truncated));
}

#[test]
fn stored_block_shorter_than_declared_is_truncated() {
    assert_eq!(
        inflate(&[1, 5, 0, 250, 255, 120, 121]),
        Err(InflateError::Truncated)
    );
}

#[test]
fn missing_final_block_is_truncated() {
    assert_eq!(inflate(&[0, 0, 0, 255, 255]), Err(InflateError::Truncated));
}

#[test]
fn reserved_block_type_is_rejected() {
    assert_eq!(inflate(&[7]), Err(InflateError::InvalidBlockType));
}

#[test]
fn distance_before_start_is_rejected() {
    assert_eq!(inflate(&[115, 4, 66, 0]), Err(InflateError::DistanceTooFar));
}

#[test]
fn length_symbol_286_is_rejected() {
    assert_eq!(inflate(&[27, 3]), Err(InflateError::InvalidSymbol));
}

#[test]
fn too_many_literal_codes_is_rejected() {
    assert_eq!(inflate(&[245, 0, 0, 0, 0, 0]), Err(InflateError::InvalidLengths));
}

#[test]
fn repeat_without_previous_length_is_rejected() {
    assert_eq!(inflate(&[5, 0, 2, 0, 0]), Err(InflateError::InvalidLengths));
}

#[test]
fn unmatched_code_is_rejected() {
    assert_eq!(inflate(&[5, 0, 2, 224, 255, 31]), Err(InflateError::InvalidCode));
}

#[test]
fn gzip_header_without_name() {
    let buf: Vec<u8> = vec![0x1f, 0x8b, 8, 0, 0, 0, 0, 0, 0, 3, 3, 0];
    assert_eq!(payload_start(&buf), Ok(10));
    assert_eq!(inflate(&buf[10..]), Ok(vec![]));
}

#[test]
fn gzip_header_with_name() {
    let mut buf: Vec<u8> = vec![0x1f, 0x8b, 8, 8, 0, 0, 0, 0, 0, 3];
    buf.extend_from_slice(b"a.txt\0");
    buf.extend_from_slice(&[243, 72, 205, 201, 201, 7, 0]);
    let start = payload_start(&buf).unwrap();
    assert_eq!(start, 16);
    assert_eq!(inflate(&buf[start..]), Ok(b"Hello".to_vec()));
}

#[test]
fn gzip_header_errors() {
    assert_eq!(payload_start(&[0x1f]), Err(HeaderError::NotGzip));
    assert_eq!(payload_start(&[0x1f, 0x8c, 8, 0]), Err(HeaderError::NotGzip));
    assert_eq!(payload_start(&[0x1f, 0x8b, 8]), Err(HeaderError::Truncated));
    assert_eq!(payload_start(&[0x1f, 0x8b, 8, 0, 0]), Err(HeaderError::Truncated));
    assert_eq!(
        payload_start(&[0x1f, 0x8b, 8, 4, 0, 0, 0, 0, 0, 3]),
        Err(HeaderError::Unsupported)
    );
    assert_eq!(
        payload_start(&[0x1f, 0x8b, 8, 8, 0, 0, 0, 0, 0, 3, 97, 98]),
        Err(HeaderError::Truncated)
    );
}

#[test]
fn dynamic_header_with_every_run_symbol() {
    // Code lengths sent as: 18 (86 zeros), 18 (11 zeros), 1, 18 (138 zeros),
    // 17 (10 zeros), 17 (10 zeros), 1, then distance lengths 2 and 16 (3 more 2s).
    let stream: Vec<u8> = vec![5, 195, 39, 1, 0, 0, 0, 192, 160, 150, 1, 232, 239, 61, 59, 8];
    assert_eq!(inflate(&stream), Ok(b"aaa".to_vec()));
}

#[test]
fn dynamic_header_cut_short_is_truncated() {
    let stream: Vec<u8> = vec![5, 195, 39, 1, 0, 0, 0, 192, 160, 150];
    assert_eq!(inflate(&stream), Err(InflateError::Truncated));
}
