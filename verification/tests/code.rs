use ibxwasm::{base3_code_u16, classify, decode, encode, FeedbackError};

#[test]
fn encode_sums_powers_of_three() {
    assert_eq!(encode(&[]), Ok(0));
    assert_eq!(encode(&[2]), Ok(2));
    assert_eq!(encode(&[0, 1]), Ok(3));
    assert_eq!(encode(&[2, 1, 1, 2]), Ok(68));
    assert_eq!(encode(&[2, 0, 0, 0, 0]), Ok(2));
    assert_eq!(encode(&[1, 1, 0, 1, 2]), Ok(193));
}

#[test]
fn encode_depends_on_order() {
    assert_eq!(encode(&[1, 0, 0]), Ok(1));
    assert_eq!(encode(&[0, 0, 1]), Ok(9));
    assert_ne!(encode(&[1, 2]), encode(&[2, 1]));
}

#[test]
fn encode_at_the_ceiling() {
    assert_eq!(encode(&[2; 10]), Ok(59048));
    assert_eq!(encode(&[0, 0, 0, 0, 0, 0, 0, 0, 0, 1]), Ok(19683));
}

#[test]
fn encode_refuses_more_than_ten() {
    assert_eq!(encode(&[0; 11]), Err(FeedbackError::LengthUnsupported));
    assert_eq!(encode(&[2; 64]), Err(FeedbackError::LengthUnsupported));
}

#[test]
fn other_bytes_are_reduced_to_sixteen_bits() {
    assert_eq!(encode(&[255; 10]), Ok(57516));
    assert_eq!(base3_code_u16(&[255; 10]), 57516);
    assert_eq!(base3_code_u16(&[3]), 3);
}

#[test]
fn base3_code_of_feedback() {
    assert_eq!(base3_code_u16(&[2, 1, 1, 2]), 68);
    assert_eq!(base3_code_u16(&[]), 0);
}

#[test]
fn decode_takes_digits_lowest_first() {
    assert_eq!(decode(68, 4), vec![2, 1, 1, 2]);
    assert_eq!(decode(2, 5), vec![2, 0, 0, 0, 0]);
    assert_eq!(decode(59048, 10), vec![2; 10]);
    assert_eq!(decode(7, 0), Vec::<u8>::new());
    assert_eq!(decode(5, 1), vec![2]);
    assert_eq!(decode(u16::MAX, 12), vec![0, 2, 0, 0, 2, 2, 2, 2, 0, 0, 1, 0]);
}

#[test]
fn decode_undoes_encode() {
    for len in 0..=6usize {
        let total = 3u16.pow(len as u32);
        for code in 0..total {
            let marks = decode(code, len);
            assert_eq!(marks.len(), len);
            assert_eq!(encode(&marks), Ok(code));
            assert_eq!(decode(encode(&marks).unwrap(), len), marks);
        }
    }
    let ten = [2, 0, 1, 1, 2, 0, 0, 2, 1, 2];
    assert_eq!(decode(encode(&ten).unwrap(), 10), ten.to_vec());
}

#[test]
fn code_of_a_classification() {
    let marks = classify(b"aabb", b"abab").unwrap();
    assert_eq!(encode(&marks), Ok(68));
}
