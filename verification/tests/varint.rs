use ebml::{vid, vint, DecodeError};

#[test]
fn variable_integer() {
    let val01 = [0b10000000];

    match vint(&val01) {
        Ok((_, v)) => assert!(0 == v),
        _ => panic!(),
    }
}

#[test]
fn vint_of_one_byte_is_the_byte_without_its_high_bit() {
    for b in 0x80u8..=0xFF {
        let input = [b];
        let (rest, value) = vint(&input).unwrap();
        assert_eq!(rest.len(), 0);
        assert_eq!(input.len() - rest.len(), 1);
        assert_eq!(value, (b & 0x7F) as u64);
    }
}

#[test]
fn vint_of_marker_alone_is_zero() {
    let input: [u8; 1] = [0b1000_0000];
    assert_eq!(vint(&input), Ok((&input[1..], 0)));
}

#[test]
fn vid_keeps_the_marker_bit() {
    let input: [u8; 4] = [0x1A, 0x45, 0xDF, 0xA3];
    assert_eq!(vid(&input), Ok((&input[4..], 0x1A45DFA3)));
}

#[test]
fn vint_clears_the_marker_bit_of_a_wide_value() {
    let input: [u8; 4] = [0x1A, 0x45, 0xDF, 0xA3];
    assert_eq!(vint(&input), Ok((&input[4..], 0x0A45DFA3)));
}

#[test]
fn zero_first_byte_is_an_invalid_prefix() {
    let alone: [u8; 1] = [0x00];
    assert_eq!(vint(&alone), Err(DecodeError::InvalidPrefix));
    assert_eq!(vid(&alone), Err(DecodeError::InvalidPrefix));

    let followed: [u8; 9] = [0x00, 0xFF, 0x01, 0x80, 0x00, 0x7F, 0x12, 0x34, 0x56];
    for end in 1..=followed.len() {
        assert_eq!(vint(&followed[..end]), Err(DecodeError::InvalidPrefix));
        assert_eq!(vid(&followed[..end]), Err(DecodeError::InvalidPrefix));
    }
}

#[test]
fn vint_fixtures_of_every_width() {
    let fixtures: Vec<(Vec<u8>, u64)> = vec![
        (vec![0x80], 0),
        (vec![0x81], 1),
        (vec![0xA3], 35),
        (vec![0xFF], 127),
        (vec![0x40, 0x00], 0),
        (vec![0x40, 0x01], 1),
        (vec![0x41, 0x00], 256),
        (vec![0x7F, 0xFF], 16_383),
        (vec![0x20, 0x00, 0x01], 1),
        (vec![0x21, 0x02, 0x03], 66_051),
        (vec![0x3F, 0xFF, 0xFF], 2_097_151),
        (vec![0x10, 0x00, 0x00, 0x01], 1),
        (vec![0x1F, 0xFF, 0xFF, 0xFF], 268_435_455),
        (vec![0x08, 0x00, 0x00, 0x00, 0x01], 1),
        (vec![0x0F, 0xFF, 0xFF, 0xFF, 0xFF], 34_359_738_367),
        (vec![0x04, 0x00, 0x00, 0x00, 0x00, 0x01], 1),
        (vec![0x07, 0xFF, 0xFF, 0xFF, 0xFF, 0xFF], 4_398_046_511_103),
        (vec![0x02, 0x00, 0x00, 0x00, 0x00, 0x00, 0x01], 1),
        (vec![0x03, 0xFF, 0xFF, 0xFF, 0xFF, 0xFF, 0xFF], 562_949_953_421_311),
        (vec![0x01, 0x00, 0x00, 0x00, 0x00, 0x00, 0x00, 0x00], 0),
        (vec![0x01, 0x00, 0x00, 0x00, 0x00, 0x00, 0x00, 0x23], 35),
        (vec![0x01, 0x23, 0x45, 0x67, 0x89, 0xAB, 0xCD, 0xEF], 0x23_4567_89AB_CDEF),
        (vec![0x01, 0xFF, 0xFF, 0xFF, 0xFF, 0xFF, 0xFF, 0xFF], 72_057_594_037_927_935),
    ];
    for (bytes, expected) in fixtures.iter() {
        let (rest, value) = vint(bytes).unwrap();
        assert_eq!(value, *expected);
        assert_eq!(rest.len(), 0);
    }
}

#[test]
fn vid_fixtures_of_every_width() {
    let fixtures: Vec<(Vec<u8>, u64)> = vec![
        (vec![0x80], 0x80),
        (vec![0xEC], 0xEC),
        (vec![0x42, 0x86], 0x4286),
        (vec![0x42, 0xF7], 0x42F7),
        (vec![0x2A, 0xD7, 0xB1], 0x2AD7B1),
        (vec![0x18, 0x53, 0x80, 0x67], 0x18538067),
        (vec![0x08, 0x01, 0x02, 0x03, 0x04], 0x08_0102_0304),
        (vec![0x04, 0x01, 0x02, 0x03, 0x04, 0x05], 0x0401_0203_0405),
        (vec![0x02, 0x01, 0x02, 0x03, 0x04, 0x05, 0x06], 0x02_0102_0304_0506),
        (vec![0x01, 0xFF, 0xFF, 0xFF, 0xFF, 0xFF, 0xFF, 0xFF], 0x01FF_FFFF_FFFF_FFFF),
    ];
    for (bytes, expected) in fixtures.iter() {
        let (rest, value) = vid(bytes).unwrap();
        assert_eq!(value, *expected);
        assert_eq!(rest.len(), 0);
    }
}

#[test]
fn the_bytes_after_the_integer_are_handed_back() {
    let input: [u8; 5] = [0x40, 0x02, 0xAA, 0xBB, 0xCC];
    assert_eq!(vint(&input), Ok((&input[2..], 2)));
    assert_eq!(vid(&input), Ok((&input[2..], 0x4002)));

    let one: [u8; 3] = [0x85, 0x00, 0x00];
    assert_eq!(vint(&one), Ok((&one[1..], 5)));
}

#[test]
fn an_empty_slice_needs_more_bytes() {
    let empty: [u8; 0] = [];
    assert_eq!(vint(&empty), Err(DecodeError::NeedMoreBytes));
    assert_eq!(vid(&empty), Err(DecodeError::NeedMoreBytes));
}

#[test]
fn a_cut_integer_needs_more_bytes() {
    let whole: [u8; 8] = [0x01, 0x02, 0x03, 0x04, 0x05, 0x06, 0x07, 0x08];
    for end in 1..8 {
        assert_eq!(vint(&whole[..end]), Err(DecodeError::NeedMoreBytes));
        assert_eq!(vid(&whole[..end]), Err(DecodeError::NeedMoreBytes));
    }
    assert_eq!(vint(&whole), Ok((&whole[8..], 0x02_0304_0506_0708)));
    assert_eq!(vid(&whole), Ok((&whole[8..], 0x0102_0304_0506_0708)));

    let two: [u8; 1] = [0x40];
    assert_eq!(vint(&two), Err(DecodeError::NeedMoreBytes));
    let four: [u8; 3] = [0x1A, 0x45, 0xDF];
    assert_eq!(vid(&four), Err(DecodeError::NeedMoreBytes));
}
