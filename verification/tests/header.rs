use ebml::{compose_header, ebml_header, header_schema, DecodeError, EBMLHeader, Field, FieldKind};
use nom::HexDisplay;

/// The first bytes of a Matroska file: the header, the start of a segment of
/// unknown size and a void element that pads it.
fn single_stream() -> Vec<u8> {
    let mut bytes: Vec<u8> = vec![
        0x1A, 0x45, 0xDF, 0xA3, 0xA3, // header, 35 payload bytes
        0x42, 0x86, 0x81, 0x01, // version
        0x42, 0xF7, 0x81, 0x01, // read version
        0x42, 0xF2, 0x81, 0x04, // max id length
        0x42, 0xF3, 0x81, 0x08, // max size length
        0x42, 0x82, 0x88, b'm', b'a', b't', b'r', b'o', b's', b'k', b'a', // document type
        0x42, 0x87, 0x81, 0x04, // document type version
        0x42, 0x85, 0x81, 0x02, // document type read version
        0x18, 0x53, 0x80, 0x67, 0x01, 0xFF, 0xFF, 0xFF, 0xFF, 0xFF, 0xFF, 0xFF, // segment
        0xEC, 0x40, 0x80, // void, 128 payload bytes
    ];
    bytes.resize(bytes.len() + 128, 0);
    bytes
}

#[test]
fn header() {
    let single_stream = single_stream();
    println!("{}", single_stream[..8].to_hex(8));
    println!("{:b} {:b}", single_stream[0], single_stream[1]);
    println!("{:?}", ebml_header(&single_stream[..100]));
    assert_eq!(
        ebml_header(&single_stream[..100]),
        Ok((
            &single_stream[40..100],
            EBMLHeader {
                version: 1,
                read_version: 1,
                max_id_length: 4,
                max_size_length: 8,
                doc_type: String::from("matroska"),
                doc_type_version: 4,
                doc_type_read_version: 2,
            }
        ))
    );
}

fn webm_children() -> Vec<Vec<u8>> {
    vec![
        vec![0x42, 0x86, 0x81, 0x01],
        vec![0x42, 0xF7, 0x81, 0x01],
        vec![0x42, 0xF2, 0x81, 0x04],
        vec![0x42, 0xF3, 0x81, 0x08],
        vec![0x42, 0x82, 0x84, b'w', b'e', b'b', b'm'],
        vec![0x42, 0x87, 0x81, 0x02],
        vec![0x42, 0x85, 0x81, 0x02],
    ]
}

fn webm_header() -> EBMLHeader {
    EBMLHeader {
        version: 1,
        read_version: 1,
        max_id_length: 4,
        max_size_length: 8,
        doc_type: String::from("webm"),
        doc_type_version: 2,
        doc_type_read_version: 2,
    }
}

fn payload(children: &[Vec<u8>], order: &[usize]) -> Vec<u8> {
    let mut bytes = Vec::new();
    for &i in order {
        bytes.extend_from_slice(&children[i]);
    }
    bytes
}

fn document(payload: &[u8]) -> Vec<u8> {
    assert!(payload.len() < 127);
    let mut bytes = vec![0x1A, 0x45, 0xDF, 0xA3, 0x80 | payload.len() as u8];
    bytes.extend_from_slice(payload);
    bytes
}

fn orders() -> Vec<[usize; 7]> {
    vec![
        [0, 1, 2, 3, 4, 5, 6],
        [6, 5, 4, 3, 2, 1, 0],
        [4, 0, 1, 2, 3, 5, 6],
        [1, 0, 3, 2, 5, 4, 6],
        [3, 6, 0, 4, 1, 5, 2],
        [2, 4, 6, 1, 3, 5, 0],
        [5, 6, 0, 1, 2, 3, 4],
        [6, 0, 5, 1, 4, 2, 3],
    ]
}

#[test]
fn webm_header_from_a_root_element() {
    let bytes = document(&payload(&webm_children(), &[4, 6, 0, 2, 5, 1, 3]));
    let (rest, header) = ebml_header(&bytes).unwrap();
    assert_eq!(rest.len(), 0);
    assert_eq!(header.version, 1);
    assert_eq!(header.read_version, 1);
    assert_eq!(header.max_id_length, 4);
    assert_eq!(header.max_size_length, 8);
    assert_eq!(header.doc_type, "webm");
    assert_eq!(header.doc_type_version, 2);
    assert_eq!(header.doc_type_read_version, 2);
}

#[test]
fn header_is_the_same_in_every_order() {
    for order in orders().iter() {
        let inner = payload(&webm_children(), order);
        assert_eq!(compose_header(&inner), Ok(webm_header()));
        let bytes = document(&inner);
        assert_eq!(ebml_header(&bytes), Ok((&bytes[bytes.len()..], webm_header())));
    }
}

#[test]
fn header_fields_are_told_apart() {
    let children: Vec<Vec<u8>> = vec![
        vec![0x42, 0x86, 0x81, 0x0B],
        vec![0x42, 0xF7, 0x81, 0x0C],
        vec![0x42, 0xF2, 0x81, 0x0D],
        vec![0x42, 0xF3, 0x81, 0x0E],
        vec![0x42, 0x82, 0x83, b'a', b'b', b'c'],
        vec![0x42, 0x87, 0x82, 0x01, 0x00],
        vec![0x42, 0x85, 0x88, 0xFF, 0xFF, 0xFF, 0xFF, 0xFF, 0xFF, 0xFF, 0xFF],
    ];
    let expected = EBMLHeader {
        version: 11,
        read_version: 12,
        max_id_length: 13,
        max_size_length: 14,
        doc_type: String::from("abc"),
        doc_type_version: 256,
        doc_type_read_version: u64::MAX,
    };
    for order in orders().iter() {
        assert_eq!(compose_header(&payload(&children, order)), Ok(expected.clone()));
    }
}

#[test]
fn header_without_one_of_its_fields() {
    for absent in 0..7 {
        let order: Vec<usize> = (0..7).filter(|&i| i != absent).collect();
        let inner = payload(&webm_children(), &order);
        assert_eq!(compose_header(&inner), Err(DecodeError::MissingField));
        assert_eq!(ebml_header(&document(&inner)), Err(DecodeError::MissingField));

        let backwards: Vec<usize> = order.iter().rev().cloned().collect();
        let inner = payload(&webm_children(), &backwards);
        assert_eq!(compose_header(&inner), Err(DecodeError::MissingField));
    }
    assert_eq!(compose_header(&[]), Err(DecodeError::MissingField));
    assert_eq!(ebml_header(&document(&[])), Err(DecodeError::MissingField));
}

#[test]
fn header_with_a_field_twice() {
    for twice in 0..7 {
        // The second occurrence comes before the set is complete.
        let absent = (twice + 1) % 7;
        let mut order: Vec<usize> = vec![twice];
        order.extend((0..7).filter(|&i| i != absent));
        let inner = payload(&webm_children(), &order);
        assert_eq!(compose_header(&inner), Err(DecodeError::DuplicateField));
        assert_eq!(ebml_header(&document(&inner)), Err(DecodeError::DuplicateField));

        // The second occurrence comes after all seven.
        let mut order: Vec<usize> = (0..7).collect();
        order.push(twice);
        let inner = payload(&webm_children(), &order);
        assert_eq!(compose_header(&inner), Err(DecodeError::DuplicateField));
    }
    let inner = payload(&webm_children(), &[3, 3]);
    assert_eq!(compose_header(&inner), Err(DecodeError::DuplicateField));
}

#[test]
fn header_with_a_child_that_is_none_of_its_fields() {
    let mut inner = payload(&webm_children(), &[0, 1, 2]);
    inner.extend_from_slice(&[0xEC, 0x81, 0x00]);
    inner.extend_from_slice(&payload(&webm_children(), &[3, 4, 5, 6]));
    assert_eq!(compose_header(&inner), Err(DecodeError::UnexpectedField));
    assert_eq!(ebml_header(&document(&inner)), Err(DecodeError::UnexpectedField));

    let nested = document(&payload(&webm_children(), &[0, 1, 2, 3, 4, 5, 6]));
    assert_eq!(compose_header(&nested), Err(DecodeError::UnexpectedField));
}

#[test]
fn input_that_does_not_start_with_the_header() {
    let segment: [u8; 6] = [0x18, 0x53, 0x80, 0x67, 0x81, 0x00];
    assert_eq!(ebml_header(&segment), Err(DecodeError::UnexpectedField));
    // The identifier is turned away before the size is read.
    assert_eq!(ebml_header(&segment[..4]), Err(DecodeError::UnexpectedField));
    let version: [u8; 5] = [0x42, 0x86, 0x00, 0x00, 0x00];
    assert_eq!(ebml_header(&version), Err(DecodeError::UnexpectedField));
    assert_eq!(ebml_header(&[0x00, 0x45]), Err(DecodeError::InvalidPrefix));
    assert_eq!(ebml_header(&[0x1A, 0x45, 0xDF, 0xA3, 0x00]), Err(DecodeError::InvalidPrefix));
}

#[test]
fn header_that_is_cut_needs_more_bytes() {
    let bytes = document(&payload(&webm_children(), &[0, 1, 2, 3, 4, 5, 6]));
    for end in 0..bytes.len() {
        assert_eq!(ebml_header(&bytes[..end]), Err(DecodeError::NeedMoreBytes));
    }
    assert_eq!(ebml_header(&bytes), Ok((&bytes[bytes.len()..], webm_header())));
}

#[test]
fn bytes_after_the_header_are_handed_back() {
    let mut bytes = document(&payload(&webm_children(), &[6, 5, 4, 3, 2, 1, 0]));
    let end = bytes.len();
    bytes.extend_from_slice(&[0x18, 0x53, 0x80, 0x67, 0x80]);
    assert_eq!(ebml_header(&bytes), Ok((&bytes[end..], webm_header())));
}

#[test]
fn header_field_of_the_wrong_shape() {
    let mut children = webm_children();
    children[5] = vec![0x42, 0x87, 0x89, 1, 2, 3, 4, 5, 6, 7, 8, 9];
    let inner = payload(&children, &[0, 1, 2, 3, 4, 5, 6]);
    assert_eq!(compose_header(&inner), Err(DecodeError::SizeTooLarge));

    let mut children = webm_children();
    children[4] = vec![0x42, 0x82, 0x82, 0xC3, 0x28];
    let inner = payload(&children, &[0, 1, 2, 3, 4, 5, 6]);
    assert_eq!(compose_header(&inner), Err(DecodeError::InvalidText));
}

#[test]
fn header_schema_lists_the_fields_in_their_order() {
    assert_eq!(
        header_schema(),
        [
            Field { id: 0x4286, kind: FieldKind::Unsigned },
            Field { id: 0x42F7, kind: FieldKind::Unsigned },
            Field { id: 0x42F2, kind: FieldKind::Unsigned },
            Field { id: 0x42F3, kind: FieldKind::Unsigned },
            Field { id: 0x4282, kind: FieldKind::Text },
            Field { id: 0x4287, kind: FieldKind::Unsigned },
            Field { id: 0x4285, kind: FieldKind::Unsigned },
        ]
    );
}
