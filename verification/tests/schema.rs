use ebml::{compose, field_index, parse_field, DecodeError, Field, FieldKind, FieldValue};

fn schema() -> Vec<Field> {
    vec![
        Field { id: 0x4286, kind: FieldKind::Unsigned },
        Field { id: 0x4282, kind: FieldKind::Text },
        Field { id: 0xA1, kind: FieldKind::Binary },
    ]
}

fn children() -> Vec<Vec<u8>> {
    vec![
        vec![0x42, 0x86, 0x82, 0x01, 0x00],
        vec![0x42, 0x82, 0x84, b'w', b'e', b'b', b'm'],
        vec![0xA1, 0x83, 0x00, 0xFF, 0x80],
    ]
}

fn values() -> Vec<FieldValue> {
    vec![
        FieldValue::Unsigned(256),
        FieldValue::Text(String::from("webm")),
        FieldValue::Binary(vec![0x00, 0xFF, 0x80]),
    ]
}

fn payload(children: &[Vec<u8>], order: &[usize]) -> Vec<u8> {
    let mut bytes = Vec::new();
    for &i in order {
        bytes.extend_from_slice(&children[i]);
    }
    bytes
}

#[test]
fn fields_come_out_in_the_order_of_the_schema() {
    let orders: [[usize; 3]; 6] = [[0, 1, 2], [0, 2, 1], [1, 0, 2], [1, 2, 0], [2, 0, 1], [2, 1, 0]];
    for order in orders.iter() {
        let bytes = payload(&children(), order);
        assert_eq!(compose(&schema(), &bytes), Ok(values()));
    }
}

#[test]
fn missing_child_is_a_missing_field() {
    for order in [vec![], vec![0], vec![1], vec![2], vec![0, 1], vec![2, 0], vec![1, 2]] {
        let bytes = payload(&children(), &order);
        assert_eq!(compose(&schema(), &bytes), Err(DecodeError::MissingField));
    }
}

#[test]
fn second_child_for_a_field_is_a_duplicate_field() {
    for order in [vec![0, 0], vec![0, 1, 0, 2], vec![2, 1, 1], vec![0, 1, 2, 2], vec![1, 2, 0, 1]] {
        let bytes = payload(&children(), &order);
        assert_eq!(compose(&schema(), &bytes), Err(DecodeError::DuplicateField));
    }
    // The second child is turned away before its payload is looked at.
    let mut bytes = payload(&children(), &[0]);
    bytes.extend_from_slice(&[0x42, 0x86, 0x89]);
    assert_eq!(compose(&schema(), &bytes), Err(DecodeError::DuplicateField));
}

#[test]
fn child_that_names_no_field_is_an_unexpected_field() {
    let mut bytes = payload(&children(), &[0, 1]);
    bytes.extend_from_slice(&[0xEC, 0x81, 0x00]);
    bytes.extend_from_slice(&children()[2]);
    assert_eq!(compose(&schema(), &bytes), Err(DecodeError::UnexpectedField));

    let mut after_all = payload(&children(), &[0, 1, 2]);
    after_all.extend_from_slice(&[0xEC, 0x80]);
    assert_eq!(compose(&schema(), &after_all), Err(DecodeError::UnexpectedField));

    let none: [Field; 0] = [];
    assert_eq!(compose(&none, &[0xEC, 0x80]), Err(DecodeError::UnexpectedField));
    assert_eq!(compose(&none, &[]), Ok(vec![]));
}

#[test]
fn errors_of_the_children_are_handed_on() {
    let fields = schema();
    assert_eq!(compose(&fields, &[0x00]), Err(DecodeError::InvalidPrefix));
    assert_eq!(compose(&fields, &[0x42]), Err(DecodeError::NeedMoreBytes));
    assert_eq!(compose(&fields, &[0x42, 0x86]), Err(DecodeError::NeedMoreBytes));
    assert_eq!(compose(&fields, &[0x42, 0x86, 0x00]), Err(DecodeError::InvalidPrefix));
    assert_eq!(compose(&fields, &[0x42, 0x86, 0x82, 0x01]), Err(DecodeError::NeedMoreBytes));
    assert_eq!(
        compose(&fields, &[0x42, 0x86, 0x89, 1, 2, 3, 4, 5, 6, 7, 8, 9]),
        Err(DecodeError::SizeTooLarge)
    );
    assert_eq!(compose(&fields, &[0x42, 0x82, 0x81, 0xFF]), Err(DecodeError::InvalidText));
    assert_eq!(compose(&fields, &[0xA1, 0x82, 0x01]), Err(DecodeError::NeedMoreBytes));
}

#[test]
fn first_field_with_an_identifier_is_the_one_it_names() {
    let fields = [
        Field { id: 7, kind: FieldKind::Unsigned },
        Field { id: 9, kind: FieldKind::Text },
        Field { id: 7, kind: FieldKind::Binary },
    ];
    assert_eq!(field_index(&fields, 7), Some(0));
    assert_eq!(field_index(&fields, 9), Some(1));
    assert_eq!(field_index(&fields, 8), None);
    assert_eq!(field_index(&fields[..0], 7), None);
    assert_eq!(field_index(&fields[1..], 7), Some(1));
}

#[test]
fn field_is_read_by_its_kind() {
    let input: [u8; 3] = [b'h', b'i', 0x00];
    assert_eq!(
        parse_field(FieldKind::Unsigned, &input, 2),
        Ok((&input[2..], FieldValue::Unsigned(0x6869)))
    );
    assert_eq!(
        parse_field(FieldKind::Text, &input, 2),
        Ok((&input[2..], FieldValue::Text(String::from("hi"))))
    );
    assert_eq!(
        parse_field(FieldKind::Binary, &input, 2),
        Ok((&input[2..], FieldValue::Binary(vec![b'h', b'i'])))
    );
    assert_eq!(parse_field(FieldKind::Unsigned, &input, 9), Err(DecodeError::SizeTooLarge));
    assert_eq!(parse_field(FieldKind::Text, &input, 4), Err(DecodeError::NeedMoreBytes));
    assert_eq!(parse_field(FieldKind::Binary, &input, 4), Err(DecodeError::NeedMoreBytes));
}
