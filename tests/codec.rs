use haversine_calculator::parser::{
    after_item, array_opening, first_missing, key_field, last_field, split_object, ArrayStep,
    CoordField, DeserializationError, ErrorKind, split_record, split_records,
};

#[test]
fn object_members_in_order() {
    let buf = b"{\"lat0\": 1.5 ,\"lon0\":-2,\"lat1\":3e2,\"lon1\": 4 }";
    let fields = split_object(buf).unwrap();
    assert_eq!(fields.len(), 4);
    assert_eq!(fields[0].field, Some(CoordField::Lat0));
    assert_eq!(fields[0].value, b"1.5".to_vec());
    assert_eq!(fields[1].field, Some(CoordField::Lon0));
    assert_eq!(fields[1].value, b"-2".to_vec());
    assert_eq!(fields[2].field, Some(CoordField::Lat1));
    assert_eq!(fields[2].value, b"3e2".to_vec());
    assert_eq!(fields[3].field, Some(CoordField::Lon1));
    assert_eq!(fields[3].value, b"4".to_vec());
    assert_eq!(first_missing(&fields), None);
}

#[test]
fn object_unknown_and_repeated_keys() {
    let buf = b"{\n  \"x\":1,\"lat0\":2,\"lat0\":3\n}";
    let fields = split_object(buf).unwrap();
    assert_eq!(fields.len(), 3);
    assert_eq!(fields[0].field, None);
    assert_eq!(last_field(&fields, CoordField::Lat0), Some(2));
    assert_eq!(last_field(&fields, CoordField::Lon1), None);
    assert_eq!(first_missing(&fields), Some(CoordField::Lon0));
}

#[test]
fn empty_object_has_no_members() {
    let fields = split_object(b"{}").unwrap();
    assert!(fields.is_empty());
    assert_eq!(first_missing(&fields), Some(CoordField::Lat0));
}

#[test]
fn object_errors() {
    assert_eq!(split_object(b"").err(), Some(DeserializationError(ErrorKind::UnexpectedEnd)));
    assert_eq!(
        split_object(b"[\"lat0\":1}").err(),
        Some(DeserializationError(ErrorKind::UnexpectedOpening(b'[')))
    );
    assert_eq!(split_object(b"{").err(), Some(DeserializationError(ErrorKind::UnexpectedEnd)));
    assert_eq!(split_object(b"{\"lat0\":1").err(), Some(DeserializationError(ErrorKind::UnexpectedEnd)));
    assert_eq!(
        split_object(b"{\"lat0\":1,\"lon0\"}").err(),
        Some(DeserializationError(ErrorKind::InvalidJson))
    );
}

#[test]
fn trailing_comma_ends_members() {
    let fields = split_object(b"{\"lon1\":7,}").unwrap();
    assert_eq!(fields.len(), 1);
    assert_eq!(fields[0].field, Some(CoordField::Lon1));
    assert_eq!(fields[0].value, b"7".to_vec());
}

#[test]
fn keys_match_exactly() {
    assert_eq!(key_field(&b"\"lat0\"".to_vec()), Some(CoordField::Lat0));
    assert_eq!(key_field(&b"\"lon0\"".to_vec()), Some(CoordField::Lon0));
    assert_eq!(key_field(&b"\"lat1\"".to_vec()), Some(CoordField::Lat1));
    assert_eq!(key_field(&b"\"lon1\"".to_vec()), Some(CoordField::Lon1));
    assert_eq!(key_field(&b"lat0".to_vec()), None);
    assert_eq!(key_field(&b"\"lat2\"".to_vec()), None);
    assert_eq!(key_field(&b"\"LAT0\"".to_vec()), None);
}

#[test]
fn array_framing() {
    assert_eq!(array_opening(b'['), Ok(()));
    assert_eq!(array_opening(b'{'), Err(DeserializationError(ErrorKind::UnexpectedOpening(b'{'))));
    assert_eq!(after_item(b','), Ok(ArrayStep::NextItem));
    assert_eq!(after_item(b']'), Ok(ArrayStep::End));
    assert_eq!(after_item(b' '), Ok(ArrayStep::Skip));
    assert_eq!(after_item(b'\n'), Ok(ArrayStep::Skip));
    assert_eq!(after_item(b'x'), Err(DeserializationError(ErrorKind::UnexpectedByte(b'x'))));
}

fn record_texts(doc: &[u8]) -> Vec<Vec<u8>> {
    split_records(doc).unwrap().into_iter().map(|(a, b)| doc[a..b].to_vec()).collect()
}

#[test]
fn document_records() {
    let doc = b"[{\"lat0\":1,\"lon0\":2},{\"lat0\":3},{}]";
    assert_eq!(
        record_texts(doc),
        vec![b"\"lat0\":1,\"lon0\":2".to_vec(), b"\"lat0\":3".to_vec(), b"".to_vec()]
    );
    assert_eq!(record_texts(b"[{}]"), vec![b"".to_vec()]);
}

#[test]
fn document_framing_errors() {
    let framing = Some(DeserializationError(ErrorKind::UnexpectedFraming));
    assert_eq!(split_records(b"").err(), framing);
    assert_eq!(split_records(b"[{").err(), framing);
    assert_eq!(split_records(b"[{]").err(), framing);
    assert_eq!(split_records(b"{\"a\":1}]").err(), framing);
    assert_eq!(split_records(b"[{\"a\":1}").err(), framing);
}

#[test]
fn record_members_untrimmed() {
    let doc = b"\"lat0\":1.5,\"lon1\": 2";
    let fields = split_record(doc, 0, doc.len()).unwrap();
    assert_eq!(fields.len(), 2);
    assert_eq!(fields[0].field, Some(CoordField::Lat0));
    assert_eq!(fields[0].value, b"1.5".to_vec());
    assert_eq!(fields[1].field, Some(CoordField::Lon1));
    assert_eq!(fields[1].value, b" 2".to_vec());
    let spaced = b" \"lat0\":1";
    assert_eq!(split_record(spaced, 0, spaced.len()).unwrap()[0].field, None);
}

#[test]
fn record_member_errors() {
    let invalid = Some(DeserializationError(ErrorKind::InvalidJson));
    assert_eq!(split_record(b"", 0, 0).err(), invalid);
    let trailing = b"\"lat0\":1,";
    assert_eq!(split_record(trailing, 0, trailing.len()).err(), invalid);
    let no_colon = b"\"lat0\"1";
    assert_eq!(split_record(no_colon, 0, no_colon.len()).err(), invalid);
    let inner = b"xx\"lon0\":4yy";
    let fields = split_record(inner, 2, 10).unwrap();
    assert_eq!(fields[0].field, Some(CoordField::Lon0));
    assert_eq!(fields[0].value, b"4".to_vec());
}
