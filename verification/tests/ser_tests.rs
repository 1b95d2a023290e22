use php_serial::ser::to_vec;
use php_serial::value::{FloatLit, PhpValue};

fn float_literal(v: f64) -> PhpValue {
    let text = format!("{}", v);
    let (neg, digits) = match text.strip_prefix('-') {
        Some(rest) => (true, rest),
        None => (false, text.as_str()),
    };
    let (int_part, frac_part) = match digits.split_once('.') {
        Some((i, f)) => (i, Some(f)),
        None => (digits, None),
    };
    PhpValue::Float(FloatLit {
        neg,
        int_digits: int_part.as_bytes().to_vec(),
        frac_digits: frac_part.map(|f| f.as_bytes().to_vec()),
    })
}

#[test]
fn serialize_unit() {
    assert_eq!(to_vec(&PhpValue::Null).unwrap(), b"N;");
}

#[test]
fn serialize_bool() {
    assert_eq!(to_vec(&PhpValue::Bool(false)).unwrap(), b"b:0;");
    assert_eq!(to_vec(&PhpValue::Bool(true)).unwrap(), b"b:1;");
}

#[test]
fn serialize_integer() {
    assert_eq!(to_vec(&PhpValue::Int(-1)).unwrap(), b"i:-1;");
    assert_eq!(to_vec(&PhpValue::Int(0)).unwrap(), b"i:0;");
    assert_eq!(to_vec(&PhpValue::Int(1)).unwrap(), b"i:1;");
    assert_eq!(to_vec(&PhpValue::Int(123)).unwrap(), b"i:123;");
}

#[test]
fn serialize_float() {
    assert_eq!(to_vec(&float_literal(-1.0)).unwrap(), b"d:-1;");
    assert_eq!(to_vec(&float_literal(0.0)).unwrap(), b"d:0;");
    assert_eq!(to_vec(&float_literal(1.0)).unwrap(), b"d:1;");
    assert_eq!(to_vec(&float_literal(-1.9)).unwrap(), b"d:-1.9;");
    assert_eq!(to_vec(&float_literal(0.9)).unwrap(), b"d:0.9;");
    assert_eq!(to_vec(&float_literal(1.9)).unwrap(), b"d:1.9;");
}

#[test]
fn serialize_php_string() {
    let bytes = PhpValue::Bytes(b"single quote '".to_vec());
    assert_eq!(to_vec(&bytes).unwrap(), br#"s:14:"single quote '";"#);
    let owned = PhpValue::Bytes(b"single quote '".to_vec());
    assert_eq!(to_vec(&owned).unwrap(), br#"s:14:"single quote '";"#);
}

#[test]
fn serialize_string() {
    assert_eq!(
        to_vec(&PhpValue::Bytes("single quote '".as_bytes().to_vec())).unwrap(),
        br#"s:14:"single quote '";"#
    );
    assert_eq!(
        to_vec(&PhpValue::Bytes("single quote '".to_owned().into_bytes())).unwrap(),
        br#"s:14:"single quote '";"#
    );
}

#[test]
fn serialize_array() {
    // PHP: array("user", "", array())
    let data = PhpValue::Sequence(vec![
        PhpValue::Bytes(b"user".to_vec()),
        PhpValue::Bytes(b"".to_vec()),
        PhpValue::Sequence(vec![]),
    ]);
    assert_eq!(
        to_vec(&data).unwrap(),
        br#"a:3:{i:0;s:4:"user";i:1;s:0:"";i:2;a:0:{}}"#
    );
}

#[test]
fn serialize_struct() {
    // PHP: array("foo" => true, "bar" => "xyz", "sub" => array("x" => 42))
    let data = PhpValue::Mapping(vec![
        (b"foo".to_vec(), PhpValue::Bool(true)),
        (b"bar".to_vec(), PhpValue::Bytes(b"xyz".to_vec())),
        (
            b"sub".to_vec(),
            PhpValue::Mapping(vec![(b"x".to_vec(), PhpValue::Int(42))]),
        ),
    ]);
    assert_eq!(
        to_vec(&data).unwrap(),
        br#"a:3:{s:3:"foo";b:1;s:3:"bar";s:3:"xyz";s:3:"sub";a:1:{s:1:"x";i:42;}}"#
    );
}

#[test]
fn serialize_struct_with_optional() {
    // Absent optional fields are skipped by the caller: only present
    // entries are handed to the serializer. No field at all is the empty
    // array, which is the empty sequence in the value model.
    assert_eq!(to_vec(&PhpValue::Sequence(vec![])).unwrap(), br#"a:0:{}"#);

    let one = PhpValue::Mapping(vec![(
        b"province".to_vec(),
        PhpValue::Bytes(b"Newfoundland and Labrador, CA".to_vec()),
    )]);
    assert_eq!(
        to_vec(&one).unwrap(),
        br#"a:1:{s:8:"province";s:29:"Newfoundland and Labrador, CA";}"#
    );

    let two = PhpValue::Mapping(vec![
        (b"postalcode".to_vec(), PhpValue::Bytes(b"90002".to_vec())),
        (
            b"country".to_vec(),
            PhpValue::Bytes(b"United States of America".to_vec()),
        ),
    ]);
    assert_eq!(
        to_vec(&two).unwrap(),
        br#"a:2:{s:10:"postalcode";s:5:"90002";s:7:"country";s:24:"United States of America";}"#
    );
}

#[test]
fn serialize_nested() {
    // PHP: array("x" => array("inner" => 1), "y" => array("inner" => 2))
    let data = PhpValue::Mapping(vec![
        (
            b"x".to_vec(),
            PhpValue::Mapping(vec![(b"inner".to_vec(), PhpValue::Int(1))]),
        ),
        (
            b"y".to_vec(),
            PhpValue::Mapping(vec![(b"inner".to_vec(), PhpValue::Int(2))]),
        ),
    ]);
    assert_eq!(
        to_vec(&data).unwrap(),
        br#"a:2:{s:1:"x";a:1:{s:5:"inner";i:1;}s:1:"y";a:1:{s:5:"inner";i:2;}}"#
    );
}

#[test]
fn serialize_variable_length() {
    // PHP: array(1.1, 2.2, 3.3, 4.4)
    let data = PhpValue::Sequence(vec![
        float_literal(1.1),
        float_literal(2.2),
        float_literal(3.3),
        float_literal(4.4),
    ]);
    assert_eq!(
        to_vec(&data).unwrap(),
        br#"a:4:{i:0;d:1.1;i:1;d:2.2;i:2;d:3.3;i:3;d:4.4;}"#
    );
}

#[test]
fn serialize_btreemap() {
    // PHP: array("foo" => 1, "bar" => 2); a BTreeMap enumerates its
    // entries in key order, so `bar` comes first.
    let mut input: std::collections::BTreeMap<String, u16> = std::collections::BTreeMap::new();
    input.insert("foo".to_owned(), 42);
    input.insert("bar".to_owned(), 7);

    let entries: Vec<(Vec<u8>, PhpValue)> = input
        .into_iter()
        .map(|(k, v)| (k.into_bytes(), PhpValue::Int(i64::from(v))))
        .collect();
    assert_eq!(
        to_vec(&PhpValue::Mapping(entries)).unwrap(),
        br#"a:2:{s:3:"bar";i:7;s:3:"foo";i:42;}"#
    );
}

#[test]
fn serialize_streaming_primitives() {
    // The streaming writer produces the same bytes piece by piece, with
    // the numeric-array helper keeping the running index.
    let mut ser = php_serial::ser::PhpSerializer::new(Vec::new());
    let mut seq = ser.serialize_seq(2).unwrap();
    seq.serialize_element(&mut ser, &PhpValue::Int(7)).unwrap();
    seq.serialize_element(&mut ser, &PhpValue::Bool(true)).unwrap();
    seq.end(&mut ser).unwrap();
    assert_eq!(ser.into_output(), br#"a:2:{i:0;i:7;i:1;b:1;}"#);
}

#[test]
fn serialize_u64_beyond_signed_range() {
    let mut ser = php_serial::ser::PhpSerializer::new(Vec::new());
    ser.serialize_u64(18446744073709551615).unwrap();
    assert_eq!(ser.into_output(), b"i:18446744073709551615;");
}
