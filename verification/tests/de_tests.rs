use php_serial::de::{from_bytes, PhpDeserializer};
use php_serial::error::Error;
use php_serial::unordered::deserialize_unordered_array;
use php_serial::value::PhpValue;
use std::collections::HashMap;

fn decoded_float(v: &PhpValue) -> f64 {
    match v {
        PhpValue::Float(lit) => {
            let mut text = String::new();
            if lit.neg {
                text.push('-');
            }
            text.push_str(std::str::from_utf8(&lit.int_digits).unwrap());
            if let Some(frac) = &lit.frac_digits {
                text.push('.');
                text.push_str(std::str::from_utf8(frac).unwrap());
            }
            text.parse::<f64>().unwrap()
        }
        other => panic!("expected float, got {:?}", other),
    }
}

#[test]
fn deserialize_bool() {
    assert_eq!(from_bytes(b"b:0;").unwrap(), PhpValue::Bool(false));
    assert_eq!(from_bytes(b"b:1;").unwrap(), PhpValue::Bool(true));
}

#[test]
fn deserialize_integer() {
    assert_eq!(from_bytes(b"i:-1;").unwrap(), PhpValue::Int(-1));
    assert_eq!(from_bytes(b"i:0;").unwrap(), PhpValue::Int(0));
    assert_eq!(from_bytes(b"i:1;").unwrap(), PhpValue::Int(1));
    assert_eq!(from_bytes(b"i:123;").unwrap(), PhpValue::Int(123));
}

#[test]
fn deserialize_float() {
    assert_eq!(decoded_float(&from_bytes(b"d:-1;").unwrap()), -1.0);
    assert_eq!(decoded_float(&from_bytes(b"d:0;").unwrap()), 0.0);
    assert_eq!(decoded_float(&from_bytes(b"d:1;").unwrap()), 1.0);
    assert_eq!(decoded_float(&from_bytes(b"d:-1.9;").unwrap()), -1.9);
    assert_eq!(decoded_float(&from_bytes(b"d:0.9;").unwrap()), 0.9);
    assert_eq!(decoded_float(&from_bytes(b"d:1.9;").unwrap()), 1.9);
}

#[test]
fn deserialize_php_string() {
    assert_eq!(
        from_bytes(br#"s:14:"single quote '";"#).unwrap(),
        PhpValue::Bytes(b"single quote '".to_vec())
    );
}

#[test]
fn deserialize_string() {
    let decoded = from_bytes(br#"s:14:"single quote '";"#).unwrap();
    match decoded {
        PhpValue::Bytes(raw) => {
            assert_eq!(String::from_utf8(raw).unwrap(), "single quote '".to_owned());
        }
        other => panic!("expected bytes, got {:?}", other),
    }
}

#[test]
fn deserialize_array() {
    // PHP: array("user", "", array())
    let decoded = from_bytes(br#"a:3:{i:0;s:4:"user";i:1;s:0:"";i:2;a:0:{}}"#).unwrap();
    assert_eq!(
        decoded,
        PhpValue::Sequence(vec![
            PhpValue::Bytes(b"user".to_vec()),
            PhpValue::Bytes(b"".to_vec()),
            PhpValue::Sequence(vec![]),
        ])
    );
}

#[test]
fn deserialize_array_unordered() {
    let mut de = PhpDeserializer::new(br#"a:4:{i:1;d:2.2;i:0;d:1.1;i:3;d:4.4;i:2;d:3.3;}"#.to_vec());
    let values = deserialize_unordered_array(&mut de).unwrap();
    let floats: Vec<f64> = values.iter().map(decoded_float).collect();
    assert_eq!(floats, vec![1.1, 2.2, 3.3, 4.4]);
}

#[test]
fn deserialize_array_unordered_with_holes() {
    let mut de = PhpDeserializer::new(
        br#"a:4:{i:0;s:4:"zero";i:2;s:3:"two";i:1;s:3:"one";i:6;s:3:"six";}"#.to_vec(),
    );
    let values = deserialize_unordered_array(&mut de).unwrap();
    let expected = vec![
        PhpValue::Bytes(b"zero".to_vec()),
        PhpValue::Bytes(b"one".to_vec()),
        PhpValue::Bytes(b"two".to_vec()),
        PhpValue::Bytes(b"six".to_vec()),
    ];
    assert_eq!(values, expected);
}

#[test]
fn deserialize_struct() {
    // PHP: array("foo" => true, "bar" => "xyz", "sub" => array("x" => 42))
    let decoded =
        from_bytes(br#"a:3:{s:3:"foo";b:1;s:3:"bar";s:3:"xyz";s:3:"sub";a:1:{s:1:"x";i:42;}}"#)
            .unwrap();
    assert_eq!(
        decoded,
        PhpValue::Mapping(vec![
            (b"foo".to_vec(), PhpValue::Bool(true)),
            (b"bar".to_vec(), PhpValue::Bytes(b"xyz".to_vec())),
            (
                b"sub".to_vec(),
                PhpValue::Mapping(vec![(b"x".to_vec(), PhpValue::Int(42))])
            ),
        ])
    );
}

#[test]
fn deserialize_struct_with_optional() {
    // An all-optional record decodes from the empty array and from any
    // subset of its fields.
    let mut de = PhpDeserializer::new(br#"a:0:{}"#.to_vec());
    assert_eq!(de.parse_mapping().unwrap(), vec![]);

    let mut de = PhpDeserializer::new(
        br#"a:1:{s:8:"province";s:29:"Newfoundland and Labrador, CA";}"#.to_vec(),
    );
    assert_eq!(
        de.parse_mapping().unwrap(),
        vec![(
            b"province".to_vec(),
            PhpValue::Bytes(b"Newfoundland and Labrador, CA".to_vec())
        )]
    );

    let mut de = PhpDeserializer::new(
        br#"a:2:{s:10:"postalcode";s:5:"90002";s:7:"country";s:24:"United States of America";}"#
            .to_vec(),
    );
    assert_eq!(
        de.parse_mapping().unwrap(),
        vec![
            (b"postalcode".to_vec(), PhpValue::Bytes(b"90002".to_vec())),
            (
                b"country".to_vec(),
                PhpValue::Bytes(b"United States of America".to_vec())
            ),
        ]
    );
}

#[test]
fn deserialize_nested() {
    // PHP: array("x" => array("inner" => 1), "y" => array("inner" => 2))
    let decoded =
        from_bytes(br#"a:2:{s:1:"x";a:1:{s:5:"inner";i:1;}s:1:"y";a:1:{s:5:"inner";i:2;}}"#)
            .unwrap();
    assert_eq!(
        decoded,
        PhpValue::Mapping(vec![
            (
                b"x".to_vec(),
                PhpValue::Mapping(vec![(b"inner".to_vec(), PhpValue::Int(1))])
            ),
            (
                b"y".to_vec(),
                PhpValue::Mapping(vec![(b"inner".to_vec(), PhpValue::Int(2))])
            ),
        ])
    );
}

#[test]
fn deserialize_variable_length() {
    // PHP: array(1.1, 2.2, 3.3, 4.4)
    let decoded = from_bytes(br#"a:4:{i:0;d:1.1;i:1;d:2.2;i:2;d:3.3;i:3;d:4.4;}"#).unwrap();
    match decoded {
        PhpValue::Sequence(elems) => {
            let floats: Vec<f64> = elems.iter().map(decoded_float).collect();
            assert_eq!(floats, vec![1.1, 2.2, 3.3, 4.4]);
        }
        other => panic!("expected sequence, got {:?}", other),
    }
}

#[test]
fn deserialize_hashmap() {
    // PHP: array("foo" => 1, "bar" => 2)
    let mut expected = HashMap::new();
    expected.insert("foo".to_owned(), 1u16);
    expected.insert("bar".to_owned(), 2u16);

    let decoded = from_bytes(br#"a:2:{s:3:"foo";i:1;s:3:"bar";i:2;}"#).unwrap();
    let mut actual: HashMap<String, u16> = HashMap::new();
    match decoded {
        PhpValue::Mapping(entries) => {
            for (key, value) in entries {
                let key = String::from_utf8(key).unwrap();
                match value {
                    PhpValue::Int(n) => {
                        actual.insert(key, u16::try_from(n).unwrap());
                    }
                    other => panic!("expected integer, got {:?}", other),
                }
            }
        }
        other => panic!("expected mapping, got {:?}", other),
    }
    assert_eq!(actual, expected);
}

#[test]
fn deserialize_sequence_index_mismatch() {
    // Out-of-order keys are a hard error on the primary sequence path.
    let result = from_bytes(br#"a:2:{i:1;s:1:"a";i:0;s:1:"b";}"#);
    assert_eq!(
        result,
        Err(Error::IndexMismatch {
            expected: 0,
            actual: 1
        })
    );
}

#[test]
fn deserialize_unordered_same_array() {
    // The same out-of-order array decodes through the unordered helper,
    // dense and key-sorted.
    let mut de = PhpDeserializer::new(br#"a:2:{i:1;s:1:"a";i:0;s:1:"b";}"#.to_vec());
    let values = deserialize_unordered_array(&mut de).unwrap();
    assert_eq!(
        values,
        vec![
            PhpValue::Bytes(b"b".to_vec()),
            PhpValue::Bytes(b"a".to_vec())
        ]
    );
}

#[test]
fn deserialize_unordered_duplicate_key_keeps_last() {
    let mut de = PhpDeserializer::new(br#"a:2:{i:0;s:1:"a";i:0;s:1:"b";}"#.to_vec());
    let values = deserialize_unordered_array(&mut de).unwrap();
    assert_eq!(values, vec![PhpValue::Bytes(b"b".to_vec())]);
}

#[test]
fn deserialize_object_rejected() {
    // Any input beginning with `O:` fails with the unsupported-feature
    // error, never a partial parse.
    let result = from_bytes(br#"O:8:"stdClass":0:{}"#);
    assert!(matches!(result, Err(Error::MissingFeature(_))));
}

#[test]
fn deserialize_invalid_type_indicator() {
    assert_eq!(
        from_bytes(b"x:1;"),
        Err(Error::InvalidTypeIndicator(b'x'))
    );
}

#[test]
fn deserialize_invalid_boolean() {
    assert_eq!(from_bytes(b"b:5;"), Err(Error::InvalidBooleanValue(b'5')));
}

#[test]
fn deserialize_unsupported_array_key() {
    assert_eq!(
        from_bytes(b"a:1:{b:1;b:0;}"),
        Err(Error::UnsupportedArrayKeyType(b'b'))
    );
}

#[test]
fn deserialize_eof() {
    assert_eq!(from_bytes(b""), Err(Error::UnexpectedEof));
    assert_eq!(from_bytes(br#"s:5:"ab"#), Err(Error::UnexpectedEof));
}

#[test]
fn deserialize_unexpected_byte() {
    assert_eq!(
        from_bytes(b"i;1;"),
        Err(Error::Unexpected {
            expected: b':',
            actual: b';'
        })
    );
}

#[test]
fn deserialize_integer_overflow() {
    assert_eq!(
        from_bytes(b"i:99999999999999999999;"),
        Err(Error::NotAValidNumber)
    );
}

#[test]
fn deserialize_expected_digit() {
    assert_eq!(
        from_bytes(b"s:x;"),
        Err(Error::ExpectedDigit { actual: b'x' })
    );
}

#[test]
fn deserialize_char_code() {
    let mut de = PhpDeserializer::new(b"i:97;".to_vec());
    assert_eq!(de.parse_char().unwrap(), 'a');

    // 55296 is the first surrogate code point: no character carries it.
    let mut de = PhpDeserializer::new(b"i:55296;".to_vec());
    assert_eq!(de.parse_char(), Err(Error::CharConversionFailed));
}

#[test]
fn deserialize_option_values() {
    // Decoding `N;` against an optional target yields "absent"; anything
    // else is read as the present value.
    let mut de = PhpDeserializer::new(b"N;".to_vec());
    assert_eq!(de.parse_option().unwrap(), None);

    let mut de = PhpDeserializer::new(b"i:3;".to_vec());
    assert_eq!(de.parse_option().unwrap(), Some(PhpValue::Int(3)));
}

#[test]
fn deserialize_empty_array_both_ways() {
    // `a:0:{}` decodes into an empty sequence and into an all-optional
    // record alike.
    assert_eq!(from_bytes(b"a:0:{}").unwrap(), PhpValue::Sequence(vec![]));
    let mut de = PhpDeserializer::new(b"a:0:{}".to_vec());
    assert_eq!(de.parse_mapping().unwrap(), vec![]);
}

#[test]
fn deserialize_null_against_scalar_fails() {
    // There is no universal null placeholder: `N;` read where a scalar is
    // demanded is a type mismatch.
    let mut de = PhpDeserializer::new(b"N;".to_vec());
    assert_eq!(
        de.parse_i64(),
        Err(Error::Unexpected {
            expected: b'i',
            actual: b'N'
        })
    );
}
