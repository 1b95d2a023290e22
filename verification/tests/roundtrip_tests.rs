use php_serial::de::from_bytes;
use php_serial::ser::to_vec;
use php_serial::value::{FloatLit, PhpValue};

fn float_lit(v: f64) -> PhpValue {
    let text = format!("{}", v);
    let (neg, digits) = match text.strip_prefix('-') {
        Some(rest) => (true, rest),
        None => (false, text.as_str()),
    };
    let (int_part, frac_part) = match digits.split_once('.') {
        Some((i, f)) => (i, Some(f)),
        None => (digits, None),
    };
    PhpValue::Float(FloatLit {
        neg,
        int_digits: int_part.as_bytes().to_vec(),
        frac_digits: frac_part.map(|f| f.as_bytes().to_vec()),
    })
}

fn assert_roundtrip(value: PhpValue) {
    let encoded = to_vec(&value).expect("serialization failed");
    let decoded = from_bytes(&encoded).expect("deserialization failed");
    assert_eq!(decoded, value);
}

#[test]
fn roundtrip_scalars() {
    assert_roundtrip(PhpValue::Null);
    assert_roundtrip(PhpValue::Bool(false));
    assert_roundtrip(PhpValue::Bool(true));
    assert_roundtrip(PhpValue::Int(0));
    assert_roundtrip(PhpValue::Int(i64::MIN));
    assert_roundtrip(PhpValue::Int(i64::MAX));
    assert_roundtrip(float_lit(2.25));
    assert_roundtrip(float_lit(-17.0));
    assert_roundtrip(PhpValue::Bytes(vec![0, 255, 10, 34, 92]));
}

#[test]
fn roundtrip_aggregates() {
    assert_roundtrip(PhpValue::Sequence(vec![]));
    assert_roundtrip(PhpValue::Sequence(vec![
        PhpValue::Int(1),
        PhpValue::Bytes(b"two".to_vec()),
        PhpValue::Sequence(vec![PhpValue::Bool(true)]),
    ]));
    assert_roundtrip(PhpValue::Mapping(vec![
        (b"k".to_vec(), PhpValue::Null),
        (
            b"nested".to_vec(),
            PhpValue::Mapping(vec![(b"x".to_vec(), PhpValue::Int(-3))]),
        ),
    ]));
}

#[test]
fn byte_exact_fixture() {
    // Encoding {id:42, name:"Bob", tags:["foo","bar"]} yields exactly the
    // bytes PHP's serializer produces for the equivalent structure.
    let profile = PhpValue::Mapping(vec![
        (b"id".to_vec(), PhpValue::Int(42)),
        (b"name".to_vec(), PhpValue::Bytes(b"Bob".to_vec())),
        (
            b"tags".to_vec(),
            PhpValue::Sequence(vec![
                PhpValue::Bytes(b"foo".to_vec()),
                PhpValue::Bytes(b"bar".to_vec()),
            ]),
        ),
    ]);
    let expected = br#"a:3:{s:2:"id";i:42;s:4:"name";s:3:"Bob";s:4:"tags";a:2:{i:0;s:3:"foo";i:1;s:3:"bar";}}"#;
    let encoded = to_vec(&profile).expect("serialization failed");
    assert_eq!(encoded, expected.to_vec());

    let decoded = from_bytes(&encoded).expect("deserialization failed");
    assert_eq!(decoded, profile);
}

#[test]
fn float_dot_omission() {
    // Both `d:5;` and `d:5.0;` carry the floating value 5.0; encoding the
    // value 5.0 through its native rendering emits `d:5;`, while 1.9 keeps
    // its fraction.
    let five_plain = from_bytes(b"d:5;").unwrap();
    let five_dotted = from_bytes(b"d:5.0;").unwrap();
    let as_f64 = |v: &PhpValue| match v {
        PhpValue::Float(lit) => {
            let mut text = String::new();
            if lit.neg {
                text.push('-');
            }
            text.push_str(std::str::from_utf8(&lit.int_digits).unwrap());
            if let Some(frac) = &lit.frac_digits {
                text.push('.');
                text.push_str(std::str::from_utf8(frac).unwrap());
            }
            text.parse::<f64>().unwrap()
        }
        other => panic!("expected float, got {:?}", other),
    };
    assert_eq!(as_f64(&five_plain), 5.0);
    assert_eq!(as_f64(&five_dotted), 5.0);

    assert_eq!(to_vec(&float_lit(5.0)).unwrap(), b"d:5;");
    assert_eq!(to_vec(&float_lit(1.9)).unwrap(), b"d:1.9;");
}

#[test]
fn null_absent_symmetry() {
    // Encoding "absent" always yields `N;`, and `N;` reads back as the
    // null value that stands for it.
    assert_eq!(to_vec(&PhpValue::Null).unwrap(), b"N;");
    assert_eq!(from_bytes(b"N;").unwrap(), PhpValue::Null);
}

#[test]
fn well_formedness_check() {
    assert!(php_serial::value::is_well_formed(&PhpValue::Int(5)));
    assert!(php_serial::value::is_well_formed(&float_lit(1.5)));
    // A float literal without digits cannot be written out.
    let bad = PhpValue::Float(FloatLit {
        neg: false,
        int_digits: vec![],
        frac_digits: None,
    });
    assert!(!php_serial::value::is_well_formed(&bad));
    // An empty mapping is not well-formed either: the empty array is
    // represented as the empty sequence.
    assert!(!php_serial::value::is_well_formed(&PhpValue::Mapping(vec![])));
}
