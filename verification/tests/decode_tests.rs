use serde_env::decode::{
    classify, decode_bool, decode_bytes, decode_char, decode_i16, decode_i32, decode_i64,
    decode_i8, decode_string, decode_u16, decode_u32, decode_u64, decode_u8, sequence_elements,
    tuple_elements, Class, DecodeError, ScalarKind,
};
use serde_env::tree::Node;

fn node(value: &str) -> Node {
    Node::new(value.to_string())
}

#[test]
fn classify_unsigned() {
    assert_eq!(classify(&node("123")), Class::Unsigned(123));
    assert_eq!(
        classify(&node("18446744073709551615")),
        Class::Unsigned(u64::MAX)
    );
}

#[test]
fn classify_unsigned_overflow_is_text() {
    assert_eq!(classify(&node("18446744073709551616")), Class::Text);
}

#[test]
fn classify_signed() {
    assert_eq!(classify(&node("-123")), Class::Signed(-123));
    assert_eq!(
        classify(&node("-9223372036854775808")),
        Class::Signed(i64::MIN)
    );
    assert_eq!(classify(&node("-9223372036854775809")), Class::Text);
    assert_eq!(classify(&node("-")), Class::Text);
}

#[test]
fn classify_boolean_any_case() {
    assert_eq!(classify(&node("true")), Class::Boolean(true));
    assert_eq!(classify(&node("True")), Class::Boolean(true));
    assert_eq!(classify(&node("TRUE")), Class::Boolean(true));
    assert_eq!(classify(&node("False")), Class::Boolean(false));
}

#[test]
fn classify_sequence_wins_over_digits() {
    assert_eq!(classify(&node("1,2")), Class::Sequence);
    assert_eq!(classify(&node("a,b")), Class::Sequence);
}

#[test]
fn classify_empty_and_text() {
    assert_eq!(classify(&node("")), Class::Absent);
    assert_eq!(classify(&node("hello")), Class::Text);
    assert_eq!(classify(&node("123abc")), Class::Text);
    assert_eq!(classify(&node("truthy")), Class::Text);
}

#[test]
fn sequence_elements_trims_and_drops_empties() {
    assert_eq!(
        sequence_elements(&node("1, 2, 3 ")),
        vec!["1".to_string(), "2".to_string(), "3".to_string()]
    );
    assert_eq!(sequence_elements(&node("")), Vec::<String>::new());
    assert_eq!(
        sequence_elements(&node("1,2,")),
        vec!["1".to_string(), "2".to_string()]
    );
}

#[test]
fn tuple_elements_keeps_empties() {
    assert_eq!(
        tuple_elements(&node("1,2,")),
        vec!["1".to_string(), "2".to_string(), "".to_string()]
    );
    assert_eq!(tuple_elements(&node("")), vec!["".to_string()]);
}

#[test]
fn decode_bool_is_case_sensitive() {
    assert_eq!(decode_bool(&node("true")), Ok(true));
    assert_eq!(decode_bool(&node("false")), Ok(false));
    let err = decode_bool(&node("TRUE")).unwrap_err();
    assert_eq!(
        err,
        DecodeError::Parse {
            raw: "TRUE".to_string(),
            target: ScalarKind::Bool
        }
    );
}

#[test]
fn decode_unsigned_widths() {
    assert_eq!(decode_u64(&node("18446744073709551615")), Ok(u64::MAX));
    assert_eq!(decode_u32(&node("4294967295")), Ok(u32::MAX));
    assert_eq!(decode_u16(&node("8080")), Ok(8080u16));
    assert_eq!(decode_u8(&node("255")), Ok(255u8));
    assert_eq!(decode_u8(&node("+42")), Ok(42u8));
    assert_eq!(
        decode_u8(&node("300")),
        Err(DecodeError::Parse {
            raw: "300".to_string(),
            target: ScalarKind::U8
        })
    );
    assert_eq!(
        decode_u64(&node("-1")),
        Err(DecodeError::Parse {
            raw: "-1".to_string(),
            target: ScalarKind::U64
        })
    );
    assert_eq!(
        decode_u64(&node("")),
        Err(DecodeError::Parse {
            raw: "".to_string(),
            target: ScalarKind::U64
        })
    );
}

#[test]
fn decode_signed_widths() {
    assert_eq!(decode_i64(&node("-9223372036854775808")), Ok(i64::MIN));
    assert_eq!(decode_i64(&node("9223372036854775807")), Ok(i64::MAX));
    assert_eq!(decode_i32(&node("-2147483648")), Ok(i32::MIN));
    assert_eq!(decode_i16(&node("-123")), Ok(-123i16));
    assert_eq!(decode_i8(&node("127")), Ok(127i8));
    assert_eq!(
        decode_i8(&node("-129")),
        Err(DecodeError::Parse {
            raw: "-129".to_string(),
            target: ScalarKind::I8
        })
    );
    assert_eq!(
        decode_i64(&node("12a")),
        Err(DecodeError::Parse {
            raw: "12a".to_string(),
            target: ScalarKind::I64
        })
    );
}

#[test]
fn decode_char_takes_exactly_one() {
    assert_eq!(decode_char(&node("x")), Ok('x'));
    assert_eq!(
        decode_char(&node("xy")),
        Err(DecodeError::Parse {
            raw: "xy".to_string(),
            target: ScalarKind::Char
        })
    );
    assert_eq!(
        decode_char(&node("")),
        Err(DecodeError::Parse {
            raw: "".to_string(),
            target: ScalarKind::Char
        })
    );
}

#[test]
fn decode_string_and_bytes_pass_value_through() {
    assert_eq!(decode_string(node("Hello, test")), "Hello, test".to_string());
    assert_eq!(decode_bytes(&node("ab")), vec![97u8, 98u8]);
}

#[test]
fn error_messages() {
    let e = DecodeError::UnknownVariant {
        value: "Q".to_string(),
    };
    assert_eq!(e.message(), "no variant `Q` found".to_string());
    assert_eq!(
        DecodeError::UnsupportedShape.message(),
        "tuple variant is not supported".to_string()
    );
    assert_eq!(
        DecodeError::MalformedUnitVariant.message(),
        "variant is not unit".to_string()
    );
    let p = DecodeError::Parse {
        raw: "zzz".to_string(),
        target: ScalarKind::U8,
    };
    assert_eq!(p.message(), "failed to parse `zzz`".to_string());
}
