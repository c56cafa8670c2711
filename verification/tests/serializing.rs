use lite_json::json::{JsonValue, NumberValue};
use lite_json::traits::Serialize;

#[test]
fn serialize_number_value() {
    let val = NumberValue {
        integer: 1234,
        fraction: 0,
        fraction_length: 0,
        exponent: 0,
        negative: false,
    };
    assert_eq!(val.serialize(), b"1234");

    let val = NumberValue {
        integer: 1234,
        fraction: 0,
        fraction_length: 0,
        exponent: 0,
        negative: true,
    };
    assert_eq!(val.serialize(), b"-1234");

    let val = NumberValue {
        integer: 1234,
        fraction: 5678,
        fraction_length: 4,
        exponent: 0,
        negative: true,
    };
    assert_eq!(val.serialize(), b"-1234.5678");

    let val = NumberValue {
        integer: 1234,
        fraction: 1,
        fraction_length: 3,
        exponent: 0,
        negative: false,
    };
    assert_eq!(val.serialize(), b"1234.001");

    let val = NumberValue {
        integer: 1234,
        fraction: 0,
        fraction_length: 0,
        exponent: 3,
        negative: false,
    };
    assert_eq!(val.serialize(), b"1234e3");

    let val = NumberValue {
        integer: 1234,
        fraction: 0,
        fraction_length: 0,
        exponent: -5,
        negative: false,
    };
    assert_eq!(val.serialize(), b"1234e-5");

    let val = NumberValue {
        integer: 1234,
        fraction: 56,
        fraction_length: 4,
        exponent: -5,
        negative: false,
    };
    assert_eq!(val.serialize(), b"1234.0056e-5");

    let val = NumberValue {
        integer: 1234,
        fraction: 5,
        fraction_length: 2,
        exponent: 5,
        negative: true,
    };
    assert_eq!(val.serialize(), b"-1234.05e5");
}

#[test]
fn serialize_works() {
    let obj = JsonValue::Object(vec![(
        "test\"123".chars().into_iter().collect(),
        JsonValue::Null,
    )]);
    assert_eq!(
        std::str::from_utf8(&obj.format(4)[..]).unwrap(),
        r#"{
    "test\"123": null
}"#
    );

    let obj = JsonValue::Object(vec![
        (
            vec!['t', 'e', 's', 't'],
            JsonValue::Number(NumberValue {
                integer: 123,
                fraction: 4,
                fraction_length: 2,
                exponent: 0,
                negative: false,
            }),
        ),
        (
            vec!['t', 'e', 's', 't', '2'],
            JsonValue::Array(vec![
                JsonValue::Number(NumberValue {
                    integer: 1,
                    fraction: 0,
                    fraction_length: 0,
                    exponent: -4,
                    negative: false,
                }),
                JsonValue::Number(NumberValue {
                    integer: 2,
                    fraction: 41,
                    fraction_length: 3,
                    exponent: 2,
                    negative: false,
                }),
                JsonValue::Boolean(true),
                JsonValue::Boolean(false),
                JsonValue::Null,
                JsonValue::String(vec!['\"', '1', 'n', '\"']),
                JsonValue::Object(vec![]),
                JsonValue::Array(vec![]),
            ]),
        ),
    ]);

    assert_eq!(
        std::str::from_utf8(&obj.format(4)[..]).unwrap(),
        r#"{
    "test": 123.04,
    "test2": [
        1e-4,
        2.041e2,
        true,
        false,
        null,
        "\"1n\"",
        {},
        []
    ]
}"#
    );

    assert_eq!(
        std::str::from_utf8(&obj.serialize()[..]).unwrap(),
        r#"{"test":123.04,"test2":[1e-4,2.041e2,true,false,null,"\"1n\"",{},[]]}"#
    );
}

#[test]
fn serialize_zero_number() {
    let val = NumberValue {
        integer: 0,
        fraction: 0,
        fraction_length: 0,
        exponent: 0,
        negative: false,
    };
    assert_eq!(val.serialize(), b"0");
}

#[test]
fn zero_fraction_omits_decimal_point() {
    let val = NumberValue {
        integer: 5,
        fraction: 0,
        fraction_length: 3,
        exponent: 0,
        negative: false,
    };
    assert_eq!(val.serialize(), b"5");
}

#[test]
fn empty_containers_in_both_modes() {
    let obj = JsonValue::Object(vec![]);
    assert_eq!(obj.serialize(), b"{}");
    assert_eq!(obj.format(4), b"{}");

    let arr = JsonValue::Array(vec![]);
    assert_eq!(arr.serialize(), b"[]");
    assert_eq!(arr.format(4), b"[]");
}

#[test]
fn pretty_and_compact_whitespace() {
    let obj = JsonValue::Object(vec![(
        vec!['a'],
        JsonValue::Array(vec![
            JsonValue::Number(NumberValue {
                integer: 1,
                fraction: 0,
                fraction_length: 0,
                exponent: 0,
                negative: false,
            }),
            JsonValue::Boolean(true),
        ]),
    )]);
    assert_eq!(
        std::str::from_utf8(&obj.format(4)[..]).unwrap(),
        "{\n    \"a\": [\n        1,\n        true\n    ]\n}"
    );
    assert_eq!(
        std::str::from_utf8(&obj.serialize()[..]).unwrap(),
        "{\"a\":[1,true]}"
    );
}

#[test]
fn serialize_extreme_numbers() {
    let val = NumberValue {
        integer: u128::MAX,
        fraction: 0,
        fraction_length: 0,
        exponent: 0,
        negative: false,
    };
    assert_eq!(val.serialize(), b"340282366920938463463374607431768211455");

    let val = NumberValue {
        integer: 1,
        fraction: 0,
        fraction_length: 0,
        exponent: i32::MIN,
        negative: true,
    };
    assert_eq!(val.serialize(), b"-1e-2147483648");
}

#[test]
fn compact_form_ignores_nesting() {
    let inner = JsonValue::Array(vec![JsonValue::Number(NumberValue {
        integer: 1,
        fraction: 0,
        fraction_length: 0,
        exponent: 0,
        negative: false,
    })]);
    assert_eq!(inner.serialize(), b"[1]");
    let outer = JsonValue::Array(vec![inner]);
    assert_eq!(outer.serialize(), b"[[1]]");
    assert_eq!(outer.format(0), outer.serialize());
}

#[test]
fn string_escapes_and_unicode() {
    let s = JsonValue::String(vec![
        '\u{8}', '\u{c}', '\n', '\r', '\t', '"', '\\', 'A', '\u{e9}', '\u{20ac}', '\u{1d11e}',
    ]);
    let expected = "\"\\b\\f\\n\\r\\t\\\"\\\\A\u{e9}\u{20ac}\u{1d11e}\"";
    assert_eq!(s.serialize(), expected.as_bytes());
}
