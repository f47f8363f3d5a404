//! The parser scenarios: one per schema kind, exercised through the public
//! state machine.

use llmd::biaser::JsonBiaser;
use llmd::decimal::Decimal;
use llmd::schema::JsonSchema;
use llmd::token::JsonToken;
use llmd::value::JsonValue;

#[test]
pub fn test_parser() {
    let schema = JsonSchema::Boolean;
    let bias = JsonBiaser::new(&schema);
    assert_eq!(bias.next_valid_tokens(), vec![JsonToken::True, JsonToken::False]);
}

#[test]
pub fn test_string_parser() {
    let schema = JsonSchema::String { max_length: Some(10), enum_values: None };
    let mut bias = JsonBiaser::new(&schema);
    assert_eq!(bias.next_valid_tokens(), vec![JsonToken::DoubleQuote]);
    bias.advance(&JsonToken::DoubleQuote).unwrap();
    bias.advance(&JsonToken::String(String::from("hello"))).unwrap();
    bias.advance(&JsonToken::DoubleQuote).unwrap();
    assert_eq!(bias.next_valid_tokens(), vec![]);
    assert_eq!(bias.value(), Some(JsonValue::String(String::from("hello"))));
}

#[test]
pub fn test_string_enum_parser() {
    let words = vec!["foo".to_string(), "bar".to_string(), "baz".to_string()];
    let schema = JsonSchema::String { max_length: Some(10), enum_values: Some(words.clone()) };
    let mut bias = JsonBiaser::new(&schema);
    assert_eq!(bias.next_valid_tokens(), vec![JsonToken::DoubleQuote]);
    bias.advance(&JsonToken::DoubleQuote).unwrap();
    assert_eq!(bias.next_valid_tokens(), vec![JsonToken::AnyOf(words)]);
    bias.advance(&JsonToken::String(String::from("foo"))).unwrap();
    bias.advance(&JsonToken::DoubleQuote).unwrap();
    assert_eq!(bias.next_valid_tokens(), vec![]);
}

#[test]
pub fn test_empty_object_parser() {
    let schema = JsonSchema::Object { required: vec![], properties: vec![] };
    let mut biaser = JsonBiaser::new(&schema);

    // '{}'
    assert_eq!(biaser.next_valid_tokens(), vec![JsonToken::CurlyOpen]);
    biaser.advance(&JsonToken::CurlyOpen).unwrap();
    assert_eq!(biaser.next_valid_tokens(), vec![JsonToken::CurlyClose]);
    biaser.advance(&JsonToken::CurlyClose).unwrap();
    assert_eq!(biaser.next_valid_tokens(), vec![]);
}

#[test]
pub fn test_nested_object_parser() {
    let schema = JsonSchema::Object {
        required: vec!["car".to_string()],
        properties: vec![(
            "car".to_string(),
            JsonSchema::Object {
                required: vec!["name".to_string()],
                properties: vec![(
                    "name".to_string(),
                    JsonSchema::String { max_length: None, enum_values: None },
                )],
            },
        )],
    };

    let mut biaser = JsonBiaser::new(&schema);

    // {"car":{"name":"car mccarface"}}
    let stream = vec![
        JsonToken::CurlyOpen,
        JsonToken::DoubleQuote,
        JsonToken::String("car".to_string()),
        JsonToken::DoubleQuote,
        JsonToken::Colon,
        JsonToken::CurlyOpen,
        JsonToken::DoubleQuote,
        JsonToken::String("name".to_string()),
        JsonToken::DoubleQuote,
        JsonToken::Colon,
        JsonToken::DoubleQuote,
        JsonToken::String("car mccarface".to_string()),
        JsonToken::DoubleQuote,
        JsonToken::CurlyClose,
        JsonToken::CurlyClose,
    ];

    for token in stream.iter() {
        biaser.advance(token).unwrap();
    }
    assert!(biaser.next_valid_tokens().is_empty());
}

#[test]
pub fn test_object_parser() {
    let schema = JsonSchema::Object {
        required: vec!["first_name".to_string(), "last_name".to_string()],
        properties: vec![
            (
                "first_name".to_string(),
                JsonSchema::String { max_length: Some(5), enum_values: None },
            ),
            (
                "last_name".to_string(),
                JsonSchema::String { max_length: Some(7), enum_values: None },
            ),
        ],
    };

    let mut biaser = JsonBiaser::new(&schema);

    // '{"'
    assert_eq!(biaser.next_valid_tokens(), vec![JsonToken::CurlyOpen]);
    biaser.advance(&JsonToken::CurlyOpen).unwrap();
    assert_eq!(biaser.next_valid_tokens(), vec![JsonToken::DoubleQuote]);
    biaser.advance(&JsonToken::DoubleQuote).unwrap();

    // First we expect the 'first_name' key
    assert_eq!(
        biaser.next_valid_tokens(),
        vec![JsonToken::AnyOf(vec!["first_name".to_string()])]
    );
    biaser.advance(&JsonToken::String("first_".to_string())).unwrap();
    assert_eq!(biaser.next_valid_tokens(), vec![JsonToken::AnyOf(vec!["name".to_string()])]);
    biaser.advance(&JsonToken::String("name".to_string())).unwrap();
    assert_eq!(biaser.next_valid_tokens(), vec![JsonToken::DoubleQuote]);
    biaser.advance(&JsonToken::DoubleQuote).unwrap();
    assert_eq!(biaser.next_valid_tokens(), vec![JsonToken::Colon]);
    biaser.advance(&JsonToken::Colon).unwrap(); // {"first_name": at this point
    assert_eq!(biaser.next_valid_tokens(), vec![JsonToken::DoubleQuote]);
    biaser.advance(&JsonToken::DoubleQuote).unwrap();
    biaser.advance(&JsonToken::String("tommy".to_string())).unwrap();
    biaser.advance(&JsonToken::DoubleQuote).unwrap(); // {"first_name":"tommy" at this point
    // comma, nothing else, because we need that last_name key
    assert_eq!(biaser.next_valid_tokens(), vec![JsonToken::Comma]);
    biaser.advance(&JsonToken::Comma).unwrap(); // {"first_name":"tommy", at this point

    assert_eq!(biaser.next_valid_tokens(), vec![JsonToken::DoubleQuote]);
    biaser.advance(&JsonToken::DoubleQuote).unwrap();
    assert_eq!(
        biaser.next_valid_tokens(),
        vec![JsonToken::AnyOf(vec!["last_name".to_string()])]
    );
    biaser.advance(&JsonToken::String("last_name".to_string())).unwrap();
    assert_eq!(biaser.next_valid_tokens(), vec![JsonToken::DoubleQuote]);
    biaser.advance(&JsonToken::DoubleQuote).unwrap(); // {"first_name":"tommy","last_name" at this point
    assert_eq!(biaser.next_valid_tokens(), vec![JsonToken::Colon]);
    biaser.advance(&JsonToken::Colon).unwrap();
    biaser.advance(&JsonToken::DoubleQuote).unwrap();
    biaser.advance(&JsonToken::String("vorst".to_string())).unwrap();
    biaser.advance(&JsonToken::DoubleQuote).unwrap();
    assert_eq!(biaser.next_valid_tokens(), vec![JsonToken::CurlyClose]); // All keys have been gathered
    biaser.advance(&JsonToken::CurlyClose).unwrap();
    assert_eq!(biaser.next_valid_tokens(), vec![]); // Object is done
    assert!(biaser.can_end());
    assert_eq!(
        biaser.value(),
        Some(JsonValue::Object(vec![
            ("first_name".to_string(), JsonValue::String("tommy".to_string())),
            ("last_name".to_string(), JsonValue::String("vorst".to_string())),
        ]))
    );
}

#[test]
pub fn test_array_parser() {
    let schema = JsonSchema::Array {
        items: Box::new(JsonSchema::Boolean),
        min_items: Some(2),
        max_items: Some(3),
    };
    let mut bias = JsonBiaser::new(&schema);

    assert_eq!(bias.next_valid_tokens(), vec![JsonToken::BracketOpen]);
    bias.advance(&JsonToken::BracketOpen).unwrap();
    assert_eq!(bias.next_valid_tokens(), vec![JsonToken::True, JsonToken::False]);
    bias.advance(&JsonToken::True).unwrap();
    assert_eq!(bias.next_valid_tokens(), vec![JsonToken::Comma]);
    bias.advance(&JsonToken::Comma).unwrap();
    assert_eq!(bias.next_valid_tokens(), vec![JsonToken::True, JsonToken::False]);
    bias.advance(&JsonToken::False).unwrap();
    assert_eq!(bias.next_valid_tokens(), vec![JsonToken::Comma, JsonToken::BracketClose]);
    bias.advance(&JsonToken::Comma).unwrap();
    assert_eq!(bias.next_valid_tokens(), vec![JsonToken::True, JsonToken::False]);
    bias.advance(&JsonToken::False).unwrap();
    // After the third element the item cap leaves only the closing bracket:
    // an attempt to add a fourth is refused.
    assert_eq!(bias.next_valid_tokens(), vec![JsonToken::BracketClose]);
    bias.advance(&JsonToken::BracketClose).unwrap();
    assert_eq!(bias.next_valid_tokens(), vec![]);
    assert!(bias.can_end());
    assert_eq!(
        bias.value(),
        Some(JsonValue::Array(vec![
            JsonValue::Bool(true),
            JsonValue::Bool(false),
            JsonValue::Bool(false),
        ]))
    );
}

#[test]
pub fn test_boolean_value() {
    let schema = JsonSchema::Boolean;
    let mut bias = JsonBiaser::new(&schema);
    assert!(!bias.can_end());
    bias.advance(&JsonToken::True).unwrap();
    assert!(bias.can_end());
    assert_eq!(bias.value(), Some(JsonValue::Bool(true)));
    assert!(bias.next_valid_tokens().is_empty());
}

#[test]
pub fn test_number_parser_bounds() {
    // Bounds [-0.32, 5.87] with two decimals.
    let schema = JsonSchema::Number {
        min: Some(Decimal::from_parts(true, 0, 32, 2)),
        max: Some(Decimal::from_parts(false, 5, 87, 2)),
        max_decimals: Some(2),
    };
    let mut bias = JsonBiaser::new(&schema);
    // Start digits: 1..=5 are in range; the minus is offered.
    assert_eq!(
        bias.next_valid_tokens(),
        vec![
            JsonToken::Digit(1),
            JsonToken::Digit(2),
            JsonToken::Digit(3),
            JsonToken::Digit(4),
            JsonToken::Digit(5),
            JsonToken::Minus,
        ]
    );
    bias.advance(&JsonToken::Digit(5)).unwrap();
    // After "5": 5.0..=5.8 reachable via the decimal point; appending any
    // digit overshoots the cap.
    assert_eq!(bias.next_valid_tokens(), vec![JsonToken::Decimal]);
    bias.advance(&JsonToken::Decimal).unwrap();
    assert!(!bias.can_end());
    // "5." continues with 0..=8.
    assert_eq!(
        bias.next_valid_tokens(),
        vec![
            JsonToken::Digit(0),
            JsonToken::Digit(1),
            JsonToken::Digit(2),
            JsonToken::Digit(3),
            JsonToken::Digit(4),
            JsonToken::Digit(5),
            JsonToken::Digit(6),
            JsonToken::Digit(7),
            JsonToken::Digit(8),
        ]
    );
    bias.advance(&JsonToken::Digit(8)).unwrap();
    assert!(bias.can_end());
    // Two decimals used up: "5.87" admits nothing further.
    bias.advance(&JsonToken::Digit(7)).unwrap();
    assert_eq!(bias.next_valid_tokens(), vec![]);
    assert!(bias.can_end());
    assert_eq!(bias.value(), Some(JsonValue::Number(Decimal::from_parts(false, 5, 87, 2))));
}

#[test]
pub fn test_negative_number_parser() {
    let schema = JsonSchema::Number {
        min: Some(Decimal::from_int(-5)),
        max: Some(Decimal::from_int(-2)),
        max_decimals: None,
    };
    let mut bias = JsonBiaser::new(&schema);
    // Only the minus sign can start a literal in a negative range.
    assert_eq!(bias.next_valid_tokens(), vec![JsonToken::Minus]);
    bias.advance(&JsonToken::Minus).unwrap();
    assert!(!bias.can_end());
    // The digits 2..=5 give values in [-5, -2].
    assert_eq!(
        bias.next_valid_tokens(),
        vec![
            JsonToken::Digit(2),
            JsonToken::Digit(3),
            JsonToken::Digit(4),
            JsonToken::Digit(5),
        ]
    );
    bias.advance(&JsonToken::Digit(3)).unwrap();
    assert!(bias.can_end());
    assert_eq!(bias.value(), Some(JsonValue::Number(Decimal::from_int(-3))));
}

#[test]
pub fn test_invalid_token_rejected() {
    let schema = JsonSchema::Boolean;
    let mut bias = JsonBiaser::new(&schema);
    bias.advance(&JsonToken::True).unwrap();
    // The finished value accepts nothing further, and stays finished.
    assert!(bias.advance(&JsonToken::True).is_err());
    assert!(bias.can_end());
    assert_eq!(bias.value(), Some(JsonValue::Bool(true)));
}

#[test]
pub fn test_is_valid() {
    let schema = JsonSchema::Object {
        required: vec!["a".to_string()],
        properties: vec![("a".to_string(), JsonSchema::Boolean)],
    };
    assert!(schema.is_valid(&JsonValue::Object(vec![(
        "a".to_string(),
        JsonValue::Bool(false),
    )])));
    // A missing required key, an unknown key and a wrong type all fail.
    assert!(!schema.is_valid(&JsonValue::Object(vec![])));
    assert!(!schema.is_valid(&JsonValue::Object(vec![(
        "b".to_string(),
        JsonValue::Bool(false),
    )])));
    assert!(!schema.is_valid(&JsonValue::Object(vec![(
        "a".to_string(),
        JsonValue::Null,
    )])));
    let number = JsonSchema::Number {
        min: Some(Decimal::from_int(0)),
        max: Some(Decimal::from_int(10)),
        max_decimals: None,
    };
    assert!(number.is_valid(&JsonValue::Number(Decimal::from_int(10))));
    assert!(!number.is_valid(&JsonValue::Number(Decimal::from_int(11))));
}

#[test]
pub fn test_null_parser() {
    let schema = JsonSchema::Null;
    let mut bias = JsonBiaser::new(&schema);
    assert_eq!(bias.next_valid_tokens(), vec![JsonToken::Null]);
    bias.advance(&JsonToken::Null).unwrap();
    assert!(bias.can_end());
    assert_eq!(bias.value(), Some(JsonValue::Null));
}

#[test]
pub fn test_from_text_and_to_string() {
    assert_eq!(JsonToken::from_text("true"), Some(JsonToken::True));
    assert_eq!(JsonToken::from_text("{"), Some(JsonToken::CurlyOpen));
    assert_eq!(JsonToken::from_text("7"), Some(JsonToken::Digit(7)));
    assert_eq!(JsonToken::from_text("42"), Some(JsonToken::Digit(42)));
    assert_eq!(JsonToken::from_text("+9"), Some(JsonToken::Digit(9)));
    assert_eq!(JsonToken::from_text("hello"), Some(JsonToken::String("hello".to_string())));
    assert_eq!(JsonToken::from_text(""), Some(JsonToken::String(String::new())));
    assert_eq!(JsonToken::from_text("\\"), None);
    // A numeric literal too large for an id count reads as a plain fragment.
    assert_eq!(
        JsonToken::from_text("99999999999999999999999999"),
        Some(JsonToken::String("99999999999999999999999999".to_string()))
    );
    assert_eq!(JsonToken::True.to_string(), Some("true".to_string()));
    assert_eq!(JsonToken::Digit(12).to_string(), Some("12".to_string()));
    assert_eq!(JsonToken::String("ab".to_string()).to_string(), Some("ab".to_string()));
    assert_eq!(JsonToken::AnyString { max_length: None }.to_string(), None);
}
