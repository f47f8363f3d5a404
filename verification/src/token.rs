//! Abstract JSON tokens: the alphabet the schema state machine consumes and
//! proposes, independent of any particular model vocabulary.

use vstd::prelude::*;
use vstd::string::*;
use crate::text::{
    digits_val, dec_digits, is_usize_literal, parse_usize, str_eq, usize_literal_body,
    usize_to_string,
};

verus! {

/// A grammar-level token. `AnyOf` and `AnyString` are proposal placeholders:
/// they stand for classes of model tokens and have no textual form of their
/// own.
#[derive(Debug, Clone, PartialEq, Eq)]
pub enum JsonToken {
    /// Any string fragment of at most `max_length` characters, free of
    /// quotes and of the whitespace controls.
    AnyString { max_length: Option<usize> },
    /// Any nonempty fragment that is a prefix of one of these strings.
    AnyOf(Vec<String>),
    BracketClose,
    BracketOpen,
    Colon,
    Comma,
    CurlyClose,
    CurlyOpen,
    Decimal,
    Digit(usize),
    DoubleQuote,
    False,
    Minus,
    Null,
    String(String),
    True,
}

/// The mathematical shadow of a token: payloads as sequences.
#[verifier::ext_equal]
pub ghost enum TokenV {
    AnyString { max_length: Option<usize> },
    AnyOf(Seq<Seq<char>>),
    BracketClose,
    BracketOpen,
    Colon,
    Comma,
    CurlyClose,
    CurlyOpen,
    Decimal,
    Digit(nat),
    DoubleQuote,
    False,
    Minus,
    Null,
    Str(Seq<char>),
    True,
}

/// The view of a concrete token.
pub open spec fn tv(t: JsonToken) -> TokenV {
    match t {
        JsonToken::AnyString { max_length } => TokenV::AnyString { max_length },
        JsonToken::AnyOf(vs) => TokenV::AnyOf(vs@.map_values(|v: String| v@)),
        JsonToken::BracketClose => TokenV::BracketClose,
        JsonToken::BracketOpen => TokenV::BracketOpen,
        JsonToken::Colon => TokenV::Colon,
        JsonToken::Comma => TokenV::Comma,
        JsonToken::CurlyClose => TokenV::CurlyClose,
        JsonToken::CurlyOpen => TokenV::CurlyOpen,
        JsonToken::Decimal => TokenV::Decimal,
        JsonToken::Digit(n) => TokenV::Digit(n as nat),
        JsonToken::DoubleQuote => TokenV::DoubleQuote,
        JsonToken::False => TokenV::False,
        JsonToken::Minus => TokenV::Minus,
        JsonToken::Null => TokenV::Null,
        JsonToken::String(s) => TokenV::Str(s@),
        JsonToken::True => TokenV::True,
    }
}

/// The textual form of a token; the proposal placeholders have none.
pub open spec fn token_text(t: TokenV) -> Option<Seq<char>> {
    match t {
        TokenV::True => Some("true"@),
        TokenV::False => Some("false"@),
        TokenV::Null => Some("null"@),
        TokenV::Colon => Some(":"@),
        TokenV::CurlyOpen => Some("{"@),
        TokenV::CurlyClose => Some("}"@),
        TokenV::BracketOpen => Some("["@),
        TokenV::BracketClose => Some("]"@),
        TokenV::Comma => Some(","@),
        TokenV::Minus => Some("-"@),
        TokenV::Decimal => Some("."@),
        TokenV::Digit(n) => Some(dec_digits(n)),
        TokenV::DoubleQuote => Some("\""@),
        TokenV::Str(s) => Some(s),
        TokenV::AnyString { .. } => None,
        TokenV::AnyOf(..) => None,
    }
}

/// How a piece of text reads as a token: the literal keywords and structural
/// characters by name, unsigned decimal literals as digits, a lone backslash
/// as nothing, and anything else as a plain string fragment.
pub open spec fn spec_from_text(s: Seq<char>) -> Option<TokenV> {
    if s == "true"@ {
        Some(TokenV::True)
    } else if s == "false"@ {
        Some(TokenV::False)
    } else if s == "null"@ {
        Some(TokenV::Null)
    } else if s == ":"@ {
        Some(TokenV::Colon)
    } else if s == "."@ {
        Some(TokenV::Decimal)
    } else if s == "{"@ {
        Some(TokenV::CurlyOpen)
    } else if s == "}"@ {
        Some(TokenV::CurlyClose)
    } else if s == "["@ {
        Some(TokenV::BracketOpen)
    } else if s == "]"@ {
        Some(TokenV::BracketClose)
    } else if s == ","@ {
        Some(TokenV::Comma)
    } else if s == "-"@ {
        Some(TokenV::Minus)
    } else if s == "\""@ {
        Some(TokenV::DoubleQuote)
    } else if is_usize_literal(s) && digits_val(usize_literal_body(s)) <= usize::MAX {
        Some(TokenV::Digit(digits_val(usize_literal_body(s))))
    } else if s != "\\"@ {
        Some(TokenV::Str(s))
    } else {
        None
    }
}

impl JsonToken {
    /// Read a decoded model-token text as an abstract JSON token.
    pub fn from_text(s: &str) -> (r: Option<JsonToken>)
        ensures
            match r {
                Some(t) => spec_from_text(s@) == Some(tv(t)),
                None => spec_from_text(s@) is None,
            },
    {
        if str_eq(s, "true") {
            Some(JsonToken::True)
        } else if str_eq(s, "false") {
            Some(JsonToken::False)
        } else if str_eq(s, "null") {
            Some(JsonToken::Null)
        } else if str_eq(s, ":") {
            Some(JsonToken::Colon)
        } else if str_eq(s, ".") {
            Some(JsonToken::Decimal)
        } else if str_eq(s, "{") {
            Some(JsonToken::CurlyOpen)
        } else if str_eq(s, "}") {
            Some(JsonToken::CurlyClose)
        } else if str_eq(s, "[") {
            Some(JsonToken::BracketOpen)
        } else if str_eq(s, "]") {
            Some(JsonToken::BracketClose)
        } else if str_eq(s, ",") {
            Some(JsonToken::Comma)
        } else if str_eq(s, "-") {
            Some(JsonToken::Minus)
        } else if str_eq(s, "\"") {
            Some(JsonToken::DoubleQuote)
        } else {
            match parse_usize(s) {
                Some(n) => Some(JsonToken::Digit(n)),
                None => {
                    if !str_eq(s, "\\") {
                        Some(JsonToken::String(s.to_owned()))
                    } else {
                        None
                    }
                },
            }
        }
    }

    /// The token's textual form, if it has one.
    pub fn to_string(&self) -> (r: Option<String>)
        ensures
            match r {
                Some(s) => token_text(tv(*self)) == Some(s@),
                None => token_text(tv(*self)) is None,
            },
    {
        match self {
            JsonToken::True => Some("true".to_owned()),
            JsonToken::False => Some("false".to_owned()),
            JsonToken::Null => Some("null".to_owned()),
            JsonToken::Colon => Some(":".to_owned()),
            JsonToken::CurlyOpen => Some("{".to_owned()),
            JsonToken::CurlyClose => Some("}".to_owned()),
            JsonToken::BracketOpen => Some("[".to_owned()),
            JsonToken::BracketClose => Some("]".to_owned()),
            JsonToken::Comma => Some(",".to_owned()),
            JsonToken::Minus => Some("-".to_owned()),
            JsonToken::Decimal => Some(".".to_owned()),
            JsonToken::Digit(n) => Some(usize_to_string(*n)),
            JsonToken::DoubleQuote => Some("\"".to_owned()),
            JsonToken::String(s) => Some(s.clone()),
            JsonToken::AnyString { .. } => None,
            JsonToken::AnyOf(..) => None,
        }
    }
}

/// The one failure the state machine reports: the token fed to `advance`
/// cannot continue the current state.
#[derive(Debug, PartialEq, Eq)]
pub enum BiaserError {
    InvalidToken(JsonToken),
}

} // verus!
