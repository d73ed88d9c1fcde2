use fits::parsing::HeaderChunk;
use fits::parsing::Keyword;
use fits::values::extract_str;
use fits::values::Value;

#[test]
fn parse_from_bytes_test() {
    // Full keyword
    let keyword = "SIMPLE  =                    T / conforms to FITS standard                      ";
    let keyword_bytes = Vec::from_iter(keyword.bytes());
    let res = HeaderChunk::from_bytes(&keyword_bytes);
    assert_eq!(
        res.unwrap(),
        HeaderChunk::RawValue(
            "SIMPLE".to_string(),
            "T / conforms to FITS standard".to_string()
        )
    );

    // No comment
    let keyword = "SIMPLE  =                    T                                                  ";
    let keyword_bytes = Vec::from_iter(keyword.bytes());
    let res = HeaderChunk::from_bytes(&keyword_bytes);
    assert_eq!(
        res.unwrap(),
        HeaderChunk::RawValue("SIMPLE".to_string(), "T".to_string())
    );

    // No value separator
    let keyword = "COMMENT This is a comment, and therefore does not have a value separator.       ";
    let keyword_bytes = Vec::from_iter(keyword.bytes());
    let res = HeaderChunk::from_bytes(&keyword_bytes);
    assert_eq!(
        res.unwrap(),
        HeaderChunk::Comment(
            "This is a comment, and therefore does not have a value separator.".to_string()
        )
    );

    // End keyword
    let keyword = "END                                                                             ";
    let keyword_bytes = Vec::from_iter(keyword.bytes());
    let res = HeaderChunk::from_bytes(&keyword_bytes);
    assert_eq!(res.unwrap(), HeaderChunk::End);

    // Unexpected '/' in the string value
    let keyword = "KEYWORD =                       'something with a /       ' / and also a comment";
    let keyword_bytes = Vec::from_iter(keyword.bytes());
    let res = HeaderChunk::from_bytes(&keyword_bytes);
    assert_eq!(
        res.unwrap(),
        HeaderChunk::RawValue(
            "KEYWORD".to_string(),
            "'something with a /       ' / and also a comment".to_string()
        )
    );
}

#[test]
fn extract_str_test() {
    let mut out: Vec<u8> = Vec::new();
    extract_str(b"'Hello'", &mut out);
    assert_eq!(out, b"Hello");

    let mut out: Vec<u8> = Vec::new();
    extract_str(b"'a'", &mut out);
    assert_eq!(out, b"a");

    let mut out: Vec<u8> = Vec::new();
    extract_str(b"'something'/comment", &mut out);
    assert_eq!(out, b"something");

    let mut out: Vec<u8> = Vec::new();
    extract_str(b"'something' / comment", &mut out);
    assert_eq!(out, b"something");

    let mut out: Vec<u8> = Vec::new();
    extract_str(b"'something   ' / comment", &mut out);
    assert_eq!(out, b"something   ");

    let mut out: Vec<u8> = Vec::new();
    extract_str(b"'''' / comment", &mut out);
    assert_eq!(out, b"'", "Singular quote");

    let mut out: Vec<u8> = Vec::new();
    extract_str(b"'' / comment", &mut out);
    assert_eq!(out, b"");

    let mut out: Vec<u8> = Vec::new();
    extract_str(b"''", &mut out);
    assert_eq!(out, b"");

    let mut out: Vec<u8> = Vec::new();
    extract_str(b"' / is string ' / and comment", &mut out);
    assert_eq!(out, b" / is string ");

    let mut out: Vec<u8> = Vec::new();
    extract_str(b"' / is string ' / and comment ' ''' with quote", &mut out);
    assert_eq!(out, b" / is string ");
}

#[test]
fn value_parser_test() {
    assert_eq!(Value::from_str("T").unwrap(), Value::Boolean(true));
    assert_eq!(Value::from_str("F").unwrap(), Value::Boolean(false));
    assert_eq!(Value::from_str("'AB''CD'").unwrap(), Value::Str("AB'CD".to_string()));
    assert_eq!(Value::from_str("3.14").unwrap(), Value::Float("3.14".to_string()));
    assert_eq!(Value::from_str("42").unwrap(), Value::Integer(42));
    assert_eq!(Value::from_str("").unwrap(), Value::Undefined);
    assert_eq!(Value::from_str("/ comment only").unwrap(), Value::Undefined);
}

#[test]
fn value_parser_float_token_test() {
    let parsed = Value::from_str("3.14 / pi").unwrap();
    match parsed {
        Value::Float(token) => {
            assert_eq!(token, "3.14");
            assert_eq!(token.parse::<f64>().unwrap(), 3.14);
        }
        other => panic!("expected a float, got {:?}", other),
    }
    assert_eq!(Value::from_str("-2.5e3").unwrap(), Value::Float("-2.5e3".to_string()));
    assert_eq!(Value::from_str(".5").unwrap(), Value::Float(".5".to_string()));
    // a dotted token that is no decimal literal stays undefined
    assert_eq!(Value::from_str("3.x").unwrap(), Value::Undefined);
    assert_eq!(Value::from_str(".").unwrap(), Value::Undefined);
}

#[test]
fn value_parser_integer_range_test() {
    assert_eq!(
        Value::from_str("9223372036854775807").unwrap(),
        Value::Integer(i64::MAX)
    );
    assert_eq!(
        Value::from_str("-9223372036854775808").unwrap(),
        Value::Integer(i64::MIN)
    );
    assert_eq!(Value::from_str("+7").unwrap(), Value::Integer(7));
    // out of range or malformed sign runs stay undefined
    assert_eq!(Value::from_str("9223372036854775808").unwrap(), Value::Undefined);
    assert_eq!(Value::from_str("++3").unwrap(), Value::Undefined);
    assert_eq!(Value::from_str("1-2").unwrap(), Value::Undefined);
}

#[test]
fn value_parser_unsupported_literal_test() {
    assert_eq!(Value::from_str("(1,2)").unwrap_err(), fits::Error::UnsupportedLiteral);
    assert_eq!(Value::from_str("(1.5,2.5)").unwrap_err(), fits::Error::UnsupportedLiteral);
}

#[test]
fn value_type_checks_test() {
    assert!(Value::Undefined.is_undefined());
    assert!(Value::Integer(1).is_integer());
    assert!(Value::Float("1.0".to_string()).is_float());
    assert!(Value::Boolean(false).is_boolean());
    assert!(Value::Str(String::new()).is_str());
    assert!(!Value::Integer(1).is_undefined());
    assert!(!Value::Boolean(true).is_integer());
}

#[test]
fn value_to_text_test() {
    assert_eq!(Value::Undefined.to_text(), "");
    assert_eq!(Value::Integer(42).to_text(), "42");
    assert_eq!(Value::Integer(-42).to_text(), "-42");
    assert_eq!(Value::Integer(0).to_text(), "0");
    assert_eq!(Value::Integer(i64::MIN).to_text(), "-9223372036854775808");
    assert_eq!(Value::Str("abc".to_string()).to_text(), "'abc'");
    assert_eq!(Value::Float("2.5".to_string()).to_text(), "2.5");
    assert_eq!(Value::Boolean(true).to_text(), "T");
    assert_eq!(Value::Boolean(false).to_text(), "F");
}

#[test]
fn chunk_parse_with_comment_test() {
    let chunk = HeaderChunk::RawValue("ANSWER".to_string(), "42 / answer".to_string());
    let kw = chunk.parse().unwrap();
    assert_eq!(
        kw,
        Keyword::Value("ANSWER".to_string(), Value::Integer(42), "answer".to_string())
    );
    chunk.print();
    kw.print();
}

#[test]
fn indicator_beats_comment_name_test() {
    // a card with the value indicator is a value card, whatever its name
    let keyword = "COMMENT = 'x'                                                                   ";
    let keyword_bytes = Vec::from_iter(keyword.bytes());
    let res = HeaderChunk::from_bytes(&keyword_bytes);
    assert_eq!(
        res.unwrap(),
        HeaderChunk::RawValue("COMMENT".to_string(), "'x'".to_string())
    );
}

#[test]
fn free_text_keyword_classifies_as_commentary_test() {
    // no indicator and no reserved name: the card passes through as text
    let keyword = "FOO     bar                                                                     ";
    let keyword_bytes = Vec::from_iter(keyword.bytes());
    let res = HeaderChunk::from_bytes(&keyword_bytes);
    assert_eq!(
        res.unwrap(),
        HeaderChunk::Commentary("FOO".to_string(), "bar".to_string())
    );
    let history = "HISTORY reprocessed                                                             ";
    let history_bytes = Vec::from_iter(history.bytes());
    assert_eq!(
        HeaderChunk::from_bytes(&history_bytes).unwrap(),
        HeaderChunk::History("reprocessed".to_string())
    );
}

#[test]
fn split_header_chunk_test() {
    let keyword = "NAXIS   =                    2 / number of array dimensions                     ";
    let keyword_bytes = Vec::from_iter(keyword.bytes());
    let (name, has_indicator, rest) = fits::parsing::split_header_chunk(&keyword_bytes);
    assert_eq!(name, b"NAXIS   ");
    assert!(has_indicator);
    assert_eq!(rest.len(), 70);
    let comment = "COMMENT free text                                                               ";
    let comment_bytes = Vec::from_iter(comment.bytes());
    let (name, has_indicator, rest) = fits::parsing::split_header_chunk(&comment_bytes);
    assert_eq!(name, b"COMMENT ");
    assert!(!has_indicator);
    assert_eq!(rest.len(), 72);
}
