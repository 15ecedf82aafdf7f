use bson_parse::decode::{decode, parse_binary, parse_cstring, parse_element, parse_string};
use bson_parse::doc::{doc_to_array, parse_usize, BinarySubtype, DecodeError, Document, Value};

fn encode(doc: &bson::Document) -> Vec<u8> {
    doc.to_vec().unwrap()
}

#[test]
fn test_cstring() {
    if let Ok((output, remaining)) = parse_cstring(b"Hello\0world!") {
        assert_eq!(remaining, b"world!");
        assert_eq!(output, "Hello");
    } else {
        unreachable!()
    }
}

#[test]
fn test_binary() {
    let bytes = b"\x05\0\0\0\x011234567";
    if let Ok((output, remaining)) = parse_binary(bytes) {
        assert_eq!(output, Value::Binary(BinarySubtype::Function, b"12345".to_vec()));
        assert_eq!(remaining, b"67");
    } else {
        unreachable!();
    }

    // Invalid subtype
    let bytes = b"\x05\0\0\0\x321234567";
    if let Err(e) = parse_binary(bytes) {
        assert_eq!(e, DecodeError::InvalidBinarySubtype(0x32));
    } else {
        unreachable!();
    }
}

#[test]
fn test_string() {
    let bytes = b"\x06\0\0\012345\067";
    if let Ok((output, remaining)) = parse_string(bytes) {
        assert_eq!(output, "12345");
        assert_eq!(remaining, b"67");
    } else {
        unreachable!();
    }

    // Not terminated with null byte
    let bytes = b"\x05\0\0\012345678";
    if let Err(_) = parse_binary(bytes) {
    } else {
        unreachable!();
    }
}

#[test]
fn test_element_floating_point() {
    let tmp: [u8; 8] = 3.1415f64.to_le_bytes();
    let mut bytes = b"\x01hello\0".to_vec();
    bytes.extend(&tmp);

    if let Ok(((key, value), remaining)) = parse_element(&bytes) {
        assert_eq!(key, "hello".to_string());
        assert_eq!(value, Value::Double(3.1415f64.to_bits()));
        assert_eq!(remaining, b"");
    } else {
        unreachable!();
    }
}

#[test]
fn test_element_string() {
    let bytes = b"\x02string\0\x06\0\0\0hello\0";
    if let Ok(((key, value), remaining)) = parse_element(bytes) {
        assert_eq!(key, "string".to_string());
        assert_eq!(value, Value::Str("hello".to_string()));
        assert_eq!(remaining, b"");
    } else {
        unreachable!();
    }
}

#[test]
fn test_element_int() {
    let bytes = b"\x1012345\0\x05\0\0\0";
    if let Ok(((key, value), remaining)) = parse_element(bytes) {
        assert_eq!(key, "12345".to_string());
        assert_eq!(value, Value::Int32(5));
        assert_eq!(remaining, b"");
    } else {
        unreachable!();
    }
}

#[test]
fn test_parse_empty_document() {
    let doc = bson::Document::new();

    let buf = encode(&doc);

    if let Ok(output) = decode(&buf) {
        assert_eq!(output, Document::new());
    } else {
        unreachable!();
    }
}

#[test]
fn test_parse_javascript_closure() {
    let doc = bson::Document::new();

    let buf = encode(&doc);

    println!("{:?}", &buf);
    if let Ok(output) = decode(&buf) {
        assert_eq!(Document::new(), output);
    } else {
        unreachable!();
    }
}

fn complex_reference_document() -> bson::Document {
    let mut nested = bson::Document::new();
    nested.insert("nested", "three");

    let mut doc = bson::Document::new();
    doc.insert("string", "hello");
    doc.insert("float", 2.718281828f64);
    doc.insert("doc", nested);
    doc.insert(
        "array",
        bson::Bson::Array(vec![
            bson::Bson::String("hellO".to_string()),
            bson::Bson::Int32(1),
            bson::Bson::Document(bson::Document::new()),
        ]),
    );
    doc.insert("object id", bson::oid::ObjectId::from_bytes(*b"123456789ABC"));
    doc.insert("false", false);
    doc.insert("true", true);
    doc.insert("date", bson::DateTime::from_millis(1473582027002));
    doc.insert("null", bson::Bson::Null);
    doc.insert("i32", 34i32);
    doc.insert("i64", 64i64);
    doc.insert(
        "regexp",
        bson::Bson::RegularExpression(bson::Regex {
            pattern: "hello".try_into().unwrap(),
            options: "world".try_into().unwrap(),
        }),
    );
    doc.insert("timestamp", bson::Bson::Timestamp(bson::Timestamp { time: 0, increment: 95 }));
    doc.insert(
        "javascript",
        bson::Bson::JavaScriptCode("console.log('hello world!')".to_string()),
    );
    doc
}

fn complex_expected_document() -> Document {
    let mut nested = Document::new();
    nested.insert("nested", Value::Str("three".to_string()));

    let mut doc = Document::new();
    doc.insert("string", Value::Str("hello".to_string()));
    doc.insert("float", Value::Double(2.718281828f64.to_bits()));
    doc.insert("doc", Value::Doc(nested));
    doc.insert(
        "array",
        Value::Array(vec![
            Value::Str("hellO".to_string()),
            Value::Int32(1),
            Value::Doc(Document::new()),
        ]),
    );
    doc.insert("object id", Value::ObjectId(b"123456789ABC".to_vec()));
    doc.insert("false", Value::Boolean(false));
    doc.insert("true", Value::Boolean(true));
    doc.insert("date", Value::UtcDateTime { seconds: 1473582027, nanos: 2000000 });
    doc.insert("null", Value::Null);
    doc.insert("i32", Value::Int32(34));
    doc.insert("i64", Value::Int64(64));
    doc.insert(
        "regexp",
        Value::Regex { pattern: "hello".to_string(), flags: "world".to_string() },
    );
    doc.insert("timestamp", Value::Timestamp(95));
    doc.insert("javascript", Value::JsCode("console.log('hello world!')".to_string()));
    doc
}

#[test]
fn test_parse_complex_document() {
    let doc = complex_reference_document();

    let buf = encode(&doc);

    println!("{:?}", &buf);
    if let Ok(output) = decode(&buf) {
        assert_eq!(complex_expected_document(), output);
    } else {
        unreachable!();
    }
}

#[test]
fn empty_document_bytes() {
    let bytes = [0x05u8, 0x00, 0x00, 0x00, 0x00];
    let decoded = decode(&bytes).unwrap();
    assert_eq!(decoded.len(), 0);
    assert_eq!(decoded, Document::new());
}

#[test]
fn decoding_twice_agrees() {
    let buf = encode(&complex_reference_document());
    let first = decode(&buf).unwrap();
    let second = decode(&buf).unwrap();
    assert_eq!(first, second);
    assert_eq!(first.len(), second.len());
    for i in 0..first.len() {
        assert_eq!(first.pair_at(i), second.pair_at(i));
    }
}

#[test]
fn every_truncation_fails_cleanly() {
    let buf = encode(&complex_reference_document());
    for n in 0..buf.len() {
        let r = decode(&buf[..n]);
        assert_eq!(r, Err(DecodeError::UnexpectedEof));
    }
}

#[test]
fn trailing_byte_is_rejected() {
    let mut buf = encode(&bson::Document::new());
    buf.push(0x00);
    assert_eq!(decode(&buf), Err(DecodeError::TrailingData));
}

#[test]
fn unknown_tag_is_reported() {
    // A document of length 8 holding one element with tag 0x7F and key "a".
    let bytes = [0x08u8, 0x00, 0x00, 0x00, 0x7F, b'a', 0x00, 0x00];
    assert_eq!(decode(&bytes), Err(DecodeError::UnknownTypeTag(0x7F)));
}

#[test]
fn short_and_unterminated_documents_fail() {
    assert_eq!(decode(&[0x04, 0x00, 0x00, 0x00]), Err(DecodeError::InvalidLength));
    assert_eq!(decode(&[0x05, 0x00, 0x00, 0x00, 0x01]), Err(DecodeError::MissingTerminator));
    assert_eq!(decode(&[0x05, 0x00, 0x00]), Err(DecodeError::UnexpectedEof));
}

#[test]
fn boolean_payload_must_be_zero_or_one() {
    // length 9: tag 0x08, key "b", payload 0x02, terminator.
    let bytes = [0x09u8, 0x00, 0x00, 0x00, 0x08, b'b', 0x00, 0x02, 0x00];
    assert_eq!(decode(&bytes), Err(DecodeError::InvalidBoolean(0x02)));
}

#[test]
fn invalid_utf8_key_is_reported() {
    // length 9: tag 0x08, key holding the stray continuation byte 0xFF.
    let bytes = [0x09u8, 0x00, 0x00, 0x00, 0x08, 0xFF, 0x00, 0x01, 0x00];
    assert_eq!(decode(&bytes), Err(DecodeError::InvalidUtf8));
}

#[test]
fn non_ascii_strings_survive() {
    let mut doc = bson::Document::new();
    doc.insert("grüße", "καλημέρα");
    let decoded = decode(&encode(&doc)).unwrap();
    let pair = decoded.pair_at(0);
    assert_eq!(pair.0, "grüße");
    assert_eq!(pair.1, Value::Str("καλημέρα".to_string()));
}

#[test]
fn nested_three_levels_deep() {
    let mut innermost = bson::Document::new();
    innermost.insert("leaf", 7i32);
    let mut middle = bson::Document::new();
    middle.insert("inner", innermost);
    let mut outer = bson::Document::new();
    outer.insert("middle", middle);

    let decoded = decode(&encode(&outer)).unwrap();
    assert_eq!(decoded.len(), 1);
    let Some(Value::Doc(level2)) = decoded.get("middle") else {
        panic!();
    };
    let Some(Value::Doc(level3)) = level2.get("inner") else {
        panic!();
    };
    assert_eq!(level3.get("leaf"), Some(&Value::Int32(7)));
}

fn wrap_in_document(inner: &[u8]) -> Vec<u8> {
    // [length] [0x03] ['k' NUL] [inner] [0x00]
    let total = (inner.len() + 8) as i32;
    let mut out = Vec::new();
    out.extend(total.to_le_bytes());
    out.push(0x03);
    out.push(b'k');
    out.push(0x00);
    out.extend(inner);
    out.push(0x00);
    out
}

#[test]
fn nesting_is_bounded() {
    let mut bytes = vec![0x05u8, 0x00, 0x00, 0x00, 0x00];
    for _ in 0..99 {
        bytes = wrap_in_document(&bytes);
    }
    assert!(decode(&bytes).is_ok());
    bytes = wrap_in_document(&bytes);
    assert_eq!(decode(&bytes), Err(DecodeError::MaxDepthExceeded));
}

#[test]
fn negative_datetime_floors() {
    let mut doc = bson::Document::new();
    doc.insert("early", bson::DateTime::from_millis(-1500));
    let decoded = decode(&encode(&doc)).unwrap();
    assert_eq!(
        decoded.get("early"),
        Some(&Value::UtcDateTime { seconds: -2, nanos: 500_000_000 })
    );
}

#[test]
fn array_keys_must_count_up() {
    let mut in_order = Document::new();
    in_order.insert("0", Value::Int32(10));
    in_order.insert("1", Value::Int32(11));
    in_order.insert("2", Value::Int32(12));
    let values = doc_to_array(in_order).unwrap();
    assert_eq!(values, vec![Value::Int32(10), Value::Int32(11), Value::Int32(12)]);

    let mut out_of_order = Document::new();
    out_of_order.insert("0", Value::Int32(10));
    out_of_order.insert("2", Value::Int32(12));
    out_of_order.insert("1", Value::Int32(11));
    assert_eq!(doc_to_array(out_of_order), Err(DecodeError::NotAnArray));
}

#[test]
fn code_with_scope_round_trips() {
    let mut scope = bson::Document::new();
    scope.insert("x", "hello");
    let mut doc = bson::Document::new();
    doc.insert(
        "a",
        bson::Bson::JavaScriptCodeWithScope(bson::JavaScriptCodeWithScope {
            code: "console.log(x)".to_string(),
            scope,
        }),
    );
    let decoded = decode(&encode(&doc)).unwrap();
    let Some(Value::JsCodeWithScope(code, scope)) = decoded.get("a") else {
        panic!();
    };
    assert_eq!(code, "console.log(x)");
    assert_eq!(scope.get("x"), Some(&Value::Str("hello".to_string())));
}

#[test]
fn missing_string_terminators_are_reported() {
    // A cstring with no NUL anywhere.
    assert_eq!(parse_cstring(b"abc"), Err(DecodeError::UnterminatedString));
    // A length-prefixed string whose declared span ends in 'c', not NUL.
    assert_eq!(parse_string(b"\x03\0\0\0abc"), Err(DecodeError::UnterminatedString));
}

#[test]
fn array_with_wrong_keys_fails_to_decode() {
    // An inner document with the single key "1" cannot be an array...
    let inner = [0x08u8, 0x00, 0x00, 0x00, 0x0A, b'1', 0x00, 0x00];
    // ...so an outer element with tag 0x04 over it is rejected.
    let mut outer = vec![0x10u8, 0x00, 0x00, 0x00, 0x04, b'a', 0x00];
    outer.extend(inner);
    outer.push(0x00);
    assert_eq!(decode(&outer), Err(DecodeError::NotAnArray));
    // Retagged as a plain document (0x03), the same bytes decode.
    outer[4] = 0x03;
    assert!(decode(&outer).is_ok());
}

#[test]
fn scoped_code_must_fill_its_region() {
    // Inner region: the string "x", an empty document, one stray byte.
    let mut payload = vec![0x10u8, 0x00, 0x00, 0x00];
    payload.extend(b"\x02\0\0\0x\0");
    payload.extend([0x05u8, 0x00, 0x00, 0x00, 0x00]);
    payload.push(0xFF);
    let mut outer = vec![0x18u8, 0x00, 0x00, 0x00, 0x0F, b'a', 0x00];
    outer.extend(&payload);
    outer.push(0x00);
    assert_eq!(outer.len(), 0x18);
    assert_eq!(decode(&outer), Err(DecodeError::InvalidScopedCode));
}

#[test]
fn every_recognized_binary_subtype_round_trips() {
    let subtypes = [
        (0x00u8, BinarySubtype::Generic),
        (0x01, BinarySubtype::Function),
        (0x02, BinarySubtype::BinaryOld),
        (0x03, BinarySubtype::UuidOld),
        (0x04, BinarySubtype::Uuid),
        (0x05, BinarySubtype::Md5),
        (0x80, BinarySubtype::UserDefined),
    ];
    for (byte, tag) in subtypes {
        let bytes = [0x02u8, 0x00, 0x00, 0x00, byte, 0xAB, 0xCD];
        let (value, rest) = parse_binary(&bytes).unwrap();
        assert_eq!(value, Value::Binary(tag, vec![0xAB, 0xCD]));
        assert!(rest.is_empty());
    }
    // The byte after the last one-byte subtype is rejected.
    let bytes = [0x00u8, 0x00, 0x00, 0x00, 0x06];
    assert_eq!(parse_binary(&bytes), Err(DecodeError::InvalidBinarySubtype(0x06)));
}

#[test]
fn index_keys_parse_like_rust() {
    assert_eq!(parse_usize("0"), Some(0));
    assert_eq!(parse_usize("+42"), Some(42));
    assert_eq!(parse_usize("007"), Some(7));
    assert_eq!(parse_usize(""), None);
    assert_eq!(parse_usize("+"), None);
    assert_eq!(parse_usize("12a"), None);
    assert_eq!(parse_usize("-3"), None);
    // One past usize::MAX overflows.
    assert_eq!(parse_usize("18446744073709551616"), None);
    assert_eq!(parse_usize("18446744073709551615"), Some(usize::MAX));
}

#[test]
fn duplicate_keys_keep_the_last_write() {
    let mut doc = Document::new();
    doc.insert("a", Value::Int32(1));
    doc.insert("b", Value::Int32(2));
    doc.insert("a", Value::Int32(3));
    assert_eq!(doc.len(), 2);
    assert_eq!(doc.pair_at(0).0, "b");
    assert_eq!(doc.pair_at(1).0, "a");
    assert_eq!(doc.get("a"), Some(&Value::Int32(3)));
}
