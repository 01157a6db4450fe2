//! The tokenizer and the JSON reader.
use qlora::tokenizer::bpe::{bytes_to_unicode, split_digits, unicode_to_byte};
use qlora::tokenizer::json::{parse, Parser, Value};
use qlora::tokenizer::Tokenizer;

#[test]
fn digits_split() {
    assert_eq!(split_digits("ab12"), vec!["ab", "1", "2"]);
    assert_eq!(split_digits("123"), vec!["1", "2", "3"]);
    assert_eq!(split_digits("abc"), vec!["abc"]);
    assert_eq!(split_digits("a1b2"), vec!["a", "1", "b", "2"]);
}

#[test]
fn basics() {
    assert_eq!(
        parse(br#"{"a": [1, -2.5, true, null]}"#).unwrap(),
        Value::Object(vec![(
            "a".to_string(),
            Value::Array(vec![
                Value::Number(1.0f64.to_bits()),
                Value::Number((-2.5f64).to_bits()),
                Value::Bool(true),
                Value::Null,
            ]),
        )])
    );
    assert!(parse(br#"{"a": }"#).is_err());
    assert!(parse(br#"[1,]"#).is_err());
}

#[test]
fn string_escapes_and_surrogates() {
    let v = parse(br#"{"s": "A\n\u00e9\ud83d\ude00"}"#).unwrap();
    assert_eq!(
        v.get("s").and_then(|v| v.as_str()),
        Some("A\n\u{e9}\u{1f600}")
    );
    assert!(parse(br#"{"s": "\ud83d"}"#).is_err());
    assert_eq!(parse(br#""\u+041""#).unwrap().as_str(), Some("A"));
}

#[test]
fn json_errors_name_place_and_problem() {
    let message = |s: &str| parse(s.as_bytes()).unwrap_err().message();
    assert_eq!(message("[1 2]"), "json: expected , or ] at byte 3");
    assert_eq!(message("[1,]"), "json: trailing comma at byte 3");
    assert_eq!(message("{\"a\" 1}"), "json: unexpected character at byte 5");
    assert_eq!(message("{\"a\":1 2}"), "json: expected , or } at byte 7");
    assert_eq!(message("{1:2}"), "json: expected string key at byte 1");
    assert_eq!(message("nul"), "json: bad literal at byte 0");
    assert_eq!(message("\"a"), "json: unterminated string at byte 2");
    assert_eq!(message("1 1"), "json: trailing data at byte 2");
    assert!(message("\"\\x\"").starts_with("json: bad escape at byte"));
    assert!(message("\"\\udc00\"").starts_with("json: lone surrogate at byte"));
    assert!(message("\"\\ud800\\u0041\"").starts_with("json: bad surrogate pair at byte"));
    assert_eq!(message("\"\\u0+41\""), "json: bad escape at byte 7");
    assert_eq!(message("\"\\u00"), "json: bad unicode escape at byte 3");
    assert!(message("-").starts_with("json: bad number at byte"));
    assert!(parse(&[b'"', 0xFF, b'"']).unwrap_err().message().starts_with("json: bad utf-8 at byte"));
}

#[test]
fn a_failed_parser_stays_where_it_failed() {
    let mut p = Parser { b: b"  \t7", pos: 0 };
    assert!(p.expect(b':').is_err());
    assert_eq!(p.pos, 3);
    let mut p = Parser { b: b"00e", pos: 0 };
    assert!(p.hex4().is_err());
    assert_eq!(p.pos, 0);
    let mut p = Parser { b: b"[1, x", pos: 0 };
    assert!(p.value().is_err());
    assert_eq!(p.pos, 4);
}

#[test]
fn later_members_replace_earlier_ones() {
    let v = parse(br#"{"a": 1, "b": 2, "a": [true]}"#).unwrap();
    let a = v.get("a").and_then(|v| v.as_array()).unwrap();
    assert_eq!(a[0].as_bool(), Some(true));
    assert!(v.get("c").is_none());
    assert!(v.as_str().is_none() && v.as_bool().is_none() && v.as_array().is_none());
}

#[test]
fn byte_alphabet_is_a_bijection() {
    let table = bytes_to_unicode();
    assert_eq!(table.len(), 256);
    assert_eq!(table[b'A' as usize], 'A');
    assert_eq!(table[b' ' as usize], '\u{120}');
    assert_eq!(table[0], '\u{100}');
    for (b, c) in table.iter().enumerate() {
        assert_eq!(unicode_to_byte(*c), Some(b as u8));
    }
    assert_eq!(unicode_to_byte('\u{4e2d}'), None);
}

/// A tokenizer with all bytes, some merges and two added tokens.
fn recipe(extra: &str) -> String {
    let table = bytes_to_unicode();
    let mut vocab = String::new();
    for (i, c) in table.iter().enumerate() {
        let shown = match *c {
            '"' => "\\\"".to_string(),
            '\\' => "\\\\".to_string(),
            c => c.to_string(),
        };
        vocab.push_str(&format!("\"{shown}\": {i}, "));
    }
    let more = ["he", "ll", "hell", "hello", "\u{120}w", "or", "\u{120}wor", "ld", "\u{120}world", "<|end|>", "<|end|>!"];
    for (i, t) in more.iter().enumerate() {
        vocab.push_str(&format!("\"{t}\": {}", 256 + i));
        if i + 1 < more.len() {
            vocab.push_str(", ");
        }
    }
    let merges = ["h e", "l l", "he ll", "hell o", "\u{120} w", "o r", "\u{120}w or", "l d", "\u{120}wor ld"];
    let list: Vec<String> = merges.iter().map(|m| format!("\"{m}\"")).collect();
    format!(
        "{{\"model\": {{\"type\": \"BPE\", \"vocab\": {{{vocab}}}, \"merges\": [{}]}}, \"normalizer\": null, \
         \"pre_tokenizer\": {{\"type\": \"Sequence\", \"pretokenizers\": [{{\"type\": \"Digits\", \"individual_digits\": true}}, \
         {{\"type\": \"ByteLevel\"}}]}}, \"added_tokens\": [{{\"id\": 265, \"content\": \"<|end|>\"}}, \
         {{\"id\": 266, \"content\": \"<|end|>!\"}}]{extra}}}",
        list.join(", ")
    )
}

fn tokenizer() -> Tokenizer {
    Tokenizer::from_json(recipe("").as_bytes()).unwrap()
}

#[test]
fn merges_follow_their_ranks() {
    let tok = tokenizer();
    assert_eq!(tok.vocab_size(), 256 + 9 + 2);
    assert_eq!(tok.encode("hello world").unwrap(), vec![259, 264]);
    assert_eq!(tok.encode("helo").unwrap(), vec![256, b'l' as u32, b'o' as u32]);
    assert_eq!(tok.encode("").unwrap(), Vec::<u32>::new());
    assert_eq!(tok.encode("12").unwrap(), vec![b'1' as u32, b'2' as u32]);
}

#[test]
fn added_tokens_match_longest_first() {
    let tok = tokenizer();
    assert_eq!(tok.encode("hello<|end|>!<|end|>hello").unwrap(), vec![259, 266, 265, 259]);
    assert_eq!(tok.decode(&[259, 266, 265]).unwrap(), "hello<|end|>!<|end|>");
}

#[test]
fn text_survives_encoding() {
    let tok = tokenizer();
    for text in [
        "hello world",
        "  leading and trailing  ",
        "line1\nline2\n\nline3",
        "123 4567 3.14159",
        "it's we'll they've",
        "\u{4e2d}\u{6587} \u{1f30a} emoji!",
        "tabs\tand\r\nreturns",
        "a<|end|>b",
    ] {
        let ids = tok.encode(text).unwrap();
        assert_eq!(tok.decode(&ids).unwrap(), text);
    }
}

#[test]
fn every_kind_of_character_is_matched() {
    let tok = tokenizer();
    let chars: Vec<char> = (0u32..0x110000).step_by(5).filter_map(char::from_u32).collect();
    for part in chars.chunks(60) {
        let text: String = part.iter().collect();
        assert_eq!(tok.decode(&tok.encode(&text).unwrap()).unwrap(), text);
    }
    for low in 0u32..0x3100 {
        if let Some(c) = char::from_u32(low) {
            let text = format!("{c}a {c}\u{a0}{c}{c} ");
            assert_eq!(tok.decode(&tok.encode(&text).unwrap()).unwrap(), text);
        }
    }
}

#[test]
fn words_split_as_the_pattern_says() {
    let tok = tokenizer();
    // A word keeps the one blank before it; further blanks stand alone.
    let id = |s: &str| tok.vocabulary().lookup(s).unwrap();
    assert_eq!(tok.encode("a  b").unwrap(), vec![id("a"), id("\u{120}"), id("\u{120}"), id("b")]);
    // Merges do not cross the borders of words.
    assert_eq!(tok.encode("he'll").unwrap(), vec![256, id("'"), 257]);
}

#[test]
fn decoding_reports_what_it_cannot_read() {
    let tok = tokenizer();
    assert_eq!(tok.decode(&[9999]).unwrap_err().message(), "tokenizer: unknown id 9999");
    // A lone continuation byte.
    let table = bytes_to_unicode();
    let id = tok.vocabulary().lookup(&table[0x80].to_string()).unwrap();
    assert!(tok.decode(&[id]).unwrap_err().message().starts_with("tokenizer: decode utf-8: "));
    assert_eq!(
        tok.vocabulary().lookup("nothing").unwrap_err().message(),
        "tokenizer: token not in vocab: \"nothing\""
    );
}

#[test]
fn other_recipes_are_rejected() {
    let message = |s: String| match Tokenizer::from_json(s.as_bytes()) {
        Ok(_) => String::new(),
        Err(e) => e.message(),
    };
    let good = recipe("");
    assert!(message("{".to_string()).contains("json: "));
    assert_eq!(message("{}".to_string()), "tokenizer: unsupported tokenizer.json recipe: no model");
    assert_eq!(
        message(good.replace("\"BPE\"", "\"Unigram\"")),
        "tokenizer: unsupported tokenizer.json recipe: model.type != BPE"
    );
    assert_eq!(
        message(good.replace("\"Sequence\"", "\"Split\"")),
        "tokenizer: unsupported tokenizer.json recipe: pre_tokenizer.type != Sequence"
    );
    assert_eq!(
        message(good.replace("\"individual_digits\": true", "\"individual_digits\": false")),
        "tokenizer: unsupported tokenizer.json recipe: need Sequence[Digits(individual_digits), ByteLevel]"
    );
    assert_eq!(
        message(good.replace("\"normalizer\": null", "\"normalizer\": 1")),
        "tokenizer: unsupported tokenizer.json recipe: normalizer must be null"
    );
    for decoder in ["{\"type\": \"WordPiece\"}", "null", "{}"] {
        assert_eq!(
            message(recipe(&format!(", \"decoder\": {decoder}"))),
            "tokenizer: unsupported tokenizer.json recipe: decoder.type != ByteLevel"
        );
    }
    assert!(Tokenizer::from_json(recipe(", \"decoder\": {\"type\": \"ByteLevel\"}").as_bytes()).is_ok());
    assert!(message(good.replace("\"h e\"", "\"he\"")).ends_with("bad merge line"));
    assert!(message(good.replace("\"h e\"", "7")).ends_with("merge not a string"));
    assert!(message(good.replace("\"id\": 265", "\"id\": true")).ends_with("added token without numeric id"));
    assert!(message(good.replace("\"content\": \"<|end|>!\"", "\"content\": 1")).ends_with("added token without content"));
}

#[test]
fn json_values_are_equal_in_any_order() {
    let v = |s: &str| parse(s.as_bytes()).unwrap();
    assert!(v(r#"{"a": 1, "b": [true, null]}"#) == v(r#"{"b": [true, null], "a": 1.0}"#));
    assert!(v(r#"{"a": 1}"#) != v(r#"{"a": 1, "b": 2}"#));
    assert!(v(r#"{"a": 1}"#) != v(r#"{"b": 1}"#));
    assert!(v("[1, 2]") != v("[2, 1]"));
    assert!(v("0") == v("-0") && v("\"a\"") != v("\"b\"") && v("null") != v("false"));
    assert!(Value::Number(f64::NAN.to_bits()) != Value::Number(f64::NAN.to_bits()));
    let w = v(r#"{"a": [1, {"b": "c"}]}"#);
    assert!(w.clone() == w);
}
