use json_stream::lexer::{Tokenizer, TokenizerErrors, TokenizerState, JT};

#[test]
fn tokenizer2_open_close_curly() {
    let mut tokenizer = Tokenizer {
        scratch: std::string::String::new(),
        state: TokenizerState::Base,
        index: 0,
    };
    let data = "{}";
    let open = tokenizer.tokenize(data).unwrap();
    assert_eq!(open.jt, JT::OpenObject);
    assert_eq!(open.slice, "{");
    let close = tokenizer.tokenize(data).unwrap();
    assert_eq!(close.jt, JT::CloseObject);
    assert_eq!(close.slice, "}");
    let error = tokenizer.tokenize(data);
    assert!(error.is_err());
}

#[test]
fn tokenize_simple_string() {
    let mut tokenizer = Tokenizer {
        scratch: std::string::String::new(),
        state: TokenizerState::Base,
        index: 0,
    };
    let data = "    \"foo_ _bar\"  ";
    let string = tokenizer.tokenize(data).unwrap();
    assert_eq!(string.jt, JT::JString);
    assert_eq!(string.slice, "foo_ _bar");
}

#[test]
fn tokenize_string_multiple_buffers() {
    let mut tokenizer = Tokenizer {
        scratch: std::string::String::new(),
        state: TokenizerState::Base,
        index: 0,
    };
    let data = "    \"foo";
    let string = tokenizer.tokenize(data);
    assert!(string.is_err());

    tokenizer.index = 0;
    let data = " bar\" \"ok\"";

    let string = tokenizer.tokenize(data).unwrap();
    assert_eq!(string.jt, JT::JString);
    assert_eq!(string.slice, "foo bar");

    let ok = tokenizer.tokenize(data).unwrap();
    assert_eq!(ok.jt, JT::JString);
    assert_eq!(ok.slice, "ok");

    let err = tokenizer.tokenize(data).is_err();
    assert!(err);

    tokenizer.index = 0;
    let data = "\"again\"";

    let again = tokenizer.tokenize(data).unwrap();
    assert_eq!(again.jt, JT::JString);
    assert_eq!(again.slice, "again");

    let err = tokenizer.tokenize(data).is_err();
    assert!(err);

    tokenizer.index = 0;
    let data = "\"with\\nnewlines\\n\"";
    let new_line = tokenizer.tokenize(data).unwrap();
    assert_eq!(new_line.jt, JT::JString);
    assert_eq!(new_line.slice, "with\nnewlines\n");

    let err = tokenizer.tokenize(data).is_err();
    assert!(err);

    tokenizer.index = 0;
    let data = "\"foo\\";

    let err = tokenizer.tokenize(data);
    assert_eq!(TokenizerErrors::NeedMoreData, err.err().unwrap());

    tokenizer.index = 0;
    let data = "nbar\"";
    let different_string_escape = tokenizer.tokenize(data).unwrap();
    assert_eq!(different_string_escape.jt, JT::JString);
    assert_eq!(different_string_escape.slice, "foo\nbar");
}

#[test]
fn plain_string_is_a_slice_of_the_buffer() {
    let mut tokenizer = Tokenizer::new();
    let data = "  \"zero copy\" ";
    let token = tokenizer.tokenize(data).unwrap();
    assert_eq!(token.jt, JT::JString);
    assert_eq!(token.slice, "zero copy");
    let start = data.as_ptr() as usize;
    let at = token.slice.as_ptr() as usize;
    assert_eq!(at, start + 3);
}

#[test]
fn escaped_string_is_the_same_however_split() {
    let text = "\"a\\tb\\u0041\\\\c\\nd\"";
    let mut whole = Tokenizer::new();
    let expected = whole.tokenize(text).unwrap().slice.to_string();
    assert_eq!(expected, "a\tbA\\c\nd");
    for cut in 0..=text.len() {
        let (first, second) = text.split_at(cut);
        let mut tokenizer = Tokenizer::new();
        let got = match tokenizer.tokenize(first) {
            Ok(token) => token.slice.to_string(),
            Err(e) => {
                assert_eq!(e, TokenizerErrors::NeedMoreData);
                tokenizer.next_buffer();
                tokenizer.tokenize(second).unwrap().slice.to_string()
            }
        };
        assert_eq!(got, expected, "split at {}", cut);
    }
}

#[test]
fn escaped_newlines_decode() {
    let mut tokenizer = Tokenizer::new();
    let token = tokenizer.tokenize("\"with\\nnewlines\\n\"").unwrap();
    assert_eq!(token.slice, "with\nnewlines\n");
}

#[test]
fn all_one_character_escapes() {
    let mut tokenizer = Tokenizer::new();
    let token = tokenizer.tokenize("\"\\\"\\\\\\/\\b\\f\\n\\r\\t\"").unwrap();
    assert_eq!(token.slice, "\"\\/\u{8}\u{c}\n\r\t");
}

#[test]
fn unicode_escape_decodes() {
    let mut tokenizer = Tokenizer::new();
    let token = tokenizer.tokenize("\"x\\u00e9\\u4E2D\"").unwrap();
    assert_eq!(token.slice, "x\u{e9}\u{4e2d}");
}

#[test]
fn unicode_escape_split_between_digits() {
    let mut tokenizer = Tokenizer::new();
    assert_eq!(tokenizer.tokenize("\"\\u00").err(), Some(TokenizerErrors::NeedMoreData));
    assert_eq!(tokenizer.state, TokenizerState::ReadingHex(0, 2));
    tokenizer.next_buffer();
    assert_eq!(tokenizer.tokenize("4a\"").unwrap().slice, "J");
}

#[test]
fn bad_hex_digit_is_refused() {
    let mut tokenizer = Tokenizer::new();
    let err = tokenizer.tokenize("\"\\u00g1\"").err();
    assert_eq!(err, Some(TokenizerErrors::WrongEscapeSequence(5)));
}

#[test]
fn lone_surrogate_is_refused() {
    let mut tokenizer = Tokenizer::new();
    let err = tokenizer.tokenize("\"\\uDC00\"").err();
    assert_eq!(err, Some(TokenizerErrors::WrongEscapeSequence(6)));
}

#[test]
fn unknown_escape_is_refused() {
    let mut tokenizer = Tokenizer::new();
    let err = tokenizer.tokenize("\"ab\\q\"").err();
    assert_eq!(err, Some(TokenizerErrors::WrongEscapeSequence(4)));
}

#[test]
fn unknown_character_is_refused() {
    let mut tokenizer = Tokenizer::new();
    let err = tokenizer.tokenize("  true").err();
    assert_eq!(err, Some(TokenizerErrors::WrongFormat(2)));
}

#[test]
fn number_ends_before_its_terminator() {
    let mut tokenizer = Tokenizer::new();
    let data = "-12.5e+3,";
    let number = tokenizer.tokenize(data).unwrap();
    assert_eq!(number.jt, JT::JNumber);
    assert_eq!(number.slice, "-12.5e+3");
    let comma = tokenizer.tokenize(data).unwrap();
    assert_eq!(comma.jt, JT::Comma);
}

#[test]
fn number_split_across_buffers() {
    let mut tokenizer = Tokenizer::new();
    assert_eq!(tokenizer.tokenize("[12").err(), None);
    assert_eq!(tokenizer.tokenize("[12").err(), Some(TokenizerErrors::NeedMoreData));
    tokenizer.next_buffer();
    let number = tokenizer.tokenize("34]").unwrap();
    assert_eq!(number.slice, "1234");
}

#[test]
fn empty_buffer_needs_more_data() {
    let mut tokenizer = Tokenizer::new();
    assert_eq!(tokenizer.tokenize("").err(), Some(TokenizerErrors::NeedMoreData));
    assert_eq!(tokenizer.tokenize(" \t\r\n").err(), Some(TokenizerErrors::NeedMoreData));
    assert_eq!(tokenizer.index, 4);
}

#[test]
fn empty_string_literal() {
    let mut tokenizer = Tokenizer::new();
    let token = tokenizer.tokenize("\"\"").unwrap();
    assert_eq!(token.jt, JT::JString);
    assert_eq!(token.slice, "");
}

#[test]
fn non_ascii_text_is_kept() {
    let mut tokenizer = Tokenizer::new();
    let data = "[\"h\u{e9}llo \u{1F600}\"]";
    assert_eq!(tokenizer.tokenize(data).unwrap().jt, JT::OpenArray);
    assert_eq!(tokenizer.tokenize(data).unwrap().slice, "h\u{e9}llo \u{1F600}");
    assert_eq!(tokenizer.tokenize(data).unwrap().slice, "]");
}

#[test]
fn zero_copy_cursor_counts_bytes() {
    let mut tokenizer = Tokenizer {
        scratch: String::new(),
        state: TokenizerState::ZeroCopyString,
        index: 1,
    };
    let data = "\"\u{e9}\"";
    let token = tokenizer.tokenize(data).unwrap();
    assert_eq!(token.slice, "\u{e9}");
    assert_eq!(tokenizer.index, 4);
}

#[test]
fn copying_cursor_counts_bytes() {
    let mut tokenizer = Tokenizer {
        scratch: String::from("a"),
        state: TokenizerState::CopyingString,
        index: 0,
    };
    let token = tokenizer.tokenize("\u{e9}\"").unwrap();
    assert_eq!(token.slice, "a\u{e9}");
    assert_eq!(tokenizer.index, 3);
}

#[test]
fn error_offsets_count_bytes() {
    let mut tokenizer = Tokenizer::new();
    let data = "[\"\u{e9}\",\u{e9}]";
    assert_eq!(tokenizer.tokenize(data).unwrap().jt, JT::OpenArray);
    assert_eq!(tokenizer.tokenize(data).unwrap().slice, "\u{e9}");
    assert_eq!(tokenizer.tokenize(data).unwrap().jt, JT::Comma);
    assert_eq!(tokenizer.index, 6);
    assert_eq!(tokenizer.tokenize(data).err(), Some(TokenizerErrors::WrongFormat(6)));

    let mut tokenizer = Tokenizer::new();
    let err = tokenizer.tokenize("\"\u{e9}\\q\"").err();
    assert_eq!(err, Some(TokenizerErrors::WrongEscapeSequence(4)));

    let mut tokenizer = Tokenizer::new();
    let err = tokenizer.tokenize("\"\u{e9}\\u12x4\"").err();
    assert_eq!(err, Some(TokenizerErrors::WrongEscapeSequence(7)));
}

#[test]
fn scratch_kept_by_punctuation_and_plain_strings() {
    let mut tokenizer = Tokenizer {
        scratch: String::from("keep"),
        state: TokenizerState::Base,
        index: 0,
    };
    let data = " { \"plain\" ";
    assert_eq!(tokenizer.tokenize(data).unwrap().jt, JT::OpenObject);
    assert_eq!(tokenizer.scratch, "keep");
    assert_eq!(tokenizer.tokenize(data).unwrap().slice, "plain");
    assert_eq!(tokenizer.scratch, "keep");
    assert_eq!(tokenizer.tokenize(data).err(), Some(TokenizerErrors::NeedMoreData));
    assert_eq!(tokenizer.scratch, "keep");
}

#[test]
fn scratch_holds_copied_text_after_bad_escape() {
    let mut tokenizer = Tokenizer::new();
    let err = tokenizer.tokenize("\"ab\\x\"").err();
    assert_eq!(err, Some(TokenizerErrors::WrongEscapeSequence(4)));
    assert_eq!(tokenizer.scratch, "ab");
}

#[test]
fn surrogate_pair_decodes() {
    let mut tokenizer = Tokenizer::new();
    let token = tokenizer.tokenize("\"a\\uD83D\\uDE00b\"").unwrap();
    assert_eq!(token.slice, "a\u{1F600}b");
}

#[test]
fn surrogate_pair_split_across_buffers() {
    let text = "\"\\ud83d\\ude00\"";
    for cut in 0..=text.len() {
        let (first, second) = text.split_at(cut);
        let mut tokenizer = Tokenizer::new();
        let got = match tokenizer.tokenize(first) {
            Ok(token) => token.slice.to_string(),
            Err(e) => {
                assert_eq!(e, TokenizerErrors::NeedMoreData);
                tokenizer.next_buffer();
                tokenizer.tokenize(second).unwrap().slice.to_string()
            }
        };
        assert_eq!(got, "\u{1F600}", "split at {}", cut);
    }
}

#[test]
fn unpaired_high_surrogate_is_refused() {
    let mut tokenizer = Tokenizer::new();
    let err = tokenizer.tokenize("\"\\uD83Dx\"").err();
    assert_eq!(err, Some(TokenizerErrors::WrongEscapeSequence(7)));
    let mut tokenizer = Tokenizer::new();
    let err = tokenizer.tokenize("\"\\uD83D\\u0041\"").err();
    assert_eq!(err, Some(TokenizerErrors::WrongEscapeSequence(12)));
}
