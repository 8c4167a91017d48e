use json_array_stream::decode::{decodable_len, scalar_width};
use json_array_stream::extractor::{chunked_json_array_parser, element_value_text};
use json_array_stream::outcome::ParseOutcome;
use json_array_stream::tokens::{
    find_element_end, find_value_start, is_whitespace, skip_token, skip_whitespace, CLOSE, OPEN,
    SEPARATOR,
};

/// A small value grammar to drive the extractor with: it frames one JSON
/// value by its brackets and quotes, and asks for more input whenever the
/// text ends before the value does.
fn parse_value(text: &str) -> ParseOutcome {
    let bytes = text.as_bytes();
    if bytes.is_empty() {
        return ParseOutcome::Incomplete;
    }
    let end = match bytes[0] {
        b'{' | b'[' => {
            let mut depth = 0usize;
            let mut in_string = false;
            let mut escaped = false;
            let mut end = None;
            for (i, &c) in bytes.iter().enumerate() {
                if in_string {
                    if escaped {
                        escaped = false;
                    } else if c == b'\\' {
                        escaped = true;
                    } else if c == b'"' {
                        in_string = false;
                    }
                } else if c == b'"' {
                    in_string = true;
                } else if c == b'{' || c == b'[' {
                    depth += 1;
                } else if c == b'}' || c == b']' {
                    depth -= 1;
                    if depth == 0 {
                        end = Some(i + 1);
                        break;
                    }
                }
            }
            end
        }
        b'"' => {
            let mut escaped = false;
            let mut end = None;
            for (i, &c) in bytes.iter().enumerate().skip(1) {
                if escaped {
                    escaped = false;
                } else if c == b'\\' {
                    escaped = true;
                } else if c == b'"' {
                    end = Some(i + 1);
                    break;
                }
            }
            end
        }
        b'-' | b'0'..=b'9' | b't' | b'f' | b'n' => bytes
            .iter()
            .position(|&c| c == b',' || c == b']' || c == b'}' || c.is_ascii_whitespace()),
        other => {
            return ParseOutcome::Invalid {
                reason: format!("no value begins with {:?}", other as char),
            }
        }
    };
    match end {
        Some(n) => ParseOutcome::Success {
            value: text[..n].to_string(),
            consumed: n,
        },
        None => ParseOutcome::Incomplete,
    }
}

fn extract(input: &str) -> ParseOutcome {
    let value = parse_value(element_value_text(input));
    assert!(value.fits(element_value_text(input)));
    chunked_json_array_parser(input, value)
}

fn expect_success(outcome: ParseOutcome, value: &str, consumed: usize) {
    match outcome {
        ParseOutcome::Success { value: v, consumed: c } => {
            assert_eq!(v, value);
            assert_eq!(c, consumed);
        }
        other => panic!("expected a success, got {:?}", other),
    }
}

#[test]
pub fn test_parser() {
    let input = "[{\"p1\":\"1\"},{\"p2\":\"1\"}]";
    let d = extract(input);
    println!("Input => {:?}", d);
    expect_success(d, "{\"p1\":\"1\"}", 11);

    let input = " [ {\"p1\":\"1\"},{\"p2\":\"1\"}]";
    let x = extract(input);
    println!("Input => {:?}", x);
    expect_success(x, "{\"p1\":\"1\"}", 13);
}

#[test]
fn whitespace_is_space_tab_line_feed_and_carriage_return() {
    for b in 0..=255u8 {
        assert_eq!(is_whitespace(b), b == b' ' || b == b'\t' || b == b'\n' || b == b'\r');
    }
}

#[test]
fn skip_whitespace_stops_at_the_first_other_byte() {
    assert_eq!(skip_whitespace(b" \t\r\n21c", 0), 4);
    assert_eq!(skip_whitespace(b"Z21c", 0), 0);
    assert_eq!(skip_whitespace(b"", 0), 0);
    assert_eq!(skip_whitespace(b"a  b", 1), 3);
    assert_eq!(skip_whitespace(b"   ", 1), 3);
    assert_eq!(skip_whitespace(b"  ", 7), 7);
}

#[test]
fn skip_token_takes_one_token_at_most() {
    assert_eq!(skip_token(b"[[1]]", 0, OPEN), 1);
    assert_eq!(skip_token(b"[[1]]", 1, OPEN), 2);
    assert_eq!(skip_token(b",,", 0, SEPARATOR), 1);
    assert_eq!(skip_token(b"]", 0, CLOSE), 1);
    assert_eq!(skip_token(b"]", 0, OPEN), 0);
    assert_eq!(skip_token(b"]", 1, CLOSE), 1);
    assert_eq!(skip_token(b"", 0, CLOSE), 0);
}

#[test]
fn value_start_follows_the_leading_tokens() {
    assert_eq!(find_value_start(b"{\"a\":1}"), 0);
    assert_eq!(find_value_start(b"[{\"a\":1}"), 1);
    assert_eq!(find_value_start(b" [ {\"a\":1}"), 3);
    assert_eq!(find_value_start(b",{\"b\":2}"), 1);
    assert_eq!(find_value_start(b"\n,\t{\"b\":2}"), 3);
    assert_eq!(find_value_start(b"[,1"), 2);
    assert_eq!(find_value_start(b"[ ,1"), 2);
    assert_eq!(find_value_start(b",[1]"), 1);
    assert_eq!(find_value_start(b"[[1]"), 1);
    assert_eq!(find_value_start(b"   "), 3);
    assert_eq!(find_value_start(b""), 0);
}

#[test]
fn element_end_follows_the_trailing_tokens() {
    assert_eq!(find_element_end(b"1,2", 1), 1);
    assert_eq!(find_element_end(b"1 ,2", 1), 2);
    assert_eq!(find_element_end(b"1]", 1), 2);
    assert_eq!(find_element_end(b"1 ] \n", 1), 5);
    assert_eq!(find_element_end(b"1]]", 1), 2);
    assert_eq!(find_element_end(b"1", 1), 1);
}

#[test]
fn value_text_is_the_input_without_its_leading_tokens() {
    assert_eq!(element_value_text(" [ {\"a\":1}]"), "{\"a\":1}]");
    assert_eq!(element_value_text(",\"\u{e9}\""), "\"\u{e9}\"");
    assert_eq!(element_value_text(" [ "), "");
}

#[test]
fn a_success_consumes_tokens_value_and_whitespace() {
    expect_success(extract("[{\"a\":1},{\"b\":2}]"), "{\"a\":1}", 8);
    expect_success(extract(",{\"b\":2}]"), "{\"b\":2}", 9);
    expect_success(extract("  [  \"x\"  ]  "), "\"x\"", 13);
    expect_success(extract("\"x\"  ,\"y\""), "\"x\"", 5);
}

#[test]
fn a_prefix_of_a_value_is_incomplete() {
    let value = "{\"name\":\"caf\u{e9}\",\"tags\":[1,2]}";
    for n in 0..value.len() {
        if !value.is_char_boundary(n) {
            continue;
        }
        let outcome = extract(&value[..n]);
        assert!(outcome.is_incomplete(), "prefix of {} bytes: {:?}", n, outcome);
    }
    expect_success(extract(value), value, value.len());
}

#[test]
fn an_invalid_value_is_handed_on() {
    let outcome = extract(",]");
    assert!(outcome.is_invalid());
    match outcome {
        ParseOutcome::Invalid { reason } => assert_eq!(reason, "no value begins with ']'"),
        other => panic!("expected a rejection, got {:?}", other),
    }
}

#[test]
fn outcomes_know_their_kind() {
    let success = ParseOutcome::Success { value: "1".to_string(), consumed: 1 };
    assert!(success.is_success() && !success.is_incomplete() && !success.is_invalid());
    let incomplete = ParseOutcome::Incomplete;
    assert!(!incomplete.is_success() && incomplete.is_incomplete() && !incomplete.is_invalid());
    let invalid = ParseOutcome::Invalid { reason: String::new() };
    assert!(!invalid.is_success() && !invalid.is_incomplete() && invalid.is_invalid());
}

#[test]
fn a_success_fits_a_text_it_ends_within() {
    let text = "\"\u{e9}\",";
    let taking = |consumed: usize| ParseOutcome::Success { value: String::new(), consumed };
    assert!(!taking(0).fits(text));
    assert!(taking(1).fits(text));
    assert!(!taking(2).fits(text));
    assert!(taking(3).fits(text));
    assert!(taking(5).fits(text));
    assert!(!taking(6).fits(text));
    assert!(ParseOutcome::Incomplete.fits(""));
    assert!(ParseOutcome::Invalid { reason: String::new() }.fits(""));
}

#[test]
fn scalar_width_accepts_well_formed_scalars_only() {
    assert_eq!(scalar_width(b"a", 0), Some(1));
    assert_eq!(scalar_width(&[0x7f], 0), Some(1));
    assert_eq!(scalar_width(&[0xc3, 0xa9], 0), Some(2));
    assert_eq!(scalar_width(&[0xe2, 0x82, 0xac], 0), Some(3));
    assert_eq!(scalar_width(&[0xf0, 0x9f, 0x98, 0x80], 0), Some(4));
    assert_eq!(scalar_width(&[0x61, 0xc3, 0xa9], 1), Some(2));
    // nothing left, or a character cut short
    assert_eq!(scalar_width(b"a", 1), None);
    assert_eq!(scalar_width(&[0xc3], 0), None);
    assert_eq!(scalar_width(&[0xe2, 0x82], 0), None);
    assert_eq!(scalar_width(&[0xf0, 0x9f, 0x98], 0), None);
    // a continuation byte in front, or none where one is due
    assert_eq!(scalar_width(&[0xa9], 0), None);
    assert_eq!(scalar_width(&[0xc3, 0x41], 0), None);
    // overlong encodings
    assert_eq!(scalar_width(&[0xc0, 0x80], 0), None);
    assert_eq!(scalar_width(&[0xc1, 0xbf], 0), None);
    assert_eq!(scalar_width(&[0xe0, 0x9f, 0xbf], 0), None);
    assert_eq!(scalar_width(&[0xf0, 0x8f, 0xbf, 0xbf], 0), None);
    // surrogates, and what lies beyond the last scalar
    assert_eq!(scalar_width(&[0xed, 0xa0, 0x80], 0), None);
    assert_eq!(scalar_width(&[0xed, 0x9f, 0xbf], 0), Some(3));
    assert_eq!(scalar_width(&[0xf4, 0x8f, 0xbf, 0xbf], 0), Some(4));
    assert_eq!(scalar_width(&[0xf4, 0x90, 0x80, 0x80], 0), None);
    assert_eq!(scalar_width(&[0xf8, 0x88, 0x80, 0x80], 0), None);
    assert_eq!(scalar_width(&[0xff], 0), None);
}

#[test]
fn decodable_len_is_the_longest_well_formed_prefix() {
    assert_eq!(decodable_len(b""), 0);
    assert_eq!(decodable_len(b"abc"), 3);
    assert_eq!(decodable_len("caf\u{e9}".as_bytes()), 5);
    assert_eq!(decodable_len(&[0x63, 0x61, 0x66, 0xc3]), 3);
    assert_eq!(decodable_len(&[0xe2, 0x82]), 0);
    assert_eq!(decodable_len(&[0x61, 0xff, 0x62]), 1);
    assert_eq!(decodable_len(&[0xf0, 0x9f, 0x98, 0x80, 0xf0, 0x9f, 0x98]), 4);
    for text in ["", "a", "\u{e9}", "\u{20ac}", "\u{1f600}", "a\u{e9}\u{20ac}\u{1f600}z"] {
        let bytes = text.as_bytes();
        for n in 0..=bytes.len() {
            let expected = (0..=n).rev().find(|&k| text.is_char_boundary(k)).unwrap();
            assert_eq!(decodable_len(&bytes[..n]), expected);
        }
    }
}
