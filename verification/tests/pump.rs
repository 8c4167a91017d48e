use json_array_stream::outcome::ParseOutcome;
use json_array_stream::pump::{
    Config, Failure, Phase, StreamPump, PROGRESS_INTERVAL, STANDARD_BUFFER_MULTIPLE,
    STANDARD_CHUNK_SIZE,
};

/// A small value grammar to drive the pump with: it frames one JSON value by
/// its brackets and quotes, and asks for more input whenever the text ends
/// before the value does.
fn parse_value(text: &str) -> ParseOutcome {
    let bytes = text.as_bytes();
    if bytes.is_empty() {
        return ParseOutcome::Incomplete;
    }
    let end = match bytes[0] {
        b'{' | b'[' => {
            let mut depth = 0usize;
            let mut in_string = false;
            let mut escaped = false;
            let mut end = None;
            for (i, &c) in bytes.iter().enumerate() {
                if in_string {
                    if escaped {
                        escaped = false;
                    } else if c == b'\\' {
                        escaped = true;
                    } else if c == b'"' {
                        in_string = false;
                    }
                } else if c == b'"' {
                    in_string = true;
                } else if c == b'{' || c == b'[' {
                    depth += 1;
                } else if c == b'}' || c == b']' {
                    depth -= 1;
                    if depth == 0 {
                        end = Some(i + 1);
                        break;
                    }
                }
            }
            end
        }
        b'"' => {
            let mut escaped = false;
            let mut end = None;
            for (i, &c) in bytes.iter().enumerate().skip(1) {
                if escaped {
                    escaped = false;
                } else if c == b'\\' {
                    escaped = true;
                } else if c == b'"' {
                    end = Some(i + 1);
                    break;
                }
            }
            end
        }
        b'-' | b'0'..=b'9' | b't' | b'f' | b'n' => bytes
            .iter()
            .position(|&c| c == b',' || c == b']' || c == b'}' || c.is_ascii_whitespace()),
        other => {
            return ParseOutcome::Invalid {
                reason: format!("no value begins with {:?}", other as char),
            }
        }
    };
    match end {
        Some(n) => ParseOutcome::Success {
            value: text[..n].to_string(),
            consumed: n,
        },
        None => ParseOutcome::Incomplete,
    }
}

/// Parses values while the pump drains, and collects what it emits.
fn drain(pump: &mut StreamPump, emitted: &mut Vec<String>) {
    while pump.is_draining() {
        let value = parse_value(pump.value_text());
        assert!(value.fits(pump.value_text()));
        if let Some(element) = pump.on_value(value) {
            emitted.push(element);
        }
    }
}

/// Hands the chunks over while the pump reads, then the end of the stream.
fn run(config: Config, chunks: &[&[u8]]) -> (Vec<String>, StreamPump) {
    let mut pump = StreamPump::new(config);
    let mut emitted = Vec::new();
    for chunk in chunks {
        if !pump.is_reading() {
            break;
        }
        pump.on_read(chunk, chunk.len());
        drain(&mut pump, &mut emitted);
    }
    if pump.is_reading() {
        pump.on_read(&[], 0);
    }
    (emitted, pump)
}

fn single_bytes(input: &[u8]) -> Vec<&[u8]> {
    input.chunks(1).collect()
}

#[test]
fn the_standard_configuration_holds_ten_chunks_of_32768_bytes() {
    let config = Config::standard();
    assert_eq!(STANDARD_CHUNK_SIZE, 32768);
    assert_eq!(STANDARD_BUFFER_MULTIPLE, 10);
    assert_eq!(config.chunk_size(), 32768);
    assert_eq!(config.max_buffer_multiple(), 10);
    assert_eq!(config.max_buffer(), 327680);
}

#[test]
fn a_configuration_needs_settings_of_one_or_more_that_fit_the_machine() {
    assert!(Config::new(0, 10).is_none());
    assert!(Config::new(4096, 0).is_none());
    assert!(Config::new(usize::MAX, 2).is_none());
    assert!(Config::new(usize::MAX / 2 + 1, 2).is_none());
    let config = Config::new(usize::MAX, 1).unwrap();
    assert_eq!(config.max_buffer(), usize::MAX);
    let config = Config::new(16, 3).unwrap();
    assert_eq!(config.chunk_size(), 16);
    assert_eq!(config.max_buffer_multiple(), 3);
    assert_eq!(config.max_buffer(), 48);
}

#[test]
fn a_new_pump_reads() {
    let pump = StreamPump::new(Config::new(16, 3).unwrap());
    assert_eq!(pump.phase(), Phase::Reading);
    assert!(pump.is_reading() && !pump.is_draining() && !pump.is_finished());
    assert_eq!(pump.failure(), None);
    assert_eq!(pump.emitted(), 0);
    assert_eq!(pump.buffered(), 0);
    assert_eq!(pump.pending(), 0);
    assert_eq!(pump.limit(), 48);
    assert_eq!(pump.reason(), "");
    assert!(!pump.progress_due());
    assert!(!pump.ended_cleanly());
}

#[test]
fn elements_come_out_in_source_order_and_the_input_is_used_up() {
    let input = b"[{\"a\":1},\"two\",[3,[4]],{\"five\":{\"six\":\"]\"}}]";
    let (emitted, pump) = run(Config::standard(), &[input]);
    assert_eq!(emitted, ["{\"a\":1}", "\"two\"", "[3,[4]]", "{\"five\":{\"six\":\"]\"}}"]);
    assert_eq!(pump.buffered(), 0);
    assert_eq!(pump.pending(), 0);
    assert_eq!(pump.emitted(), 4);
    assert_eq!(pump.phase(), Phase::Drained);
    assert!(pump.ended_cleanly());
}

#[test]
fn two_chunks_split_inside_an_object_give_two_elements() {
    let (emitted, pump) = run(Config::standard(), &[b"[{\"a\":1},{\"b", b"\":2}]"]);
    assert_eq!(emitted, ["{\"a\":1}", "{\"b\":2}"]);
    assert!(pump.ended_cleanly());
}

#[test]
fn the_pump_waits_for_the_rest_of_a_split_element() {
    let mut pump = StreamPump::new(Config::standard());
    let mut emitted = Vec::new();
    pump.on_read(b"[{\"a\":1},{\"b", 12);
    assert_eq!(pump.phase(), Phase::Draining);
    assert_eq!(pump.value_text(), "{\"a\":1},{\"b");
    drain(&mut pump, &mut emitted);
    assert_eq!(emitted, ["{\"a\":1}"]);
    assert_eq!(pump.phase(), Phase::Reading);
    assert_eq!(pump.buffered(), 4);
    assert_eq!(pump.value_text(), "{\"b");
    pump.on_read(b"\":2}]", 5);
    assert_eq!(pump.value_text(), "{\"b\":2}]");
    drain(&mut pump, &mut emitted);
    assert_eq!(emitted, ["{\"a\":1}", "{\"b\":2}"]);
    assert_eq!(pump.buffered(), 0);
    assert_eq!(pump.emitted(), 2);
}

#[test]
fn any_split_into_chunks_gives_the_same_elements() {
    let input = "  [ {\"name\":\"caf\u{e9}\"} ,\"\u{20ac}\u{1f600}\"\n, [1, 2] ,{\"b\":[\"x,y\",{}]}\t] \n";
    let input = input.as_bytes();
    let (whole, _) = run(Config::standard(), &[input]);
    assert_eq!(
        whole,
        ["{\"name\":\"caf\u{e9}\"}", "\"\u{20ac}\u{1f600}\"", "[1, 2]", "{\"b\":[\"x,y\",{}]}"]
    );
    let (by_byte, _) = run(Config::standard(), &single_bytes(input));
    assert_eq!(by_byte, whole);
    for cut in 1..input.len() {
        let (halves, _) = run(Config::standard(), &[&input[..cut], &input[cut..]]);
        assert_eq!(halves, whole, "cut at {}", cut);
    }
    for size in 2..8 {
        let chunks: Vec<&[u8]> = input.chunks(size).collect();
        let (pieces, _) = run(Config::standard(), &chunks);
        assert_eq!(pieces, whole, "chunks of {}", size);
    }
}

#[test]
fn a_long_stream_of_small_elements_passes_a_small_buffer() {
    let config = Config::new(4, 4).unwrap();
    let mut input = Vec::new();
    let mut expected = Vec::new();
    input.extend_from_slice(b" [");
    for i in 0..500 {
        if i > 0 {
            input.extend_from_slice(b" ,\n");
        }
        let value = format!("{{\"n\":{}}}", i);
        input.extend_from_slice(value.as_bytes());
        expected.push(value);
    }
    input.extend_from_slice(b" ] ");
    assert!(input.len() > 16);
    let (whole, pump) = run(config, &[&input]);
    assert_eq!(whole, expected);
    assert!(pump.ended_cleanly());
    for size in 1..=7 {
        let chunks: Vec<&[u8]> = input.chunks(size).collect();
        let (pieces, pump) = run(config, &chunks);
        assert_eq!(pieces, expected, "chunks of {}", size);
        assert_eq!(pump.emitted(), 500);
    }
}

#[test]
fn whitespace_behind_the_array_is_incomplete_and_stays() {
    let mut pump = StreamPump::new(Config::new(4, 2).unwrap());
    let mut emitted = Vec::new();
    pump.on_read(b"[1]", 3);
    drain(&mut pump, &mut emitted);
    assert_eq!(emitted, ["1"]);
    assert_eq!((pump.phase(), pump.buffered()), (Phase::Reading, 0));
    pump.on_read(b" \n\t ", 4);
    assert_eq!(pump.value_text(), "");
    drain(&mut pump, &mut emitted);
    assert_eq!((pump.phase(), pump.buffered()), (Phase::Reading, 4));
    pump.on_read(b"\r\n\r\n", 4);
    drain(&mut pump, &mut emitted);
    assert_eq!((pump.phase(), pump.buffered()), (Phase::Reading, 8));
    pump.on_read(b" ", 1);
    drain(&mut pump, &mut emitted);
    assert_eq!(pump.phase(), Phase::Failed(Failure::Backpressure));
    assert_eq!(emitted, ["1"]);
}

/// A small generator of numbers that gives the same sequence every time.
struct Numbers(u64);

impl Numbers {
    fn next(&mut self, below: usize) -> usize {
        self.0 = self.0.wrapping_mul(6364136223846793005).wrapping_add(1442695040888963407);
        ((self.0 >> 33) as usize) % below
    }
}

fn some_whitespace(numbers: &mut Numbers) -> String {
    let kinds = [" ", "\t", "\n", "\r"];
    (0..numbers.next(4)).map(|_| kinds[numbers.next(4)]).collect()
}

fn some_value(numbers: &mut Numbers, depth: usize) -> String {
    let words = ["", "a", "caf\u{e9}", "\u{20ac}", "x,y", "[", "]", "\\\"", "\u{1f600}!"];
    match numbers.next(if depth < 2 { 4 } else { 2 }) {
        0 => format!("\"{}\"", words[numbers.next(words.len())]),
        1 => format!("{{\"k\":\"{}\"}}", words[numbers.next(words.len())]),
        2 => {
            let inner: Vec<String> =
                (0..numbers.next(3)).map(|_| some_value(numbers, depth + 1)).collect();
            format!("[{}]", inner.join(","))
        }
        _ => format!("{{\"k\":{}}}", some_value(numbers, depth + 1)),
    }
}

#[test]
fn documents_give_their_values_however_they_are_spaced_and_split() {
    let mut numbers = Numbers(2024);
    for _ in 0..300 {
        let values: Vec<String> =
            (0..1 + numbers.next(6)).map(|_| some_value(&mut numbers, 0)).collect();
        let mut dense = String::from("[");
        let mut sparse = some_whitespace(&mut numbers);
        sparse.push('[');
        for (i, value) in values.iter().enumerate() {
            if i > 0 {
                dense.push(',');
                sparse.push(',');
            }
            dense.push_str(value);
            sparse.push_str(&some_whitespace(&mut numbers));
            sparse.push_str(value);
            sparse.push_str(&some_whitespace(&mut numbers));
        }
        dense.push(']');
        sparse.push(']');
        sparse.push_str(&some_whitespace(&mut numbers));

        let (from_dense, pump) = run(Config::standard(), &[dense.as_bytes()]);
        assert_eq!(from_dense, values);
        assert_eq!(pump.buffered(), 0);
        assert!(pump.ended_cleanly());
        let (from_sparse, pump) = run(Config::standard(), &[sparse.as_bytes()]);
        assert_eq!(from_sparse, values);
        assert!(pump.ended_cleanly());

        let bytes = sparse.as_bytes();
        let mut chunks: Vec<&[u8]> = Vec::new();
        let mut at = 0;
        while at < bytes.len() {
            let size = (1 + numbers.next(9)).min(bytes.len() - at);
            chunks.push(&bytes[at..at + size]);
            at += size;
        }
        let (from_chunks, _) = run(Config::standard(), &chunks);
        assert_eq!(from_chunks, values, "{:?} in {:?}", sparse, chunks);
    }
}

#[test]
fn reading_keeps_every_byte_in_order() {
    let input = "\"caf\u{e9} \u{20ac}\u{1f600} and more".as_bytes();
    for size in 1..6 {
        let mut pump = StreamPump::new(Config::standard());
        let mut emitted = Vec::new();
        let mut fed = 0;
        for chunk in input.chunks(size) {
            pump.on_read(chunk, chunk.len());
            fed += chunk.len();
            assert_eq!(pump.buffered() + pump.pending(), fed);
            assert!(pump.pending() < 4);
            let text = pump.value_text().to_string();
            assert_eq!(text.as_bytes(), &input[..pump.buffered()]);
            drain(&mut pump, &mut emitted);
            assert_eq!(pump.phase(), Phase::Reading);
        }
        assert_eq!(pump.pending(), 0);
        assert!(emitted.is_empty());
    }
}

#[test]
fn whitespace_around_tokens_and_values_changes_nothing() {
    let dense = b"[{\"a\":1},{\"b\":2},\"c\"]";
    let sparse = b" \t[\r\n {\"a\":1}  \n,\n\n{\"b\":2}\t,\t\"c\" \r\n]\n\n";
    let (from_dense, dense_pump) = run(Config::standard(), &[dense]);
    let (from_sparse, sparse_pump) = run(Config::standard(), &[sparse]);
    assert_eq!(from_dense, ["{\"a\":1}", "{\"b\":2}", "\"c\""]);
    assert_eq!(from_sparse, from_dense);
    assert!(dense_pump.ended_cleanly() && sparse_pump.ended_cleanly());
    let (by_byte, _) = run(Config::standard(), &single_bytes(sparse));
    assert_eq!(by_byte, from_dense);
}

#[test]
fn a_prefix_of_a_value_emits_nothing_and_keeps_the_buffer() {
    let value = b"{\"a\":[1,2,{\"b\":\"c\"}]}";
    for n in 1..value.len() {
        let mut pump = StreamPump::new(Config::standard());
        let mut emitted = Vec::new();
        pump.on_read(value, n);
        drain(&mut pump, &mut emitted);
        assert!(emitted.is_empty());
        assert_eq!(pump.phase(), Phase::Reading);
        assert_eq!(pump.buffered(), n);
        assert_eq!(pump.emitted(), 0);
    }
}

#[test]
fn an_element_that_outgrows_the_buffer_fails_the_run() {
    let config = Config::new(4, 2).unwrap();
    let input = b"[\"an element that is longer than eight bytes\"]";
    let chunks: Vec<&[u8]> = input.chunks(4).collect();
    let (emitted, pump) = run(config, &chunks);
    assert!(emitted.is_empty());
    assert_eq!(pump.phase(), Phase::Failed(Failure::Backpressure));
    assert_eq!(pump.failure(), Some(Failure::Backpressure));
    assert!(pump.is_finished());
    assert_eq!(pump.emitted(), 0);
    // the third chunk is the first to take the buffer over its limit
    assert_eq!(pump.buffered(), 12);
}

#[test]
fn a_buffer_at_its_limit_may_still_ask_for_more() {
    let config = Config::new(4, 2).unwrap();
    let (emitted, pump) = run(config, &[b"[\"ab", b"cde\""]);
    assert_eq!(emitted, ["\"abcde\""]);
    assert_eq!(pump.phase(), Phase::Drained);
    let (emitted, pump) = run(config, &[b"[\"ab", b"cdef", b"\"]"]);
    assert_eq!(emitted, ["\"abcdef\""]);
    assert!(pump.ended_cleanly());
    let (emitted, pump) = run(config, &[b"[\"ab", b"cdef", b"g", b"\"]"]);
    assert!(emitted.is_empty());
    assert_eq!(pump.failure(), Some(Failure::Backpressure));
}

#[test]
fn elements_emitted_before_a_failure_stay_emitted() {
    let config = Config::new(4, 2).unwrap();
    let input = b"[1,2,\"and then something endless";
    let chunks: Vec<&[u8]> = input.chunks(4).collect();
    let (emitted, pump) = run(config, &chunks);
    assert_eq!(emitted, ["1", "2"]);
    assert_eq!(pump.failure(), Some(Failure::Backpressure));
    assert_eq!(pump.emitted(), 2);
}

#[test]
fn an_empty_array_emits_nothing() {
    let (emitted, pump) = run(Config::standard(), &[b"[]"]);
    assert!(emitted.is_empty());
    assert_eq!(pump.emitted(), 0);
    // no value begins with the closing bracket, and the array is given no
    // treatment of its own
    assert_eq!(pump.failure(), Some(Failure::Invalid));
    assert_eq!(pump.buffered(), 2);
}

#[test]
fn a_trailing_comma_is_fatal_after_the_elements_before_it() {
    let (emitted, pump) = run(Config::standard(), &[b"[{\"a\":1},]"]);
    assert_eq!(emitted, ["{\"a\":1}"]);
    assert_eq!(pump.phase(), Phase::Failed(Failure::Invalid));
    assert_eq!(pump.reason(), "no value begins with ']'");
    assert_eq!(pump.emitted(), 1);
    assert_eq!(pump.buffered(), 2);
    assert!(pump.is_finished());
    assert!(!pump.ended_cleanly());
}

#[test]
fn a_read_of_no_bytes_ends_the_stream() {
    let mut pump = StreamPump::new(Config::standard());
    pump.on_read(b"stale", 0);
    assert_eq!(pump.phase(), Phase::Drained);
    assert!(pump.is_finished());
    assert_eq!(pump.failure(), None);
    assert_eq!(pump.buffered(), 0);
    assert!(pump.ended_cleanly());
}

#[test]
fn a_stream_that_ends_inside_an_element_does_not_end_cleanly() {
    let (emitted, pump) = run(Config::standard(), &[b"[{\"a\":1},{\"b"]);
    assert_eq!(emitted, ["{\"a\":1}"]);
    assert_eq!(pump.phase(), Phase::Drained);
    assert!(!pump.ended_cleanly());
    let (emitted, pump) = run(Config::standard(), &[b"[{\"a\":1}] \n "]);
    assert_eq!(emitted, ["{\"a\":1}"]);
    assert!(pump.ended_cleanly());
}

#[test]
fn a_failed_read_fails_the_run() {
    let mut pump = StreamPump::new(Config::standard());
    let mut emitted = Vec::new();
    pump.on_read(b"[1,2", 4);
    drain(&mut pump, &mut emitted);
    assert_eq!(emitted, ["1"]);
    pump.on_read_error();
    assert_eq!(pump.phase(), Phase::Failed(Failure::Transport));
    assert_eq!(pump.failure(), Some(Failure::Transport));
    assert!(pump.is_finished());
    assert_eq!(pump.emitted(), 1);
}

#[test]
fn only_the_bytes_that_were_read_count() {
    let mut chunk = [0u8; 16];
    chunk[..5].copy_from_slice(b"[\"a\"]");
    chunk[5..].copy_from_slice(b",\"stale\"]]]");
    let mut pump = StreamPump::new(Config::standard());
    let mut emitted = Vec::new();
    pump.on_read(&chunk, 5);
    assert_eq!(pump.buffered(), 5);
    drain(&mut pump, &mut emitted);
    assert_eq!(emitted, ["\"a\""]);
    assert_eq!(pump.buffered(), 0);
    assert_eq!(pump.phase(), Phase::Reading);
}

#[test]
fn a_character_split_across_chunks_is_put_together() {
    let input = "[\"\u{e9}\u{1f600}\"]".as_bytes();
    assert_eq!(input.len(), 10);
    let mut pump = StreamPump::new(Config::standard());
    let mut emitted = Vec::new();
    pump.on_read(input, 3);
    assert_eq!((pump.buffered(), pump.pending()), (2, 1));
    assert_eq!(pump.value_text(), "\"");
    drain(&mut pump, &mut emitted);
    pump.on_read(&input[3..], 3);
    assert_eq!((pump.buffered(), pump.pending()), (4, 2));
    assert_eq!(pump.value_text(), "\"\u{e9}");
    drain(&mut pump, &mut emitted);
    pump.on_read(&input[6..], 1);
    assert_eq!((pump.buffered(), pump.pending()), (4, 3));
    drain(&mut pump, &mut emitted);
    assert!(emitted.is_empty());
    pump.on_read(&input[7..], 3);
    assert_eq!((pump.buffered(), pump.pending()), (10, 0));
    assert_eq!(pump.value_text(), "\"\u{e9}\u{1f600}\"]");
    drain(&mut pump, &mut emitted);
    assert_eq!(emitted, ["\"\u{e9}\u{1f600}\""]);
    assert_eq!(pump.phase(), Phase::Reading);
}

#[test]
fn bytes_that_cannot_become_text_fail_the_run() {
    let mut pump = StreamPump::new(Config::standard());
    let mut emitted = Vec::new();
    pump.on_read(b"[\"a\",\xff", 6);
    assert_eq!((pump.buffered(), pump.pending()), (5, 1));
    drain(&mut pump, &mut emitted);
    assert_eq!(emitted, ["\"a\""]);
    assert_eq!(pump.phase(), Phase::Reading);
    pump.on_read(b"\"b\"", 3);
    assert_eq!(pump.phase(), Phase::Failed(Failure::Encoding));
    assert_eq!(pump.failure(), Some(Failure::Encoding));
    assert_eq!((pump.buffered(), pump.pending()), (1, 4));
    assert!(pump.is_finished());
}

#[test]
fn a_stream_that_ends_inside_a_character_does_not_end_cleanly() {
    let (emitted, pump) = run(Config::standard(), &[b"[\"a\"] \xc3"]);
    assert_eq!(emitted, ["\"a\""]);
    assert_eq!(pump.phase(), Phase::Drained);
    assert_eq!(pump.pending(), 1);
    assert!(!pump.ended_cleanly());
}

#[test]
fn a_report_is_due_every_ten_thousand_elements() {
    assert_eq!(PROGRESS_INTERVAL, 10000);
    let mut pump = StreamPump::new(Config::standard());
    let mut due_at = Vec::new();
    pump.on_read(b"[", 1);
    for _ in 0..20001 {
        let value = ParseOutcome::Incomplete;
        pump.on_value(value);
        pump.on_read(b"1,", 2);
        let value = parse_value(pump.value_text());
        assert_eq!(pump.on_value(value), Some("1".to_string()));
        if pump.progress_due() {
            due_at.push(pump.emitted());
        }
    }
    assert_eq!(due_at, [10000, 20000]);
}
