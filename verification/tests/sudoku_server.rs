use recipes::sudoku_server::{
    accept_retry, encode_result, parse_frame, read_frame_step, AcceptRetry, FrameError, ReadStep,
    INITIAL_ACCEPT_BACKOFF,
};

#[test]
fn incomplete_line_gives_nothing() {
    assert!(matches!(parse_frame(b"12:3456"), Ok(None)));
    assert!(matches!(parse_frame(b""), Ok(None)));
    assert!(matches!(parse_frame(b"abc\r"), Ok(None)));
}

#[test]
fn line_with_id() {
    let (frame, n) = parse_frame(b"7:000123\r\nrest").unwrap().unwrap();
    assert_eq!(frame.id.as_deref(), Some("7"));
    assert_eq!(frame.puzzle, "000123");
    assert_eq!(n, 10);
}

#[test]
fn line_without_id_takes_its_line() {
    let (frame, n) = parse_frame(b"000123\r\nrest").unwrap().unwrap();
    assert_eq!(frame.id, None);
    assert_eq!(frame.puzzle, "000123");
    assert_eq!(n, 8);
}

#[test]
fn answer_line_without_id_reads_back() {
    let line = encode_result(None, "812753649");
    let (frame, n) = parse_frame(&line).unwrap().unwrap();
    assert_eq!(frame.id, None);
    assert_eq!(frame.puzzle, "812753649");
    assert_eq!(n, line.len());
}

#[test]
fn only_the_first_line_counts() {
    let (frame, n) = parse_frame(b"a:b\r\nc:d:e\r\n").unwrap().unwrap();
    assert_eq!(frame.id.as_deref(), Some("a"));
    assert_eq!(frame.puzzle, "b");
    assert_eq!(n, 5);
}

#[test]
fn empty_id_and_puzzle() {
    let (frame, n) = parse_frame(b":\r\n").unwrap().unwrap();
    assert_eq!(frame.id.as_deref(), Some(""));
    assert_eq!(frame.puzzle, "");
    assert_eq!(n, 3);
}

#[test]
fn two_colons_is_a_protocol_error() {
    assert_eq!(parse_frame(b"a:b:c\r\n").err(), Some(FrameError::ProtocolError));
}

#[test]
fn invalid_utf8_is_reported() {
    assert_eq!(parse_frame(b"\xff\r\n").err(), Some(FrameError::InvalidUtf8));
    assert_eq!(parse_frame(b"id:\xfe\r\n").err(), Some(FrameError::InvalidUtf8));
    // the id is decoded before the extra colon is looked at
    assert_eq!(parse_frame(b"\xff:a:b\r\n").err(), Some(FrameError::InvalidUtf8));
}

#[test]
fn read_step_needs_more_then_frame() {
    assert!(matches!(read_frame_step(b"1:23", false), ReadStep::NeedMore));
    match read_frame_step(b"1:23\r\n", false) {
        ReadStep::Frame(f, n) => {
            assert_eq!(f.id.as_deref(), Some("1"));
            assert_eq!(f.puzzle, "23");
            assert_eq!(n, 6);
        }
        other => panic!("unexpected {:?}", other),
    }
}

#[test]
fn read_step_at_end_of_stream() {
    assert!(matches!(read_frame_step(b"", true), ReadStep::Closed));
    assert!(matches!(
        read_frame_step(b"1:2", true),
        ReadStep::Failed(FrameError::ConnectionReset)
    ));
    assert!(matches!(
        read_frame_step(b"1:2:3\r\n", true),
        ReadStep::Failed(FrameError::ProtocolError)
    ));
}

#[test]
fn answer_lines() {
    assert_eq!(encode_result(Some("7"), "123"), b"7:123\r\n".to_vec());
    assert_eq!(encode_result(None, "123"), b"123\r\n".to_vec());
    assert_eq!(encode_result(Some(""), ""), b":\r\n".to_vec());
}

#[test]
fn answer_line_reads_back() {
    let line = encode_result(Some("42"), "812753649");
    let (frame, n) = parse_frame(&line).unwrap().unwrap();
    assert_eq!(frame.id.as_deref(), Some("42"));
    assert_eq!(frame.puzzle, "812753649");
    assert_eq!(n, line.len());
}

#[test]
fn accept_backoff_doubles_then_gives_up() {
    let mut backoff = INITIAL_ACCEPT_BACKOFF;
    let mut delays = Vec::new();
    loop {
        match accept_retry(backoff) {
            AcceptRetry::GiveUp => break,
            AcceptRetry::RetryAfter { delay_secs, next_backoff } => {
                delays.push(delay_secs);
                backoff = next_backoff;
            }
        }
    }
    assert_eq!(delays, vec![1, 2, 4, 8, 16, 32, 64]);
    assert_eq!(backoff, 128);
    assert_eq!(accept_retry(65), AcceptRetry::GiveUp);
}
