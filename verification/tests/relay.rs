use recipes::relay::{CopyBuf, CopyError, COPY_BUF_SIZE};

#[test]
fn new_buffer_is_empty() {
    let buf = CopyBuf::new();
    assert!(buf.needs_read());
    assert!(!buf.has_pending());
    assert!(!buf.is_finished());
    assert!(!buf.read_done());
    assert_eq!(buf.amt(), 0);
    assert_eq!(buf.pending(), b"");
}

#[test]
fn read_then_write_in_parts() {
    let mut buf = CopyBuf::new();
    buf.on_read(b"hello world");
    assert!(!buf.needs_read());
    assert_eq!(buf.pending(), b"hello world");
    assert_eq!(buf.on_write(6), Ok(()));
    assert_eq!(buf.pending(), b"world");
    assert_eq!(buf.amt(), 6);
    assert_eq!(buf.on_write(5), Ok(()));
    assert!(!buf.has_pending());
    assert!(buf.needs_read());
    assert_eq!(buf.amt(), 11);
}

#[test]
fn write_zero_is_an_error() {
    let mut buf = CopyBuf::new();
    buf.on_read(b"abc");
    assert_eq!(buf.on_write(0), Err(CopyError::WriteZero));
    assert_eq!(buf.pending(), b"abc");
    assert_eq!(buf.amt(), 0);
}

#[test]
fn empty_read_is_end_of_stream() {
    let mut buf = CopyBuf::new();
    buf.on_read(b"xy");
    buf.on_write(2).unwrap();
    buf.on_read(b"");
    assert!(buf.read_done());
    assert!(buf.is_finished());
    assert!(!buf.needs_read());
    assert_eq!(buf.amt(), 2);
}

#[test]
fn relay_copies_a_long_stream() {
    let input: Vec<u8> = (0..10_000u32).map(|i| (i % 251) as u8).collect();
    let mut output = Vec::new();
    let mut buf = CopyBuf::new();
    let mut offset = 0;
    loop {
        if buf.needs_read() {
            let end = usize::min(offset + COPY_BUF_SIZE, input.len());
            buf.on_read(&input[offset..end]);
            offset = end;
        }
        while buf.has_pending() {
            let n = usize::min(buf.pending().len(), 700);
            output.extend_from_slice(&buf.pending()[..n]);
            buf.on_write(n).unwrap();
        }
        if buf.is_finished() {
            break;
        }
    }
    assert_eq!(output, input);
    assert_eq!(buf.amt(), 10_000);
}
