//! Tests for the stream layer: writing through output streams in small
//! chunks with a `back_up` after each, then reading the same data back
//! through an input stream, with a variety of chunk boundaries.

use protobuf_native::io::{
    CodedInputStream, CodedOutputStream, SliceInputStream, SliceOutputStream, VecOutputStream,
};

fn write_bytes_slice(output: &mut SliceOutputStream, data: &[u8]) {
    let mut bytes = data;
    loop {
        let mut buf = output.next().unwrap();
        if bytes.len() < buf.len() {
            let extra = buf.len() - bytes.len();
            for i in 0..bytes.len() {
                buf[i] = bytes[i];
            }
            output.fill(&buf);
            output.back_up(extra);
            return;
        }
        let n = buf.len();
        for i in 0..n {
            buf[i] = bytes[i];
        }
        output.fill(&buf);
        bytes = &bytes[n..];
        if bytes.is_empty() {
            return;
        }
    }
}

fn write_bytes_vec(output: &mut VecOutputStream, data: &[u8]) {
    let mut bytes = data;
    loop {
        let mut buf = output.next().unwrap();
        if bytes.len() < buf.len() {
            let extra = buf.len() - bytes.len();
            for i in 0..bytes.len() {
                buf[i] = bytes[i];
            }
            output.fill(&buf);
            output.back_up(extra);
            return;
        }
        let n = buf.len();
        for i in 0..n {
            buf[i] = bytes[i];
        }
        output.fill(&buf);
        bytes = &bytes[n..];
        if bytes.is_empty() {
            return;
        }
    }
}

fn read_bytes(input: &mut SliceInputStream, out: &mut [u8]) {
    let mut filled: usize = 0;
    loop {
        let buf = input.next().unwrap();
        let want = out.len() - filled;
        if buf.len() < want {
            out[filled..filled + buf.len()].copy_from_slice(buf);
            filled += buf.len();
        } else {
            out[filled..].copy_from_slice(&buf[..want]);
            let extra = buf.len() - want;
            input.back_up(extra);
            return;
        }
    }
}

fn check_read(input: &mut SliceInputStream, expected: &[u8]) {
    let mut out = vec![0u8; expected.len()];
    read_bytes(input, &mut out);
    assert_eq!(out, expected);
}

fn check_some_reads(input: &mut SliceInputStream) {
    check_read(input, b"Hello world!\nSome text.  ");
    input.skip(5).unwrap();
    check_read(input, b"blah.");
    input.skip(100000 - 10).unwrap();
    check_read(input, &{
        let mut buf = vec![];
        buf.extend([b'x'; 10]);
        buf.extend([b'y'; 100000 - 20000]);
        buf
    });
    input.skip(20000 - 10).unwrap();
    check_read(input, b"yyyyyyyyyy01234567890123456789");
    assert_eq!(input.byte_count(), 200_055);
}

#[test]
fn test_io_slice() {
    let buffer = vec![0u8; 1 << 18];
    let mut output = SliceOutputStream::new(buffer);
    write_bytes_slice(&mut output, b"Hello world!\n");
    write_bytes_slice(&mut output, b"Some te");
    write_bytes_slice(&mut output, b"xt.  Blah blah.");
    write_bytes_slice(&mut output, &[b'x'; 100_000]);
    write_bytes_slice(&mut output, &[b'y'; 100_000]);
    write_bytes_slice(&mut output, b"01234567890123456789");
    assert_eq!(output.byte_count(), 200_055);
    let buffer = output.into_inner();
    let mut input = SliceInputStream::new(&buffer);
    check_some_reads(&mut input);
}

#[test]
fn test_io_vec() {
    let mut output = VecOutputStream::new();
    write_bytes_vec(&mut output, b"Hello world!\n");
    write_bytes_vec(&mut output, b"Some te");
    write_bytes_vec(&mut output, b"xt.  Blah blah.");
    write_bytes_vec(&mut output, &[b'x'; 100_000]);
    write_bytes_vec(&mut output, &[b'y'; 100_000]);
    write_bytes_vec(&mut output, b"01234567890123456789");
    assert_eq!(output.byte_count(), 200_055);
    let buffer = output.finish();
    assert_eq!(buffer.len(), 200_055);
    let mut input = SliceInputStream::new(&buffer);
    check_some_reads(&mut input);
    assert!(input.next().is_err()); // check for EOF
}

/// Backing up `k` bytes of an input view replays exactly those bytes.
#[test]
fn test_input_back_up_replays() {
    let data = b"abcdef";
    let mut input = SliceInputStream::new(data);
    let buf = input.next().unwrap();
    assert_eq!(buf, b"abcdef");
    input.back_up(2);
    let buf2 = input.next().unwrap();
    assert_eq!(buf2, b"ef");
    assert_eq!(input.byte_count(), 6);
}

/// Backing up written output bytes keeps them: the next view starts with the
/// last bytes written before the back-up.
#[test]
fn test_output_back_up_preserves() {
    let mut output = SliceOutputStream::new(vec![0u8; 4]);
    let mut buf = output.next().unwrap();
    buf.copy_from_slice(b"wxyz");
    output.fill(&buf);
    output.back_up(2);
    assert_eq!(output.byte_count(), 2);
    let replay = output.next().unwrap();
    assert_eq!(replay, b"yz");
}

/// `next` on an exhausted stream keeps failing the same way, with no side
/// effect on `byte_count`.
#[test]
fn test_exhausted_next_idempotent() {
    let data = b"xy";
    let mut input = SliceInputStream::new(data);
    input.skip(2).unwrap();
    assert!(input.next().is_err());
    assert_eq!(input.byte_count(), 2);
    assert!(input.next().is_err());
    assert!(input.next().is_err());
    assert_eq!(input.byte_count(), 2);
}

/// Skipping past the end pins the stream at its end and errs.
#[test]
fn test_skip_past_end() {
    let data = b"abc";
    let mut input = SliceInputStream::new(data);
    assert!(input.skip(7).is_err());
    assert_eq!(input.byte_count(), 3);
    assert!(input.next().is_err());
}

#[test]
fn test_varint_round_trip() {
    let mut output = CodedOutputStream::new();
    output.write_varint64(0).unwrap();
    output.write_varint64(1).unwrap();
    output.write_varint64(127).unwrap();
    output.write_varint64(128).unwrap();
    output.write_varint64(300).unwrap();
    output.write_varint64(u64::MAX).unwrap();
    let bytes = output.finish();
    let mut input = CodedInputStream::new(SliceInputStream::new(&bytes));
    assert!(input.is_flat());
    assert_eq!(input.read_varint64().unwrap(), 0);
    assert_eq!(input.read_varint64().unwrap(), 1);
    assert_eq!(input.read_varint64().unwrap(), 127);
    assert_eq!(input.read_varint64().unwrap(), 128);
    assert_eq!(input.read_varint64().unwrap(), 300);
    assert_eq!(input.read_varint64().unwrap(), u64::MAX);
    assert!(input.consumed_entire_message());
    assert!(input.read_varint64().is_err());
}

#[test]
fn test_varint_encoding_exact() {
    let mut output = CodedOutputStream::new();
    output.write_varint64(300).unwrap();
    assert_eq!(output.byte_count(), 2);
    let bytes = output.finish();
    assert_eq!(bytes, vec![0xACu8, 0x02u8]);
}

#[test]
fn test_varint32_truncates() {
    let mut output = CodedOutputStream::new();
    output.write_varint64(0x1_0000_0005).unwrap();
    let bytes = output.finish();
    let mut input = CodedInputStream::new(SliceInputStream::new(&bytes));
    assert_eq!(input.read_varint32().unwrap(), 5);
}

#[test]
fn test_varint_too_long_rejected() {
    // Eleven continuation bytes never form a valid varint.
    let bytes = vec![0x80u8; 11];
    let mut input = CodedInputStream::new(SliceInputStream::new(&bytes));
    assert!(input.read_varint64().is_err());
    assert_eq!(input.current_position(), 0);
}

#[test]
fn test_varint_overflow_rejected() {
    // 2^64 encodes as nine 0x80 bytes and a 0x02: one past the 64-bit range.
    let bytes = vec![0x80u8, 0x80, 0x80, 0x80, 0x80, 0x80, 0x80, 0x80, 0x80, 0x02];
    let mut input = CodedInputStream::new(SliceInputStream::new(&bytes));
    assert!(input.read_varint64().is_err());
}

#[test]
fn test_read_tag() {
    let mut output = CodedOutputStream::new();
    output.write_varint32(10).unwrap();
    output.write_varint32(26).unwrap();
    let bytes = output.finish();
    let mut input = CodedInputStream::new(SliceInputStream::new(&bytes));
    assert_eq!(input.read_tag().unwrap(), 10);
    assert!(input.last_tag_was(10));
    assert!(!input.last_tag_was(26));
    assert_eq!(input.read_tag_no_last_tag().unwrap(), 26);
    assert!(input.last_tag_was(10));
    assert!(input.consumed_entire_message());
    assert!(input.read_tag().is_err());
    assert!(input.last_tag_was(0));
}

#[test]
fn test_read_raw_and_position() {
    let bytes = b"abcdefgh".to_vec();
    let mut input = CodedInputStream::new(SliceInputStream::new(&bytes));
    assert_eq!(input.current_position(), 0);
    let first = input.read_raw(3).unwrap();
    assert_eq!(first, b"abc".to_vec());
    assert_eq!(input.current_position(), 3);
    assert!(input.read_raw(100).is_err());
    assert_eq!(input.current_position(), 3);
    let rest = input.read_raw(5).unwrap();
    assert_eq!(rest, b"defgh".to_vec());
    assert!(input.consumed_entire_message());
}

/// A zero tag is the error sentinel: reading it errs, records zero as the
/// last tag, and consumes the tag byte.
#[test]
fn test_read_tag_zero_is_error() {
    let bytes = vec![0u8];
    let mut input = CodedInputStream::new(SliceInputStream::new(&bytes));
    assert!(input.read_tag().is_err());
    assert!(input.last_tag_was(0));
    assert_eq!(input.current_position(), 1);
    assert!(input.consumed_entire_message());
}
