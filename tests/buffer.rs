use mediabox::buffer::{BufferError, GrowableBufferedReader, SeekFrom, SliceSource};

enum Op {
    Assert(&'static [u8]),
    Seek(SeekFrom),
    Fill,
    Consume(usize),
}

fn run(capacity: usize, data: &'static [u8], ops: &[Op]) {
    let mut src = SliceSource::new(data.to_vec());
    let mut reader = GrowableBufferedReader::new();
    let mut buf = vec![0u8; capacity];
    for op in ops {
        match op {
            Op::Assert(expected) => assert_eq!(reader.data(&buf), *expected),
            Op::Seek(target) => {
                reader.seek(&buf, *target, &mut src).unwrap();
            }
            Op::Fill => reader.fill_buf(&mut buf, &mut src).unwrap(),
            Op::Consume(n) => reader.consume(*n),
        }
    }
}

#[test]
fn buffered_reader_seek_and_fill() {
    run(
        5,
        b"0123456789",
        &[
            Op::Fill,
            Op::Assert(b"01234"),
            Op::Seek(SeekFrom::Current(1)),
            Op::Assert(b"1234"),
            Op::Fill,
            Op::Assert(b"12345"),
            Op::Seek(SeekFrom::Current(5)),
            Op::Assert(b""),
            Op::Fill,
            Op::Assert(b"6789"),
            Op::Seek(SeekFrom::Current(-2)),
            Op::Assert(b""),
            Op::Fill,
            Op::Assert(b"45678"),
        ],
    );
}

#[test]
fn buffered_reader_empty_before_fill() {
    run(10, b"abc", &[Op::Assert(b"")]);
}

#[test]
fn buffered_reader_seek_within_window() {
    run(
        10,
        b"abc",
        &[
            Op::Fill,
            Op::Assert(b"abc"),
            Op::Seek(SeekFrom::Current(1)),
            Op::Assert(b"bc"),
            Op::Seek(SeekFrom::Current(1)),
            Op::Assert(b"c"),
            Op::Seek(SeekFrom::Current(1)),
            Op::Assert(b""),
            Op::Seek(SeekFrom::Current(-3)),
            Op::Assert(b"abc"),
        ],
    );
}

#[test]
fn buffered_reader_consume() {
    run(
        10,
        b"abc",
        &[
            Op::Fill,
            Op::Assert(b"abc"),
            Op::Consume(1),
            Op::Assert(b"bc"),
            Op::Consume(1),
            Op::Assert(b"c"),
            Op::Consume(1),
            Op::Assert(b""),
            Op::Consume(5),
            Op::Assert(b""),
        ],
    );
}

#[test]
fn buffered_reader_eof_and_invalid_seek() {
    let mut src = SliceSource::new(b"ab".to_vec());
    let mut reader = GrowableBufferedReader::new();
    let mut buf = vec![0u8; 4];
    reader.fill_buf(&mut buf, &mut src).unwrap();
    assert_eq!(reader.data(&buf), b"ab");
    assert_eq!(reader.fill_buf(&mut buf, &mut src), Err(BufferError::UnexpectedEof));
    assert_eq!(reader.seek(&buf, SeekFrom::Current(-5), &mut src), Err(BufferError::InvalidSeek));
    assert_eq!(reader.seek(&buf, SeekFrom::Start(1), &mut src), Ok(1));
    reader.fill_buf(&mut buf, &mut src).unwrap();
    assert_eq!(reader.data(&buf), b"b");
}

#[test]
fn buffered_reader_grows_buffer() {
    let mut src = SliceSource::new(b"0123456789".to_vec());
    let mut reader = GrowableBufferedReader::new();
    let mut buf = vec![0u8; 4];
    reader.fill_buf(&mut buf, &mut src).unwrap();
    reader.consume(2);
    reader.ensure_additional(&mut buf, 6);
    assert!(buf.len() >= 8);
    assert_eq!(reader.data(&buf), b"23");
    reader.fill_buf(&mut buf, &mut src).unwrap();
    assert_eq!(reader.data(&buf), b"23456789");
    assert_eq!(reader.len(), 8);
}
