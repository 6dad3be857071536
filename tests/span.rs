use mediabox::memory::{MemoryPool, MemoryPoolConfig};
use mediabox::span::Span;

fn rope(parts: &[&[u8]]) -> Span {
    let mut s = Span::new();
    for p in parts {
        s.append(Span::from_vec(p.to_vec()));
    }
    s
}

fn check(parts: &[&[u8]], start: usize, end: usize, expected: &[u8]) {
    let span = rope(parts);
    let sliced = span.slice(start, end);
    assert_eq!(sliced.to_bytes(), expected);
    assert_eq!(sliced.len(), expected.len());
}

#[test]
fn slice_static() {
    check(&[b"abc", b"def", b"ghj"], 0, 9, b"abcdefghj");
    check(&[b"abc", b"def", b"ghj"], 1, 8, b"bcdefgh");
    check(&[b"abc", b"def", b"ghj"], 0, 1, b"a");
    check(&[b"abc", b"def", b"ghj"], 3, 7, b"defg");
    check(&[b"abc", b"def", b"ghj"], 3, 6, b"def");
    check(&[b"a", b"def", b"j"], 0, 5, b"adefj");
    check(&[b"a", b"def", b"j"], 1, 4, b"def");
    check(&[b"a", b"def", b"j"], 1, 5, b"defj");
    check(&[b"a", b"def", b"j"], 0, 4, b"adef");
    check(&[b"a", b"def", b"j"], 2, 2, b"");
}

#[test]
fn slice_memory() {
    let mut pool = MemoryPool::new(MemoryPoolConfig {
        max_capacity: None,
        default_memory_capacity: 0,
    });
    let mut mem = pool.try_alloc(9).unwrap();
    mem.write_at(0, b"abcdefghj");
    let mut span = Span::new();
    span.append(Span::non_realized(0, 3));
    span.append(Span::non_realized(3, 6));
    span.append(Span::non_realized(6, 9));
    let sliced = span.slice(1, 8);
    let mut realized = sliced.copy();
    realized.realize_with_memory(mem);
    assert_eq!(realized.to_bytes(), b"bcdefgh");
    assert_eq!(realized.fragment_count(), 3);
    assert_eq!(realized.fragment(0), b"bc");
}

#[test]
fn span_length_and_empty() {
    let s = rope(&[b"ab", b"", b"c"]);
    assert_eq!(s.len(), 3);
    assert!(!s.is_empty());
    assert!(Span::new().is_empty());
}

#[test]
fn span_of_shared_bytes() {
    let s = Span::from_bytes(bytes::Bytes::from_static(b"hello world"));
    assert_eq!(s.slice(2, 5).to_bytes(), b"llo");
    assert_eq!(s.len(), 11);
}
