use mylog::exchange::{Exchange, ASYNC_BUF_SIZE};

/// A fresh exchange is synchronous and empty.
#[test]
fn fresh_exchange() {
    let e = Exchange::new();
    assert!(!e.is_async());
    assert!(e.drained());
    assert!(!e.should_wait());
}

/// One entry in, one swap out: the consumer receives exactly the enqueued
/// bytes and the buffer is empty again.
#[test]
fn enqueue_then_swap() {
    let mut e = Exchange::new();
    e.enable();
    assert!(e.is_async());
    assert!(e.should_wait());
    assert!(e.fits(5));
    e.enqueue(b"abc\n");
    assert!(!e.should_wait());
    assert!(!e.drained());
    let mut out = Vec::new();
    let still_async = e.swap_out(&mut out);
    assert!(still_async);
    assert_eq!(out, b"abc\n");
    assert!(e.drained());
    assert!(e.should_wait());
}

/// Backpressure boundary: an entry fits exactly up to the capacity, and
/// nothing more fits until the consumer swaps the buffer out.
#[test]
fn fits_at_capacity() {
    let mut e = Exchange::new();
    e.enable();
    let big = vec![b'x'; ASYNC_BUF_SIZE];
    assert!(e.fits(ASYNC_BUF_SIZE));
    e.enqueue(&big);
    assert!(e.fits(0));
    assert!(!e.fits(1));
    let mut out = Vec::new();
    e.swap_out(&mut out);
    assert_eq!(out.len(), ASYNC_BUF_SIZE);
    assert!(e.fits(1));
}

/// Turn-taking between producers and the consumer: several producers each
/// enqueue a run of fixed-size entries, the consumer swaps whenever an entry
/// would not fit, and after disabling, one final pass drains the rest. The
/// sink receives every entry exactly once, whole and newline-terminated.
#[test]
fn producers_and_consumer_conserve_entries() {
    let producers = 4;
    let per_producer = 50;
    let mut e = Exchange::new();
    e.enable();
    let mut sink: Vec<u8> = Vec::new();
    let mut expected: Vec<String> = Vec::new();
    let mut scratch = Vec::new();
    for m in 0..per_producer {
        for p in 0..producers {
            let entry = format!("producer {p:02} message {m:04} {}\n", "x".repeat(40));
            expected.push(entry.trim_end().to_string());
            if !e.fits(entry.len()) {
                let still_async = e.swap_out(&mut scratch);
                assert!(still_async);
                sink.extend_from_slice(&scratch);
            }
            e.enqueue(entry.as_bytes());
        }
    }
    e.disable();
    assert!(!e.is_async());
    let still_async = e.swap_out(&mut scratch);
    assert!(!still_async);
    sink.extend_from_slice(&scratch);

    let total: usize = expected.iter().map(|s| s.len() + 1).sum();
    assert_eq!(sink.len(), total);
    let text = String::from_utf8(sink).unwrap();
    assert!(text.ends_with('\n'));
    let mut received: Vec<String> = text.lines().map(|s| s.to_string()).collect();
    assert_eq!(received.len(), producers * per_producer);
    received.sort();
    expected.sort();
    assert_eq!(received, expected);
}

/// Disabling drops nothing: entries enqueued before the disable call are
/// still buffered and the final swap hands them all out.
#[test]
fn disable_keeps_buffered_entries() {
    let mut e = Exchange::new();
    e.enable();
    e.enqueue(b"one\n");
    e.enqueue(b"two\n");
    e.disable();
    assert!(!e.should_wait());
    let mut out = Vec::new();
    let still_async = e.swap_out(&mut out);
    assert!(!still_async);
    assert_eq!(out, b"one\ntwo\n");
}

/// The flush predicate: not drained while bytes sit in the buffer in
/// asynchronous mode, drained as soon as the consumer swaps them out, and
/// always drained in synchronous mode.
#[test]
fn drained_tracks_buffer() {
    let mut e = Exchange::new();
    assert!(e.drained());
    e.enable();
    assert!(e.drained());
    e.enqueue(b"pending\n");
    assert!(!e.drained());
    let mut out = Vec::new();
    e.swap_out(&mut out);
    assert!(e.drained());
}

/// Entries are coalesced in enqueue order, never interleaved or reordered.
#[test]
fn swap_preserves_order() {
    let mut e = Exchange::new();
    e.enable();
    e.enqueue(b"first\n");
    e.enqueue(b"second\n");
    e.enqueue(b"third\n");
    let mut out = Vec::new();
    e.swap_out(&mut out);
    assert_eq!(out, b"first\nsecond\nthird\n");
}
