use mylog::entry_buf::EntryBuf;
use mylog::MAX_ENTRY_SIZE;

/// Tests that an entry well under the limit is not truncated.
#[test]
fn well_under_limit() {
    let mut buf = EntryBuf::new();
    buf.append("foo ").unwrap();
    buf.append("bar").unwrap();
    let buf = buf.terminate();
    assert_eq!(buf.get(), "foo bar\n");
}

/// Tests that an entry one under the limit is not truncated (it just fits
/// with the `\n`).
#[test]
fn one_under_limit() {
    let mut buf = EntryBuf::new();
    let e = "e".repeat(MAX_ENTRY_SIZE - 1);
    buf.append(&e).unwrap();
    let buf = buf.terminate();
    assert_eq!(buf.get(), format!("{e}\n"));
}

/// Tests that an entry at the limit is truncated and still ends in '\n'.
#[test]
fn at_limit() {
    let mut buf = EntryBuf::new();
    let e = "e".repeat(MAX_ENTRY_SIZE);
    buf.append(&e).unwrap_err();
    let e_shortened = &e[0..MAX_ENTRY_SIZE - 1];
    let buf = buf.terminate();
    assert_eq!(buf.get(), format!("{e_shortened}\n"));
}

/// Tests that a multi-byte UTF-8 character is not split.
#[test]
fn multi_byte_utf8() {
    let mut buf = EntryBuf::new();
    let e = "e".repeat(MAX_ENTRY_SIZE - 2) + "é";
    buf.append(&e).unwrap_err();
    let e_shortened = &e[0..MAX_ENTRY_SIZE - 2];
    let buf = buf.terminate();
    assert_eq!(buf.get(), format!("{e_shortened}\n"));
}

/// Tests that an entry over the limit is truncated and still ends in '\n'.
#[test]
fn over_limit() {
    let mut buf = EntryBuf::new();
    let e = "e".repeat(MAX_ENTRY_SIZE + 1);
    buf.append(&e).unwrap_err();
    let e_shortened = &e[0..MAX_ENTRY_SIZE - 1];
    let buf = buf.terminate();
    assert_eq!(buf.get(), format!("{e_shortened}\n"));
}

/// A full buffer accepts an empty append but reports truncation for anything
/// more, while the terminator still fits.
#[test]
fn full_buffer_rejects_more() {
    let mut buf = EntryBuf::new();
    let e = "e".repeat(MAX_ENTRY_SIZE - 1);
    buf.append(&e).unwrap();
    buf.append("").unwrap();
    buf.append("x").unwrap_err();
    let buf = buf.terminate();
    assert_eq!(buf.len(), MAX_ENTRY_SIZE);
    assert_eq!(buf.get().as_bytes()[MAX_ENTRY_SIZE - 1], b'\n');
}

/// Appends accumulate across calls and the length counts every byte plus the
/// terminator.
#[test]
fn appends_accumulate() {
    let mut buf = EntryBuf::new();
    buf.append("a").unwrap();
    buf.append("").unwrap();
    buf.append("bc").unwrap();
    let buf = buf.terminate();
    assert_eq!(buf.get(), "abc\n");
    assert_eq!(buf.len(), 4);
}
