use sqld_stats::snapshot::decode_snapshot;
use sqld_stats::snapshot::encode_snapshot;

#[test]
fn encoding_is_the_exact_document() {
    assert_eq!(encode_snapshot(8, 10), b"{\"rows_written\":8,\"rows_read\":10}".to_vec());
    assert_eq!(encode_snapshot(0, 0), b"{\"rows_written\":0,\"rows_read\":0}".to_vec());
    assert_eq!(
        encode_snapshot(1234567890, 42),
        b"{\"rows_written\":1234567890,\"rows_read\":42}".to_vec()
    );
}

#[test]
fn decoding_reads_the_exact_document() {
    assert_eq!(decode_snapshot(b"{\"rows_written\":8,\"rows_read\":10}"), Some((8, 10)));
    assert_eq!(decode_snapshot(b"{\"rows_written\":0,\"rows_read\":0}"), Some((0, 0)));
}

#[test]
fn decoding_accepts_leading_zeros() {
    assert_eq!(decode_snapshot(b"{\"rows_written\":007,\"rows_read\":0010}"), Some((7, 10)));
}

#[test]
fn round_trip_preserves_the_counters() {
    for &(w, r) in
        &[(0usize, 0usize), (8, 10), (1, 999999), (usize::MAX, usize::MAX), (usize::MAX - 1, 3)]
    {
        assert_eq!(decode_snapshot(&encode_snapshot(w, r)), Some((w, r)));
    }
}

#[test]
fn corrupt_documents_do_not_decode() {
    // Empty or unrelated content.
    assert_eq!(decode_snapshot(b""), None);
    assert_eq!(decode_snapshot(b"garbage"), None);
    // Truncated mid-document.
    assert_eq!(decode_snapshot(b"{\"rows_written\":8,\"rows_re"), None);
    assert_eq!(decode_snapshot(b"{\"rows_written\":"), None);
    // A different key.
    assert_eq!(decode_snapshot(b"{\"rows_deleted\":8,\"rows_read\":10}"), None);
    // Missing numerals.
    assert_eq!(decode_snapshot(b"{\"rows_written\":,\"rows_read\":10}"), None);
    assert_eq!(decode_snapshot(b"{\"rows_written\":8,\"rows_read\":}"), None);
    // Non-numeric values.
    assert_eq!(decode_snapshot(b"{\"rows_written\":abc,\"rows_read\":10}"), None);
    // Trailing bytes after the document.
    assert_eq!(decode_snapshot(b"{\"rows_written\":8,\"rows_read\":10}x"), None);
    // Whitespace is not part of the written form.
    assert_eq!(decode_snapshot(b"{ \"rows_written\": 8, \"rows_read\": 10 }"), None);
    // A numeral too large for the counter type.
    assert_eq!(decode_snapshot(b"{\"rows_written\":99999999999999999999999,\"rows_read\":1}"), None);
}
