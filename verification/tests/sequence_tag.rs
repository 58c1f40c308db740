use track_local::sequence_tag::{extract_seq_from_payload, TAG};

fn tagged(before: &[u8], number: u32, after: &[u8]) -> Vec<u8> {
    let mut payload = before.to_vec();
    payload.extend_from_slice(&TAG);
    payload.extend_from_slice(&number.to_be_bytes());
    payload.extend_from_slice(after);
    payload
}

#[test]
fn number_after_the_tag_is_read() {
    assert_eq!(TAG, *b"WRSSEQ01");
    assert_eq!(extract_seq_from_payload(&tagged(&[], 0x0102_0304, &[])), Some(0x0102_0304));
    assert_eq!(extract_seq_from_payload(&tagged(&[0x57, 0, 0x57], u32::MAX, &[9])), Some(u32::MAX));
}

#[test]
fn first_tag_counts() {
    let mut payload = tagged(&[], 1, &[]);
    payload.extend_from_slice(&tagged(&[], 2, &[]));
    assert_eq!(extract_seq_from_payload(&payload), Some(1));
}

#[test]
fn no_tag_or_no_number_gives_nothing() {
    assert_eq!(extract_seq_from_payload(&[]), None);
    assert_eq!(extract_seq_from_payload(&[0; 64]), None);
    assert_eq!(extract_seq_from_payload(b"WRSSEQ0"), None);
    assert_eq!(extract_seq_from_payload(b"WRSSEQ01abc"), None);
}
