use ferrumdb::crypto::{blocks_end, open_stream, read_window, seal_block, seal_block_with_nonce, CryptoError};

#[test]
fn test_encryption() {
    let key = [7u8; 32];
    let mut stored = seal_block(&key, b"sensitive data").unwrap();
    stored.extend(seal_block(&key, b" more").unwrap());
    let raw = String::from_utf8_lossy(&stored);
    assert!(!raw.contains("sensitive data"));
    assert_eq!(open_stream(&key, &stored).unwrap(), b"sensitive data more".to_vec());
    let wrong_key = [9u8; 32];
    assert_eq!(open_stream(&wrong_key, &stored), Err(CryptoError::DecryptionFailed));
}

#[test]
fn sealed_block_layout() {
    let key = [1u8; 32];
    let nonce = [2u8; 12];
    let b = seal_block_with_nonce(&key, &nonce, b"abc").unwrap();
    assert_eq!(&b[..12], &nonce[..]);
    assert_eq!(u64::from_le_bytes(b[12..20].try_into().unwrap()), 3 + 16);
    assert_eq!(b.len(), 12 + 8 + 3 + 16);
    // Deterministic for a fixed nonce.
    assert_eq!(b, seal_block_with_nonce(&key, &nonce, b"abc").unwrap());
}

#[test]
fn incomplete_trailing_block_is_ignored() {
    let key = [3u8; 32];
    let mut stored = seal_block(&key, b"first").unwrap();
    let second = seal_block(&key, b"second").unwrap();
    stored.extend(&second[..second.len() - 1]);
    assert_eq!(open_stream(&key, &stored).unwrap(), b"first".to_vec());
    assert_eq!(open_stream(&key, &[]).unwrap(), Vec::<u8>::new());
}

#[test]
fn tampered_block_fails() {
    let key = [4u8; 32];
    let mut stored = seal_block(&key, b"data").unwrap();
    let last = stored.len() - 1;
    stored[last] ^= 1;
    assert_eq!(open_stream(&key, &stored), Err(CryptoError::DecryptionFailed));
}

#[test]
fn window_reads() {
    let data = b"0123456789";
    assert_eq!(read_window(data, 2, 3), Some(b"234".to_vec()));
    assert_eq!(read_window(data, 8, 2), Some(b"89".to_vec()));
    assert_eq!(read_window(data, 8, 3), None);
}

#[test]
fn sealed_block_is_header_plus_tagged_ciphertext() {
    let key = [3u8; 32];
    let block = seal_block(&key, b"0123456789").unwrap();
    assert_eq!(block.len(), 12 + 8 + 10 + 16);
    assert_eq!(u64::from_le_bytes(block[12..20].try_into().unwrap()), 26);
}

#[test]
fn blocks_end_stops_before_a_torn_block() {
    let key = [5u8; 32];
    let mut raw = seal_block(&key, b"first").unwrap();
    let whole = raw.len();
    raw.extend(seal_block(&key, b"second").unwrap());
    let two = raw.len();
    assert_eq!(blocks_end(&raw), two);
    raw.truncate(two - 3);
    assert_eq!(blocks_end(&raw), whole);
    assert_eq!(open_stream(&key, &raw).unwrap(), b"first".to_vec());
    assert_eq!(blocks_end(&raw[..5]), 0);
}
