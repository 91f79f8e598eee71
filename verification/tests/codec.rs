use ztext::compress::{compress, find_alias_bytes, find_patterns, Pattern};
use ztext::decompress::decompress;
use ztext::{CompressError, DecompressError};

#[test]
fn uniform_input_failure() {
    let r = compress(b"abcdef".to_vec());
    assert_eq!(r, Err(CompressError::NoBeneficialPattern));
}

#[test]
fn empty_input_failure() {
    let r = compress(Vec::new());
    assert_eq!(r, Err(CompressError::NoBeneficialPattern));
}

#[test]
fn repetitive_input_success() {
    let original = b"ababababab".to_vec();
    let r = compress(original.clone());
    let out = r.expect("repetitive input must compress");
    assert!(out.len() < 10);
    // One token (the smallest free reserved byte, 1) bound to "ab", the
    // terminator, then five body tokens.
    assert_eq!(out, vec![b'a', b'b', 1, 0, 1, 1, 1, 1, 1]);
    let back = decompress(out).expect("round trip must decode");
    assert_eq!(back, original);
}

#[test]
fn no_size_reduction() {
    // Substituting "ab" here saves exactly nothing: 8 bytes in, 8 bytes out.
    let r = compress(b"abababab".to_vec());
    assert_eq!(r, Err(CompressError::NoSizeReduction));
}

#[test]
fn token_pool_exhausted() {
    let mut v: Vec<u8> = (1u8..32).collect();
    v.extend_from_slice(b"XYZXYZXYZXYZ");
    let r = compress(v);
    assert_eq!(r, Err(CompressError::TokenPoolExhausted));
}

#[test]
fn corruption_missing_terminator() {
    let r = decompress(b"abc".to_vec());
    assert_eq!(r, Err(DecompressError::MalformedHeader));
}

#[test]
fn corruption_empty_buffer() {
    let r = decompress(Vec::new());
    assert_eq!(r, Err(DecompressError::MalformedHeader));
}

#[test]
fn unbound_token_in_body() {
    let r = decompress(vec![0, 5]);
    assert_eq!(r, Err(DecompressError::UnboundToken));
}

#[test]
fn empty_header_empty_body() {
    let r = decompress(vec![0]);
    assert_eq!(r, Ok(Vec::new()));
}

#[test]
fn literal_body_passthrough() {
    let r = decompress(vec![0, b'h', b'i']);
    assert_eq!(r, Ok(b"hi".to_vec()));
}

#[test]
fn alias_of_alias_header() {
    // Header binds 1 -> "ab", then reuses token 1 while building the entry
    // for token 2, which therefore resolves to "ababc".
    let buf = vec![b'a', b'b', 1, 1, 1, b'c', 2, 0, 2, b'd'];
    let r = decompress(buf);
    assert_eq!(r, Ok(b"ababcd".to_vec()));
}

#[test]
fn round_trip_repeated_text() {
    let original = b"abcdefghabcdefghabcdefghabcdefgh".to_vec();
    let out = compress(original.clone()).expect("highly repetitive input must compress");
    assert!(out.len() < original.len());
    let back = decompress(out).expect("round trip must decode");
    assert_eq!(back, original);
}

#[test]
fn alias_bytes_all_free() {
    let pool = find_alias_bytes(&b"ab".to_vec());
    assert_eq!(pool.len(), 31);
    assert_eq!(pool[0], 31);
    assert_eq!(pool[30], 1);
}

#[test]
fn alias_bytes_skip_used() {
    let pool = find_alias_bytes(&vec![5, b'a', 5, b'b']);
    assert_eq!(pool.len(), 30);
    assert!(!pool.contains(&5));
    assert!(pool.contains(&1));
    assert!(pool.contains(&31));
}

#[test]
fn patterns_tally_overlapping_windows() {
    let pats = find_patterns(&b"ababab".to_vec(), 1);
    assert_eq!(pats.len(), 2);
    let ab = pats.iter().find(|p| p.chars == b"ab".to_vec()).expect("ab pattern");
    let ba = pats.iter().find(|p| p.chars == b"ba".to_vec()).expect("ba pattern");
    assert_eq!(ab.count, 3);
    assert_eq!(ba.count, 2);
}

#[test]
fn pattern_savings_formula() {
    let p = Pattern::new(vec![1, 2, 3], 4);
    // 3 * 4 - (4 + 1) * 1 - 3
    assert_eq!(p.savings(1), 4);
    let q = Pattern::new(vec![7, 7], 2);
    // 2 * 2 - 3 - 2
    assert_eq!(q.savings(1), -1);
}

#[test]
fn compress_deterministic() {
    let x = b"the rain in spain stays mainly in the plain, the rain in spain".to_vec();
    let a = compress(x.clone());
    let b = compress(x);
    assert_eq!(a, b);
}

#[test]
fn header_closure_on_output() {
    // Every reserved-range byte in the body of an accepted compression must
    // be bound in its header, so decoding never hits an unbound token.
    let original = b"one fish two fish red fish blue fish".to_vec();
    if let Ok(out) = compress(original.clone()) {
        let back = decompress(out).expect("tokens in the body are all bound");
        assert_eq!(back, original);
    }
}
