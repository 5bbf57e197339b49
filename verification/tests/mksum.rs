use rollsig::mksum::{block_record, generate_signature, header_bytes, SignatureOptions};

fn generate_signature_on_arrays(in_buf: &[u8]) -> Vec<u8> {
    let options = SignatureOptions::default();
    assert_eq!(options.block_len, 2 << 10);
    generate_signature(in_buf, &options)
}

// Blake2b with a 32-byte output over "Hello world\n".
const HELLO_STRONG: [u8; 32] = [
    210, 89, 241, 71, 190, 179, 43, 163, 107, 89, 125, 103, 105, 12, 69, 69, 138, 238, 139, 73,
    10, 123, 177, 127, 198, 236, 237, 181, 30, 104, 114, 146,
];

#[test]
pub fn empty_signature_header() {
    let out_buf = generate_signature_on_arrays(&[]);
    assert_eq!(
        out_buf.as_slice(),
        [b'r', b's', 0x01, 0x37, 0, 0, 8, 0, 0, 0, 0, 32,]
    );
}

#[test]
pub fn small_file() {
    let out_buf = generate_signature_on_arrays("Hello world\n".as_bytes());

    assert_eq!(out_buf.len(), 12 + 4 + 32);
}

#[test]
pub fn small_file_record_bytes() {
    let out_buf = generate_signature_on_arrays("Hello world\n".as_bytes());
    // Header, then the block's weak digest big-endian, then its strong hash.
    assert_eq!(&out_buf[..12], [b'r', b's', 0x01, 0x37, 0, 0, 8, 0, 0, 0, 0, 32]);
    assert_eq!(&out_buf[12..16], [0x26, 0x58, 0x05, 0xba]);
    assert_eq!(&out_buf[16..48], HELLO_STRONG);
}

#[test]
pub fn default_options() {
    let options = SignatureOptions::default();
    assert_eq!(options.block_len, 2048);
    assert_eq!(options.strong_len, 32);
    assert_eq!(options.magic.to_u32(), 0x72730137);
}

#[test]
pub fn with_strong_len_replaces_only_strong_len() {
    let options = SignatureOptions::default().with_strong_len(16);
    assert_eq!(options.block_len, 2048);
    assert_eq!(options.strong_len, 16);
    assert_eq!(options.magic.to_u32(), 0x72730137);
}

#[test]
pub fn truncated_strong_hash() {
    let options = SignatureOptions::default().with_strong_len(16);
    let out_buf = generate_signature("Hello world\n".as_bytes(), &options);
    assert_eq!(out_buf.len(), 12 + 4 + 16);
    assert_eq!(out_buf[11], 16);
    assert_eq!(&out_buf[16..32], &HELLO_STRONG[..16]);
}

#[test]
pub fn zero_strong_len_keeps_weak_digests_only() {
    let options = SignatureOptions::default().with_strong_len(0);
    let out_buf = generate_signature("Hello world\n".as_bytes(), &options);
    assert_eq!(out_buf.len(), 12 + 4);
    assert_eq!(&out_buf[12..16], [0x26, 0x58, 0x05, 0xba]);
}

#[test]
pub fn multi_block_chunking() {
    let mut input = vec![0u8; 2 * 2048 + 5];
    for i in 0..input.len() {
        input[i] = (i % 251) as u8;
    }
    let out_buf = generate_signature_on_arrays(&input);
    assert_eq!(out_buf.len(), 12 + 3 * (4 + 32));
}

#[test]
pub fn exact_block_yields_one_record() {
    let input = vec![7u8; 2048];
    let out_buf = generate_signature_on_arrays(&input);
    assert_eq!(out_buf.len(), 12 + 1 * (4 + 32));
}

#[test]
pub fn block_record_matches_signature_tail() {
    let input = "Hello world\n".as_bytes();
    let rec = block_record(input, 32);
    let out_buf = generate_signature_on_arrays(input);
    assert_eq!(&out_buf[12..], rec.as_slice());
}

#[test]
pub fn header_bytes_match_signature_head() {
    let options = SignatureOptions::default();
    let header = header_bytes(&options);
    assert_eq!(header.len(), 12);
    let out_buf = generate_signature_on_arrays(&[]);
    assert_eq!(out_buf, header);
}

#[test]
pub fn records_come_in_input_order() {
    // Two blocks of different content: the signature holds the first
    // block's record before the second block's.
    let mut input = vec![1u8; 2048];
    input.extend_from_slice(&[2u8; 2048]);
    let out_buf = generate_signature_on_arrays(&input);
    assert_eq!(out_buf.len(), 12 + 2 * 36);
    let first = block_record(&input[..2048], 32);
    let second = block_record(&input[2048..], 32);
    assert_eq!(&out_buf[12..48], first.as_slice());
    assert_eq!(&out_buf[48..84], second.as_slice());
}
