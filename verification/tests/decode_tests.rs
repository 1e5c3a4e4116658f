use zlib_decoder::bitreader::BitReader;
use zlib_decoder::inflate::inflate_block;
use zlib_decoder::zlib::decode_zlib_file;
use zlib_decoder::zlib_errors::InflateError;
use zlib_decoder::zlib_errors::ZlibError;

#[test]
fn empty_stored_block() {
    // Header, one final stored block with LEN = 0, trailer of the empty
    // checksum.
    let data = vec![
        0x78, 0x9C, 0x01, 0x00, 0x00, 0xFF, 0xFF, 0x00, 0x00, 0x00, 0x01,
    ];
    let out = decode_zlib_file(data).unwrap();
    assert!(out.is_empty());
}

#[test]
fn stored_block_with_payload() {
    // LEN = 2, NLEN its complement, two raw bytes, checksum of them.
    let data = vec![
        0x78, 0x9C, 0x01, 0x02, 0x00, 0xFD, 0xFF, 0xAB, 0xCD, 0x02, 0x25,
        0x01, 0x79,
    ];
    let out = decode_zlib_file(data).unwrap();
    assert_eq!(out, vec![0xAB, 0xCD]);
}

#[test]
fn fixed_block_single_byte() {
    // One fixed-code block holding a single literal; the trailer is the
    // checksum 0x00620062 of that byte.
    let data = vec![0x78, 0x9C, 0x4B, 0x04, 0x00, 0x00, 0x62, 0x00, 0x62];
    let out = decode_zlib_file(data).unwrap();
    assert_eq!(out, vec![0x61]);
}

#[test]
fn fixed_block_overlapping_backreference() {
    // Literal 'a', then a length-5 distance-1 copy: the copy must re-read
    // bytes it has just written.
    let data = vec![
        0x78, 0x9C, 0x4B, 0x04, 0x03, 0x00, 0x07, 0xFB, 0x02, 0x47,
    ];
    let out = decode_zlib_file(data).unwrap();
    assert_eq!(out, b"aaaaaa".to_vec());
}

#[test]
fn dynamic_block_round_trip() {
    // A dynamic-code block holding "Hello, Hello, Hello, Hello!" as plain
    // literals under a block-local code.
    let data = vec![
        0x78, 0x9C, 0x05, 0x40, 0x21, 0x09, 0x00, 0x00, 0x00, 0x9A, 0xAA,
        0xDD, 0x09, 0x4E, 0x34, 0x0B, 0xFE, 0xCF, 0xE2, 0xB4, 0x13, 0x9C,
        0x76, 0x82, 0xD3, 0x4E, 0x70, 0xDA, 0xF1, 0x7D, 0x2C, 0x08, 0xD6,
    ];
    let out = decode_zlib_file(data).unwrap();
    assert_eq!(out, b"Hello, Hello, Hello, Hello!".to_vec());
}

#[test]
fn corrupt_trailer_is_a_checksum_mismatch() {
    let data = vec![0x78, 0x9C, 0x4B, 0x04, 0x00, 0x00, 0x62, 0x00, 0x63];
    assert!(matches!(
        decode_zlib_file(data),
        Err(ZlibError::ZlibChecksumMissmatch)
    ));
}

#[test]
fn bad_header_check_bits() {
    // 78 9D fails the mod-31 test.
    let data = vec![0x78, 0x9D, 0x01, 0x00, 0x00, 0xFF, 0xFF];
    assert!(matches!(
        decode_zlib_file(data),
        Err(ZlibError::ZlibCorrupted)
    ));
}

#[test]
fn wrong_compression_method() {
    // 79 18 passes the mod-31 test but asks for method 9.
    let data = vec![0x79, 0x18, 0x00];
    assert!(matches!(
        decode_zlib_file(data),
        Err(ZlibError::InvalidZlibHeader {
            expected: 8,
            found: 9
        })
    ));
}

#[test]
fn preset_dictionary_is_unsupported() {
    // 78 20 passes the mod-31 test with the dictionary flag set.
    let data = vec![0x78, 0x20, 0x00];
    assert!(matches!(
        decode_zlib_file(data),
        Err(ZlibError::UnsupportedZlibAction)
    ));
}

#[test]
fn reserved_block_type_is_refused() {
    // BFINAL = 1 then type bits 1,1.
    let data = vec![0x78, 0x9C, 0x07];
    assert!(matches!(
        decode_zlib_file(data),
        Err(ZlibError::Inflate(InflateError::UnsupportedMethod {
            method: 3
        }))
    ));
}

#[test]
fn nlen_mismatch_is_refused() {
    let data = vec![0x78, 0x9C, 0x01, 0x02, 0x00, 0xFF, 0xFF, 0xAB, 0xCD];
    assert!(matches!(
        decode_zlib_file(data),
        Err(ZlibError::Inflate(InflateError::FailedNLenCheck))
    ));
}

#[test]
fn distance_before_any_output_is_refused() {
    // A fixed block whose first symbol is a back-reference: nothing has
    // been written yet, so distance 1 is out of range.
    let data = vec![0x78, 0x9C, 0x03, 0x02];
    assert!(matches!(
        decode_zlib_file(data),
        Err(ZlibError::Inflate(InflateError::DistanceOutOfRange))
    ));
}

#[test]
fn trailing_garbage_is_reported() {
    let data = vec![
        0x78, 0x9C, 0x01, 0x00, 0x00, 0xFF, 0xFF, 0x00, 0x00, 0x00, 0x01,
        0x00,
    ];
    assert!(matches!(
        decode_zlib_file(data),
        Err(ZlibError::ZlibStreamNotConsumed { left: 1 })
    ));
}

#[test]
fn missing_trailer_is_reported() {
    let data = vec![0x78, 0x9C, 0x01, 0x00, 0x00, 0xFF, 0xFF, 0x00];
    assert!(matches!(
        decode_zlib_file(data),
        Err(ZlibError::ZlibStreamNotConsumed { left: 0 })
    ));
}

#[test]
fn truncated_input_is_an_eof() {
    assert!(matches!(
        decode_zlib_file(vec![0x78]),
        Err(ZlibError::Inflate(InflateError::UnexpectedEof))
    ));
    assert!(matches!(
        decode_zlib_file(vec![0x78, 0x9C]),
        Err(ZlibError::Inflate(InflateError::UnexpectedEof))
    ));
}

#[test]
fn inflate_block_reports_the_final_flag() {
    // A single stored block, read directly with a reader over the raw
    // block bytes.
    let mut br = BitReader::from_data(vec![0x01, 0x02, 0x00, 0xFD, 0xFF, 0xAB, 0xCD]);
    let mut out: Vec<u8> = Vec::new();
    assert_eq!(inflate_block(&mut out, &mut br).unwrap(), true);
    assert_eq!(out, vec![0xAB, 0xCD]);
    let mut br2 = BitReader::from_data(vec![0x00, 0x01, 0x00, 0xFE, 0xFF, 0x55]);
    let mut out2: Vec<u8> = Vec::new();
    assert_eq!(inflate_block(&mut out2, &mut br2).unwrap(), false);
    assert_eq!(out2, vec![0x55]);
}

#[test]
fn two_stored_blocks_concatenate() {
    // A non-final stored block followed by a final one.
    let mut body: Vec<u8> = vec![0x78, 0x9C];
    body.extend([0x00, 0x01, 0x00, 0xFE, 0xFF, 0x61]);
    body.extend([0x01, 0x01, 0x00, 0xFE, 0xFF, 0x62]);
    // Checksum of "ab".
    body.extend([0x01, 0x26, 0x00, 0xC4]);
    let out = decode_zlib_file(body).unwrap();
    assert_eq!(out, b"ab".to_vec());
}
