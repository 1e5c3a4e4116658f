use zlib_decoder::adler32::adler32;
use zlib_decoder::adler32::update_adler32;
use zlib_decoder::zlib_errors::ZlibError;

#[test]
fn adler32_of_empty_is_one() {
    assert_eq!(update_adler32(1, &Vec::new()), 0x00000001);
    assert!(adler32(&Vec::new(), 0x00000001).is_ok());
}

#[test]
fn adler32_of_wikipedia() {
    let buf: Vec<u8> = b"Wikipedia".to_vec();
    assert_eq!(update_adler32(1, &buf), 0x11E60398);
    assert!(adler32(&buf, 0x11E60398).is_ok());
}

#[test]
fn adler32_mismatch_is_reported() {
    let buf: Vec<u8> = b"Wikipedia".to_vec();
    assert!(matches!(
        adler32(&buf, 0x11E60399),
        Err(ZlibError::ZlibChecksumMissmatch)
    ));
}

#[test]
fn update_adler32_continues_a_checksum() {
    let whole: Vec<u8> = b"Wikipedia".to_vec();
    let first: Vec<u8> = b"Wiki".to_vec();
    let second: Vec<u8> = b"pedia".to_vec();
    let part = update_adler32(1, &first);
    assert_eq!(update_adler32(part, &second), update_adler32(1, &whole));
}
