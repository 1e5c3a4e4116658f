use zlib_decoder::bitreader::BitReader;
use zlib_decoder::zlib_errors::InflateError;

#[test]
fn bit_sequence_lsb_first() {
    // Every byte hands its bits out least-significant first.
    let data = vec![1u8, 6u8];
    let expected = [1u8, 0, 0, 0, 0, 0, 0, 0, 0, 1, 1, 0, 0, 0, 0, 0];
    let mut br = BitReader::from_data(data);
    for (i, e) in expected.iter().enumerate() {
        let b = br.read_bit().unwrap();
        assert_eq!(b, *e, "bit {}", i);
    }
    assert!(matches!(br.read_bit(), Err(InflateError::UnexpectedEof)));
}

#[test]
fn read_bits_msb_folds_bits() {
    // 0xB4 = bits (LSB first) 0,0,1,0,1,1,0,1; the first bit lands highest.
    let mut br = BitReader::from_data(vec![0xB4]);
    assert_eq!(br.read_bits(5).unwrap(), 0b00101);
    assert_eq!(br.read_bits(3).unwrap(), 0b101);
}

#[test]
fn read_bits_msb_equals_single_bit_fold() {
    let data = vec![0x5A, 0xC3];
    let mut br1 = BitReader::from_data(data.clone());
    let mut br2 = BitReader::from_data(data);
    let folded = {
        let mut acc: u16 = 0;
        for _ in 0..11 {
            acc = (acc << 1) | br2.read_bit().unwrap() as u16;
        }
        acc
    };
    assert_eq!(br1.read_bits(11).unwrap(), folded);
}

#[test]
fn read_bits_lsb_packs_bits() {
    // 0xB4: reading 5 LSB-packed bits gives the low five bits of the byte.
    let mut br = BitReader::from_data(vec![0xB4]);
    assert_eq!(br.read_bits_lsb(5).unwrap(), 0b10100);
    assert_eq!(br.read_bits_lsb(3).unwrap(), 0b101);
}

#[test]
fn read_byte_and_u16_u32() {
    let mut br = BitReader::from_data(vec![0x12, 0x34, 0x56, 0x78, 0x9A, 0xBC, 0xDE]);
    assert_eq!(br.read_byte().unwrap(), 0x12);
    assert_eq!(br.read_u16_lsb().unwrap(), 0x5634);
    assert_eq!(br.read_u32_msb().unwrap(), 0x789ABCDE);
    assert!(matches!(br.read_byte(), Err(InflateError::UnexpectedEof)));
}

#[test]
fn discard_bits_aligns_and_is_idempotent() {
    let mut br = BitReader::from_data(vec![0xFF, 0x2B]);
    br.read_bit().unwrap();
    br.discard_bits();
    assert_eq!(br.read_byte().unwrap(), 0x2B);
    // On a byte-aligned cursor a discard changes nothing.
    let mut br2 = BitReader::from_data(vec![0x0F, 0x2B]);
    assert_eq!(br2.read_byte().unwrap(), 0x0F);
    br2.discard_bits();
    br2.discard_bits();
    assert_eq!(br2.available(), 1);
    assert_eq!(br2.read_byte().unwrap(), 0x2B);
}

#[test]
fn available_counts_partial_byte() {
    let mut br = BitReader::from_data(vec![1, 2, 3]);
    assert_eq!(br.available(), 3);
    br.read_bit().unwrap();
    assert_eq!(br.available(), 3);
    br.discard_bits();
    assert_eq!(br.available(), 2);
}

#[test]
fn copy_to_appends_and_advances() {
    let mut br = BitReader::from_data(vec![9, 8, 7, 6]);
    br.read_byte().unwrap();
    let mut dest = vec![1u8];
    br.copy_to(&mut dest, 2).unwrap();
    assert_eq!(dest, vec![1, 8, 7]);
    assert_eq!(br.available(), 1);
    // Asking for more bytes than remain fails and leaves the target alone.
    let mut dest2: Vec<u8> = Vec::new();
    assert!(matches!(
        br.copy_to(&mut dest2, 2),
        Err(InflateError::UnexpectedEof)
    ));
    assert!(dest2.is_empty());
}
