use rezip::bit::BitReader;
use rezip::bit::BitVec;
use rezip::bit::BitWriter;

fn eight_bits() -> BitVec {
    let mut v = BitVec::new();
    v.push(true);
    v.push(false);
    v.push(false);
    v.push(true);
    v.push(false);
    v.push(true);
    v.push(true);
    v.push(true);
    v
}

fn collect(v: &BitVec) -> Vec<bool> {
    let mut it = v.iter();
    let mut out = Vec::new();
    while let Some(b) = it.next() {
        out.push(b);
    }
    out
}

#[test]
fn bit_write_read() {
    let mut writer = BitWriter::new(vec![]);
    writer.write_bit(true).unwrap();
    writer.write_bit(false).unwrap();
    writer.write_bit(false).unwrap();
    writer.write_bit(true).unwrap();
    writer.write_bit(true).unwrap();
    writer.write_bit(true).unwrap();
    writer.write_bit(false).unwrap();
    writer.write_bit(false).unwrap();

    let bytes = writer.into_inner();
    println!("{:0b}", bytes[0]);

    let mut reader = BitReader::new(bytes);
    assert!(reader.read_bit().unwrap());
    assert!(!reader.read_bit().unwrap());
    assert!(!reader.read_bit().unwrap());
    assert!(reader.read_bit().unwrap());
    assert!(reader.read_bit().unwrap());
    assert!(reader.read_bit().unwrap());
    assert!(!reader.read_bit().unwrap());
    assert!(!reader.read_bit().unwrap());
}

#[test]
fn tracking() {
    let mut reader = BitReader::new(vec![0b0001_1001]);
    reader.tracking_start();
    assert!(reader.read_bit().unwrap());
    assert!(!reader.read_bit().unwrap());
    assert!(!reader.read_bit().unwrap());
    assert!(reader.read_bit().unwrap());
    assert!(reader.read_bit().unwrap());
    assert!(!reader.read_bit().unwrap());

    let recorded = reader.tracking_finish();

    assert_eq!(&[true, false, false, true, true, false], collect(&recorded).as_slice());

    let mut writer = BitWriter::new(vec![]);
    writer.write_vec(&recorded).unwrap();
    writer.align().unwrap();
    assert_eq!(vec![0b0001_1001u8; 1], writer.into_inner());
}

#[test]
fn bit_vec_push() {
    let mut v = BitVec::new();
    for i in 0..100 {
        v.push(i % 2 == 0);
    }
    assert_eq!(100, v.len());
}

#[test]
fn bit_vec_push_pop() {
    let mut v = BitVec::new();
    v.push(true);
    v.push(false);
    assert_eq!(2, v.len());
    assert!(!v.pop().unwrap());
    assert!(v.pop().unwrap());
    assert_eq!(0, v.len());

    v = eight_bits();
    assert!(v.pop().unwrap());
    assert!(v.pop().unwrap());
    assert!(v.pop().unwrap());
    assert!(!v.pop().unwrap());
    assert!(v.pop().unwrap());
    assert!(!v.pop().unwrap());
    assert!(!v.pop().unwrap());
    assert!(v.pop().unwrap());
    assert!(v.pop().is_none());
}

#[test]
fn bit_vec_pop_byte() {
    let mut v = eight_bits();

    let by = v.pop_byte().unwrap();
    assert_eq!(0b1110_1001, by);
    assert_eq!(0, v.len());
}

#[test]
fn bit_vec_iter() {
    let arr: Vec<bool> = collect(&eight_bits());
    assert_eq!(vec![true, false, false, true, false, true, true, true], arr);
}

#[test]
fn read_part_is_little_endian() {
    let mut reader = BitReader::new(vec![0b1010_0110, 0xff]);
    assert_eq!(0b110, reader.read_part(3).unwrap());
    assert_eq!(0b10100, reader.read_part(5).unwrap());
    assert_eq!(0xff, reader.read_part(8).unwrap());
    assert!(reader.read_part(1).is_err());
}

#[test]
fn bits_value_written_then_read() {
    let mut writer = BitWriter::new(vec![]);
    writer.write_bits_val(5, 0b10110).unwrap();
    writer.write_bits_val(11, 0x5a5).unwrap();
    let bytes = writer.into_inner();
    let mut reader = BitReader::new(bytes);
    assert_eq!(0b10110, reader.read_part(5).unwrap());
    assert_eq!(0x5a5, reader.read_part(11).unwrap());
}

#[test]
fn stored_length_is_written_low_byte_first() {
    let mut writer = BitWriter::new(vec![]);
    writer.write_bit(true).unwrap();
    writer.write_length_prefixed(&[7, 8, 9]).unwrap();
    let written = writer.into_inner();
    assert_eq!(vec![1, 3, 0, 0xfc, 0xff, 7, 8, 9], written);
    let mut reader = BitReader::new(written[1..].to_vec());
    assert_eq!(vec![7, 8, 9], reader.read_length_prefixed().unwrap());
}

#[test]
fn stored_length_is_read_low_byte_first() {
    let mut reader = BitReader::new(vec![3, 0, 0xfc, 0xff, 7, 8, 9, 10]);
    assert_eq!(vec![7, 8, 9], reader.read_length_prefixed().unwrap());
    assert_eq!(vec![10], reader.into_inner());
}

#[test]
fn stored_length_check() {
    let mut reader = BitReader::new(vec![3, 0, 0xfc, 0xfe, 7, 8, 9]);
    assert_eq!(Err(rezip::Error::LengthCheckFailed), reader.read_length_prefixed());
}

#[test]
fn align_refuses_set_padding() {
    let mut reader = BitReader::new(vec![0b0000_0101]);
    assert!(reader.read_bit().unwrap());
    assert_eq!(Err(rezip::Error::NonZeroPadding), reader.align());
}

#[test]
fn vec_to_bytes_adds_a_byte() {
    let v = eight_bits();
    assert_eq!(vec![0b1110_1001, 0], rezip::bit::vec_to_bytes(&v));
}

#[test]
fn push_after_pop_keeps_the_popped_bit() {
    // popping leaves the bit in its byte, and pushing sets bits but never clears them
    let mut v = BitVec::new();
    v.push(false);
    v.push(true);
    assert_eq!(Some(true), v.pop());
    v.push(false);
    assert_eq!(2, v.len());
    assert!(!v.get(0));
    assert!(v.get(1));
}

#[test]
fn written_bits_read_back_then_end() {
    let bits = [true, false, false, true, false, true, true, true, false, true, false, false, false, false, false, false];
    let mut writer = BitWriter::new(vec![]);
    for &b in &bits {
        writer.write_bit(b).unwrap();
    }
    let bytes = writer.into_inner();
    // the first bit written is the least significant
    assert_eq!(vec![0b1110_1001, 0b0000_0010], bytes);
    let mut reader = BitReader::new(bytes);
    for &b in &bits {
        assert_eq!(Ok(b), reader.read_bit());
    }
    assert!(reader.read_bit().is_err());
}

#[test]
fn value_padded_reads_back() {
    let mut writer = BitWriter::new(vec![]);
    writer.write_bits_val(11, 0xfda5).unwrap();
    writer.align().unwrap();
    let bytes = writer.into_inner();
    assert_eq!(vec![0xa5, 0x05], bytes);
    let mut reader = BitReader::new(bytes);
    assert_eq!(Ok(0x5a5), reader.read_part(11));
}
