use rezip::bit::BitVec;
use rezip::bit::BitWriter;
use rezip::huffman;
use rezip::parse::parse_deflate;
use rezip::serialise::compressed_block;
use rezip::Block;
use rezip::Code;
use rezip::Code::Literal;
use rezip::Error;
use rezip::Ref;

// "lol", gzipped: the ten header bytes, the deflate stream, then the crc and length.
const LOL_GZ: [u8; 23] = [
    0x1f, 0x8b, 0x08, 0x00, 0x00, 0x00, 0x00, 0x00, 0x02, 0x03, 0xcb, 0xc9, 0xcf, 0x01, 0x00, 0x4d, 0xb1, 0xed,
    0x18, 0x03, 0x00, 0x00, 0x00,
];

fn all_blocks(bytes: &[u8]) -> Result<Vec<Block>, Error> {
    let mut it = parse_deflate(bytes.to_vec());
    let mut blocks = Vec::new();
    while let Some(block) = it.next() {
        blocks.push(block?);
    }
    Ok(blocks)
}

fn write_back(blocks: &[Block]) -> Vec<u8> {
    let mut writer = BitWriter::new(vec![]);
    for (i, block) in blocks.iter().enumerate() {
        writer.write_bit(i + 1 == blocks.len()).unwrap();
        compressed_block(&mut writer, block).unwrap();
    }
    writer.align().unwrap();
    writer.into_inner()
}

#[test]
fn parse_parse_lol() {
    assert_eq!(
        vec![Block::FixedHuffman(vec![Literal(108), Literal(111), Literal(108)])],
        all_blocks(&LOL_GZ[10..]).unwrap()
    );
}

#[test]
fn lol_writes_back() {
    let blocks = all_blocks(&LOL_GZ[10..]).unwrap();
    assert_eq!(&LOL_GZ[10..15], write_back(&blocks).as_slice());
}

#[test]
fn print_fixed_tree() {
    println!("{:?}", huffman::fixed_length_tree());
}

#[test]
fn run_length_symbols() {
    assert_eq!(257, huffman::encode_run_length(3));
    assert_eq!(265, huffman::encode_run_length(11));
    assert_eq!(266, huffman::encode_run_length(13));
    assert_eq!(284, huffman::encode_run_length(257));
    assert_eq!(285, huffman::encode_run_length(258));
    assert_eq!(None, huffman::extra_run_length(10));
    assert_eq!(Some((1, 1)), huffman::extra_run_length(12));
    assert_eq!(Some((5, 30)), huffman::extra_run_length(257));
    assert_eq!(None, huffman::extra_run_length(258));
}

#[test]
fn distance_symbols() {
    assert_eq!(Some((0, 0, 0)), huffman::encode_distance(1));
    assert_eq!(Some((3, 0, 0)), huffman::encode_distance(4));
    assert_eq!(Some((4, 1, 0)), huffman::encode_distance(5));
    assert_eq!(Some((5, 1, 1)), huffman::encode_distance(8));
    assert_eq!(Some((29, 13, 8191)), huffman::encode_distance(32768));
}

#[test]
fn decode_run_and_distance() {
    let mut reader = rezip::bit::BitReader::new(vec![0b0000_0011, 0xff, 0xff]);
    assert_eq!(Ok(10), huffman::decode_run_length(&mut reader, 264));
    assert_eq!(Ok(14), huffman::decode_run_length(&mut reader, 266));
    assert_eq!(Ok(258), huffman::decode_run_length(&mut reader, 285));
    assert_eq!(Err(Error::ReservedRunSymbol), huffman::decode_run_length(&mut reader, 286));
    assert_eq!(Err(Error::RunSymbolOutOfRange), huffman::decode_run_length(&mut reader, 256));
    assert_eq!(Ok(4), huffman::decode_distance(&mut reader, 3));
    assert_eq!(Err(Error::ReservedDistanceSymbol), huffman::decode_distance(&mut reader, 30));
    assert_eq!(Err(Error::InvalidDistanceSymbol), huffman::decode_distance(&mut reader, 32));
}

#[test]
fn reserved_block_type() {
    // last block, type 3
    assert_eq!(Err(Error::ReservedBlockType), all_blocks(&[0b0000_0111]));
}

#[test]
fn truncated_stream() {
    assert_eq!(Err(Error::UnexpectedEof), all_blocks(&[0xcb, 0xc9]));
    assert_eq!(Err(Error::UnexpectedEof), all_blocks(&[]));
}

#[test]
fn stored_block_writes_back() {
    // a last, stored block of 0x0101 zero bytes
    let mut bytes = vec![0b0000_0001, 0x01, 0x01, 0xfe, 0xfe];
    bytes.extend(vec![0u8; 0x0101]);
    let blocks = all_blocks(&bytes).unwrap();
    assert_eq!(vec![Block::Uncompressed(vec![0u8; 0x0101])], blocks);
    assert_eq!(bytes, write_back(&blocks));
}

#[test]
fn stored_block_with_uneven_length_writes_back() {
    let bytes = vec![0b0000_0001, 0x01, 0x00, 0xfe, 0xff, 42];
    let blocks = all_blocks(&bytes).unwrap();
    assert_eq!(vec![Block::Uncompressed(vec![42])], blocks);
    assert_eq!(bytes, write_back(&blocks));
}

#[test]
fn fixed_block_with_reference_writes_back() {
    // "abcabcabc" as a, b, c, then a run of 6 at distance 3, with the fixed trees
    let block = Block::FixedHuffman(vec![
        Literal(b'a'),
        Literal(b'b'),
        Literal(b'c'),
        Code::Reference(Ref::new(3, 6)),
    ]);
    let bytes = write_back(&[block.clone()]);
    assert_eq!(vec![block], all_blocks(&bytes).unwrap());
}

// raw deflate, at the best compression, of the text `pigs()` makes: one dynamic block
const PIGS: [u8; 204] = [0x85, 0x95, 0x4b, 0x0a, 0x83, 0x40, 0x10, 0x44, 0xaf, 0xd2, 0x07, 0xc8, 0x62, 0xfa, 0x37, 0x1f, 0x72, 0x9a, 0x88, 0x22, 0x82, 0x90, 0x80, 0x92, 0x5c, 0x3f, 0x6b, 0x71, 0xf1, 0xf6, 0x8f, 0xb6, 0xaa, 0xac, 0xee, 0x29, 0xb2, 0x6f, 0xe7, 0xb9, 0x2f, 0xf2, 0xd9, 0xd6, 0xe3, 0x21, 0x45, 0xa6, 0x6d, 0x95, 0xe9, 0x35, 0xcb, 0xef, 0xbd, 0x7f, 0x97, 0xe3, 0x29, 0x7a, 0x05, 0xf4, 0x06, 0xd8, 0x15, 0x88, 0x1b, 0xe0, 0x57, 0xc0, 0x6e, 0x40, 0x10, 0x90, 0xf4, 0x89, 0x4a, 0x22, 0x1b, 0xd9, 0xec, 0x34, 0x61, 0x90, 0x06, 0x2d, 0x64, 0x43, 0x15, 0x09, 0x0c, 0x53, 0x9d, 0x84, 0x6a, 0xe0, 0x2f, 0x4d, 0x9c, 0x51, 0x51, 0x47, 0x43, 0x2f, 0x1d, 0x09, 0xcc, 0xd4, 0x0a, 0xb6, 0x4f, 0xc9, 0xad, 0x19, 0xce, 0x70, 0xd4, 0x81, 0x15, 0xb5, 0x44, 0x02, 0x33, 0xb5, 0x86, 0x4a, 0x3b, 0xba, 0x1d, 0x34, 0xc3, 0x0b, 0x2e, 0x2c, 0xf6, 0xd4, 0x0d, 0x09, 0xcc, 0xd4, 0x03, 0x95, 0x26, 0xb9, 0x75, 0x5c, 0x7c, 0x6f, 0xa8, 0x03, 0x7b, 0xea, 0x03, 0x2f, 0x18, 0x66, 0x1a, 0x78, 0x47, 0xc3, 0xc8, 0x6d, 0xe0, 0xee, 0x47, 0xa0, 0x0e, 0xec, 0x69, 0x54, 0x24, 0x30, 0xd3, 0xc0, 0x73, 0x1a, 0x83, 0xdc, 0x26, 0xee, 0x7e, 0x2a, 0xe9, 0x48, 0xec, 0x69, 0xe2, 0xeb, 0x94, 0x98, 0x69, 0xe2, 0x3d, 0xcd, 0x8a, 0x6e, 0x71, 0xf7, 0xb3, 0xa3, 0x0e, 0xec, 0xe9, 0x1f];

fn pigs() -> Vec<u8> {
    let mut data = Vec::new();
    for i in 0..60 {
        data.extend(format!("{} little pigs, {} big bad wolves; ", i, i * i % 7).into_bytes());
    }
    data
}

#[test]
fn dynamic_block_decompresses() {
    let blocks = all_blocks(&PIGS).unwrap();
    assert_eq!(1, blocks.len());
    match &blocks[0] {
        Block::DynamicHuffman { .. } => {},
        other => panic!("not dynamic: {:?}", other),
    }
    let mut out = Vec::new();
    let mut dictionary = rezip::circles::CircularBuffer::with_capacity(32 * 1024);
    rezip::serialise::decompressed_block(&mut out, &mut dictionary, &blocks[0]).unwrap();
    assert_eq!(pigs(), out);
}

#[test]
fn dynamic_block_writes_back() {
    let blocks = all_blocks(&PIGS).unwrap();
    assert_eq!(PIGS.to_vec(), write_back(&blocks));
}

#[test]
fn dynamic_header_reads_trees() {
    let mut reader = rezip::bit::BitReader::new(PIGS.to_vec());
    assert!(reader.read_bit().unwrap());
    assert_eq!(2, reader.read_part(2).unwrap());
    let (length, distance) = huffman::read_codes(&mut reader).unwrap();
    assert!(distance.is_some());
    // the end-of-block symbol always has a code
    assert!(length.invert()[256].is_some());
}

#[test]
fn lol_round_trip() {
    // fixed huffman, no backreferences
    round_trip(&LOL_GZ, 3);
}

fn round_trip(orig: &[u8], expected_len: usize) {
    let header = rezip::gzip::discard_header(orig).unwrap();
    let stream = &orig[header.len()..];
    let blocks = all_blocks(stream).unwrap();

    let mut decompressed = Vec::new();
    let mut dictionary = rezip::circles::CircularBuffer::with_capacity(32 * 1024);
    for block in &blocks {
        rezip::serialise::decompressed_block(&mut decompressed, &mut dictionary, block).unwrap();
    }

    // the header, the blocks written back, then the crc and length that end the file
    let mut recompressed = header.clone();
    recompressed.extend(write_back(&blocks));
    recompressed.extend(&orig[orig.len() - 8..]);

    assert_eq!(orig.to_vec(), recompressed);
    assert_eq!(expected_len, decompressed.len());
}

#[test]
fn stored_block_round_trip() {
    let block = Block::Uncompressed(vec![0x41, 0x42]);
    let written = write_back(&[block.clone()]);
    assert_eq!(vec![0x01, 0x02, 0x00, 0xfd, 0xff, 0x41, 0x42], written);
    assert_eq!(vec![block], all_blocks(&written).unwrap());
}

#[test]
fn dynamic_header_with_no_code_length_code_stops_after_it() {
    // no extra literal or distance codes, four code-length-code lengths, all zero
    let mut bits = BitVec::new();
    for _ in 0..26 {
        bits.push(false);
    }
    bits.push(true);
    let mut it = bits.iter();
    assert!(huffman::read_codes(&mut it).is_err());
    assert_eq!(Some(true), it.next());
    assert_eq!(None, it.next());
}

#[test]
fn run_lengths_read_back() {
    for length in 3..=258u16 {
        let sym = huffman::encode_run_length(length);
        let mut writer = BitWriter::new(vec![]);
        if let Some((n, v)) = huffman::extra_run_length(length) {
            writer.write_bits_val(n, v).unwrap();
        }
        writer.align().unwrap();
        let mut reader = rezip::bit::BitReader::new(writer.into_inner());
        assert_eq!(Ok(length), huffman::decode_run_length(&mut reader, sym));
    }
}

#[test]
fn distances_read_back() {
    for distance in 1..=32768u16 {
        let (code, n, v) = huffman::encode_distance(distance).unwrap();
        let mut writer = BitWriter::new(vec![]);
        writer.write_bits_val(n, v).unwrap();
        writer.align().unwrap();
        let mut reader = rezip::bit::BitReader::new(writer.into_inner());
        assert_eq!(Ok(distance), huffman::decode_distance(&mut reader, u16::from(code)));
    }
}
