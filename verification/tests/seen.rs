use rezip::bit::BitReader;
use rezip::bit::BitWriter;
use rezip::circles::CircularBuffer;
use rezip::huffman::fixed_distance_tree;
use rezip::huffman::fixed_length_tree;
use rezip::seen::read_data;
use rezip::serialise::compressed_block;
use rezip::serialise::DecompressedBytes;
use rezip::Block;
use rezip::Code;
use rezip::Code::Literal;
use rezip::Error;
use rezip::Ref;

fn fixed_block(codes: Vec<Code>) -> Vec<u8> {
    let mut writer = BitWriter::new(vec![]);
    writer.write_bit(true).unwrap();
    compressed_block(&mut writer, &Block::FixedHuffman(codes)).unwrap();
    writer.align().unwrap();
    writer.into_inner()
}

#[test]
fn references_are_recorded_with_their_bits() {
    let bytes = fixed_block(vec![
        Literal(b'a'),
        Literal(b'b'),
        Literal(b'c'),
        Code::Reference(Ref::new(3, 6)),
        Literal(b'!'),
    ]);
    let mut reader = BitReader::new(bytes);
    assert_eq!(3, reader.read_part(3).unwrap());
    let mut out = Vec::new();
    let mut dictionary = CircularBuffer::new();
    let seen = read_data(
        &mut reader,
        &mut out,
        &mut dictionary,
        &fixed_length_tree(),
        Some(&fixed_distance_tree()),
    )
    .unwrap();
    assert_eq!(b"abcabcabc!".to_vec(), out);
    assert_eq!(1, seen.stream.len());
    assert_eq!(3, seen.stream[0].literals);
    assert_eq!(3, seen.stream[0].dist);
    assert_eq!(3, seen.stream[0].run_minus_3);
    // length symbol 260 (7 bits), then distance symbol 2 (5 bits), no extra bits
    assert_eq!(12, seen.stream[0].symbol.len());
    assert_eq!(1, seen.trailing_literals);
}

#[test]
fn a_reference_before_the_start_is_refused() {
    let bytes = fixed_block(vec![Code::Reference(Ref::new(1, 3))]);
    let mut reader = BitReader::new(bytes);
    reader.read_part(3).unwrap();
    let mut out = Vec::new();
    let mut dictionary = CircularBuffer::new();
    assert_eq!(
        Err(Error::DistanceOutOfRange),
        read_data(
            &mut reader,
            &mut out,
            &mut dictionary,
            &fixed_length_tree(),
            Some(&fixed_distance_tree()),
        )
        .map(|seen| seen.trailing_literals)
    );
}

#[test]
fn bytes_one_at_a_time() {
    let mut bytes = DecompressedBytes::new(vec![Literal(b'a'), Literal(b'b'), Code::Reference(Ref::new(2, 4))]);
    let mut out = Vec::new();
    while let Some(b) = bytes.next() {
        out.push(b);
    }
    assert_eq!(b"ababab".to_vec(), out);
    assert_eq!(None, bytes.next());

    let mut nothing = DecompressedBytes::new(vec![]);
    assert_eq!(None, nothing.next());
}
