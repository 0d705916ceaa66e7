use rezip::huffman::fixed_distance_tree;
use rezip::huffman::fixed_length_tree;
use rezip::lengths::Lengths;
use rezip::Code;
use rezip::Ref;
use rezip::encode::write_compressed;
use rezip::Block;

#[test]
fn fixed_tree_lengths() {
    let lengths = Lengths::new(&fixed_length_tree(), &fixed_distance_tree());
    assert_eq!(Some(8), lengths.length(&Code::Literal(b'a')));
    assert_eq!(Some(9), lengths.length(&Code::Literal(200)));
    // run symbol 257 (7 bits), distance symbol 0 (5 bits), no extra distance bits
    assert_eq!(Some(12), lengths.length(&Code::Reference(Ref::new(1, 3))));
    // run symbol 269 (7 bits), distance symbol 13 (5 bits) and its 5 extra bits;
    // the run's own 2 extra bits are not counted
    assert_eq!(Some(17), lengths.length(&Code::Reference(Ref::new(100, 20))));
    // (144 * 8 + 112 * 9 + 24 * 7 + 8 * 8 + 289) / 289
    assert_eq!(9, lengths.mean_literal_len);
}

#[test]
fn stored_block_is_written_as_is() {
    let mut out = vec![9u8];
    write_compressed(&mut out, &Block::Uncompressed(vec![1, 2, 3])).unwrap();
    assert_eq!(vec![9, 1, 2, 3], out);
}
