use rezip::parse::parse_deflate;
use rezip::zero::take_rsync;
use rezip::zero::zero;
use rezip::zero::zero_blocks;
use rezip::zero::zero_stream;
use rezip::Block;
use rezip::Error;

#[test]
fn short_inputs_are_taken_whole() {
    assert_eq!(Vec::<u8>::new(), take_rsync(&[]));
    assert_eq!(vec![7u8; 100], take_rsync(&[7u8; 100]));
    assert_eq!(8192, take_rsync(&[7u8; 8192]).len());
}

#[test]
fn cut_where_the_window_sums_to_a_multiple() {
    // a constant input sums to a multiple of 4096 over any 8192 bytes
    assert_eq!(8192, take_rsync(&[3u8; 20000]).len());

    // the first window sums to 1; once the 1 leaves it, it sums to 0
    let mut data = vec![1u8];
    data.extend(vec![0u8; 20000]);
    let chunk = take_rsync(&data);
    assert_eq!(8193, chunk.len());
    assert_eq!(&data[..8193], chunk.as_slice());
}

#[test]
fn cut_at_the_end_or_at_most_65536() {
    // the window sum stays 1, and the input ends
    let mut short = vec![1u8];
    short.extend(vec![0u8; 8191]);
    short.push(1);
    assert_eq!(8193, take_rsync(&short).len());

    // a window that always sums to 1
    let mut pattern = vec![0u8; 8192];
    pattern[0] = 1;
    let mut long = Vec::new();
    for _ in 0..9 {
        long.extend(pattern.iter());
    }
    assert_eq!(65536, take_rsync(&long).len());
}

// "lol", gzipped: the ten header bytes, the deflate stream, then the crc and length.
const LOL_GZ: [u8; 23] = [
    0x1f, 0x8b, 0x08, 0x00, 0x00, 0x00, 0x00, 0x00, 0x02, 0x03, 0xcb, 0xc9, 0xcf, 0x01, 0x00, 0x4d, 0xb1, 0xed,
    0x18, 0x03, 0x00, 0x00, 0x00,
];

#[test]
fn zero_restores_as_one_stored_block() {
    let mut expected = LOL_GZ[..10].to_vec();
    expected.extend([0b0000_0001, 3, 0, 0xfc, 0xff, b'l', b'o', b'l']);
    expected.extend(&LOL_GZ[15..]);
    assert_eq!(Ok(expected), zero(&LOL_GZ));
}

#[test]
fn zero_errors() {
    // the empty file: a fixed block holding only its end
    let empty = [0x1f, 0x8b, 0x08, 0, 0, 0, 0, 0, 0, 3, 0x03, 0x00, 0, 0, 0, 0, 0, 0, 0, 0];
    assert_eq!(Err(Error::NothingToStore), zero(&empty));
    // a block of the reserved type
    let reserved = [0x1f, 0x8b, 0x08, 0, 0, 0, 0, 0, 0, 3, 0xff, 0xff];
    assert_eq!(Err(Error::InvalidDeflate), zero(&reserved));
    assert_eq!(Err(Error::InvalidMagic), zero(&[0u8; 12]));
}

#[test]
fn zero_blocks_read_back() {
    let data = vec![3u8; 20000];
    let stored = zero_blocks(&data);
    // the first chunk is 8192 bytes long, and not the last
    assert_eq!(&[0, 0x00, 0x20, 0xff, 0xdf], &stored[..5]);
    let mut it = parse_deflate(stored);
    let mut back = Vec::new();
    while let Some(block) = it.next() {
        match block.unwrap() {
            Block::Uncompressed(chunk) => back.extend(chunk),
            _ => panic!("only stored blocks are written"),
        }
    }
    assert_eq!(data, back);
}

#[test]
fn zero_stream_ends_with_crc_and_length() {
    let data = vec![7u8; 100];
    let out = zero_stream(&[9, 9], &data);
    let mut expected = vec![9, 9, 0b0000_0001, 100, 0, 0x9b, 0xff];
    expected.extend(&data);
    expected.extend(crc::crc32::checksum_ieee(&data).to_le_bytes());
    expected.extend([100, 0, 0, 0]);
    assert_eq!(expected, out);
}
