use rezip::sixteen::matching;
use rezip::gzip::discard_header;
use rezip::infer::guess_settings;
use rezip::infer::max_distance;
use rezip::infer::outside_range_or_hit_zero;
use rezip::iters::capped_max_by;
use rezip::lookahead::best;
use rezip::obscure::obscure;
use rezip::picker::drop_far_threes;
use rezip::picker::longest;
use rezip::picker::Picker;
use rezip::three::ThreePeek;
use rezip::Code;
use rezip::Code::Literal as L;
use rezip::Error;
use rezip::Ref;
use rezip::WindowSettings;

fn r(dist: u16, run: u16) -> Code {
    Code::Reference(Ref::new(dist, run))
}

#[test]
fn first_item() {
    let data = [5u64, 6, 7];
    assert_eq!(Some(5), capped_max_by(&data, &4, |&x: &u64| x));
    assert_eq!(Some(5), capped_max_by(&data, &5, |&x: &u64| x));
    assert_eq!(Some(6), capped_max_by(&data, &6, |&x: &u64| x));
    assert_eq!(Some(7), capped_max_by(&data, &7, |&x: &u64| x));
    assert_eq!(Some(7), capped_max_by(&data, &128, |&x: &u64| x));
}

#[test]
fn capped_max_by_prefers_the_first_of_equals() {
    let data = [(1u64, 'a'), (3, 'b'), (3, 'c'), (2, 'd')];
    assert_eq!(Some((3, 'b')), capped_max_by(&data, &10, |x: &(u64, char)| x.0));
    let empty: [u64; 0] = [];
    assert_eq!(None, capped_max_by(&empty, &10, |&x: &u64| x));
}

#[test]
fn picker_longest_in_the_right_order() {
    assert_eq!(Some(Ref::new(2, 5)), longest(&[Ref::new(1, 3), Ref::new(2, 5)], 258));
}

#[test]
fn picker_stops_at_the_cap() {
    assert_eq!(Some(Ref::new(1, 4)), longest(&[Ref::new(1, 4), Ref::new(2, 5)], 4));
    assert_eq!(Some(Ref::new(1, 4)), Picker::Longest.picker(&[Ref::new(1, 4), Ref::new(2, 5)], 4));
}

#[test]
fn picker_drops_far_threes() {
    assert_eq!(None, drop_far_threes(&[Ref::new(5000, 3)], 258));
    assert_eq!(Some(Ref::new(4096, 3)), drop_far_threes(&[Ref::new(4096, 3)], 258));
    assert_eq!(Some(Ref::new(5000, 4)), Picker::DropFarThrees.picker(&[Ref::new(5000, 4)], 258));
}

#[test]
fn emulate_best_in_the_right_order() {
    assert_eq!(Some(Ref::new(2, 5)), best(&[Ref::new(1, 3), Ref::new(2, 5)]));
}

#[test]
fn lookahead_best_in_the_right_order() {
    assert_eq!(Some(Ref::new(2, 5)), best(&[Ref::new(1, 3), Ref::new(2, 5)]));
    assert_eq!(None, best(&[]));
    assert_eq!(None, best(&[Ref::new(4097, 3)]));
    assert_eq!(Some(Ref::new(1, 258)), best(&[Ref::new(1, 258), Ref::new(2, 258)]));
}

#[test]
fn three() {
    let a: Vec<u8> = (0..7).collect();
    let mut it = ThreePeek::new(a);
    assert_eq!(Some(0), it.next());
    assert_eq!(Some((1, 2, 3)), it.next_three());
    assert_eq!(Some(2), it.next());
    assert_eq!(Some(3), it.next());
    assert_eq!(Some((4, 5, 6)), it.next_three());
    assert_eq!(None, it.next_three());
    assert_eq!(Some(5), it.next());
    assert_eq!(Some(6), it.next());
    assert_eq!(None, it.next());
}

#[test]
fn three_peek() {
    let mut it = ThreePeek::new(vec![9u8, 8]);
    assert_eq!(Some(9), it.peek());
    assert_eq!(None, it.next_three());
    assert_eq!(Some(9), it.next());
    assert_eq!(Some(8), it.peek());
}

fn check_range() {
    assert_eq!((false, false), outside_range_or_hit_zero(&[L(5)]));
    assert_eq!((true, false), outside_range_or_hit_zero(&[r(1, 3 + 3)]));
    assert_eq!((false, true), outside_range_or_hit_zero(&[L(5), r(1, 3 + 3)]));
    assert_eq!((false, false), outside_range_or_hit_zero(&[L(5), L(5), r(1, 3 + 3)]));
    // Not an encoding a real tool would generate
    assert_eq!((false, true), outside_range_or_hit_zero(&[L(5), r(1, 20 + 3), r(15, 3 + 3)]));
    assert_eq!((true, true), outside_range_or_hit_zero(&[L(5), r(1, 4 + 3), r(15, 3 + 3)]));
}

#[test]
fn infer_range() {
    check_range();
}

#[test]
fn guess_range() {
    check_range();
}

#[test]
fn infer_guess_first_byte_bug() {
    assert_eq!(
        WindowSettings { window_size: 1, first_byte_bug: true },
        guess_settings(&[], &[L(5), L(5), r(1, 5 + 3)])
    );
}

#[test]
fn max_distance_of_codes() {
    assert_eq!(None, max_distance(&[L(1), L(2)]));
    assert_eq!(Some(300), max_distance(&[r(7, 3), L(1), r(300, 4), r(2, 10)]));
}

#[test]
fn far_window_stops_the_walk() {
    // after more than 32768 bytes the walk stops, so the late far reference is not seen;
    // the first reference, one back from byte 1, reaches the first byte
    let mut codes = vec![L(0)];
    for _ in 0..128 {
        codes.push(r(1, 258));
    }
    codes.push(r(40000, 3));
    assert_eq!((false, true), outside_range_or_hit_zero(&codes));
}

#[test]
fn obscured() {
    assert_eq!(&[6, 2], obscure(&[6, 4, 2], &[(3, 2)]).as_slice());
}

#[test]
fn obscure_edges_are_kept() {
    assert_eq!(&[3, 5, 9], obscure(&[3, 4, 5, 9], &[(3, 2), (7, 1)]).as_slice());
}

#[test]
fn gzip_header_minimal() {
    let bytes = [0x1f, 0x8b, 0x08, 0x00, 1, 2, 3, 4, 0, 3, 0xaa];
    assert_eq!(bytes[..10].to_vec(), discard_header(&bytes).unwrap());
}

#[test]
fn gzip_header_with_name_and_extra() {
    // flags: extra (4) and name (8)
    let bytes = [0x1f, 0x8b, 0x08, 0x0c, 0, 0, 0, 0, 0, 3, 2, 0, 7, 7, b'a', b'b', 0, 0x55];
    assert_eq!(bytes[..17].to_vec(), discard_header(&bytes).unwrap());
}

#[test]
fn gzip_header_errors() {
    assert_eq!(Err(Error::UnexpectedEof), discard_header(&[0x1f, 0x8b, 0x08]));
    assert_eq!(Err(Error::InvalidMagic), discard_header(&[0x1f, 0x8c, 0x08, 0, 0, 0, 0, 0, 0, 0]));
    assert_eq!(Err(Error::UnsupportedMethod), discard_header(&[0x1f, 0x8b, 0x07, 0, 0, 0, 0, 0, 0, 0]));
    assert_eq!(Err(Error::ReservedFlags), discard_header(&[0x1f, 0x8b, 0x08, 0x20, 0, 0, 0, 0, 0, 0]));
    // a name that never ends
    assert_eq!(Err(Error::UnexpectedEof), discard_header(&[0x1f, 0x8b, 0x08, 0x08, 0, 0, 0, 0, 0, 0, b'a']));
}

#[test]
fn matching_from_the_second_byte() {
    assert_eq!(2, matching(b"abcd", b"abxd"));
    assert_eq!(2, matching(b"xq", b"yq"));
    assert_eq!(3, matching(b"abc", b"abcdef"));
    assert_eq!(0, matching(b"", b"x"));
    assert_eq!(1, matching(b"a", b"b"));
    assert_eq!(258, matching(&[7; 300], &[7; 400]));
}
