use rezip::all_refs::key_from_bytes;
use rezip::all_refs::normal_char;
use rezip::all_refs::sub_range_inclusive;
use rezip::all_refs::AllRefs;
use rezip::all_refs::Key;
use rezip::bestguess::increase_entropy;
use rezip::bestguess::reduce_entropy;
use rezip::bestguess::sorted_candidates;
use rezip::circles::CircularBuffer;
use rezip::serialise::decompressed_codes;
use rezip::Code;
use rezip::Code::Literal as L;
use rezip::Error;
use rezip::Ref;

fn r(dist: u16, run: u16) -> Code {
    Code::Reference(Ref::new(dist, run))
}

fn rf(dist: u16, run: u16) -> Ref {
    Ref::new(dist, run)
}

#[test]
fn sub_range() {
    let s = sub_range_inclusive;
    assert_eq!(&[5, 6], s(5, 6, &[4, 5, 6, 7]));
    assert_eq!(&[5, 6], s(5, 6, &[5, 6, 7]));
    assert_eq!(&[5, 6], s(5, 6, &[4, 5, 6]));

    assert_eq!(&[5, 6], s(4, 7, &[2, 3, 5, 6, 8, 9]));
    assert_eq!(&[5, 6], s(4, 7, &[5, 6, 8, 9]));
    assert_eq!(&[5, 6], s(4, 7, &[2, 3, 5, 6]));

    assert_eq!(&[0usize; 0], s(7, 8, &[4, 5, 6]));
    assert_eq!(&[0usize; 0], s(7, 8, &[9, 10]));
    assert_eq!(&[0usize; 0], s(7, 8, &[]));
}

#[test]
fn hash_sixteen_16_collisions() {
    assert_eq!(0b0000_1100_0010_0001, Key::from((3, 1, 1)).sixteen_hash_16());
    assert_eq!(
        Key::from((b'O', b'o', b'o')).sixteen_hash_16(),
        Key::from((b'o', b'o', b'o')).sixteen_hash_16()
    );
}

#[test]
fn key_bytes() {
    let k = key_from_bytes(b"abcdef");
    assert_eq!([b'a', b'b', b'c'], k.as_array());
    assert_eq!(k, Key::from((b'a', b'b', b'c')));
}

#[test]
fn printable_chars() {
    assert!(normal_char(b'a'));
    assert!(normal_char(b'~'));
    assert!(normal_char(b'!'));
    assert!(!normal_char(b' '));
    assert!(!normal_char(0x7f));
    assert!(!normal_char(b'\n'));
}

#[test]
fn candidates_nearest_first() {
    //          0123456789
    let data = b"abcXabcYabcabc";
    let refs = AllRefs::new(&[], data);
    assert_eq!(data.len(), refs.data_len());
    assert_eq!(None, refs.at(12).all_refs());
    assert_eq!(Some(vec![]), refs.at(0).all_refs());
    assert_eq!(Some(vec![]), refs.at(1).all_refs());
    assert_eq!(
        Some(vec![rf(3, 3), rf(7, 3), rf(11, 3)]),
        refs.at(11).all_refs()
    );
    assert_eq!(Some(vec![rf(4, 3), rf(8, 3)]), refs.at(8).all_refs());
    assert_eq!(Some((b'a', b'b', b'c')), refs.at(8).key());
    assert_eq!(None, refs.at(12).key());
    assert_eq!(L(b'Y'), refs.at(7).current_literal());
}

#[test]
fn candidates_reach_into_preroll() {
    let refs = AllRefs::new(b"qrstu", b"abcdstuabcdstuabc");
    // "stu" at 4 in the data is at 9 overall; it was seen at 2 in the preroll.
    assert_eq!(Some(vec![rf(7, 13)]), refs.at(4).all_refs());
}

#[test]
fn runs_stop_at_258() {
    let data = [7u8; 600];
    let refs = AllRefs::new(&[], &data);
    let found = refs.at(1).all_refs().unwrap();
    assert_eq!(vec![rf(1, 258)], found);
    let found = refs.at(400).all_refs().unwrap();
    assert_eq!(rf(1, 200), found[0]);
    assert_eq!(400, found.len());
}

#[test]
fn sorting_candidates() {
    let sorted = sorted_candidates(vec![rf(1, 3), rf(9, 5), rf(2, 5), rf(4, 4)]);
    assert_eq!(vec![rf(2, 5), rf(9, 5), rf(4, 4), rf(1, 3)], sorted);
}

#[test]
fn reference_that_is_not_a_candidate() {
    let data = b"abcdabcd";
    // the longest match at 4 runs for four bytes, not three
    assert_eq!(
        Err(Error::ReferenceNotFound),
        reduce_entropy(&[], data, &[L(b'a'), L(b'b'), L(b'c'), L(b'd'), r(4, 3), L(b'd')])
    );
}

fn decode_then_reencode_single_block(codes: &[Code]) -> Vec<usize> {
    decode_maybe(&[], codes)
}

fn decode_maybe(preroll: &[u8], codes: &[Code]) -> Vec<usize> {
    let mut data = Vec::with_capacity(codes.len());
    {
        let mut prebuf = CircularBuffer::with_capacity(32 * 1024);
        prebuf.extend(preroll);
        decompressed_codes(&mut data, &mut prebuf, codes).unwrap();
    }

    let reduced = reduce_entropy(preroll, &data, codes).unwrap();
    assert_eq!(codes, increase_entropy(preroll, &data, &reduced).as_slice());
    reduced
}

#[test]
fn bestguess_re_1_single_backref_abcdef_bcdefghi() {
    let exp = &[
        L(b'a'),
        L(b'b'),
        L(b'c'),
        L(b'd'),
        L(b'e'),
        L(b'f'),
        L(b' '),
        r(6, 2 + 3),
        L(b'g'),
        L(b'h'),
        L(b'i'),
    ];

    assert_eq!(vec![0], decode_then_reencode_single_block(exp));
}

#[test]
fn bestguess_re_2_two_length_three_runs() {
    let exp = &[
        L(b'a'),
        L(b'b'),
        L(b'c'),
        L(b'd'),
        L(b'1'),
        L(b'2'),
        L(b'3'),
        L(b'e'),
        L(b'f'),
        L(b'g'),
        L(b'h'),
        L(b'7'),
        L(b'8'),
        L(b'9'),
        L(b'i'),
        L(b'j'),
        L(b'k'),
        L(b'l'),
        r(14, 0 + 3),
        L(b'm'),
        L(b'n'),
        L(b'o'),
        L(b'p'),
        r(14, 0 + 3),
        L(b'q'),
        L(b'r'),
        L(b's'),
        L(b't'),
    ];

    assert_eq!(vec![0, 0], decode_then_reencode_single_block(exp));
}

#[test]
fn bestguess_re_3_two_overlapping_runs() {
    let exp = &[
        L(b'a'),
        L(b'1'),
        L(b'2'),
        L(b'3'),
        L(b'b'),
        L(b'c'),
        L(b'd'),
        r(6, 0 + 3),
        L(b'4'),
        L(b'5'),
        L(b'e'),
        L(b'f'),
        r(5, 0 + 3),
        L(b'g'),
    ];

    assert_eq!(vec![0, 0], decode_then_reencode_single_block(exp));
}

#[test]
fn bestguess_re_4_zero_run() {
    let exp = &[L(b'0'), r(1, 10 + 3)];
    assert_eq!(vec![0], decode_then_reencode_single_block(exp));
}

#[test]
fn bestguess_re_5_ref_before() {
    let exp = &[r(1, 13)];
    assert_eq!(
        exp.iter().map(|_| 0usize).collect::<Vec<usize>>(),
        decode_maybe(&[0], exp)
    );
}

#[test]
fn bestguess_re_11_ref_long_before() {
    let exp = &[L(b'a'), L(b'b'), L(b'c'), L(b'd'), r(7, 13)];
    assert_eq!(
        &[0],
        decode_maybe(&[b'q', b'r', b's', b't', b'u'], exp).as_slice()
    );
}

#[test]
fn bestguess_re_12_ref_over_edge() {
    let exp = &[L(b'd'), r(2, 3)];
    assert_eq!(&[0], decode_maybe(&[b's', b't', b'u'], exp).as_slice());
}

#[test]
fn bestguess_re_6_just_long_run() {
    let exp = &[L(5), r(1, 258)];

    assert_eq!(vec![0], decode_then_reencode_single_block(exp));
}

#[test]
fn bestguess_re_7_two_long_run() {
    let exp = &[L(5), r(1, 258), r(1, 258)];

    assert_eq!(vec![0, 0], decode_then_reencode_single_block(exp));
}

#[test]
fn bestguess_re_8_many_long_run() {
    const ENOUGH_TO_WRAP_AROUND: usize = 10 + (32 * 1024 / 258);

    let mut exp = Vec::with_capacity(ENOUGH_TO_WRAP_AROUND + 1);

    exp.push(L(5));

    exp.extend(vec![r(1, 258); ENOUGH_TO_WRAP_AROUND]);

    assert_eq!(vec![0; 137], decode_then_reencode_single_block(&exp));
}

#[test]
fn bestguess_re_9_longer_match() {
    let exp = &[
        L(b'a'),
        L(b'1'),
        L(b'2'),
        L(b'3'),
        L(b'4'),
        r(4, 3),
        r(7, 4),
    ];

    assert_eq!(vec![0, 0], decode_then_reencode_single_block(exp));
}

#[test]
fn bestguess_short_repeat() {
    // a122b122222
    // 01234567890

    let exp = &[L(b'a'), r(1, 3)];

    assert_eq!(vec![0], decode_then_reencode_single_block(exp));
}

#[test]
fn bestguess_re_10_repeat_after_ref_a122b_122_222() {
    // a122b122222
    // 01234567890

    let exp = &[
        L(b'a'),
        L(b'1'),
        L(b'2'),
        L(b'2'),
        L(b'b'),
        r(4, 3),
        r(1, 3),
    ];

    assert_eq!(vec![0, 0], decode_then_reencode_single_block(exp));
}

#[test]
fn bestguess_lazy_longer_ref() {
    // a123412f41234
    // 0123456789012

    // At position 8, the "412" (at position 4) is passed over,
    // for the longer run of "1234" at position 1.

    let exp = &[
        L(b'a'),
        L(b'1'),
        L(b'2'),
        L(b'3'),
        L(b'4'),
        L(b'1'),
        L(b'2'),
        L(b'f'),
        L(b'4'),
        r(8, 4),
    ];

    assert_eq!(&[1, 0], decode_then_reencode_single_block(exp).as_slice());
}

#[test]
fn bestguess_long_prelude() {
    let exp = &[L(b'b'), r(3, 3)];

    let pre = concat(&[b'|'; 32768 + 1], b"ponies");

    assert_eq!(&[0], decode_maybe(&pre, exp).as_slice());
}

fn concat(x: &[u8], y: &[u8]) -> Box<[u8]> {
    let mut v = Vec::with_capacity(x.len() + y.len());
    v.extend(x);
    v.extend(y);
    v.into_boxed_slice()
}

#[test]
fn second_choice_is_hinted_as_two() {
    // at 8, "abc" is at 4 (run 3) and at 0 (run 4): the longer one is tried first,
    // so the nearer one is the second choice, hinted as 2
    let data = b"abcdabcXabcd";
    let codes = [
        L(b'a'),
        L(b'b'),
        L(b'c'),
        L(b'd'),
        r(4, 3),
        L(b'X'),
        r(4, 3),
        L(b'd'),
    ];
    let reduced = reduce_entropy(&[], data, &codes).unwrap();
    assert_eq!(vec![0, 2], reduced);
    assert_eq!(&codes, increase_entropy(&[], data, &reduced).as_slice());
}
