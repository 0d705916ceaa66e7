use rezip::emulate::gzip;
use rezip::Code;
use rezip::Code::Literal as L;
use rezip::Ref;

fn r(dist: u16, run: u16) -> Code {
    Code::Reference(Ref::new(dist, run))
}

#[test]
fn emulate_gzip_simple_ref() {
    assert_eq!(
        &[L(b'a'), L(b'a'), L(b'b'), L(b'c'), r(3, 3)],
        gzip(b"", b"aabcabc",).unwrap().as_slice()
    )
}

#[test]
fn emulate_gzip_simple_ref_then() {
    assert_eq!(
        &[L(b'a'), L(b'a'), L(b'b'), L(b'c'), r(3, 3), L(b'd')],
        gzip(b"", b"aabcabcd",).unwrap().as_slice()
    )
}

#[test]
fn emulate_gzip_first_byte_bug() {
    assert_eq!(
        &[L(b'a'), L(b'b'), L(b'c'), L(b'a'), L(b'b'), L(b'c')],
        gzip(b"", b"abcabc",).unwrap().as_slice()
    )
}

#[test]
fn emulate_gzip_longer() {
    assert_eq!(
        &[
            L(b'a'),
            L(b'1'),
            L(b'2'),
            L(b'3'),
            L(b'4'),
            r(4, 3),
            r(7, 4)
        ],
        gzip(b"", b"a12341231234",).unwrap().as_slice()
    )
}

#[test]
fn emulate_lazy_longer_ref() {
    // a123412f41234
    // 0123456789012

    // At position 8, the "412" (at position 4) is held back, then given up for
    // the longer run of "1234" at position 1.

    assert_eq!(
        &[
            L(b'a'),
            L(b'1'),
            L(b'2'),
            L(b'3'),
            L(b'4'),
            L(b'1'),
            L(b'2'),
            L(b'f'),
            L(b'4'),
            r(8, 4),
        ],
        gzip(&[], b"a123412f41234").unwrap().as_slice()
    );
}

#[test]
fn emulate_first_byte_rule_counts_from_the_data() {
    // the reference back to the data's first byte is passed over, preroll or not
    assert_eq!(
        &[L(b'a'), L(b'b'), L(b'c'), L(b'a'), L(b'b'), L(b'c')],
        gzip(b"x", b"abcabc").unwrap().as_slice()
    );
    // one byte further on, it is taken
    assert_eq!(
        &[L(b'z'), L(b'a'), L(b'b'), L(b'c'), r(3, 3)],
        gzip(b"", b"zabcabc").unwrap().as_slice()
    );
}

#[test]
fn emulate_empty_and_short() {
    assert_eq!(Vec::<Code>::new(), gzip(b"", b"").unwrap());
    assert_eq!(vec![L(b'q'), L(b'r')], gzip(b"", b"qr").unwrap());
}
