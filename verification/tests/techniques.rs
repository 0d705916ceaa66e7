use rezip::all_refs::AllRefs;
use rezip::lookahead::greedy;
use rezip::lookahead::gzip;
use rezip::lookahead::three_zip;
use rezip::lookahead::Lookahead;
use rezip::picker::Picker;
use rezip::technique::Technique;
use rezip::trace::restore;
use rezip::trace::trace;
use rezip::trace::validate;
use rezip::Code;
use rezip::Code::Literal as L;
use rezip::Ref;
use rezip::Trace::Correct as C;

fn r(dist: u16, run: u16) -> Code {
    Code::Reference(Ref::new(dist, run))
}

#[test]
fn best_candidate_and_greedy() {
    let refs = AllRefs::new(&[], b"aabcabc");
    let t = Technique {
        all_refs: &refs,
        lookahead: Lookahead::Greedy,
        picker: Picker::Longest,
    };
    assert_eq!(7, t.data_len());
    assert_eq!((b'a', None), t.best_candidate(0));
    assert_eq!((b'a', Some(Ref::new(3, 3))), t.best_candidate(4));
    assert_eq!((b'b', None), t.best_candidate(5));
    assert_eq!(vec![L(b'a')], greedy(&t, 0));
    assert_eq!(vec![r(3, 3)], greedy(&t, 4));
    assert_eq!(vec![r(3, 3)], t.codes_at(4));
}

#[test]
fn gzip_lookahead_gives_up_for_a_longer_run() {
    // a123412f41234
    // 0123456789012
    let refs = AllRefs::new(&[], b"a123412f41234");
    let t = Technique {
        all_refs: &refs,
        lookahead: Lookahead::Gzip,
        picker: Picker::Longest,
    };
    assert_eq!(vec![L(b'4'), r(8, 4)], gzip(&t, 8));
    assert_eq!(vec![r(8, 4)], gzip(&t, 9));
    assert_eq!(vec![L(b'a')], gzip(&t, 0));
    assert_eq!(vec![L(b'4'), r(8, 4)], three_zip(&t, 8));
}

#[test]
fn three_zip_takes_a_long_run_at_once() {
    let refs = AllRefs::new(&[], b"abcdXabcdY");
    let t = Technique {
        all_refs: &refs,
        lookahead: Lookahead::ThreeZip,
        picker: Picker::Longest,
    };
    assert_eq!(vec![r(5, 4)], three_zip(&t, 5));
    assert_eq!(vec![r(5, 4)], t.codes_at(5));
}

#[test]
fn far_threes_are_dropped() {
    let mut data = b"xyz".to_vec();
    data.extend(vec![0u8; 5000]);
    data.extend(b"xyz");
    let refs = AllRefs::new(&[], &data);
    let longest = Technique {
        all_refs: &refs,
        lookahead: Lookahead::Greedy,
        picker: Picker::Longest,
    };
    let dropping = Technique {
        all_refs: &refs,
        lookahead: Lookahead::Greedy,
        picker: Picker::DropFarThrees,
    };
    assert_eq!(vec![r(5003, 3)], longest.codes_at(5003));
    assert_eq!(vec![L(b'x')], dropping.codes_at(5003));
}

#[test]
fn trace_with_a_technique() {
    let data = b"a123412f41234";
    let codes = vec![
        L(b'a'),
        L(b'1'),
        L(b'2'),
        L(b'3'),
        L(b'4'),
        L(b'1'),
        L(b'2'),
        L(b'f'),
        L(b'4'),
        r(8, 4),
    ];
    let refs = AllRefs::new(&[], data);
    let t = Technique {
        all_refs: &refs,
        lookahead: Lookahead::Gzip,
        picker: Picker::Longest,
    };
    let guess = |_: &[u8], _: &[u8], pos: usize| t.codes_at(pos);
    let traced = trace(&[], &codes, guess);
    assert_eq!(vec![C; 10], traced);
    assert_eq!(codes, restore(&[], data, &traced, guess));
    assert_eq!(traced, validate(&[], &codes, guess));
}

#[test]
fn validate_a_wrong_guesser() {
    let data = b"abcabc";
    let codes = vec![L(b'a'), L(b'b'), L(b'c'), r(3, 3)];
    let refs = AllRefs::new(&[], data);
    let t = Technique {
        all_refs: &refs,
        lookahead: Lookahead::Greedy,
        picker: Picker::Longest,
    };
    // greedy guesses the reference at 3; everything is right
    assert_eq!(vec![C; 4], validate(&[], &codes, |_: &[u8], _: &[u8], pos: usize| t.codes_at(pos)));
    // a guesser of literals only gets the reference wrong
    let literals = |_: &[u8], data: &[u8], pos: usize| vec![L(data[pos])];
    assert_eq!(
        vec![C, C, C, rezip::Trace::Actual(r(3, 3))],
        validate(&[], &codes, literals)
    );
}

#[test]
fn technique_byte_at() {
    let refs = AllRefs::new(b"xyz", b"abc");
    let t = Technique {
        all_refs: &refs,
        lookahead: Lookahead::Greedy,
        picker: Picker::Longest,
    };
    assert_eq!(b'a', t.byte_at(0));
    assert_eq!(b'c', t.byte_at(2));
}
