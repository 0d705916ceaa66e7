use rezip::errors::Error;
use rezip::serialise_trace::read;
use rezip::serialise_trace::verify;
use rezip::serialise_trace::Hint;
use rezip::Ref;

fn assert_round_trip(trace: &[Hint]) {
    assert_eq!(trace, read(&rezip::serialise_trace::write(trace)).unwrap().as_slice());
}

#[test]
fn long_trace() {
    let mut v = vec![Hint::Correct; 32_765];
    assert_round_trip(&v);
    v[1] = Hint::ActuallyLiteral;
    assert_round_trip(&v);
    v.push(Hint::ActuallyLiteral);
    assert_round_trip(&v);
    for _ in 0..10 {
        v.insert(5, Hint::Correct);
        assert_round_trip(&v);
    }
}

#[test]
fn stored_bytes() {
    let trace = [
        Hint::Correct,
        Hint::Correct,
        Hint::ActuallyLiteral,
        Hint::Actually(Ref::new(5, 10)),
        Hint::Correct,
    ];
    assert_eq!(vec![2, 128, 0, 0, 5, 0, 7, 1, 128], rezip::serialise_trace::write(&trace));
    assert_eq!(rezip::serialise_trace::write(&trace), verify(&trace));
}

#[test]
fn stored_count_over_one_word() {
    let trace = vec![Hint::Correct; 40_000];
    // 32767 in a full word, then 40000 - 32767 = 7233, stored as 32768 + 7233 = 0x9c41
    assert_eq!(vec![0xff, 0xff, 0x41, 0x9c], rezip::serialise_trace::write(&trace));
    assert_round_trip(&trace);
}

#[test]
fn stored_empty() {
    assert!(rezip::serialise_trace::write(&[]).is_empty());
    assert_eq!(Ok(vec![]), read(&[]));
}

#[test]
fn read_distance_without_run() {
    assert_eq!(Err(Error::UnexpectedEof), read(&[0, 0, 5, 0]));
}

#[test]
fn read_ignores_a_trailing_byte() {
    assert_eq!(Ok(vec![Hint::ActuallyLiteral]), read(&[0, 0, 7]));
}

#[test]
fn read_longest_distance() {
    assert_eq!(
        Ok(vec![Hint::Actually(Ref::new(32_768, 258))]),
        read(&[0x00, 0x80, 255])
    );
}
