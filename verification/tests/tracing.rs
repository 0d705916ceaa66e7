use rezip::trace::restore;
use rezip::trace::shared_prefix;
use rezip::trace::trace;
use rezip::Code;
use rezip::Code::Literal as L;
use rezip::Ref;
use rezip::Trace::Actual as A;
use rezip::Trace::Correct as C;

/// Guesses the literal at the position.
fn literals(_preroll: &[u8], data: &[u8], pos: usize) -> Vec<Code> {
    vec![Code::Literal(data[pos])]
}

#[test]
fn trace_prefix() {
    let right = [L(1), L(2)];
    let mut it = 0;
    assert_eq!(2, shared_prefix(&[L(1), L(2)], &right, &mut it));
    assert_eq!(2, it);

    let mut it = 0;
    assert_eq!(0, shared_prefix(&[], &right, &mut it));
    assert_eq!(Some(&L(1)), right.get(it));

    let mut it = 0;
    assert_eq!(1, shared_prefix(&[L(1), L(5), L(7)], &right, &mut it));
    assert_eq!(Some(&L(2)), right.get(it));

    let mut it = 0;
    assert_eq!(0, shared_prefix(&[L(1), L(5), L(7)], &[], &mut it));
}

#[test]
fn trace_dumb() {
    assert_eq!(
        vec![A(Code::Literal(b'a'))],
        trace(&[], &[Code::Literal(b'a')], |_: &[u8], _: &[u8], _: usize| vec![
            Code::Literal(b'N')
        ])
    );

    assert_eq!(
        vec![C],
        trace(&[], &[Code::Literal(b'a')], |_: &[u8], _: &[u8], _: usize| vec![
            Code::Literal(b'a')
        ])
    );
}

#[test]
fn trace_then_restore() {
    let codes = vec![L(b'a'), L(b'b'), Code::Reference(Ref::new(2, 4)), L(b'c')];
    let data = b"ababab".to_vec();
    let mut full = data.clone();
    full.push(b'c');
    let traced = trace(&[], &codes, literals);
    assert_eq!(vec![C, C, A(Code::Reference(Ref::new(2, 4))), C], traced);
    assert_eq!(codes, restore(&[], &full, &traced, literals));
}
