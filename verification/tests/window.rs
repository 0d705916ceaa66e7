use rezip::circles::CircularBuffer;

#[test]
fn circles_dist() {
    let mut buf = CircularBuffer::with_capacity(10);
    buf.extend(b"abcdef");
    assert_eq!(b'f', buf.get_at_dist(1));
    assert_eq!(b'a', buf.get_at_dist(6));

    buf.extend(b"qrstuv");
    assert_eq!(b'v', buf.get_at_dist(1));
    assert_eq!(b'q', buf.get_at_dist(6));
    assert_eq!(b'f', buf.get_at_dist(7));
}

#[test]
fn veccy() {
    let mut buf = CircularBuffer::with_capacity(6);
    buf.extend(b"abcdefghij");
    assert_eq!(b"efghij", buf.vec().as_slice());
}

#[test]
fn run_length_at() {
    let mut buf = CircularBuffer::with_capacity(100);
    buf.extend(b"abcdef b");
    //   distances: "87654321"
    assert_eq!(b'b', buf.get_at_dist(7));
    assert_eq!(5, buf.possible_run_length_at(7, b"bcdef"));
}

#[test]
fn run_length_at_2() {
    let mut buf = CircularBuffer::with_capacity(100);
    buf.extend(b"a122b");
    assert_eq!(b'1', buf.get_at_dist(4));
    assert_eq!(3, buf.possible_run_length_at(4, b"122222"));
}
