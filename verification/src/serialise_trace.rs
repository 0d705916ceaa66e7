use vstd::prelude::*;

use crate::errors::Error;
use crate::valid_ref;
use crate::Ref;

verus! {

/// A trace entry in the form that is stored: a guess was right, the code was a literal
/// (its byte is in the data), or the code was this reference.
#[derive(Clone, Copy, Debug, PartialEq, Eq, Structural)]
pub enum Hint {
    Correct,
    ActuallyLiteral,
    Actually(Ref),
}

/// Word values at or below this one are distances; above it, counts of correct guesses.
pub const REPRESENTATION_OFFSET: u16 = 32768;

/// The most correct guesses one word can count.
pub const MAX_REPRESENTABLE: u16 = 32767;

/// A 16-bit value, low byte first.
pub open spec fn le16(v: int) -> Seq<u8> {
    seq![(v % 256) as u8, (v / 256) as u8]
}

/// The 16-bit value stored low byte first at the start of `b`.
pub open spec fn word_at(b: Seq<u8>) -> int {
    b[0] as int + 256 * b[1] as int
}

/// `n` correct guesses.
pub open spec fn corrects(n: nat) -> Seq<Hint> {
    Seq::new(n, |_i: int| Hint::Correct)
}

/// The words that count `n` correct guesses: full words of the largest count while more
/// are left than one word holds, then one word with the rest.
pub open spec fn count_words(n: nat) -> Seq<u8>
    decreases n,
{
    if n == 0 {
        Seq::empty()
    } else if n > MAX_REPRESENTABLE {
        le16(REPRESENTATION_OFFSET + MAX_REPRESENTABLE) + count_words((n - MAX_REPRESENTABLE) as nat)
    } else {
        le16(REPRESENTATION_OFFSET + n)
    }
}

/// The bytes of one entry that is not a correct guess.
pub open spec fn entry_bytes(h: Hint) -> Seq<u8> {
    match h {
        Hint::Correct => Seq::empty(),
        Hint::ActuallyLiteral => le16(0),
        Hint::Actually(r) => le16(r.dist as int).push(r.run_minus_3),
    }
}

/// The stored form of `hints`, after `pending` correct guesses that are not written yet:
/// each run of correct guesses is written as a count when it ends.
pub open spec fn encoding(hints: Seq<Hint>, pending: nat) -> Seq<u8>
    decreases hints.len(),
{
    if hints.len() == 0 {
        count_words(pending)
    } else if hints[0] is Correct {
        encoding(hints.drop_first(), pending + 1)
    } else {
        count_words(pending) + entry_bytes(hints[0]) + encoding(hints.drop_first(), 0)
    }
}

/// The stored form of a trace.
pub open spec fn spec_write(hints: Seq<Hint>) -> Seq<u8> {
    encoding(hints, 0)
}

/// `front` put before what `rest` holds, or the error of `rest`.
pub open spec fn prepend(front: Seq<Hint>, rest: Result<Seq<Hint>, Error>) -> Result<Seq<Hint>, Error> {
    match rest {
        Ok(t) => Ok(front + t),
        Err(e) => Err(e),
    }
}

/// The trace that stored bytes hold. Reading stops where less than a word is left; a
/// distance without the byte of its run is an early end.
pub open spec fn spec_read(b: Seq<u8>) -> Result<Seq<Hint>, Error>
    decreases b.len(),
{
    if b.len() < 2 {
        Ok(Seq::empty())
    } else {
        let first = word_at(b);
        if first == 0 {
            prepend(seq![Hint::ActuallyLiteral], spec_read(b.skip(2)))
        } else if first <= REPRESENTATION_OFFSET {
            if b.len() < 3 {
                Err(Error::UnexpectedEof)
            } else {
                prepend(
                    seq![Hint::Actually(Ref { dist: first as u16, run_minus_3: b[2] })],
                    spec_read(b.skip(3)),
                )
            }
        } else {
            prepend(corrects((first - REPRESENTATION_OFFSET) as nat), spec_read(b.skip(2)))
        }
    }
}

/// Every reference in the trace is one that a deflate stream can hold.
pub open spec fn valid_hints(hints: Seq<Hint>) -> bool {
    forall|i: int| 0 <= i < hints.len() ==> (#[trigger] hints[i] matches Hint::Actually(r) ==> valid_ref(r))
}

proof fn lemma_word(v: int)
    requires
        0 <= v < 65536,
    ensures
        word_at(le16(v)) == v,
{
}

proof fn lemma_prepend_assoc(a: Seq<Hint>, b: Seq<Hint>, r: Result<Seq<Hint>, Error>)
    ensures
        prepend(a, prepend(b, r)) == prepend(a + b, r),
{
    match r {
        Ok(t) => {
            assert(a + (b + t) =~= (a + b) + t);
        },
        Err(_) => {},
    }
}

proof fn lemma_read_count_words(n: nat, rest: Seq<u8>)
    ensures
        spec_read(count_words(n) + rest) == prepend(corrects(n), spec_read(rest)),
    decreases n,
{
    if n == 0 {
        assert(count_words(n) + rest =~= rest);
        match spec_read(rest) {
            Ok(t) => assert(corrects(0) + t =~= t),
            Err(_) => {},
        }
    } else if n > MAX_REPRESENTABLE {
        let head = le16(REPRESENTATION_OFFSET + MAX_REPRESENTABLE);
        let tail = count_words((n - MAX_REPRESENTABLE) as nat) + rest;
        let b = count_words(n) + rest;
        assert(b =~= head + tail);
        lemma_word(REPRESENTATION_OFFSET + MAX_REPRESENTABLE);
        assert(word_at(b) == word_at(head));
        assert(b.skip(2) =~= tail);
        lemma_read_count_words((n - MAX_REPRESENTABLE) as nat, rest);
        lemma_prepend_assoc(corrects(MAX_REPRESENTABLE as nat), corrects((n - MAX_REPRESENTABLE) as nat), spec_read(rest));
        assert(corrects(MAX_REPRESENTABLE as nat) + corrects((n - MAX_REPRESENTABLE) as nat) =~= corrects(n));
    } else {
        let head = le16(REPRESENTATION_OFFSET + n);
        let b = count_words(n) + rest;
        assert(b =~= head + rest);
        lemma_word(REPRESENTATION_OFFSET + n);
        assert(word_at(b) == word_at(head));
        assert(b.skip(2) =~= rest);
    }
}

proof fn lemma_read_entry(h: Hint, rest: Seq<u8>)
    requires
        !(h is Correct),
        h matches Hint::Actually(r) ==> valid_ref(r),
    ensures
        spec_read(entry_bytes(h) + rest) == prepend(seq![h], spec_read(rest)),
{
    let b = entry_bytes(h) + rest;
    match h {
        Hint::Correct => {},
        Hint::ActuallyLiteral => {
            lemma_word(0);
            assert(word_at(b) == word_at(le16(0)));
            assert(b.skip(2) =~= rest);
        },
        Hint::Actually(r) => {
            lemma_word(r.dist as int);
            assert(word_at(b) == word_at(le16(r.dist as int)));
            assert(b[2] == r.run_minus_3);
            assert(b.skip(3) =~= rest);
        },
    }
}

proof fn lemma_read_encoding(hints: Seq<Hint>, pending: nat, rest: Seq<u8>)
    requires
        valid_hints(hints),
    ensures
        spec_read(encoding(hints, pending) + rest) == prepend(corrects(pending) + hints, spec_read(rest)),
    decreases hints.len(),
{
    let tail = hints.drop_first();
    if hints.len() == 0 {
        lemma_read_count_words(pending, rest);
        assert(corrects(pending) + hints =~= corrects(pending));
    } else {
        assert forall|i: int| 0 <= i < tail.len() implies (#[trigger] tail[i] matches Hint::Actually(r) ==> valid_ref(r)) by {
            assert(tail[i] == hints[i + 1]);
        }
        if hints[0] is Correct {
            lemma_read_encoding(tail, pending + 1, rest);
            assert(corrects(pending + 1) + tail =~= corrects(pending) + hints);
        } else {
            let h = hints[0];
            assert(h matches Hint::Actually(r) ==> valid_ref(r));
            let after = encoding(tail, 0) + rest;
            assert(encoding(hints, pending) + rest =~= count_words(pending) + (entry_bytes(h) + after));
            lemma_read_count_words(pending, entry_bytes(h) + after);
            lemma_read_entry(h, after);
            lemma_read_encoding(tail, 0, rest);
            assert(corrects(0) + tail =~= tail);
            lemma_prepend_assoc(seq![h], tail, spec_read(rest));
            lemma_prepend_assoc(corrects(pending), seq![h] + tail, spec_read(rest));
            assert(seq![h] + tail =~= hints);
        }
    }
}

/// Reading the stored form of a trace gives the trace back, provided each of its
/// references is one a deflate stream can hold.
pub proof fn lemma_read_undoes_write(hints: Seq<Hint>)
    requires
        valid_hints(hints),
    ensures
        spec_read(spec_write(hints)) == Ok::<Seq<Hint>, Error>(hints),
{
    lemma_read_encoding(hints, 0, Seq::empty());
    assert(spec_write(hints) + Seq::empty() =~= spec_write(hints));
    assert(corrects(0) + hints =~= hints);
    assert(spec_read(Seq::<u8>::empty()) == Ok::<Seq<Hint>, Error>(Seq::empty()));
    assert(hints + Seq::<Hint>::empty() =~= hints);
}


fn push_word(into: &mut Vec<u8>, v: u16)
    ensures
        final(into)@ == old(into)@ + le16(v as int),
{
    into.push((v % 256) as u8);
    into.push((v / 256) as u8);
    proof {
        assert(final(into)@ =~= old(into)@ + le16(v as int));
    }
}

/// The stored form of a trace: two bytes, low first, for each entry, and the byte of
/// its run after a reference's distance; a run of correct guesses is one count.
pub fn write(hints: &[Hint]) -> (r: Vec<u8>)
    ensures
        r@ == spec_write(hints@),
{
    let mut ret: Vec<u8> = Vec::new();
    let mut i: usize = 0;
    proof {
        assert(hints@.skip(0) =~= hints@);
    }
    while i < hints.len()
        invariant
            i <= hints.len(),
            ret@ + encoding(hints@.skip(i as int), 0) == spec_write(hints@),
        decreases hints.len() - i,
    {
        let ghost s = hints@.skip(i as int);
        proof {
            assert(s.drop_first() =~= hints@.skip(i + 1));
        }
        match hints[i] {
            Hint::ActuallyLiteral => {
                push_word(&mut ret, 0);
                i += 1;
                proof {
                    assert(ret@ + encoding(hints@.skip(i as int), 0) =~= spec_write(hints@));
                }
            },
            Hint::Actually(r) => {
                let ghost before = ret@;
                push_word(&mut ret, r.dist);
                ret.push(r.run_minus_3);
                i += 1;
                proof {
                    assert(ret@ =~= before + entry_bytes(hints@[i - 1]));
                    assert(ret@ + encoding(hints@.skip(i as int), 0) =~= spec_write(hints@));
                }
            },
            Hint::Correct => {
                let mut j: usize = i;
                while j < hints.len() && hints[j] == Hint::Correct
                    invariant
                        i <= j <= hints.len(),
                        encoding(hints@.skip(i as int), 0) == encoding(hints@.skip(j as int), (j - i) as nat),
                    decreases hints.len() - j,
                {
                    proof {
                        assert(hints@.skip(j as int).drop_first() =~= hints@.skip(j + 1));
                    }
                    j += 1;
                }
                proof {
                    let t = hints@.skip(j as int);
                    if t.len() > 0 {
                        assert(t[0] == hints@[j as int]);
                    }
                    assert(encoding(t, (j - i) as nat) =~= count_words((j - i) as nat) + encoding(t, 0));
                }
                let ghost start = ret@;
                let mut left: usize = j - i;
                while left > MAX_REPRESENTABLE as usize
                    invariant
                        start + count_words((j - i) as nat) == ret@ + count_words(left as nat),
                    decreases left,
                {
                    push_word(&mut ret, REPRESENTATION_OFFSET + MAX_REPRESENTABLE);
                    left -= MAX_REPRESENTABLE as usize;
                    proof {
                        assert(count_words((left + MAX_REPRESENTABLE) as nat) =~= le16(
                            REPRESENTATION_OFFSET + MAX_REPRESENTABLE,
                        ) + count_words(left as nat));
                    }
                }
                if left > 0 {
                    push_word(&mut ret, REPRESENTATION_OFFSET + left as u16);
                }
                proof {
                    assert(ret@ == start + count_words((j - i) as nat));
                }
                i = j;
                proof {
                    assert(ret@ + encoding(hints@.skip(i as int), 0) =~= spec_write(hints@));
                }
            },
        }
    }
    proof {
        assert(encoding(hints@.skip(i as int), 0) =~= Seq::<u8>::empty());
        assert(ret@ + Seq::<u8>::empty() =~= ret@);
    }
    ret
}

/// The trace that stored bytes hold, or `UnexpectedEof` where a distance is not followed
/// by the byte of its run. A single byte left at the end is ignored.
pub fn read(data: &[u8]) -> (r: Result<Vec<Hint>, Error>)
    ensures
        match r {
            Ok(v) => spec_read(data@) == Ok::<Seq<Hint>, Error>(v@),
            Err(e) => spec_read(data@) == Err::<Seq<Hint>, Error>(e),
        },
{
    let mut ret: Vec<Hint> = Vec::new();
    let mut i: usize = 0;
    proof {
        assert(data@.skip(0) =~= data@);
        assert(Seq::<Hint>::empty() + Seq::<Hint>::empty() =~= Seq::<Hint>::empty());
        match spec_read(data@) {
            Ok(t) => assert(Seq::<Hint>::empty() + t =~= t),
            Err(_) => {},
        }
    }
    while data.len() - i >= 2
        invariant
            i <= data.len(),
            spec_read(data@) == prepend(ret@, spec_read(data@.skip(i as int))),
        decreases data.len() - i,
    {
        let ghost b = data@.skip(i as int);
        let ghost before = ret@;
        let first: u16 = data[i] as u16 + 256 * (data[i + 1] as u16);
        assert(first == word_at(b));
        if first == 0 {
            ret.push(Hint::ActuallyLiteral);
            proof {
                assert(b.skip(2) =~= data@.skip(i + 2));
                lemma_prepend_assoc(before, seq![Hint::ActuallyLiteral], spec_read(b.skip(2)));
                assert(ret@ =~= before + seq![Hint::ActuallyLiteral]);
            }
            i += 2;
        } else if first <= REPRESENTATION_OFFSET {
            if data.len() - i < 3 {
                return Err(Error::UnexpectedEof);
            }
            let h = Hint::Actually(Ref { dist: first, run_minus_3: data[i + 2] });
            ret.push(h);
            proof {
                assert(b.skip(3) =~= data@.skip(i + 3));
                lemma_prepend_assoc(before, seq![h], spec_read(b.skip(3)));
                assert(ret@ =~= before + seq![h]);
            }
            i += 3;
        } else {
            let count: u16 = first - REPRESENTATION_OFFSET;
            let mut k: u16 = 0;
            while k < count
                invariant
                    k <= count,
                    ret@ == before + corrects(k as nat),
                decreases count - k,
            {
                ret.push(Hint::Correct);
                k += 1;
                proof {
                    assert(ret@ =~= before + corrects(k as nat));
                }
            }
            proof {
                assert(b.skip(2) =~= data@.skip(i + 2));
                lemma_prepend_assoc(before, corrects(count as nat), spec_read(b.skip(2)));
            }
            i += 2;
        }
    }
    proof {
        assert(spec_read(data@.skip(i as int)) == Ok::<Seq<Hint>, Error>(Seq::empty()));
        assert(ret@ + Seq::<Hint>::empty() =~= ret@);
    }
    Ok(ret)
}

/// Writes a trace out, with the guarantee that reading the bytes gives the same trace.
pub fn verify(hints: &[Hint]) -> (r: Vec<u8>)
    requires
        valid_hints(hints@),
    ensures
        r@ == spec_write(hints@),
        spec_read(r@) == Ok::<Seq<Hint>, Error>(hints@),
{
    let data = write(hints);
    proof {
        lemma_read_undoes_write(hints@);
    }
    data
}

} // verus!
