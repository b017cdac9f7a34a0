//! Incremental extraction of newline-terminated lines from a byte stream
//! that may arrive in pieces of any size.
use vstd::prelude::*;

verus! {

/// The line terminator.
pub const NEWLINE: u8 = 10;

/// Feeding `input` to a reader that holds the unfinished line `partial`:
/// the lines completed along the way (terminator included) and the bytes
/// left over for the next call.
pub open spec fn scan(partial: Seq<u8>, input: Seq<u8>) -> (Seq<Seq<u8>>, Seq<u8>)
    decreases input.len(),
{
    if input.len() == 0 {
        (seq![], partial)
    } else {
        let (done, rest) = scan(partial, input.drop_last());
        let b = input.last();
        if b == NEWLINE {
            (done.push(rest.push(b)), seq![])
        } else {
            (done, rest.push(b))
        }
    }
}

/// All the bytes of a sequence of lines, in order.
pub open spec fn concat(lines: Seq<Seq<u8>>) -> Seq<u8>
    decreases lines.len(),
{
    if lines.len() == 0 {
        seq![]
    } else {
        concat(lines.drop_last()) + lines.last()
    }
}

/// `s` holds no line terminator.
pub open spec fn no_newline(s: Seq<u8>) -> bool {
    forall|i: int| 0 <= i < s.len() ==> s[i] != NEWLINE
}

/// `line` is one complete line: it ends with the terminator and holds no other.
pub open spec fn is_line(line: Seq<u8>) -> bool {
    &&& line.len() > 0
    &&& line.last() == NEWLINE
    &&& no_newline(line.drop_last())
}

/// `lines` followed by `rest` is `s` split on the terminator: complete lines,
/// then an unfinished tail.
pub open spec fn splits(s: Seq<u8>, lines: Seq<Seq<u8>>, rest: Seq<u8>) -> bool {
    &&& concat(lines) + rest == s
    &&& forall|k: int| 0 <= k < lines.len() ==> is_line(#[trigger] lines[k])
    &&& no_newline(rest)
}

/// The byte contents of a sequence of owned lines.
pub open spec fn views(v: Seq<Vec<u8>>) -> Seq<Seq<u8>> {
    v.map_values(|x: Vec<u8>| x@)
}

/// Feeding the chunks one after another to a reader that holds `partial`,
/// collecting the lines each call returns.
pub open spec fn scan_chunks(partial: Seq<u8>, chunks: Seq<Seq<u8>>) -> (Seq<Seq<u8>>, Seq<u8>)
    decreases chunks.len(),
{
    if chunks.len() == 0 {
        (seq![], partial)
    } else {
        let (done, rest) = scan_chunks(partial, chunks.drop_last());
        let (more, left) = scan(rest, chunks.last());
        (done + more, left)
    }
}

/// Feeding `a` and then `b` returns the same lines, and leaves the same
/// tail, as feeding `a + b` at once.
pub proof fn lemma_scan_append(partial: Seq<u8>, a: Seq<u8>, b: Seq<u8>)
    ensures
        scan(partial, a + b) == ({
            let (d1, r1) = scan(partial, a);
            let (d2, r2) = scan(r1, b);
            (d1 + d2, r2)
        }),
    decreases b.len(),
{
    let (d1, r1) = scan(partial, a);
    if b.len() == 0 {
        assert(a + b =~= a);
        assert(d1 + seq![] =~= d1);
    } else {
        assert((a + b).drop_last() =~= a + b.drop_last());
        assert((a + b).last() == b.last());
        lemma_scan_append(partial, a, b.drop_last());
        let (d2, r2) = scan(r1, b.drop_last());
        let x = b.last();
        if x == NEWLINE {
            assert((d1 + d2).push(r2.push(x)) =~= d1 + d2.push(r2.push(x)));
        }
    }
}

/// Starting from a tail without terminator, what `scan` returns is the input
/// split on the terminator.
pub proof fn lemma_scan_splits(partial: Seq<u8>, s: Seq<u8>)
    requires
        no_newline(partial),
    ensures
        splits(partial + s, scan(partial, s).0, scan(partial, s).1),
    decreases s.len(),
{
    if s.len() == 0 {
        assert(partial + s =~= partial);
    } else {
        let s1 = s.drop_last();
        let x = s.last();
        lemma_scan_splits(partial, s1);
        let (d, r) = scan(partial, s1);
        assert(partial + s =~= (partial + s1).push(x));
        if x == NEWLINE {
            let line = r.push(x);
            assert(line.drop_last() =~= r);
            assert(concat(d.push(line)) == concat(d) + line) by {
                assert(d.push(line).drop_last() =~= d);
            }
            assert(concat(d) + line =~= (concat(d) + r).push(x));
            assert(concat(d.push(line)) + seq![] =~= concat(d.push(line)));
            assert forall|k: int| 0 <= k < d.push(line).len() implies is_line(
                #[trigger] d.push(line)[k],
            ) by {
                if k < d.len() {
                    assert(d.push(line)[k] == d[k]);
                }
            }
        } else {
            assert(concat(d) + r.push(x) =~= (concat(d) + r).push(x));
        }
    }
}

/// Chunking invariance: however the stream is cut into chunks, feeding them
/// in order to a fresh reader returns exactly the lines, and leaves exactly
/// the tail, of the whole stream split on the terminator at once.
pub proof fn chunking_invariance(chunks: Seq<Seq<u8>>)
    ensures
        scan_chunks(seq![], chunks) == scan(seq![], concat(chunks)),
        splits(
            concat(chunks),
            scan_chunks(seq![], chunks).0,
            scan_chunks(seq![], chunks).1,
        ),
    decreases chunks.len(),
{
    if chunks.len() == 0 {
        assert(concat(chunks) =~= seq![]);
    } else {
        let front = chunks.drop_last();
        chunking_invariance(front);
        lemma_scan_append(seq![], concat(front), chunks.last());
    }
    assert(no_newline(seq![]));
    lemma_scan_splits(seq![], concat(chunks));
    assert(Seq::<u8>::empty() + concat(chunks) =~= concat(chunks));
}

/// Buffers the bytes of an unfinished line between reads.
pub struct LineReader {
    partial: Vec<u8>,
}

impl View for LineReader {
    type V = Seq<u8>;

    /// The bytes received after the last complete line.
    closed spec fn view(&self) -> Seq<u8> {
        self.partial@
    }
}

impl LineReader {
    /// The buffered tail never holds a terminator: every complete line has
    /// been handed out.
    #[verifier::type_invariant]
    spec fn inv(self) -> bool {
        no_newline(self.partial@)
    }

    /// A reader that holds nothing yet.
    pub fn new() -> (r: LineReader)
        ensures
            r@ == Seq::<u8>::empty(),
    {
        LineReader { partial: Vec::new() }
    }

    /// The bytes of the unfinished line.
    pub fn pending(&self) -> (r: &Vec<u8>)
        ensures
            r@ == self@,
            no_newline(r@),
    {
        proof {
            use_type_invariant(self);
        }
        &self.partial
    }

    /// Takes in one chunk as the transport delivered it and returns every
    /// line it completes, terminator included; what follows the last
    /// terminator stays buffered for the next chunk.
    pub fn feed(&mut self, chunk: &[u8]) -> (r: Vec<Vec<u8>>)
        ensures
            (views(r@), final(self)@) == scan(old(self)@, chunk@),
            concat(views(r@)) + final(self)@ == old(self)@ + chunk@,
            forall|k: int| 0 <= k < r@.len() ==> is_line(#[trigger] r@[k]@),
            no_newline(final(self)@),
    {
        proof {
            use_type_invariant(&*self);
            lemma_scan_splits(self@, chunk@);
        }
        let mut taken = LineReader::new();
        std::mem::swap(&mut taken, self);
        let mut partial = taken.partial;
        let mut out: Vec<Vec<u8>> = Vec::new();
        let mut i: usize = 0;
        while i < chunk.len()
            invariant
                i <= chunk.len(),
                (views(out@), partial@) == scan(old(self)@, chunk@.take(i as int)),
                no_newline(partial@),
            decreases chunk.len() - i,
        {
            let b = chunk[i];
            proof {
                assert(chunk@.take(i + 1).drop_last() == chunk@.take(i as int));
            }
            if b == NEWLINE {
                let ghost old_out = out@;
                let mut line: Vec<u8> = Vec::new();
                std::mem::swap(&mut line, &mut partial);
                line.push(b);
                out.push(line);
                proof {
                    assert(views(out@) =~= views(old_out).push(out@.last()@));
                }
            } else {
                partial.push(b);
            }
            i = i + 1;
        }
        proof {
            assert(chunk@.take(i as int) == chunk@);
            assert forall|k: int| 0 <= k < out@.len() implies is_line(#[trigger] out@[k]@) by {
                assert(views(out@)[k] == out@[k]@);
            }
        }
        *self = LineReader { partial };
        out
    }
}

} // verus!
