//! Frame assembly: splitting an incoming byte stream into protocol frames.
//!
//! A frame is a maximal block of bytes terminated by a blank line, i.e. by
//! the two-byte delimiter `\n\n`. The [`FrameBuffer`] accumulates chunks and
//! hands out every frame completed so far, keeping at most one trailing
//! partial frame.
use vstd::prelude::*;

verus! {

/// The newline byte, `'\n'`.
pub const NL: u8 = 10;

/// A frame delimiter (blank line, `\n\n`) starts at position `i` of `s`.
pub open spec fn delim_at(s: Seq<u8>, i: int) -> bool {
    0 <= i && i + 2 <= s.len() && s[i] == NL && s[i + 1] == NL
}

/// `s` contains a frame delimiter somewhere.
pub open spec fn has_delim(s: Seq<u8>) -> bool {
    exists|i: int| delim_at(s, i)
}

/// Position of the first frame delimiter of `s` at or after `from`, if any.
pub open spec fn first_delim_from(s: Seq<u8>, from: int) -> Option<int>
    decreases s.len() - from,
{
    if from < 0 || from + 2 > s.len() {
        None
    } else if s[from] == NL && s[from + 1] == NL {
        Some(from)
    } else {
        first_delim_from(s, from + 1)
    }
}

/// Position of the first frame delimiter of `s`, if any.
pub open spec fn first_delim(s: Seq<u8>) -> Option<int> {
    first_delim_from(s, 0)
}

/// `first_delim_from` returns the least delimiter position at or after
/// `from`, and `None` exactly when no delimiter starts there or later.
pub proof fn lemma_first_delim_from(s: Seq<u8>, from: int)
    requires
        0 <= from,
    ensures
        match first_delim_from(s, from) {
            Some(i) => from <= i && delim_at(s, i) && (forall|j: int|
                from <= j < i ==> !delim_at(s, j)),
            None => forall|j: int| from <= j ==> !delim_at(s, j),
        },
    decreases s.len() - from,
{
    if from + 2 > s.len() {
    } else if s[from] == NL && s[from + 1] == NL {
    } else {
        lemma_first_delim_from(s, from + 1);
    }
}

/// The complete frames of `s`, in order: everything before each successive
/// delimiter, with the delimiters removed.
pub open spec fn frames_of(s: Seq<u8>) -> Seq<Seq<u8>>
    decreases s.len() via frames_of_decreases
{
    match first_delim(s) {
        Some(i) => seq![s.subrange(0, i)] + frames_of(s.subrange(i + 2, s.len() as int)),
        None => Seq::empty(),
    }
}

#[via_fn]
proof fn frames_of_decreases(s: Seq<u8>) {
    lemma_first_delim_from(s, 0);
}

/// What remains of `s` after every complete frame and its delimiter has been
/// removed: the trailing partial frame.
pub open spec fn rest_of(s: Seq<u8>) -> Seq<u8>
    decreases s.len() via rest_of_decreases
{
    match first_delim(s) {
        Some(i) => rest_of(s.subrange(i + 2, s.len() as int)),
        None => s,
    }
}

#[via_fn]
proof fn rest_of_decreases(s: Seq<u8>) {
    lemma_first_delim_from(s, 0);
}

/// The leftover never contains a delimiter: every complete frame was taken.
pub proof fn lemma_rest_no_delim(s: Seq<u8>)
    ensures
        !has_delim(rest_of(s)),
    decreases s.len(),
{
    lemma_first_delim_from(s, 0);
    match first_delim(s) {
        Some(i) => {
            lemma_rest_no_delim(s.subrange(i + 2, s.len() as int));
        }
        None => {}
    }
}

/// A sequence without a delimiter holds no complete frame and is all leftover.
pub proof fn lemma_no_delim_no_frames(s: Seq<u8>)
    requires
        !has_delim(s),
    ensures
        frames_of(s) == Seq::<Seq<u8>>::empty(),
        rest_of(s) == s,
{
    lemma_first_delim_from(s, 0);
}

/// Appending bytes does not move an existing first delimiter.
proof fn lemma_first_delim_concat(a: Seq<u8>, b: Seq<u8>, from: int)
    requires
        0 <= from,
        first_delim_from(a, from) is Some,
    ensures
        first_delim_from(a + b, from) == first_delim_from(a, from),
    decreases a.len() - from,
{
    if from + 2 > a.len() {
        // contradicts the requires
    } else if a[from] == NL && a[from + 1] == NL {
        assert((a + b)[from] == NL && (a + b)[from + 1] == NL);
    } else {
        lemma_first_delim_concat(a, b, from + 1);
    }
}

/// Splitting off the frames of a prefix first and then absorbing more bytes
/// yields the same frames and leftover as absorbing everything at once.
pub proof fn lemma_absorb_split(a: Seq<u8>, b: Seq<u8>)
    ensures
        frames_of(a + b) == frames_of(a) + frames_of(rest_of(a) + b),
        rest_of(a + b) == rest_of(rest_of(a) + b),
    decreases a.len(),
{
    match first_delim(a) {
        None => {
            assert(rest_of(a) + b == a + b);
            assert(frames_of(a) + frames_of(a + b) =~= frames_of(a + b));
        }
        Some(i) => {
            lemma_first_delim_from(a, 0);
            lemma_first_delim_concat(a, b, 0);
            let a2 = a.subrange(i + 2, a.len() as int);
            let ab = a + b;
            assert(first_delim(ab) == Some(i));
            assert(ab.subrange(0, i) =~= a.subrange(0, i));
            assert(ab.subrange(i + 2, ab.len() as int) =~= a2 + b);
            lemma_absorb_split(a2, b);
            assert(frames_of(ab) =~= frames_of(a) + frames_of(rest_of(a) + b));
        }
    }
}

/// The concatenation of a sequence of chunks.
pub open spec fn concat_chunks(chunks: Seq<Seq<u8>>) -> Seq<u8>
    decreases chunks.len(),
{
    if chunks.len() == 0 {
        Seq::empty()
    } else {
        chunks.first() + concat_chunks(chunks.drop_first())
    }
}

/// The frames a pump collects when it starts with leftover `buf` and absorbs
/// each chunk in turn, draining every completed frame after each chunk.
pub open spec fn pump_frames(buf: Seq<u8>, chunks: Seq<Seq<u8>>) -> Seq<Seq<u8>>
    decreases chunks.len(),
{
    if chunks.len() == 0 {
        Seq::empty()
    } else {
        frames_of(buf + chunks.first()) + pump_frames(
            rest_of(buf + chunks.first()),
            chunks.drop_first(),
        )
    }
}

/// The leftover a pump retains after absorbing each chunk in turn.
pub open spec fn pump_rest(buf: Seq<u8>, chunks: Seq<Seq<u8>>) -> Seq<u8>
    decreases chunks.len(),
{
    if chunks.len() == 0 {
        buf
    } else {
        pump_rest(rest_of(buf + chunks.first()), chunks.drop_first())
    }
}

/// Chunking invariance: absorbing a stream chunk by chunk yields exactly the
/// frames of the whole stream, in order, no matter where the chunk boundaries
/// fall, and retains exactly the stream's trailing partial frame.
pub proof fn lemma_chunking_invariance(buf: Seq<u8>, chunks: Seq<Seq<u8>>)
    requires
        !has_delim(buf),
    ensures
        pump_frames(buf, chunks) == frames_of(buf + concat_chunks(chunks)),
        pump_rest(buf, chunks) == rest_of(buf + concat_chunks(chunks)),
    decreases chunks.len(),
{
    if chunks.len() == 0 {
        lemma_no_delim_no_frames(buf);
        assert(buf + Seq::<u8>::empty() =~= buf);
    } else {
        let c0 = chunks.first();
        let rest = chunks.drop_first();
        lemma_rest_no_delim(buf + c0);
        lemma_chunking_invariance(rest_of(buf + c0), rest);
        lemma_absorb_split(buf + c0, concat_chunks(rest));
        assert((buf + c0) + concat_chunks(rest) =~= buf + concat_chunks(chunks));
    }
}

/// The delimiter cannot occur in the empty sequence.
pub proof fn lemma_empty_no_delim()
    ensures
        !has_delim(Seq::<u8>::empty()),
{
    assert(forall|i: int| !delim_at(Seq::<u8>::empty(), i));
}

/// Chunking invariance from a fresh buffer: however the byte stream is cut
/// into chunks, the pump sees exactly the frames of the concatenation.
pub proof fn lemma_pump_sees_all_frames(chunks: Seq<Seq<u8>>)
    ensures
        pump_frames(Seq::empty(), chunks) == frames_of(concat_chunks(chunks)),
        pump_rest(Seq::empty(), chunks) == rest_of(concat_chunks(chunks)),
{
    lemma_empty_no_delim();
    lemma_chunking_invariance(Seq::empty(), chunks);
    assert(Seq::<u8>::empty() + concat_chunks(chunks) =~= concat_chunks(chunks));
}

/// The byte views of a sequence of byte vectors.
pub open spec fn views_of(frames: Seq<Vec<u8>>) -> Seq<Seq<u8>> {
    frames.map_values(|f: Vec<u8>| f@)
}

/// Copies `v[a..b]` into a fresh vector.
pub fn take_range(v: &Vec<u8>, a: usize, b: usize) -> (r: Vec<u8>)
    requires
        a <= b && b <= v@.len(),
    ensures
        r@ == v@.subrange(a as int, b as int),
{
    let mut r: Vec<u8> = Vec::new();
    let mut k: usize = a;
    while k < b
        invariant
            a <= k <= b,
            b <= v@.len(),
            r@ == v@.subrange(a as int, k as int),
        decreases b - k,
    {
        r.push(v[k]);
        k = k + 1;
        assert(r@ =~= v@.subrange(a as int, k as int));
    }
    r
}

/// Finds the first frame delimiter in `v`, if any.
fn find_delim(v: &Vec<u8>) -> (r: Option<usize>)
    ensures
        match r {
            Some(i) => first_delim(v@) == Some(i as int),
            None => first_delim(v@) is None,
        },
{
    if v.len() < 2 {
        return None;
    }
    let mut j: usize = 0;
    while j <= v.len() - 2
        invariant
            v@.len() >= 2,
            j <= v@.len(),
            first_delim(v@) == first_delim_from(v@, j as int),
        decreases v@.len() - j,
    {
        if v[j] == NL && v[j + 1] == NL {
            return Some(j);
        }
        j = j + 1;
    }
    None
}

/// Accumulates raw stream bytes and splits off every completed frame.
pub struct FrameBuffer {
    buf: Vec<u8>,
}

impl FrameBuffer {
    /// The bytes received so far that are not yet part of an emitted frame.
    pub closed spec fn pending(self) -> Seq<u8> {
        self.buf@
    }

    /// The buffer retains at most a trailing partial frame: no delimiter.
    pub closed spec fn wf(self) -> bool {
        !has_delim(self.buf@)
    }

    /// A fresh, empty buffer.
    pub fn new() -> (r: Self)
        ensures
            r.wf(),
            r.pending() == Seq::<u8>::empty(),
    {
        proof {
            lemma_empty_no_delim();
        }
        FrameBuffer { buf: Vec::new() }
    }

    /// Appends `chunk` and returns every frame completed so far, in arrival
    /// order; everything after the last delimiter stays pending.
    pub fn absorb(&mut self, chunk: &[u8]) -> (frames: Vec<Vec<u8>>)
        requires
            old(self).wf(),
        ensures
            final(self).wf(),
            views_of(frames@) == frames_of(old(self).pending() + chunk@),
            final(self).pending() == rest_of(old(self).pending() + chunk@),
    {
        let ghost total: Seq<u8> = self.buf@ + chunk@;
        let mut k: usize = 0;
        while k < chunk.len()
            invariant
                k <= chunk@.len(),
                self.buf@ == old(self).buf@ + chunk@.take(k as int),
            decreases chunk@.len() - k,
        {
            self.buf.push(chunk[k]);
            k = k + 1;
            assert(self.buf@ =~= old(self).buf@ + chunk@.take(k as int));
        }
        assert(self.buf@ =~= total);
        let mut frames: Vec<Vec<u8>> = Vec::new();
        assert(views_of(frames@) + frames_of(self.buf@) =~= frames_of(total));
        loop
            invariant
                views_of(frames@) + frames_of(self.buf@) == frames_of(total),
                rest_of(self.buf@) == rest_of(total),
            ensures
                views_of(frames@) + frames_of(self.buf@) == frames_of(total),
                rest_of(self.buf@) == rest_of(total),
                first_delim(self.buf@) is None,
            decreases self.buf@.len(),
        {
            match find_delim(&self.buf) {
                None => {
                    break ;
                }
                Some(i) => {
                    proof {
                        lemma_first_delim_from(self.buf@, 0);
                        assert(delim_at(self.buf@, i as int));
                        assert(i + 2 <= self.buf@.len());
                    }
                    let ghost prev = self.buf@;
                    let ghost prev_frames = frames@;
                    let frame = take_range(&self.buf, 0, i);
                    let end = self.buf.len();
                    let tail = take_range(&self.buf, i + 2, end);
                    self.buf = tail;
                    frames.push(frame);
                    proof {
                        assert(frames_of(prev) == seq![prev.subrange(0, i as int)] + frames_of(
                            self.buf@,
                        ));
                        assert(views_of(frames@) =~= views_of(prev_frames).push(frame@));
                        assert(views_of(frames@) + frames_of(self.buf@) =~= views_of(prev_frames)
                            + frames_of(prev));
                    }
                }
            }
        }
        proof {
            lemma_first_delim_from(self.buf@, 0);
            lemma_no_delim_no_frames(self.buf@);
            assert(views_of(frames@) + frames_of(self.buf@) =~= views_of(frames@));
        }
        frames
    }
}

} // verus!
