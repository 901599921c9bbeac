use vstd::prelude::*;

verus! {

/// Line feed: one of the two bytes that mark a message boundary.
pub const LF: u8 = 0x0A;

/// Carriage return: one of the two bytes that mark a message boundary.
pub const CR: u8 = 0x0D;

/// The length above which an undelimited buffer is discarded.
pub const DISCARD_THRESHOLD: usize = 1024;

/// Whether `b` marks a message boundary.
pub open spec fn is_delimiter(b: u8) -> bool {
    b == CR || b == LF
}

/// Whether some byte of `s` marks a message boundary.
pub open spec fn has_delimiter(s: Seq<u8>) -> bool {
    exists|i: int| 0 <= i < s.len() && #[trigger] is_delimiter(s[i])
}

/// `s` without its last byte where that byte is a NUL, else `s` itself.
pub open spec fn strip_trailing_nul(s: Seq<u8>) -> Seq<u8> {
    if s.len() > 0 && s.last() == 0u8 {
        s.drop_last()
    } else {
        s
    }
}

/// The message that a buffer holding `s` yields, if any.
pub open spec fn framed_message(s: Seq<u8>) -> Option<Seq<u8>> {
    if has_delimiter(s) {
        Some(strip_trailing_nul(s))
    } else {
        None
    }
}

/// What a buffer holding `s` retains once it has been examined.
pub open spec fn retained(s: Seq<u8>) -> Seq<u8> {
    if has_delimiter(s) || s.len() > DISCARD_THRESHOLD {
        Seq::empty()
    } else {
        s
    }
}

/// A chunk that holds a delimiter frames the whole buffer into one message,
/// less one trailing NUL, and leaves the buffer empty.
pub proof fn lemma_delimited_chunk_frames(buf: Seq<u8>, chunk: Seq<u8>)
    requires
        has_delimiter(chunk),
    ensures
        framed_message(buf + chunk) == Some(strip_trailing_nul(buf + chunk)),
        retained(buf + chunk) == Seq::<u8>::empty(),
{
    let i = choose|i: int| 0 <= i < chunk.len() && #[trigger] is_delimiter(chunk[i]);
    assert((buf + chunk)[buf.len() + i] == chunk[i]);
}

/// Without a delimiter, a buffer that grows past the threshold is discarded
/// and yields no message.
pub proof fn lemma_overflow_discards(buf: Seq<u8>, chunk: Seq<u8>)
    requires
        !has_delimiter(buf + chunk),
        (buf + chunk).len() > DISCARD_THRESHOLD,
    ensures
        framed_message(buf + chunk) is None,
        retained(buf + chunk) == Seq::<u8>::empty(),
{
}

/// Whether `b` is a byte of `s`: the executable form of `has_delimiter` for one byte.
fn contains_byte(s: &Vec<u8>, b: u8) -> (r: bool)
    ensures
        r == exists|i: int| 0 <= i < s@.len() && s@[i] == b,
{
    let mut i: usize = 0;
    while i < s.len()
        invariant
            i <= s@.len(),
            forall|j: int| 0 <= j < i ==> s@[j] != b,
        decreases s@.len() - i,
    {
        if s[i] == b {
            return true;
        }
        i = i + 1;
    }
    false
}

/// Examines an accumulated buffer: where it holds a delimiter anywhere, it is
/// emitted whole as one message (less one trailing NUL) and nothing is kept;
/// where it holds none and is longer than the threshold, it is discarded;
/// otherwise it is kept as it is.
pub fn process_buffer(buffer: Vec<u8>) -> (r: (Option<Vec<u8>>, Vec<u8>))
    ensures
        r.0 matches Some(m) ==> framed_message(buffer@) == Some(m@),
        r.0 is None ==> framed_message(buffer@) is None,
        r.1@ == retained(buffer@),
{
    let mut buffer = buffer;
    let delimited = contains_byte(&buffer, LF) || contains_byte(&buffer, CR);
    proof {
        if delimited {
            let i = choose|i: int| 0 <= i < buffer@.len() && (buffer@[i] == LF || buffer@[i] == CR);
            assert(is_delimiter(buffer@[i]));
        }
        if has_delimiter(buffer@) {
            let i = choose|i: int| 0 <= i < buffer@.len() && #[trigger] is_delimiter(buffer@[i]);
            assert(buffer@[i] == LF || buffer@[i] == CR);
        }
    }
    if delimited {
        let last = buffer.len() - 1;
        if buffer[last] == 0 {
            buffer.pop();
        }
        (Some(buffer), Vec::new())
    } else if buffer.len() > DISCARD_THRESHOLD {
        (None, Vec::new())
    } else {
        (None, buffer)
    }
}

/// An accumulation buffer that turns a stream of chunks into messages.
pub struct Framer {
    buffer: Vec<u8>,
}

impl View for Framer {
    type V = Seq<u8>;

    closed spec fn view(&self) -> Seq<u8> {
        self.buffer@
    }
}

impl Framer {
    /// The buffer never holds more than the threshold between two chunks.
    pub open spec fn wf(&self) -> bool {
        self@.len() <= DISCARD_THRESHOLD
    }

    /// An empty buffer.
    pub fn new() -> (r: Framer)
        ensures
            r@ == Seq::<u8>::empty(),
            r.wf(),
    {
        Framer { buffer: Vec::new() }
    }

    /// Appends `chunk` to the buffer, then examines the buffer as
    /// `process_buffer` does: returns the message it yields, if any, and keeps
    /// what it retains.
    pub fn push(&mut self, chunk: &[u8]) -> (r: Option<Vec<u8>>)
        requires
            old(self).wf(),
        ensures
            final(self).wf(),
            r matches Some(m) ==> framed_message(old(self)@ + chunk@) == Some(m@),
            r is None ==> framed_message(old(self)@ + chunk@) is None,
            final(self)@ == retained(old(self)@ + chunk@),
    {
        let mut buffer: Vec<u8> = Vec::new();
        std::mem::swap(&mut buffer, &mut self.buffer);
        let ghost start = buffer@;
        let mut i: usize = 0;
        while i < chunk.len()
            invariant
                i <= chunk@.len(),
                buffer@ == start + chunk@.subrange(0, i as int),
            decreases chunk@.len() - i,
        {
            buffer.push(chunk[i]);
            i = i + 1;
            proof {
                assert(buffer@ =~= start + chunk@.subrange(0, i as int));
            }
        }
        assert(chunk@.subrange(0, chunk@.len() as int) =~= chunk@);
        let (message, rest) = process_buffer(buffer);
        self.buffer = rest;
        message
    }

    /// A copy of the bytes held.
    pub fn contents(&self) -> (r: Vec<u8>)
        ensures
            r@ == self@,
    {
        let mut r: Vec<u8> = Vec::new();
        let mut i: usize = 0;
        while i < self.buffer.len()
            invariant
                i <= self.buffer@.len(),
                r@ == self.buffer@.subrange(0, i as int),
            decreases self.buffer@.len() - i,
        {
            r.push(self.buffer[i]);
            i = i + 1;
            proof {
                assert(r@ =~= self.buffer@.subrange(0, i as int));
            }
        }
        assert(self.buffer@.subrange(0, i as int) =~= self.buffer@);
        r
    }
}

} // verus!
