//! The framing of a response body: a body of known length (`Content-Length`)
//! or a chunked body (`Transfer-Encoding: chunked`).
//!
//! The decoders here hold the bytes read so far and decide what to hand out;
//! reading from the connection is left to their caller, which passes the
//! bytes it read to `fill`.

use vstd::prelude::*;
use crate::http::reads::{chunked_take, stream_apply, StreamEvent};
use vstd::slice::slice_subrange;

verus! {

/// What `httparse::parse_chunk_size` returns for `buf`: `None` for an invalid
/// chunk-size line, `Some(None)` when `buf` ends before the line does, and
/// `Some(Some((pos, size)))` when the line is complete, `pos` being the index
/// just past its line break and `size` the chunk's size.
pub uninterp spec fn chunk_size_parse(buf: Seq<u8>) -> Option<Option<(usize, u64)>>;

/// Parses a chunk-size line through `httparse::parse_chunk_size`. The result
/// is the name `chunk_size_parse` of the bytes; what the source shows besides
/// is that a complete line ends within `buf`.
#[verifier::external_body]
fn parse_chunk_size(buf: &[u8]) -> (r: Option<Option<(usize, u64)>>)
    ensures
        r == chunk_size_parse(buf@),
        r matches Some(Some((pos, _))) ==> pos <= buf@.len(),
{
    match httparse::parse_chunk_size(buf) {
        Ok(httparse::Status::Complete(x)) => Some(Some(x)),
        Ok(httparse::Status::Partial) => Some(None),
        Err(_) => None,
    }
}

/// A chunk-size line that does not parse.
#[derive(Copy, Clone, Debug, PartialEq, Eq, Structural)]
pub enum BodyError {
    InvalidChunkSize,
}

/// How many bytes a read copies from a chunk of `chunk_len` bytes into a
/// destination with room for `room` more, and whether the read stops after
/// that: it goes on to the next chunk only while room is left.
pub fn copy_amount(chunk_len: usize, room: usize) -> (r: (usize, bool))
    ensures
        room > chunk_len ==> r == (chunk_len, false),
        room <= chunk_len ==> r == (room, true),
{
    if room > chunk_len {
        (chunk_len, false)
    } else {
        (room, true)
    }
}

/// The decoder's state: the buffered bytes, where the current chunk's unread
/// data begins, and how many bytes of the current chunk are left.
pub struct ChunkedView {
    pub buf: Seq<u8>,
    pub pos: int,
    pub remaining: int,
}

/// A decoder of a chunked body.
///
/// Between chunks, `pos` points at the line break that ends the previous
/// chunk's data; the next chunk-size line starts two bytes later.
pub struct Chunked {
    buf: Vec<u8>,
    pos: usize,
    remaining_size: usize,
}

impl View for Chunked {
    type V = ChunkedView;

    closed spec fn view(&self) -> ChunkedView {
        ChunkedView { buf: self.buf@, pos: self.pos as int, remaining: self.remaining_size as int }
    }
}

/// The length of the data of the current chunk that is buffered: what is
/// left of the chunk, or less when fewer bytes have arrived.
pub open spec fn chunk_len(v: ChunkedView) -> int {
    if v.remaining <= v.buf.len() - v.pos {
        v.remaining
    } else {
        v.buf.len() - v.pos
    }
}

/// What reading the chunk-size line two bytes past `v.pos` yields, and the
/// state after it: a complete line of a non-empty chunk moves the read
/// position to the chunk's data and sets what is left of it.
pub open spec fn spec_parse_line(v: ChunkedView) -> (Result<bool, BodyError>, ChunkedView) {
    match chunk_size_parse(v.buf.skip(v.pos + 2)) {
        None => (Err(BodyError::InvalidChunkSize), v),
        Some(None) => (Ok(false), v),
        Some(Some((p, size))) => (
            Ok(true),
            if size == 0 {
                v
            } else {
                ChunkedView { buf: v.buf, pos: v.pos + 2 + p, remaining: size as usize as int }
            },
        ),
    }
}

/// What `prepare_next_chunk` yields on the state `v`, and the state after it.
pub open spec fn spec_prepare(v: ChunkedView) -> (Result<bool, BodyError>, ChunkedView) {
    if v.remaining == 0 {
        if v.buf.len() - v.pos > 2 {
            spec_parse_line(v)
        } else {
            (Ok(false), v)
        }
    } else {
        (Ok(v.pos < v.buf.len()), v)
    }
}

impl Chunked {
    /// The read position lies within the buffer.
    pub open spec fn wf(&self) -> bool {
        0 <= self@.pos <= self@.buf.len()
    }

    /// Starts decoding a body whose head ended at `pos` in `buf`: the bytes
    /// before the head's last line break are dropped.
    pub fn new(buf: Vec<u8>, pos: usize) -> (r: Self)
        requires
            2 <= pos <= buf@.len(),
        ensures
            r.wf(),
            r@.buf == buf@.skip(pos - 2),
            r@.pos == 0,
            r@.remaining == 0,
    {
        let mut this = Chunked { buf, pos: 0, remaining_size: 0 };
        this.consume_buf(pos - 2);
        this
    }

    /// Drops the first `count` bytes of the buffer and moves the read
    /// position to the start.
    pub fn consume_buf(&mut self, count: usize)
        requires
            count <= old(self)@.buf.len(),
        ensures
            final(self).wf(),
            final(self)@.buf == old(self)@.buf.skip(count as int),
            final(self)@.pos == 0,
            final(self)@.remaining == old(self)@.remaining,
    {
        let len = self.buf.len() - count;
        let ghost old_buf = self.buf@;
        let mut i: usize = 0;
        while i < len
            invariant
                len == old_buf.len() - count,
                count <= old_buf.len() <= usize::MAX,
                i <= len,
                self.buf@.len() == old_buf.len(),
                forall|j: int| 0 <= j < i ==> self.buf@[j] == old_buf[j + count],
                forall|j: int| i <= j < old_buf.len() ==> self.buf@[j] == old_buf[j],
                self.remaining_size == old(self).remaining_size,
            decreases len - i,
        {
            let b = self.buf[i + count];
            self.buf.set(i, b);
            i = i + 1;
        }
        self.buf.truncate(len);
        self.pos = 0;
        assert(self.buf@ =~= old_buf.skip(count as int));
    }

    /// Reads the chunk-size line that starts two bytes past `pos`. Returns
    /// whether the line was complete; an invalid line is an error.
    fn parse_buf(&mut self) -> (r: Result<bool, BodyError>)
        requires
            old(self).wf(),
            old(self)@.pos + 2 <= old(self)@.buf.len(),
            old(self)@.remaining == 0,
        ensures
            final(self).wf(),
            (r, final(self)@) == spec_parse_line(old(self)@),
    {
        let total = self.buf.len();
        let pos_next = self.pos + 2;
        let line = slice_subrange(self.buf.as_slice(), pos_next, total);
        assert(line@ == self@.buf.skip(self@.pos + 2));
        match parse_chunk_size(line) {
            Some(Some((pos, len))) => {
                if len == 0 {
                    return Ok(true);
                }
                self.pos = pos_next + pos;
                self.remaining_size = self.remaining_size + (len as usize);
                Ok(true)
            },
            Some(None) => Ok(false),
            None => Err(BodyError::InvalidChunkSize),
        }
    }

    /// Whether data of a chunk is buffered and can be handed out without
    /// reading. When the previous chunk is done and its line break and the
    /// next chunk-size line have arrived, the line is read first.
    pub fn prepare_next_chunk(&mut self) -> (r: Result<bool, BodyError>)
        requires
            old(self).wf(),
        ensures
            final(self).wf(),
            (r, final(self)@) == spec_prepare(old(self)@),
    {
        if self.remaining_size == 0 {
            if self.buf.len() - self.pos > 2 {
                self.parse_buf()
            } else {
                Ok(false)
            }
        } else {
            Ok(self.pos < self.buf.len())
        }
    }

    /// The buffered data of the current chunk; empty at the end of the body.
    pub fn next_chunk(&self) -> (r: &[u8])
        requires
            self.wf(),
        ensures
            r@ == self@.buf.subrange(self@.pos, self@.pos + chunk_len(self@)),
    {
        let avail = self.buf.len() - self.pos;
        let len = if self.remaining_size <= avail { self.remaining_size } else { avail };
        slice_subrange(self.buf.as_slice(), self.pos, self.pos + len)
    }

    /// Marks `amt` bytes of the current chunk as read.
    pub fn consume(&mut self, amt: usize)
        requires
            old(self).wf(),
            amt <= chunk_len(old(self)@),
        ensures
            final(self).wf(),
            final(self)@.buf == old(self)@.buf,
            final(self)@.pos == old(self)@.pos + amt,
            final(self)@.remaining == old(self)@.remaining - amt,
    {
        // The buffer's length, a `usize`, bounds the new position.
        let _ = self.buf.len();
        self.pos = self.pos + amt;
        self.remaining_size = self.remaining_size - amt;
    }

    /// Takes `data`, freshly read from the connection: the bytes before the
    /// read position are dropped and `data` is appended.
    pub fn fill(&mut self, data: &[u8])
        requires
            old(self).wf(),
        ensures
            final(self).wf(),
            final(self)@.buf == old(self)@.buf.skip(old(self)@.pos) + data@,
            final(self)@.pos == 0,
            final(self)@.remaining == old(self)@.remaining,
    {
        let pos = self.pos;
        self.consume_buf(pos);
        append_bytes(&mut self.buf, data);
    }
}

/// Appends `data` to `buf`.
fn append_bytes(buf: &mut Vec<u8>, data: &[u8])
    ensures
        final(buf)@ == old(buf)@ + data@,
{
    let mut i: usize = 0;
    while i < data.len()
        invariant
            i <= data@.len(),
            buf@ == old(buf)@ + data@.subrange(0, i as int),
        decreases data@.len() - i,
    {
        buf.push(data[i]);
        i = i + 1;
        assert(data@.subrange(0, i as int) =~= data@.subrange(0, i - 1) + seq![data@[i - 1]]);
    }
    assert(data@.subrange(0, data@.len() as int) =~= data@);
}

/// The state of a body of known length: the buffered bytes, where the
/// unread ones begin, and how many bytes of the body are left to hand out.
pub struct StreamView {
    pub buf: Seq<u8>,
    pub pos: int,
    pub len: int,
}

/// A decoder of a body of known length.
pub struct Stream {
    buf: Vec<u8>,
    pos: usize,
    len: usize,
}

impl View for Stream {
    type V = StreamView;

    closed spec fn view(&self) -> StreamView {
        StreamView { buf: self.buf@, pos: self.pos as int, len: self.len as int }
    }
}

impl Stream {
    /// The read position lies within the buffer.
    pub open spec fn wf(&self) -> bool {
        0 <= self@.pos <= self@.buf.len()
    }

    /// Starts handing out a body of `len` bytes whose first bytes are in
    /// `buf` from `pos` on.
    pub fn new(buf: Vec<u8>, pos: usize, len: usize) -> (r: Self)
        requires
            pos <= buf@.len(),
        ensures
            r.wf(),
            r@ == (StreamView { buf: buf@, pos: pos as int, len: len as int }),
    {
        Stream { buf, pos, len }
    }

    /// Empties the buffer.
    pub fn clear_buf(&mut self)
        ensures
            final(self).wf(),
            final(self)@ == (StreamView { buf: Seq::empty(), pos: 0, len: old(self)@.len }),
    {
        self.buf.clear();
        self.pos = 0;
    }

    /// Whether the buffer is used up while bytes of the body are still to
    /// come, so that the connection must be read.
    pub fn needs_fill(&self) -> (r: bool)
        ensures
            r == (self@.pos >= self@.buf.len() && self@.len > 0),
    {
        self.pos >= self.buf.len() && self.len > 0
    }

    /// How many bytes to read into a buffer with room for `spare` bytes: no
    /// more than the body has left.
    pub fn read_limit(&self, spare: usize) -> (r: usize)
        ensures
            r == (if spare <= self@.len { spare as int } else { self@.len }),
    {
        if spare <= self.len {
            spare
        } else {
            self.len
        }
    }

    /// Takes `data`, freshly read from the connection, as the new buffer.
    pub fn fill(&mut self, data: &[u8])
        ensures
            final(self).wf(),
            final(self)@ == (StreamView { buf: data@, pos: 0, len: old(self)@.len }),
    {
        self.clear_buf();
        append_bytes(&mut self.buf, data);
        assert(self.buf@ =~= data@);
    }

    /// The unread buffered bytes.
    pub fn available(&self) -> (r: &[u8])
        requires
            self.wf(),
        ensures
            r@ == self@.buf.skip(self@.pos),
    {
        slice_subrange(self.buf.as_slice(), self.pos, self.buf.len())
    }

    /// Marks `amt` buffered bytes as read.
    pub fn consume(&mut self, amt: usize)
        requires
            old(self).wf(),
            amt <= old(self)@.buf.len() - old(self)@.pos,
            amt <= old(self)@.len,
        ensures
            final(self).wf(),
            final(self)@ == (StreamView {
                buf: old(self)@.buf,
                pos: old(self)@.pos + amt,
                len: old(self)@.len - amt,
            }),
    {
        // The buffer's length, a `usize`, bounds the new position.
        let _ = self.buf.len();
        self.pos = self.pos + amt;
        self.len = self.len - amt;
    }

    /// Whether a read into a destination with room for `room` bytes goes to
    /// the connection directly: nothing is buffered, the destination can take
    /// at least a buffer of `spare` bytes, and the body is not over.
    pub fn bypass(&self, room: usize, spare: usize) -> (r: bool)
        ensures
            r == (self@.pos == self@.buf.len() && room >= spare && self@.len > 0),
    {
        self.pos == self.buf.len() && room >= spare && self.len > 0
    }

    /// Records that `n` bytes of the body were read from the connection
    /// directly, and empties the buffer.
    pub fn direct_read(&mut self, n: usize)
        requires
            n <= old(self)@.len,
        ensures
            final(self).wf(),
            final(self)@ == (StreamView { buf: Seq::empty(), pos: 0, len: old(self)@.len - n }),
    {
        self.len = self.len - n;
        self.clear_buf();
    }
}

/// Once the zero-size chunk that ends a body has been read, the decoder
/// stays where it is: it reports data as ready, hands out nothing, and does
/// so again on every later call.
pub proof fn lemma_end_of_body_is_final(v: ChunkedView, p: usize)
    requires
        v.remaining == 0,
        v.buf.len() - v.pos > 2,
        chunk_size_parse(v.buf.skip(v.pos + 2)) == Some(Some((p, 0u64))),
    ensures
        spec_prepare(v) == (Ok::<bool, BodyError>(true), v),
        chunk_len(v) == 0,
        spec_prepare(spec_prepare(v).1) == spec_prepare(v),
{
}

/// A chunk-size line that is not complete yet changes nothing: the decoder
/// waits for more bytes, and asks again after they came.
pub proof fn lemma_partial_line_waits(v: ChunkedView)
    requires
        v.remaining == 0,
        v.buf.len() - v.pos > 2,
        chunk_size_parse(v.buf.skip(v.pos + 2)) == Some(None::<(usize, u64)>),
    ensures
        spec_prepare(v) == (Ok::<bool, BodyError>(false), v),
{
}

/// After a complete line of a non-empty chunk, the data handed out is the
/// bytes right after the line, as many as the chunk has or as have arrived.
pub proof fn lemma_chunk_follows_its_line(v: ChunkedView, p: usize, size: u64)
    requires
        v.remaining == 0,
        0 <= v.pos,
        v.buf.len() - v.pos > 2,
        chunk_size_parse(v.buf.skip(v.pos + 2)) == Some(Some((p, size))),
        size != 0,
        v.pos + 2 + p <= v.buf.len(),
    ensures
        ({
            let w = spec_prepare(v).1;
            let start = v.pos + 2 + p;
            &&& spec_prepare(v).0 == Ok::<bool, BodyError>(true)
            &&& w.buf.subrange(w.pos, w.pos + chunk_len(w)) == v.buf.subrange(
                start,
                start + if size as usize <= v.buf.len() - start {
                    size as usize as int
                } else {
                    v.buf.len() - start
                },
            )
        }),
{
}

/// Reading all of what a chunk hands out either finishes the chunk or uses
/// up the buffered bytes.
pub proof fn lemma_consume_all_of_chunk(v: ChunkedView)
    requires
        0 <= v.pos <= v.buf.len(),
        0 <= v.remaining,
    ensures
        ({
            let n = chunk_len(v);
            let w = ChunkedView { buf: v.buf, pos: v.pos + n, remaining: v.remaining - n };
            w.remaining == 0 || w.pos == w.buf.len()
        }),
{
}

/// A response body, of known length or chunked.
pub enum BodyInner {
    Stream(Stream),
    Chunked(Chunked),
}

/// A response body being handed out.
pub struct Body {
    inner: BodyInner,
}

impl Body {
    /// The body's decoder.
    pub closed spec fn spec_inner(&self) -> BodyInner {
        self.inner
    }

    /// The decoder's read position lies within its buffer.
    pub open spec fn wf(&self) -> bool {
        match self.spec_inner() {
            BodyInner::Stream(s) => s.wf(),
            BodyInner::Chunked(c) => c.wf(),
        }
    }

    /// The body that follows a head ending at `pos` in `buf`: of `len`
    /// bytes when the length is known, chunked otherwise.
    pub fn new(buf: Vec<u8>, pos: usize, len: Option<usize>) -> (r: Self)
        requires
            pos <= buf@.len(),
            len is None ==> 2 <= pos,
        ensures
            r.wf(),
            match len {
                Some(n) => r.spec_inner() matches BodyInner::Stream(s) && s@ == (StreamView {
                    buf: buf@,
                    pos: pos as int,
                    len: n as int,
                }),
                None => r.spec_inner() matches BodyInner::Chunked(c) && c@ == (ChunkedView {
                    buf: buf@.skip(pos - 2),
                    pos: 0,
                    remaining: 0,
                }),
            },
    {
        let inner = match len {
            Some(len) => BodyInner::Stream(Stream::new(buf, pos, len)),
            None => BodyInner::Chunked(Chunked::new(buf, pos)),
        };
        Body { inner }
    }

    /// Whether the connection must be read before data can be handed out.
    /// A chunked body reads a buffered chunk-size line first.
    pub fn needs_fill(&mut self) -> (r: Result<bool, BodyError>)
        requires
            old(self).wf(),
        ensures
            final(self).wf(),
            match (old(self).spec_inner(), final(self).spec_inner()) {
                (BodyInner::Stream(s0), BodyInner::Stream(s1)) => s1@ == s0@ && r == Ok::<
                    bool,
                    BodyError,
                >(s0@.pos >= s0@.buf.len() && s0@.len > 0),
                (BodyInner::Chunked(c0), BodyInner::Chunked(c1)) => c1@ == spec_prepare(c0@).1
                    && r == match spec_prepare(c0@).0 {
                    Ok(ready) => Ok::<bool, BodyError>(!ready),
                    Err(e) => Err(e),
                },
                _ => false,
            },
    {
        match &mut self.inner {
            BodyInner::Stream(s) => Ok(s.needs_fill()),
            BodyInner::Chunked(c) => {
                let ready = c.prepare_next_chunk()?;
                Ok(!ready)
            },
        }
    }

    /// How many bytes to read from the connection into a buffer with room
    /// for `spare` bytes.
    pub fn read_limit(&self, spare: usize) -> (r: usize)
        ensures
            match self.spec_inner() {
                BodyInner::Stream(s) => r == (if spare <= s@.len { spare as int } else { s@.len }),
                BodyInner::Chunked(_) => r == spare,
            },
    {
        match &self.inner {
            BodyInner::Stream(s) => s.read_limit(spare),
            BodyInner::Chunked(_) => spare,
        }
    }

    /// Takes `data`, freshly read from the connection. A chunked body then
    /// reads a chunk-size line if one is now complete.
    pub fn fill(&mut self, data: &[u8]) -> (r: Result<(), BodyError>)
        requires
            old(self).wf(),
        ensures
            final(self).wf(),
            match (old(self).spec_inner(), final(self).spec_inner()) {
                (BodyInner::Stream(s0), BodyInner::Stream(s1)) => s1@ == (StreamView {
                    buf: data@,
                    pos: 0,
                    len: s0@.len,
                }) && r is Ok,
                (BodyInner::Chunked(c0), BodyInner::Chunked(c1)) => {
                    let filled = ChunkedView {
                        buf: c0@.buf.skip(c0@.pos) + data@,
                        pos: 0,
                        remaining: c0@.remaining,
                    };
                    &&& c1@ == spec_prepare(filled).1
                    &&& (r is Ok <==> spec_prepare(filled).0 is Ok)
                },
                _ => false,
            },
            match (old(self).spec_inner(), final(self).spec_inner()) {
                (BodyInner::Stream(s0), BodyInner::Stream(s1)) => s0@.pos >= s0@.buf.len() && s0@.len
                    > 0 && data@.len() <= s0@.len ==> stream_apply(s0@, StreamEvent::Fill(data@))
                    == Some((Seq::<u8>::empty(), s1@)),
                _ => true,
            },
    {
        match &mut self.inner {
            BodyInner::Stream(s) => {
                s.fill(data);
                Ok(())
            },
            BodyInner::Chunked(c) => {
                c.fill(data);
                c.prepare_next_chunk()?;
                Ok(())
            },
        }
    }

    /// The bytes that can be handed out now; empty at the end of the body.
    pub fn chunk(&self) -> (r: &[u8])
        requires
            self.wf(),
        ensures
            match self.spec_inner() {
                BodyInner::Stream(s) => r@ == s@.buf.skip(s@.pos),
                BodyInner::Chunked(c) => r@ == c@.buf.subrange(c@.pos, c@.pos + chunk_len(c@)),
            },
    {
        match &self.inner {
            BodyInner::Stream(s) => s.available(),
            BodyInner::Chunked(c) => c.next_chunk(),
        }
    }

    /// The bytes `chunk` hands out.
    pub open spec fn spec_chunk(&self) -> Seq<u8> {
        match self.spec_inner() {
            BodyInner::Stream(s) => s@.buf.skip(s@.pos),
            BodyInner::Chunked(c) => c@.buf.subrange(c@.pos, c@.pos + chunk_len(c@)),
        }
    }

    /// The number of bytes `chunk` hands out.
    pub open spec fn spec_chunk_len(&self) -> int {
        match self.spec_inner() {
            BodyInner::Stream(s) => s@.buf.len() - s@.pos,
            BodyInner::Chunked(c) => chunk_len(c@),
        }
    }

    /// Whether `amt` bytes may be marked as read: no more than `chunk` hands
    /// out, and for a body of known length no more than is left of it.
    pub open spec fn may_consume(&self, amt: int) -> bool {
        &&& amt <= self.spec_chunk_len()
        &&& self.spec_inner() matches BodyInner::Stream(s) ==> amt <= s@.len
    }

    /// What is left of a body of known length; nothing for a chunked body.
    pub fn remaining_len(&self) -> (r: Option<usize>)
        ensures
            match self.spec_inner() {
                BodyInner::Stream(s) => r == Some(s@.len as usize),
                BodyInner::Chunked(_) => r is None,
            },
    {
        match &self.inner {
            BodyInner::Stream(s) => Some(s.len),
            BodyInner::Chunked(_) => None,
        }
    }

    /// Marks `amt` bytes of those `chunk` hands out as read.
    pub fn consume(&mut self, amt: usize)
        requires
            old(self).wf(),
            old(self).may_consume(amt as int),
        ensures
            final(self).wf(),
            match (old(self).spec_inner(), final(self).spec_inner()) {
                (BodyInner::Stream(s0), BodyInner::Stream(s1)) => s1@ == (StreamView {
                    buf: s0@.buf,
                    pos: s0@.pos + amt,
                    len: s0@.len - amt,
                }),
                (BodyInner::Chunked(c0), BodyInner::Chunked(c1)) => c1@ == (ChunkedView {
                    buf: c0@.buf,
                    pos: c0@.pos + amt,
                    remaining: c0@.remaining - amt,
                }),
                _ => false,
            },
    {
        match &mut self.inner {
            BodyInner::Stream(s) => s.consume(amt),
            BodyInner::Chunked(c) => c.consume(amt),
        }
    }

    /// How many bytes `read_step` copies when the body hands out `n` bytes
    /// and the destination has room for `room`.
    pub open spec fn spec_step_amount(n: int, room: int) -> int {
        if room > n {
            n
        } else {
            room
        }
    }

    /// One step of a read into a destination with room for `room` more
    /// bytes: copies to the end of `dest` as much of what `chunk` hands out
    /// as fits, marks it read, and returns how many bytes it copied and
    /// whether the read stops there. A read stops at the end of the body,
    /// when the destination is full, and after one step on a body of known
    /// length; on a chunked body it goes on to the next chunk.
    pub fn read_step(&mut self, dest: &mut Vec<u8>, room: usize) -> (r: (usize, bool))
        requires
            old(self).wf(),
            old(self).may_consume(
                Self::spec_step_amount(old(self).spec_chunk_len(), room as int),
            ),
        ensures
            final(self).wf(),
            ({
                let n = old(self).spec_chunk_len();
                let amt = Self::spec_step_amount(n, room as int);
                &&& r.0 == amt
                &&& r.1 == (n == 0 || room <= n || old(self).spec_inner() is Stream)
                &&& final(dest)@ == old(dest)@ + old(self).spec_chunk().subrange(0, amt)
                &&& match (old(self).spec_inner(), final(self).spec_inner()) {
                    (BodyInner::Stream(s0), BodyInner::Stream(s1)) => s1@ == (StreamView {
                        buf: s0@.buf,
                        pos: s0@.pos + amt,
                        len: s0@.len - amt,
                    }),
                    (BodyInner::Chunked(c0), BodyInner::Chunked(c1)) => c1@ == (ChunkedView {
                        buf: c0@.buf,
                        pos: c0@.pos + amt,
                        remaining: c0@.remaining - amt,
                    }),
                    _ => false,
                }
            }),
            ({
                let out = final(dest)@.skip(old(dest)@.len() as int);
                match (old(self).spec_inner(), final(self).spec_inner()) {
                    (BodyInner::Stream(s0), BodyInner::Stream(s1)) => stream_apply(
                        s0@,
                        StreamEvent::Read(room as int),
                    ) == Some((out, s1@)),
                    (BodyInner::Chunked(c0), BodyInner::Chunked(c1)) => chunked_take(
                        c0@,
                        room as int,
                    ) == (out, c1@),
                    _ => false,
                }
            }),
    {
        let ghost before = dest@;
        let chunk = self.chunk();
        let len = chunk.len();
        if len == 0 {
            assert(old(self).spec_chunk().subrange(0, 0) =~= Seq::<u8>::empty());
            assert(dest@ =~= old(dest)@ + Seq::<u8>::empty());
            self.consume(0);
            assert(dest@.skip(before.len() as int) =~= Seq::<u8>::empty());
            proof {
                match old(self).spec_inner() {
                    BodyInner::Stream(s0) => {
                        assert(s0@.buf.subrange(s0@.pos, s0@.pos) =~= Seq::<u8>::empty());
                    },
                    BodyInner::Chunked(c0) => {
                        assert(c0@.buf.subrange(c0@.pos, c0@.pos) =~= Seq::<u8>::empty());
                    },
                }
            }
            return (0, true);
        }
        let (amt, stop) = copy_amount(len, room);
        let taken = slice_subrange(chunk, 0, amt);
        append_bytes(dest, taken);
        assert(dest@.skip(before.len() as int) =~= taken@);
        self.consume(amt);
        let known_length = match &self.inner {
            BodyInner::Stream(_) => true,
            BodyInner::Chunked(_) => false,
        };
        (amt, stop || known_length)
    }

    /// Whether a read into a destination with room for `room` bytes goes to
    /// the connection directly; only a body of known length does so.
    pub fn bypass(&self, room: usize, spare: usize) -> (r: bool)
        ensures
            match self.spec_inner() {
                BodyInner::Stream(s) => r == (s@.pos == s@.buf.len() && room >= spare && s@.len > 0),
                BodyInner::Chunked(_) => !r,
            },
    {
        match &self.inner {
            BodyInner::Stream(s) => s.bypass(room, spare),
            BodyInner::Chunked(_) => false,
        }
    }

    /// Records that `n` bytes of a body of known length were read from the
    /// connection directly.
    pub fn direct_read(&mut self, n: usize)
        requires
            old(self).spec_inner() matches BodyInner::Stream(s) && n <= s@.len,
        ensures
            final(self).wf(),
            match (old(self).spec_inner(), final(self).spec_inner()) {
                (BodyInner::Stream(s0), BodyInner::Stream(s1)) => s1@ == (StreamView {
                    buf: Seq::empty(),
                    pos: 0,
                    len: s0@.len - n,
                }) && (s0@.pos == s0@.buf.len() && s0@.len > 0 ==> forall|d: Seq<u8>|
                    d.len() == n ==> stream_apply(s0@, StreamEvent::Direct(d)) == Some((d, s1@))),
                _ => false,
            },
    {
        match &mut self.inner {
            BodyInner::Stream(s) => s.direct_read(n),
            BodyInner::Chunked(_) => {},
        }
    }
}

} // verus!
