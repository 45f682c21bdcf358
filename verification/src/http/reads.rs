//! What a body hands out over a sequence of reads.
//!
//! The decoders in `body` state what each operation does; here those steps
//! are put together, and it is proved that a body of known length hands out
//! exactly its bytes, and a chunked body exactly the data of its chunks.

use crate::http::body::{chunk_len, chunk_size_parse, spec_prepare, ChunkedView, StreamView};
use vstd::prelude::*;

verus! {

/// What happens to a body of known length between reads of its bytes.
pub enum StreamEvent {
    /// The buffer was used up and `0` bytes freshly read from the connection
    /// were put in its place (`Body::fill` after `needs_fill`).
    Fill(Seq<u8>),
    /// The bytes `0` were read from the connection straight into the
    /// destination (`Body::direct_read` after `bypass`).
    Direct(Seq<u8>),
    /// A read step into a destination with room for `0` bytes
    /// (`Body::read_step`).
    Read(int),
}

/// The bytes one event hands out and the state after it, or nothing when
/// the event cannot happen in that state: a fill only when the buffer is
/// used up and bytes are still to come, and never more of them than are
/// left; a direct read likewise; a read step only of bytes the body still
/// has to hand out.
pub open spec fn stream_apply(v: StreamView, e: StreamEvent) -> Option<(Seq<u8>, StreamView)> {
    match e {
        StreamEvent::Fill(d) => if v.pos >= v.buf.len() && v.len > 0 && d.len() <= v.len {
            Some((Seq::empty(), StreamView { buf: d, pos: 0, len: v.len }))
        } else {
            None
        },
        StreamEvent::Direct(d) => if v.pos == v.buf.len() && v.len > 0 && d.len() <= v.len {
            Some((d, StreamView { buf: Seq::empty(), pos: 0, len: v.len - d.len() }))
        } else {
            None
        },
        StreamEvent::Read(room) => {
            let n = v.buf.len() - v.pos;
            let amt = if room > n { n } else { room };
            if 0 <= room && amt <= v.len {
                Some(
                    (
                        v.buf.subrange(v.pos, v.pos + amt),
                        StreamView { buf: v.buf, pos: v.pos + amt, len: v.len - amt },
                    ),
                )
            } else {
                None
            }
        },
    }
}

/// The bytes read from the connection in an event.
pub open spec fn stream_input(e: StreamEvent) -> Seq<u8> {
    match e {
        StreamEvent::Fill(d) => d,
        StreamEvent::Direct(d) => d,
        StreamEvent::Read(_) => Seq::empty(),
    }
}

/// The bytes that `events` hand out from the state `v`, the bytes they read
/// from the connection, and the state they leave; nothing when one of them
/// cannot happen.
pub open spec fn stream_run(v: StreamView, events: Seq<StreamEvent>) -> Option<
    (Seq<u8>, Seq<u8>, StreamView),
>
    decreases events.len(),
{
    if events.len() == 0 {
        Some((Seq::empty(), Seq::empty(), v))
    } else {
        match stream_apply(v, events[0]) {
            None => None,
            Some((out, w)) => match stream_run(w, events.drop_first()) {
                None => None,
                Some((rest, input, last)) => Some(
                    (out + rest, stream_input(events[0]) + input, last),
                ),
            },
        }
    }
}

/// The state of a body of known length is sound when its read position lies
/// in the buffer and no more bytes are buffered than the body has left.
pub open spec fn stream_sound(v: StreamView) -> bool {
    &&& 0 <= v.pos <= v.buf.len()
    &&& v.buf.len() - v.pos <= v.len
}

/// From a sound state, a read step can always happen, and a state with no
/// bytes left hands out nothing and needs no fill.
pub proof fn lemma_stream_read_allowed(v: StreamView, room: int)
    requires
        stream_sound(v),
        room >= 0,
    ensures
        stream_apply(v, StreamEvent::Read(room)) is Some,
        v.len == 0 ==> stream_apply(v, StreamEvent::Read(room)) == Some(
            (Seq::<u8>::empty(), v),
        ),
        v.len == 0 ==> !(v.pos >= v.buf.len() && v.len > 0),
{
    if v.len == 0 {
        assert(v.buf.subrange(v.pos, v.pos) =~= Seq::<u8>::empty());
    }
}

/// A body of known length hands out exactly the bytes it had buffered
/// followed by the bytes read from the connection, in order, with none left
/// out or repeated, and never more than its length: over any events that
/// can happen, the bytes handed out and the bytes still buffered together
/// are the buffered bytes and the bytes read, and the bytes handed out and
/// the bytes left to hand out add up to the length. Once nothing is left,
/// everything has been handed out: the buffered bytes and all bytes read,
/// exactly the body's length of them.
pub proof fn lemma_stream_hands_out_its_bytes(v: StreamView, events: Seq<StreamEvent>)
    requires
        stream_sound(v),
        stream_run(v, events) is Some,
    ensures
        ({
            let (out, input, w) = stream_run(v, events).unwrap();
            &&& stream_sound(w)
            &&& out + w.buf.skip(w.pos) == v.buf.skip(v.pos) + input
            &&& out.len() + w.len == v.len
            &&& w.len == 0 ==> out == v.buf.skip(v.pos) + input && out.len() == v.len
        }),
    decreases events.len(),
{
    if events.len() > 0 {
        let e = events[0];
        let (o1, w1) = stream_apply(v, e).unwrap();
        lemma_stream_hands_out_its_bytes(w1, events.drop_first());
        let (o2, i2, w) = stream_run(w1, events.drop_first()).unwrap();
        let i1 = stream_input(e);
        // One event keeps the balance between what was handed out, what is
        // buffered, and what came in.
        assert(o1 + w1.buf.skip(w1.pos) =~= v.buf.skip(v.pos) + i1) by {
            match e {
                StreamEvent::Fill(d) => {
                    assert(v.buf.skip(v.pos) =~= Seq::<u8>::empty());
                    assert(d.skip(0) =~= d);
                },
                StreamEvent::Direct(d) => {
                    assert(v.buf.skip(v.pos) =~= Seq::<u8>::empty());
                },
                StreamEvent::Read(room) => {
                    assert(v.buf.subrange(v.pos, w1.pos) + v.buf.skip(w1.pos) =~= v.buf.skip(v.pos));
                },
            }
        }
        assert(o1.len() + w1.len == v.len);
        assert(stream_sound(w1));
        assert((o1 + o2) + w.buf.skip(w.pos) =~= o1 + (o2 + w.buf.skip(w.pos)));
        assert(v.buf.skip(v.pos) + (i1 + i2) =~= (v.buf.skip(v.pos) + i1) + i2);
        assert((o1 + w1.buf.skip(w1.pos)) + i2 =~= o1 + (w1.buf.skip(w1.pos) + i2));
        if w.len == 0 {
            assert(w.buf.skip(w.pos) =~= Seq::<u8>::empty());
            assert((o1 + o2) + Seq::<u8>::empty() =~= o1 + o2);
        }
    } else {
        if v.len == 0 {
            assert(v.buf.skip(v.pos) =~= Seq::<u8>::empty());
        }
        assert(Seq::<u8>::empty() + v.buf.skip(v.pos) =~= v.buf.skip(v.pos) + Seq::<u8>::empty());
    }
}

/// The data of the chunks that `s` encodes, read from a point just before
/// the line break that ends the previous chunk (or the response head): two
/// bytes are skipped, then a chunk-size line as `chunk_size_parse` reads it,
/// then that many bytes of data, and so on up to a chunk of size 0. Nothing
/// when a line is not complete and valid, a chunk's data is not all there,
/// or a size does not fit in a `usize`.
pub open spec fn chunked_payload(s: Seq<u8>) -> Option<Seq<u8>>
    decreases s.len(),
{
    if s.len() <= 2 {
        None
    } else {
        match chunk_size_parse(s.skip(2)) {
            Some(Some((p, size))) => if size == 0 {
                Some(Seq::empty())
            } else if size as usize as int != size as int {
                None
            } else {
                let start = 2 + p;
                let end = start + size as usize;
                if end <= s.len() {
                    match chunked_payload(s.skip(end)) {
                        Some(rest) => Some(s.subrange(start, end) + rest),
                        None => None,
                    }
                } else {
                    None
                }
            },
            _ => None,
        }
    }
}

/// What `Body::read_step` hands out of a chunked body in the state `w` into
/// a destination with room for `room` bytes, and the state after it.
pub open spec fn chunked_take(w: ChunkedView, room: int) -> (Seq<u8>, ChunkedView) {
    let n = chunk_len(w);
    let amt = if room > n { n } else { room };
    (
        w.buf.subrange(w.pos, w.pos + amt),
        ChunkedView { buf: w.buf, pos: w.pos + amt, remaining: w.remaining - amt },
    )
}

/// One read step of a chunked body into a destination with room for `room`
/// bytes: the body first reads a chunk-size line if one is due
/// (`Body::needs_fill`), then hands out as much of the current chunk as fits
/// (`Body::read_step`). The bytes handed out, the state after the step, and
/// whether the body reported data as ready without reading the connection.
pub open spec fn chunked_read(v: ChunkedView, room: int) -> (Seq<u8>, ChunkedView, bool) {
    let (out, w) = chunked_take(spec_prepare(v).1, room);
    (out, w, spec_prepare(v).0 == Ok::<bool, crate::http::body::BodyError>(true))
}

/// Read steps with the rooms `rooms`, one after the other: the bytes handed
/// out, the state left, and whether every step found its data ready.
pub open spec fn chunked_reads(v: ChunkedView, rooms: Seq<int>) -> (Seq<u8>, ChunkedView, bool)
    decreases rooms.len(),
{
    if rooms.len() == 0 {
        (Seq::empty(), v, true)
    } else {
        let (o1, v1, ok1) = chunked_read(v, rooms[0]);
        let (o2, v2, ok2) = chunked_reads(v1, rooms.drop_first());
        (o1 + o2, v2, ok1 && ok2)
    }
}

/// The data still to come from the state `v` of a chunked decoder is `q`:
/// between chunks, the buffer from the read position encodes `q`; inside a
/// chunk, the rest of the chunk is buffered, and `q` is that rest followed by
/// what the buffer encodes after it.
pub open spec fn chunked_left(v: ChunkedView, q: Seq<u8>) -> bool {
    &&& 0 <= v.pos <= v.buf.len()
    &&& 0 <= v.remaining
    &&& if v.remaining == 0 {
        chunked_payload(v.buf.skip(v.pos)) == Some(q)
    } else {
        &&& v.pos + v.remaining <= v.buf.len()
        &&& v.remaining <= q.len()
        &&& q.take(v.remaining) == v.buf.subrange(v.pos, v.pos + v.remaining)
        &&& chunked_payload(v.buf.skip(v.pos + v.remaining)) == Some(q.skip(v.remaining))
    }
}

/// One read step with room for at least one byte finds its data ready,
/// hands out the next bytes of what is still to come (at least one of them
/// while any are left, none once all are out), and leaves the rest to come.
pub proof fn lemma_chunked_read_step(v: ChunkedView, q: Seq<u8>, room: int)
    requires
        chunked_left(v, q),
        room >= 1,
    ensures
        ({
            let (out, w, ok) = chunked_read(v, room);
            &&& ok
            &&& out.len() <= q.len()
            &&& out == q.take(out.len() as int)
            &&& chunked_left(w, q.skip(out.len() as int))
            &&& (q.len() > 0 ==> out.len() >= 1)
            &&& (q.len() == 0 ==> out.len() == 0 && w == v)
        }),
{
    let (out, w, ok) = chunked_read(v, room);
    if v.remaining == 0 {
        let s = v.buf.skip(v.pos);
        assert(v.buf.skip(v.pos + 2) =~= s.skip(2));
        let (p, size) = chunk_size_parse(s.skip(2)).unwrap().unwrap();
        if size == 0 {
            assert(q =~= Seq::<u8>::empty());
            assert(w == v);
            assert(out =~= Seq::<u8>::empty());
            assert(q.skip(0) =~= q);
        } else {
            let start = 2 + p;
            let n = size as usize as int;
            let end = start + n;
            let rest = chunked_payload(s.skip(end)).unwrap();
            let u = spec_prepare(v).1;
            assert(u.pos == v.pos + start && u.remaining == n);
            assert(chunk_len(u) == n);
            let amt = if room > n { n } else { room };
            assert(q =~= s.subrange(start, end) + rest);
            assert(out =~= q.take(amt));
            assert(v.buf.skip(v.pos + end) =~= s.skip(end));
            if amt == n {
                assert(q.skip(amt) =~= rest);
            } else {
                let q2 = q.skip(amt);
                assert(q2.take(n - amt) =~= v.buf.subrange(u.pos + amt, u.pos + n));
                assert(q2.skip(n - amt) =~= rest);
            }
        }
    } else {
        let amt = if room > v.remaining { v.remaining } else { room };
        assert(spec_prepare(v).1 == v);
        assert(chunk_len(v) == v.remaining);
        assert(out =~= q.take(amt));
        let q2 = q.skip(amt);
        if amt < v.remaining {
            assert forall|i: int| 0 <= i < v.remaining - amt implies #[trigger] q2[i] == v.buf[v.pos
                + amt + i] by {
                assert(q.take(v.remaining)[amt + i] == q[amt + i]);
            }
            assert(q2.take(v.remaining - amt) =~= v.buf.subrange(v.pos + amt, v.pos + v.remaining));
            assert(q2.skip(v.remaining - amt) =~= q.skip(v.remaining));
        }
    }
}

/// Read steps on a chunked body hand out exactly the data of its chunks and
/// none of the framing: whatever the rooms (each of at least one byte),
/// every step finds its data ready without reading the connection, the bytes
/// handed out are the start of the chunks' data, once there have been as
/// many steps as data bytes all of the data has been handed out, and any
/// steps after that hand out nothing.
pub proof fn lemma_chunked_reads_hand_out_payload(v: ChunkedView, q: Seq<u8>, rooms: Seq<int>)
    requires
        chunked_left(v, q),
        forall|i: int| 0 <= i < rooms.len() ==> #[trigger] rooms[i] >= 1,
    ensures
        ({
            let (out, w, ok) = chunked_reads(v, rooms);
            &&& ok
            &&& out.len() <= q.len()
            &&& out == q.take(out.len() as int)
            &&& chunked_left(w, q.skip(out.len() as int))
            &&& (rooms.len() >= q.len() ==> out == q)
            &&& (q.len() == 0 ==> out.len() == 0 && w == v)
        }),
    decreases rooms.len(),
{
    if rooms.len() > 0 {
        lemma_chunked_read_step(v, q, rooms[0]);
        let (o1, v1, ok1) = chunked_read(v, rooms[0]);
        let q1 = q.skip(o1.len() as int);
        assert forall|i: int| 0 <= i < rooms.drop_first().len() implies #[trigger] rooms.drop_first()[i]
            >= 1 by {
            assert(rooms.drop_first()[i] == rooms[i + 1]);
        }
        lemma_chunked_reads_hand_out_payload(v1, q1, rooms.drop_first());
        let (o2, v2, ok2) = chunked_reads(v1, rooms.drop_first());
        assert(q1.take(o2.len() as int) =~= q.subrange(o1.len() as int, (o1.len() + o2.len()) as int));
        assert(o1 + o2 =~= q.take((o1.len() + o2.len()) as int));
        assert(q1.skip(o2.len() as int) =~= q.skip((o1.len() + o2.len()) as int));
        if rooms.len() >= q.len() && q.len() > 0 {
            assert(rooms.drop_first().len() >= q1.len());
            assert(o2 == q1);
            assert(q.take(q.len() as int) =~= q);
        }
        if q.len() == 0 {
            assert(q1.len() == 0);
        }
    } else {
        assert(q.take(0) =~= Seq::<u8>::empty());
        assert(q.skip(0) =~= q);
        if q.len() == 0 {
            assert(Seq::<u8>::empty() =~= q);
        }
    }
}

/// A chunked body just started (`Chunked::new`) from a buffer that holds
/// the whole body encodes its chunks' data from its start.
pub proof fn lemma_chunked_start(buf: Seq<u8>, q: Seq<u8>)
    requires
        chunked_payload(buf) == Some(q),
    ensures
        chunked_left(ChunkedView { buf, pos: 0, remaining: 0 }, q),
{
    assert(buf.skip(0) =~= buf);
}

} // verus!
