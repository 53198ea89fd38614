//! Properties of the stream decoding, stated and proved over the `drain`
//! model: chunk boundaries never matter, nothing is yielded before a frame is
//! complete, a malformed header block is skipped without loss of what
//! follows, and frames arriving together come out together, in order.

use vstd::prelude::*;

use crate::frame::{
    content_length_of, drain, find_sep_from, lemma_find_sep, lemma_find_sep_is,
    lemma_quiescent_drain, quiescent, sep_at, sep_bytes,
};

verus! {

/// The byte stream that a sequence of chunks carries, in order.
pub open spec fn concat_chunks(cs: Seq<Seq<u8>>) -> Seq<u8>
    decreases cs.len(),
{
    if cs.len() == 0 {
        Seq::empty()
    } else {
        cs[0] + concat_chunks(cs.subrange(1, cs.len() as int))
    }
}

/// The messages yielded, and the bytes finally kept, when a buffer holding
/// `b` is fed the chunks one at a time and drained after each.
pub open spec fn feed_all(b: Seq<u8>, cs: Seq<Seq<u8>>) -> (Seq<Seq<u8>>, Seq<u8>)
    decreases cs.len(),
{
    if cs.len() == 0 {
        (Seq::empty(), b)
    } else {
        let d = drain(b + cs[0]);
        let r = feed_all(d.1, cs.subrange(1, cs.len() as int));
        (d.0 + r.0, r.1)
    }
}

/// What draining leaves behind never holds a complete message.
pub proof fn lemma_drain_quiescent(b: Seq<u8>)
    ensures
        quiescent(drain(b).1),
    decreases b.len(),
{
    lemma_find_sep(b, 0);
    let k = find_sep_from(b, 0);
    if k + 4 <= b.len() {
        match content_length_of(b.subrange(0, k)) {
            None => {
                lemma_drain_quiescent(b.subrange(k + 4, b.len() as int));
            },
            Some(n) => {
                if k + 4 + n <= b.len() {
                    lemma_drain_quiescent(b.subrange(k + 4 + n as int, b.len() as int));
                }
            },
        }
    }
}

/// Draining a stream in two pieces equals draining it whole: the messages of
/// `b + c` are those of `b` followed by those of what `b` leaves plus `c`.
pub proof fn lemma_drain_append(b: Seq<u8>, c: Seq<u8>)
    ensures
        drain(b + c).0 =~= drain(b).0 + drain(drain(b).1 + c).0,
        drain(b + c).1 == drain(drain(b).1 + c).1,
    decreases b.len(),
{
    lemma_find_sep(b, 0);
    let k = find_sep_from(b, 0);
    if !(k + 4 <= b.len()) {
        assert(drain(b).0 =~= Seq::<Seq<u8>>::empty());
        assert(drain(b).1 == b);
        assert(Seq::<Seq<u8>>::empty() + drain(b + c).0 =~= drain(b + c).0);
    } else {
        let h = b.subrange(0, k);
        // the first separator of b + c is still the first separator of b
        assert(sep_at(b + c, k));
        assert forall|j: int| 0 <= j < k implies !sep_at(b + c, j) by {
            if sep_at(b + c, j) {
                assert(sep_at(b, j));
            }
        }
        lemma_find_sep_is(b + c, 0, k);
        assert((b + c).subrange(0, k) =~= h);
        match content_length_of(h) {
            None => {
                let b1 = b.subrange(k + 4, b.len() as int);
                assert((b + c).subrange(k + 4, (b + c).len() as int) =~= b1 + c);
                lemma_drain_append(b1, c);
            },
            Some(n) => {
                if k + 4 + n <= b.len() {
                    let body = b.subrange(k + 4, k + 4 + n as int);
                    let b1 = b.subrange(k + 4 + n as int, b.len() as int);
                    assert((b + c).subrange(k + 4, k + 4 + n as int) =~= body);
                    assert((b + c).subrange(k + 4 + n as int, (b + c).len() as int) =~= b1 + c);
                    lemma_drain_append(b1, c);
                    assert(seq![body] + (drain(b1).0 + drain(drain(b1).1 + c).0) =~= (seq![body]
                        + drain(b1).0) + drain(drain(b1).1 + c).0);
                } else {
                    assert(drain(b).0 =~= Seq::<Seq<u8>>::empty());
                    assert(drain(b).1 == b);
                    assert(Seq::<Seq<u8>>::empty() + drain(b + c).0 =~= drain(b + c).0);
                }
            },
        }
    }
}

pub proof fn lemma_feed_all(b: Seq<u8>, cs: Seq<Seq<u8>>)
    requires
        quiescent(b),
    ensures
        feed_all(b, cs).0 =~= drain(b + concat_chunks(cs)).0,
        feed_all(b, cs).1 == drain(b + concat_chunks(cs)).1,
    decreases cs.len(),
{
    if cs.len() == 0 {
        lemma_quiescent_drain(b);
        assert(b + Seq::<u8>::empty() =~= b);
    } else {
        let c0 = cs[0];
        let rest = cs.subrange(1, cs.len() as int);
        let d = drain(b + c0);
        lemma_drain_quiescent(b + c0);
        lemma_feed_all(d.1, rest);
        lemma_drain_append(b + c0, concat_chunks(rest));
        assert((b + c0) + concat_chunks(rest) =~= b + concat_chunks(cs));
    }
}

/// However a byte stream is split into chunks, feeding the chunks one at a
/// time to an empty buffer yields exactly the messages of the whole stream,
/// in order, with byte-identical bodies, and keeps exactly the bytes the
/// whole stream leaves incomplete.
pub proof fn lemma_chunking_invariance(cs: Seq<Seq<u8>>)
    ensures
        feed_all(Seq::empty(), cs).0 =~= drain(concat_chunks(cs)).0,
        feed_all(Seq::empty(), cs).1 == drain(concat_chunks(cs)).1,
{
    let e = Seq::<u8>::empty();
    assert(find_sep_from(e, 0) == 0);
    assert(quiescent(e));
    lemma_feed_all(e, cs);
    assert(e + concat_chunks(cs) =~= concat_chunks(cs));
}

/// One whole wire frame: header block, separator, body.
pub open spec fn frame_of(h: Seq<u8>, body: Seq<u8>) -> Seq<u8> {
    h + sep_bytes() + body
}

/// A well-formed frame: the header block holds no separator of its own — so
/// the four bytes after it are the frame's first separator — and declares
/// exactly the body's length.
pub open spec fn clean_frame(h: Seq<u8>, body: Seq<u8>) -> bool {
    &&& forall|j: int| 0 <= j < h.len() ==> !sep_at(h + sep_bytes(), j)
    &&& content_length_of(h) == Some(body.len() as nat)
}

proof fn lemma_prefix_of_frame(h: Seq<u8>, body: Seq<u8>, m: int)
    requires
        clean_frame(h, body),
        0 <= m < frame_of(h, body).len(),
    ensures
        drain(frame_of(h, body).subrange(0, m)).0.len() == 0,
        drain(frame_of(h, body).subrange(0, m)).1 == frame_of(h, body).subrange(0, m),
{
    let f = frame_of(h, body);
    let w = f.subrange(0, m);
    if m < h.len() + 4 {
        assert forall|j: int| 0 <= j < m implies !sep_at(w, j) by {
            if sep_at(w, j) {
                assert(sep_at(h + sep_bytes(), j));
            }
        }
        lemma_find_sep_is(w, 0, m);
    } else {
        assert(sep_at(w, h.len() as int));
        assert forall|j: int| 0 <= j < h.len() implies !sep_at(w, j) by {
            if sep_at(w, j) {
                assert(sep_at(h + sep_bytes(), j));
            }
        }
        lemma_find_sep_is(w, 0, h.len() as int);
        assert(w.subrange(0, h.len() as int) =~= h);
        assert(w.len() < h.len() + 4 + body.len());
    }
}

proof fn lemma_whole_frame(h: Seq<u8>, body: Seq<u8>)
    requires
        clean_frame(h, body),
    ensures
        drain(frame_of(h, body)).0 =~= seq![body],
        drain(frame_of(h, body)).1 =~= Seq::<u8>::empty(),
{
    let f = frame_of(h, body);
    assert(sep_at(f, h.len() as int));
    assert forall|j: int| 0 <= j < h.len() implies !sep_at(f, j) by {
        if sep_at(f, j) {
            assert(sep_at(h + sep_bytes(), j));
        }
    }
    lemma_find_sep_is(f, 0, h.len() as int);
    assert(f.subrange(0, h.len() as int) =~= h);
    let n = body.len() as int;
    assert(f.subrange(h.len() as int + 4, h.len() as int + 4 + n) =~= body);
    let tail = f.subrange(h.len() as int + 4 + n, f.len() as int);
    assert(tail =~= Seq::<u8>::empty());
    assert(find_sep_from(tail, 0) == tail.len());
    assert(drain(tail).0 =~= Seq::<Seq<u8>>::empty());
    assert(seq![body] + Seq::<Seq<u8>>::empty() =~= seq![body]);
}

/// A message is never yielded before its header, separator and declared-
/// length body are all present: every strict prefix of a well-formed frame
/// yields nothing and is kept byte for byte, while the complete frame yields
/// exactly its body.
pub proof fn lemma_no_partial_yield(h: Seq<u8>, body: Seq<u8>)
    requires
        clean_frame(h, body),
    ensures
        forall|m: int|
            0 <= m < frame_of(h, body).len() ==> (#[trigger] drain(
                frame_of(h, body).subrange(0, m),
            )).0.len() == 0,
        forall|m: int|
            0 <= m < frame_of(h, body).len() ==> (#[trigger] drain(
                frame_of(h, body).subrange(0, m),
            )).1 == frame_of(h, body).subrange(0, m),
        drain(frame_of(h, body)).0 =~= seq![body],
        drain(frame_of(h, body)).1 =~= Seq::<u8>::empty(),
{
    assert forall|m: int| 0 <= m < frame_of(h, body).len() implies (#[trigger] drain(
        frame_of(h, body).subrange(0, m),
    )).0.len() == 0 && (drain(frame_of(h, body).subrange(0, m))).1 == frame_of(h, body).subrange(
        0,
        m,
    ) by {
        lemma_prefix_of_frame(h, body, m);
    }
    lemma_whole_frame(h, body);
}

/// A malformed header block — one that declares no parsable body length — is
/// skipped without fault: the stream decodes exactly as if the block and its
/// separator had not been there, so a well-formed message after it is still
/// extracted.
pub proof fn lemma_malformed_skipped(g: Seq<u8>, rest: Seq<u8>)
    requires
        forall|j: int| 0 <= j < g.len() ==> !sep_at(g + sep_bytes(), j),
        content_length_of(g) is None,
    ensures
        drain(g + sep_bytes() + rest) == drain(rest),
{
    let w = g + sep_bytes() + rest;
    assert(sep_at(w, g.len() as int));
    assert forall|j: int| 0 <= j < g.len() implies !sep_at(w, j) by {
        if sep_at(w, j) {
            assert(sep_at(g + sep_bytes(), j));
        }
    }
    lemma_find_sep_is(w, 0, g.len() as int);
    assert(w.subrange(0, g.len() as int) =~= g);
    assert(w.subrange(g.len() as int + 4, w.len() as int) =~= rest);
}

/// The byte stream that a sequence of frames forms, in order.
pub open spec fn frames_bytes(fs: Seq<(Seq<u8>, Seq<u8>)>) -> Seq<u8>
    decreases fs.len(),
{
    if fs.len() == 0 {
        Seq::empty()
    } else {
        frame_of(fs[0].0, fs[0].1) + frames_bytes(fs.subrange(1, fs.len() as int))
    }
}

/// The bodies of a sequence of frames, in order.
pub open spec fn frames_bodies(fs: Seq<(Seq<u8>, Seq<u8>)>) -> Seq<Seq<u8>>
    decreases fs.len(),
{
    if fs.len() == 0 {
        Seq::empty()
    } else {
        seq![fs[0].1] + frames_bodies(fs.subrange(1, fs.len() as int))
    }
}

pub open spec fn all_clean(fs: Seq<(Seq<u8>, Seq<u8>)>) -> bool {
    forall|i: int| 0 <= i < fs.len() ==> clean_frame((#[trigger] fs[i]).0, fs[i].1)
}

/// A stream of well-formed frames decodes to exactly their bodies, in
/// order, leaving nothing behind.
pub proof fn lemma_stream_of_frames(fs: Seq<(Seq<u8>, Seq<u8>)>)
    requires
        all_clean(fs),
    ensures
        drain(frames_bytes(fs)).0 =~= frames_bodies(fs),
        drain(frames_bytes(fs)).1 =~= Seq::<u8>::empty(),
    decreases fs.len(),
{
    if fs.len() == 0 {
        assert(find_sep_from(frames_bytes(fs), 0) == 0);
    } else {
        let f0 = frame_of(fs[0].0, fs[0].1);
        let rest = fs.subrange(1, fs.len() as int);
        lemma_drain_append(f0, frames_bytes(rest));
        lemma_whole_frame(fs[0].0, fs[0].1);
        assert(drain(f0).1 + frames_bytes(rest) =~= frames_bytes(rest));
        assert(all_clean(rest));
        lemma_stream_of_frames(rest);
        assert(seq![fs[0].1] + drain(frames_bytes(rest)).0 =~= frames_bodies(fs));
    }
}

/// However a byte stream of well-formed messages is split into chunks —
/// inside headers, separators, length digits or bodies — feeding the chunks
/// one at a time yields exactly those messages, in order, with
/// byte-identical bodies, and leaves nothing buffered.
pub proof fn lemma_chunked_frames(fs: Seq<(Seq<u8>, Seq<u8>)>, cs: Seq<Seq<u8>>)
    requires
        all_clean(fs),
        concat_chunks(cs) == frames_bytes(fs),
    ensures
        feed_all(Seq::empty(), cs).0 =~= frames_bodies(fs),
        feed_all(Seq::empty(), cs).1 =~= Seq::<u8>::empty(),
{
    lemma_chunking_invariance(cs);
    lemma_stream_of_frames(fs);
}

/// Two complete frames delivered together are both extracted, in order, from
/// that single buffer, leaving nothing behind.
pub proof fn lemma_two_frames(h1: Seq<u8>, b1: Seq<u8>, h2: Seq<u8>, b2: Seq<u8>)
    requires
        clean_frame(h1, b1),
        clean_frame(h2, b2),
    ensures
        drain(frame_of(h1, b1) + frame_of(h2, b2)).0 =~= seq![b1, b2],
        drain(frame_of(h1, b1) + frame_of(h2, b2)).1 =~= Seq::<u8>::empty(),
{
    let f1 = frame_of(h1, b1);
    let f2 = frame_of(h2, b2);
    lemma_drain_append(f1, f2);
    lemma_whole_frame(h1, b1);
    lemma_whole_frame(h2, b2);
    assert(drain(f1).1 + f2 =~= f2);
    assert(drain(f1).0 + drain(f2).0 =~= seq![b1, b2]);
}

} // verus!
