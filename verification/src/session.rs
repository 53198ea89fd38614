//! The dispatch layer a session's background task runs: it owns the decoder,
//! feeds it each chunk of the sidecar's output as it arrives, and turns every
//! completed body into UTF-8 text for publication, in order. A body that is
//! not valid UTF-8 is silently dropped. End of stream is answered with a
//! termination signal and nothing else.

use vstd::prelude::*;

use crate::decoder::Decoder;
use crate::frame::drain;

verus! {

/// What `String::from_utf8` yields on these bytes: the decoded text when
/// they are valid UTF-8, nothing otherwise — a function of the bytes alone.
pub uninterp spec fn utf8_decode(b: Seq<u8>) -> Option<Seq<char>>;

/// Relies on `String::from_utf8`: whether the bytes decode, and to what
/// text, depends on the bytes alone.
#[verifier::external_body]
fn bytes_to_string(b: &Vec<u8>) -> (r: Option<String>)
    ensures
        match r {
            Some(s) => utf8_decode(b@) == Some(s@),
            None => utf8_decode(b@) is None,
        },
{
    match String::from_utf8(b.clone()) {
        Ok(s) => Some(s),
        Err(_) => None,
    }
}

/// The bodies that decode as UTF-8, decoded, in order; the rest dropped.
pub open spec fn decode_texts(bs: Seq<Seq<u8>>) -> Seq<Seq<char>>
    decreases bs.len(),
{
    if bs.len() == 0 {
        Seq::empty()
    } else {
        let rest = decode_texts(bs.subrange(0, bs.len() - 1));
        match utf8_decode(bs[bs.len() - 1]) {
            Some(t) => rest.push(t),
            None => rest,
        }
    }
}

/// What the background task observes on the sidecar's output: a chunk of
/// bytes, or the end of the stream when the process has terminated.
pub enum StreamEvent {
    Stdout(Vec<u8>),
    Terminated,
}

/// One session's decoding state, owned by that session's background task
/// alone.
pub struct Session {
    decoder: Decoder,
}

impl View for Session {
    type V = Seq<u8>;

    closed spec fn view(&self) -> Seq<u8> {
        self.decoder@
    }
}

impl Session {
    pub closed spec fn wf(&self) -> bool {
        self.decoder.wf()
    }

    pub fn new() -> (s: Session)
        ensures
            s@ == Seq::<u8>::empty(),
            s.wf(),
    {
        Session { decoder: Decoder::new() }
    }

    /// Feeds one arrived chunk to the decoder and returns the texts to
    /// publish: every newly completed body that decodes as UTF-8, in the
    /// order the bodies were completed.
    pub fn handle_chunk(&mut self, chunk: &Vec<u8>) -> (texts: Vec<String>)
        requires
            old(self).wf(),
        ensures
            final(self).wf(),
            texts@.map_values(|s: String| s@) == decode_texts(drain(old(self)@ + chunk@).0),
            final(self)@ == drain(old(self)@ + chunk@).1,
    {
        let msgs = self.decoder.push_chunk(chunk);
        let ghost bodies = msgs@.map_values(|m: Vec<u8>| m@);
        let mut texts: Vec<String> = Vec::new();
        let mut i: usize = 0;
        while i < msgs.len()
            invariant
                i <= msgs@.len(),
                bodies == msgs@.map_values(|m: Vec<u8>| m@),
                texts@.map_values(|s: String| s@) == decode_texts(bodies.subrange(0, i as int)),
            decreases msgs@.len() - i,
        {
            let ghost pre = bodies.subrange(0, i as int);
            let ghost ext = bodies.subrange(0, i + 1);
            proof {
                assert(ext.subrange(0, ext.len() - 1) =~= pre);
                assert(ext[ext.len() - 1] == msgs@[i as int]@);
            }
            match bytes_to_string(&msgs[i]) {
                Some(s) => {
                    proof {
                        assert(texts@.push(s).map_values(|t: String| t@) =~= texts@.map_values(
                            |t: String| t@,
                        ).push(s@));
                    }
                    texts.push(s);
                },
                None => {},
            }
            i += 1;
        }
        proof {
            assert(bodies.subrange(0, bodies.len() as int) =~= bodies);
        }
        texts
    }

    /// One step of the background task's loop: a chunk is decoded and its
    /// texts published; end of stream publishes nothing and signals
    /// termination, which ends the task.
    pub fn handle_event(&mut self, event: StreamEvent) -> (r: (Vec<String>, bool))
        requires
            old(self).wf(),
        ensures
            final(self).wf(),
            match event {
                StreamEvent::Stdout(chunk) => {
                    &&& !r.1
                    &&& r.0@.map_values(|s: String| s@) == decode_texts(
                        drain(old(self)@ + chunk@).0,
                    )
                    &&& final(self)@ == drain(old(self)@ + chunk@).1
                },
                StreamEvent::Terminated => {
                    &&& r.1
                    &&& r.0@ == Seq::<String>::empty()
                    &&& final(self)@ == old(self)@
                },
            },
    {
        match event {
            StreamEvent::Stdout(chunk) => {
                let texts = self.handle_chunk(&chunk);
                (texts, false)
            },
            StreamEvent::Terminated => (Vec::new(), true),
        }
    }
}

} // verus!
