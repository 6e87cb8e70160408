//! Reading a file back over the sync protocol: the reply to `RECV`.
//!
//! The device answers `RECV` with `DATA` messages (tag, little-endian length,
//! that many bytes of content) and ends with `DONE` and a 4-byte word; it may
//! answer `FAIL` with a message instead. `RecvReader` makes the decisions of
//! that exchange one message part at a time, while the caller moves the bytes.
use vstd::prelude::*;

use crate::adb_error::AdbError;
use crate::outside::{spec_debug_str, spec_utf8_lossy};
use crate::sync::{
    classify_tag, data_frames, le_bytes, le_value, lemma_le_roundtrip, read_le, tag_bytes,
    unexpected_tag, SyncTag, CHUNK_SIZE,
};

verus! {

/// The contents carried by `s` when `s` is a whole number of `DATA` messages.
pub open spec fn data_payload(s: Seq<u8>) -> Option<Seq<u8>>
    decreases s.len(),
{
    if s.len() == 0 {
        Some(Seq::empty())
    } else if s.len() >= 8 && s.take(4) == tag_bytes(SyncTag::Data) && 8 + le_value(
        s.subrange(4, 8),
    ) <= s.len() {
        let n = le_value(s.subrange(4, 8));
        match data_payload(s.skip(8 + n)) {
            Some(rest) => Some(s.subrange(8, 8 + n) + rest),
            None => None,
        }
    } else {
        None
    }
}

/// What a `RECV` reply stream delivers: the contents of its `DATA` messages up
/// to the first `DONE` message; `None` where a message is cut short or another
/// tag comes first.
pub open spec fn recv_content(s: Seq<u8>) -> Option<Seq<u8>>
    decreases s.len(),
{
    if s.len() >= 8 && s.take(4) == tag_bytes(SyncTag::Done) {
        Some(Seq::empty())
    } else if s.len() >= 8 && s.take(4) == tag_bytes(SyncTag::Data) && 8 + le_value(
        s.subrange(4, 8),
    ) <= s.len() {
        let n = le_value(s.subrange(4, 8));
        match recv_content(s.skip(8 + n)) {
            Some(rest) => Some(s.subrange(8, 8 + n) + rest),
            None => None,
        }
    } else {
        None
    }
}

proof fn lemma_le_value_nonneg(w: Seq<u8>)
    requires
        w.len() == 4,
    ensures
        0 <= le_value(w) <= u32::MAX,
{
}

/// Whole `DATA` messages in front of a stream add their contents in front of
/// what the rest of the stream delivers.
proof fn lemma_payload_prefix(a: Seq<u8>, b: Seq<u8>, p: Seq<u8>)
    requires
        data_payload(a) == Some(p),
    ensures
        recv_content(a + b) == (match recv_content(b) {
            Some(r) => Some(p + r),
            None => None::<Seq<u8>>,
        }),
    decreases a.len(),
{
    if a.len() == 0 {
        assert(a + b =~= b);
        assert(p =~= Seq::<u8>::empty());
        match recv_content(b) {
            Some(r) => assert(p + r =~= r),
            None => {},
        }
    } else {
        lemma_le_value_nonneg(a.subrange(4, 8));
        let n = le_value(a.subrange(4, 8));
        let s = a + b;
        let rest = data_payload(a.skip(8 + n)).unwrap();
        lemma_payload_prefix(a.skip(8 + n), b, rest);
        assert(s.take(4) =~= a.take(4));
        assert(s.subrange(4, 8) =~= a.subrange(4, 8));
        assert(s.subrange(8, 8 + n) =~= a.subrange(8, 8 + n));
        assert(s.skip(8 + n) =~= a.skip(8 + n) + b);
        assert(a.take(4) != tag_bytes(SyncTag::Done)) by {
            assert(a.take(4)[1] != tag_bytes(SyncTag::Done)[1]);
        }
        match recv_content(b) {
            Some(r) => {
                assert(a.subrange(8, 8 + n) + (rest + r) =~= (a.subrange(8, 8 + n) + rest) + r);
            },
            None => {},
        }
    }
}

/// The `DATA` messages of an upload carry exactly its data.
proof fn lemma_frames_payload(d: Seq<u8>)
    ensures
        data_payload(data_frames(d)) == Some(d),
    decreases d.len(),
{
    if d.len() > 0 {
        let n: int = if d.len() < CHUNK_SIZE {
            d.len() as int
        } else {
            CHUNK_SIZE as int
        };
        let s = data_frames(d);
        lemma_frames_payload(d.skip(n));
        lemma_le_roundtrip(n as u32);
        assert(s == tag_bytes(SyncTag::Data) + le_bytes(n) + d.take(n) + data_frames(d.skip(n)));
        assert(s.take(4) =~= tag_bytes(SyncTag::Data));
        assert(s.subrange(4, 8) =~= le_bytes(n));
        assert(s.subrange(8, 8 + n) =~= d.take(n));
        assert(s.skip(8 + n) =~= data_frames(d.skip(n)));
        assert(d.take(n) + d.skip(n) =~= d);
    } else {
        assert(data_frames(d) == Seq::<u8>::empty());
        assert(d =~= Seq::<u8>::empty());
    }
}

/// Reading back the `DATA` messages that an upload of `d` sends, ended by
/// `DONE`, delivers exactly `d`, whatever word follows `DONE`.
pub proof fn lemma_upload_frames_read_back(d: Seq<u8>, word: u32)
    ensures
        recv_content(data_frames(d) + tag_bytes(SyncTag::Done) + le_bytes(word as int)) == Some(
            d,
        ),
{
    let frames = data_frames(d);
    let tail = tag_bytes(SyncTag::Done) + le_bytes(word as int);
    assert(tail.take(4) =~= tag_bytes(SyncTag::Done));
    lemma_done_delivers_nothing(tail);
    lemma_frames_payload(d);
    lemma_payload_prefix(frames, tail, d);
    assert(d + Seq::<u8>::empty() =~= d);
    assert(frames + tag_bytes(SyncTag::Done) + le_bytes(word as int) =~= frames + tail);
}

/// `DONE` and its word end a stream with nothing more delivered.
proof fn lemma_done_delivers_nothing(s: Seq<u8>)
    requires
        s.len() == 8,
        s.take(4) == tag_bytes(SyncTag::Done),
    ensures
        recv_content(s) == Some(Seq::<u8>::empty()),
{
}

/// Where a `RECV` reply stands.
#[derive(Debug, Clone, Copy, PartialEq, Eq)]
pub enum RecvPhase {
    /// Next comes the tag of a message.
    AwaitTag,
    /// The tag was `DATA`, `DONE` or `FAIL`; next comes its word.
    AwaitWord(SyncTag),
    /// Next come this many bytes of content.
    AwaitChunk(usize),
    /// Next come this many bytes of the device's error message.
    AwaitMessage(usize),
    /// `DONE` and its word were read: the transfer is complete.
    Complete,
    /// A tag that a `RECV` reply cannot hold was read.
    Rejected,
}

/// What to read after the word that follows a tag.
#[derive(Debug, Clone, Copy, PartialEq, Eq)]
pub enum WordStep {
    /// Read this many bytes of content and hand them to `on_chunk`.
    Chunk(usize),
    /// Read this many bytes: the device's error message.
    Message(usize),
    /// The transfer is complete.
    Finished,
}

/// The receiving side of a `RECV` exchange.
pub struct RecvReader {
    data: Vec<u8>,
    phase: RecvPhase,
    framed: Ghost<Seq<u8>>,
    partial: Ghost<Seq<u8>>,
}

impl RecvReader {
    /// The stream bytes taken in so far.
    pub closed spec fn seen(&self) -> Seq<u8> {
        self.framed@ + self.partial@
    }

    /// The file contents gathered so far.
    pub closed spec fn content(&self) -> Seq<u8> {
        self.data@
    }

    /// Where the exchange stands.
    pub closed spec fn phase(&self) -> RecvPhase {
        self.phase
    }

    /// The bytes taken in match the phase, and the contents are those of the
    /// whole `DATA` messages among them.
    pub closed spec fn wf(&self) -> bool {
        &&& data_payload(self.framed@) == Some(self.data@)
        &&& match self.phase {
            RecvPhase::AwaitTag => self.partial@ == Seq::<u8>::empty(),
            RecvPhase::AwaitWord(t) => {
                &&& self.partial@ == tag_bytes(t)
                &&& (t == SyncTag::Data || t == SyncTag::Done || t == SyncTag::Fail)
            },
            RecvPhase::AwaitChunk(n) => {
                &&& self.partial@.len() == 8
                &&& self.partial@.take(4) == tag_bytes(SyncTag::Data)
                &&& le_value(self.partial@.subrange(4, 8)) == n
            },
            RecvPhase::AwaitMessage(n) => {
                &&& self.partial@.len() == 8
                &&& self.partial@.take(4) == tag_bytes(SyncTag::Fail)
                &&& le_value(self.partial@.subrange(4, 8)) == n
            },
            RecvPhase::Complete => {
                &&& self.partial@.len() == 8
                &&& self.partial@.take(4) == tag_bytes(SyncTag::Done)
            },
            RecvPhase::Rejected => self.partial@.len() == 4,
        }
    }

    /// A reader that has taken in nothing.
    pub fn new() -> (r: RecvReader)
        ensures
            r.wf(),
            r.phase() == RecvPhase::AwaitTag,
            r.seen() == Seq::<u8>::empty(),
            r.content() == Seq::<u8>::empty(),
    {
        let r = RecvReader {
            data: Vec::new(),
            phase: RecvPhase::AwaitTag,
            framed: Ghost(Seq::empty()),
            partial: Ghost(Seq::empty()),
        };
        assert(r.seen() =~= Seq::<u8>::empty());
        r
    }

    /// Takes the 4-byte tag of the next message. `DATA`, `DONE` and `FAIL`
    /// are followed by a word (`on_word`); any other tag ends the exchange
    /// with an error that shows the tag.
    pub fn on_tag(&mut self, id: &[u8]) -> (r: Result<(), AdbError>)
        requires
            old(self).wf(),
            old(self).phase() == RecvPhase::AwaitTag,
            id@.len() == 4,
        ensures
            final(self).wf(),
            final(self).seen() == old(self).seen() + id@,
            final(self).content() == old(self).content(),
            (id@ == tag_bytes(SyncTag::Data) || id@ == tag_bytes(SyncTag::Done) || id@
                == tag_bytes(SyncTag::Fail)) ==> r is Ok && final(self).phase()
                == RecvPhase::AwaitWord(
                if id@ == tag_bytes(SyncTag::Data) {
                    SyncTag::Data
                } else if id@ == tag_bytes(SyncTag::Done) {
                    SyncTag::Done
                } else {
                    SyncTag::Fail
                },
            ),
            !(id@ == tag_bytes(SyncTag::Data) || id@ == tag_bytes(SyncTag::Done) || id@
                == tag_bytes(SyncTag::Fail)) ==> final(self).phase() == RecvPhase::Rejected
                && (r matches Err(AdbError::SyncError(m)) && m@ == "unexpected sync response: "@
                + spec_debug_str(spec_utf8_lossy(id@))),
    {
        let ghost before = self.seen();
        assert(self.partial@ =~= Seq::<u8>::empty());
        self.partial = Ghost(id@);
        let t = classify_tag(id);
        let r = match t {
            Some(SyncTag::Data) => {
                self.phase = RecvPhase::AwaitWord(SyncTag::Data);
                Ok(())
            },
            Some(SyncTag::Done) => {
                self.phase = RecvPhase::AwaitWord(SyncTag::Done);
                Ok(())
            },
            Some(SyncTag::Fail) => {
                self.phase = RecvPhase::AwaitWord(SyncTag::Fail);
                Ok(())
            },
            _ => {
                self.phase = RecvPhase::Rejected;
                Err(unexpected_tag("unexpected sync response: ", id))
            },
        };
        proof {
            assert(before =~= self.framed@);
            assert(tag_bytes(SyncTag::Data) != tag_bytes(SyncTag::Done)) by {
                assert(tag_bytes(SyncTag::Data)[1] != tag_bytes(SyncTag::Done)[1]);
            }
            assert(tag_bytes(SyncTag::Data) != tag_bytes(SyncTag::Fail)) by {
                assert(tag_bytes(SyncTag::Data)[0] != tag_bytes(SyncTag::Fail)[0]);
            }
            assert(tag_bytes(SyncTag::Done) != tag_bytes(SyncTag::Fail)) by {
                assert(tag_bytes(SyncTag::Done)[0] != tag_bytes(SyncTag::Fail)[0]);
            }
        }
        r
    }

    /// Takes the 4-byte word that follows a `DATA`, `DONE` or `FAIL` tag: the
    /// length of the content or of the error message that comes next, or,
    /// after `DONE`, the end of the transfer.
    pub fn on_word(&mut self, word: &[u8]) -> (r: WordStep)
        requires
            old(self).wf(),
            old(self).phase() is AwaitWord,
            word@.len() == 4,
        ensures
            final(self).wf(),
            final(self).seen() == old(self).seen() + word@,
            final(self).content() == old(self).content(),
            old(self).phase() == RecvPhase::AwaitWord(SyncTag::Data) ==> r == WordStep::Chunk(
                le_value(word@) as usize,
            ) && final(self).phase() == RecvPhase::AwaitChunk(le_value(word@) as usize),
            old(self).phase() == RecvPhase::AwaitWord(SyncTag::Fail) ==> r == WordStep::Message(
                le_value(word@) as usize,
            ) && final(self).phase() == RecvPhase::AwaitMessage(le_value(word@) as usize),
            old(self).phase() == RecvPhase::AwaitWord(SyncTag::Done) ==> r == WordStep::Finished
                && final(self).phase() == RecvPhase::Complete && recv_content(final(self).seen())
                == Some(final(self).content()),
            le_value(word@) <= u32::MAX,
    {
        let ghost tag_part = self.partial@;
        let n = read_le(word, 0);
        proof {
            assert(word@.subrange(0, 4) =~= word@);
            lemma_le_value_nonneg(word@);
        }
        let ghost p = tag_part + word@;
        self.partial = Ghost(p);
        proof {
            assert(p.take(4) =~= tag_part);
            assert(p.subrange(4, 8) =~= word@);
        }
        match self.phase {
            RecvPhase::AwaitWord(SyncTag::Data) => {
                self.phase = RecvPhase::AwaitChunk(n as usize);
                WordStep::Chunk(n as usize)
            },
            RecvPhase::AwaitWord(SyncTag::Fail) => {
                self.phase = RecvPhase::AwaitMessage(n as usize);
                WordStep::Message(n as usize)
            },
            _ => {
                self.phase = RecvPhase::Complete;
                proof {
                    lemma_payload_prefix(self.framed@, p, self.data@);
                    assert(recv_content(p) == Some(Seq::<u8>::empty()));
                    assert(self.data@ + Seq::<u8>::empty() =~= self.data@);
                }
                WordStep::Finished
            },
        }
    }

    /// Takes the content announced by the last `DATA` word and keeps it.
    pub fn on_chunk(&mut self, chunk: &[u8])
        requires
            old(self).wf(),
            old(self).phase() matches RecvPhase::AwaitChunk(n) && chunk@.len() == n,
        ensures
            final(self).wf(),
            final(self).phase() == RecvPhase::AwaitTag,
            final(self).seen() == old(self).seen() + chunk@,
            final(self).content() == old(self).content() + chunk@,
    {
        let ghost old_framed = self.framed@;
        let ghost msg = self.partial@ + chunk@;
        let ghost old_data = self.data@;
        self.data.extend_from_slice(chunk);
        assert(self.data@ =~= old_data + chunk@);
        proof {
            lemma_single_message(self.partial@, chunk@);
            lemma_payload_concat(old_framed, msg, old_data, chunk@);
        }
        self.framed = Ghost(old_framed + msg);
        self.partial = Ghost(Seq::empty());
        self.phase = RecvPhase::AwaitTag;
        assert(self.seen() =~= old_framed + msg);
    }

    /// The gathered contents, once the transfer is complete: what the stream
    /// taken in delivers.
    pub fn into_data(self) -> (r: Vec<u8>)
        requires
            self.wf(),
            self.phase() == RecvPhase::Complete,
        ensures
            r@ == self.content(),
            recv_content(self.seen()) == Some(r@),
    {
        proof {
            lemma_payload_prefix(self.framed@, self.partial@, self.data@);
            assert(self.partial@.take(4) == tag_bytes(SyncTag::Done));
            assert(recv_content(self.partial@) == Some(Seq::<u8>::empty()));
            assert(self.data@ + Seq::<u8>::empty() =~= self.data@);
        }
        self.data
    }
}

/// One `DATA` message, header and content, carries its content.
proof fn lemma_single_message(head: Seq<u8>, chunk: Seq<u8>)
    requires
        head.len() == 8,
        head.take(4) == tag_bytes(SyncTag::Data),
        le_value(head.subrange(4, 8)) == chunk.len(),
    ensures
        data_payload(head + chunk) == Some(chunk),
{
    let msg = head + chunk;
    let n = chunk.len() as int;
    assert(msg.take(4) =~= head.take(4));
    assert(msg.subrange(4, 8) =~= head.subrange(4, 8));
    assert(msg.subrange(8, 8 + n) =~= chunk);
    assert(msg.skip(8 + n) =~= Seq::<u8>::empty());
    assert(data_payload(Seq::<u8>::empty()) == Some(Seq::<u8>::empty()));
    assert(chunk + Seq::<u8>::empty() =~= chunk);
}

/// Whole `DATA` messages followed by whole `DATA` messages carry the contents
/// of the first followed by those of the second.
proof fn lemma_payload_concat(a: Seq<u8>, b: Seq<u8>, p: Seq<u8>, q: Seq<u8>)
    requires
        data_payload(a) == Some(p),
        data_payload(b) == Some(q),
    ensures
        data_payload(a + b) == Some(p + q),
    decreases a.len(),
{
    if a.len() == 0 {
        assert(a + b =~= b);
        assert(p =~= Seq::<u8>::empty());
        assert(p + q =~= q);
    } else {
        lemma_le_value_nonneg(a.subrange(4, 8));
        let n = le_value(a.subrange(4, 8));
        let s = a + b;
        let rest = data_payload(a.skip(8 + n)).unwrap();
        lemma_payload_concat(a.skip(8 + n), b, rest, q);
        assert(s.take(4) =~= a.take(4));
        assert(s.subrange(4, 8) =~= a.subrange(4, 8));
        assert(s.subrange(8, 8 + n) =~= a.subrange(8, 8 + n));
        assert(s.skip(8 + n) =~= a.skip(8 + n) + b);
        assert(a.subrange(8, 8 + n) + (rest + q) =~= (a.subrange(8, 8 + n) + rest) + q);
    }
}

} // verus!
