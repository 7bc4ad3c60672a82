use vstd::prelude::*;

use crate::bytes::{append_bytes, copy_range};

verus! {

/// The tag byte of a frame is this base plus the message code.
pub const MPLEX_BASE: u8 = 7;

/// The message code of transfer data.
pub const MSG_DATA: u8 = 0;

/// The message code of a transfer error reported by the server.
pub const MSG_ERROR_XFER: u8 = 1;

/// The message code of a fatal error reported by the server.
pub const MSG_ERROR: u8 = 3;

/// The length field of a frame header: its low 24 bits, least significant byte first.
pub open spec fn header_len(h: Seq<u8>) -> nat {
    (h[0] as nat + h[1] as nat * 0x100 + h[2] as nat * 0x1_0000) as nat
}

/// Whether a message code ends demultiplexing with a server error.
pub open spec fn is_fatal(code: u8) -> bool {
    code == MSG_ERROR_XFER || code == MSG_ERROR
}

/// An out-of-band message: its code and its text.
#[derive(Clone, Debug)]
pub struct Message {
    pub code: u8,
    pub payload: Vec<u8>,
}

impl View for Message {
    type V = (u8, Seq<u8>);

    open spec fn view(&self) -> (u8, Seq<u8>) {
        (self.code, self.payload@)
    }
}

/// Why a stream could not be demultiplexed.
#[derive(Clone, Debug, PartialEq, Eq)]
pub enum EnvelopeError {
    /// The stream ends inside a frame header or payload.
    Truncated,
    /// A tag byte below the multiplexing base.
    BadTag(u8),
    /// The server sent a fatal message: its code and text.
    Server(u8, Vec<u8>),
}

/// A demultiplexed stream: the data bytes, and the out-of-band messages, each in order.
#[derive(Clone, Debug)]
pub struct Demuxed {
    pub data: Vec<u8>,
    pub messages: Vec<Message>,
}

/// The result of demultiplexing, as a value of the model.
pub enum DemuxView {
    Done(Seq<u8>, Seq<(u8, Seq<u8>)>),
    Truncated,
    BadTag(u8),
    Server(u8, Seq<u8>),
}

pub open spec fn messages_view(m: Seq<Message>) -> Seq<(u8, Seq<u8>)> {
    m.map_values(|x: Message| x@)
}

pub open spec fn result_view(r: Result<Demuxed, EnvelopeError>) -> DemuxView {
    match r {
        Ok(d) => DemuxView::Done(d.data@, messages_view(d.messages@)),
        Err(EnvelopeError::Truncated) => DemuxView::Truncated,
        Err(EnvelopeError::BadTag(t)) => DemuxView::BadTag(t),
        Err(EnvelopeError::Server(c, m)) => DemuxView::Server(c, m@),
    }
}

/// What a frame header announces.
#[derive(Clone, Copy, Debug, PartialEq, Eq, Structural)]
pub enum FrameStart {
    /// This many bytes of transfer data follow.
    Data(u32),
    /// An out-of-band message of this code and length follows; read it and surface it.
    Message(u8, u32),
    /// A fatal message of this code and length follows; read it and stop.
    Fatal(u8, u32),
}

/// What a four-byte header announces, or `None` for a tag below the base.
pub open spec fn frame_start(h: Seq<u8>) -> Option<FrameStart> {
    if h[3] < MPLEX_BASE {
        None
    } else {
        let code = (h[3] - MPLEX_BASE) as u8;
        let len = header_len(h) as u32;
        if code == MSG_DATA {
            Some(FrameStart::Data(len))
        } else if is_fatal(code) {
            Some(FrameStart::Fatal(code, len))
        } else {
            Some(FrameStart::Message(code, len))
        }
    }
}

/// The read side once multiplexing is in effect. It keeps how many data
/// bytes of the current frame are still unread; a new header is read only
/// when none are, so message bytes never reach the data.
#[derive(Clone, Copy, Debug, PartialEq, Eq, Structural)]
pub struct EnvelopeRead {
    pub remaining: u32,
}

impl EnvelopeRead {
    /// A reader at a frame boundary.
    pub fn new() -> (r: EnvelopeRead)
        ensures
            r.remaining == 0,
    {
        EnvelopeRead { remaining: 0 }
    }

    /// Whether the next bytes of the stream are a frame header.
    pub fn needs_header(&self) -> (r: bool)
        ensures
            r == (self.remaining == 0),
    {
        self.remaining == 0
    }

    /// Takes the next frame header. A data frame's length becomes the data
    /// that may be read; any other frame leaves the reader at a boundary once
    /// the caller has read its payload.
    pub fn begin_frame(&mut self, h: [u8; 4]) -> (r: Result<FrameStart, EnvelopeError>)
        requires
            old(self).remaining == 0,
        ensures
            match frame_start(h@) {
                None => r == Err::<FrameStart, EnvelopeError>(EnvelopeError::BadTag(h@[3])) && final(self).remaining == 0,
                Some(FrameStart::Data(n)) => r == Ok::<FrameStart, EnvelopeError>(FrameStart::Data(n)) && final(self).remaining == n,
                Some(f) => r == Ok::<FrameStart, EnvelopeError>(f) && final(self).remaining == 0,
            },
    {
        let tag = h[3];
        if tag < MPLEX_BASE {
            return Err(EnvelopeError::BadTag(tag));
        }
        let code = tag - MPLEX_BASE;
        let len: u32 = h[0] as u32 + h[1] as u32 * 0x100 + h[2] as u32 * 0x1_0000;
        if code == MSG_DATA {
            self.remaining = len;
            Ok(FrameStart::Data(len))
        } else if code == MSG_ERROR_XFER || code == MSG_ERROR {
            Ok(FrameStart::Fatal(code, len))
        } else {
            Ok(FrameStart::Message(code, len))
        }
    }

    /// How many of `want` data bytes to read now from the current frame; they
    /// are counted as read.
    pub fn take_data(&mut self, want: u32) -> (r: u32)
        ensures
            r == if want <= old(self).remaining { want } else { old(self).remaining },
            final(self).remaining == old(self).remaining - r,
    {
        let n = if want <= self.remaining { want } else { self.remaining };
        self.remaining = self.remaining - n;
        n
    }
}

/// Puts data and messages in front of what the rest of a stream yields.
pub open spec fn prepend(data: Seq<u8>, msgs: Seq<(u8, Seq<u8>)>, rest: DemuxView) -> DemuxView {
    match rest {
        DemuxView::Done(d, m) => DemuxView::Done(data + d, msgs + m),
        other => other,
    }
}

/// What a stream of frames yields: data frames concatenated, other frames as
/// messages, up to the first fatal message or malformed frame.
pub open spec fn demux(s: Seq<u8>) -> DemuxView
    decreases s.len(),
{
    if s.len() == 0 {
        DemuxView::Done(Seq::empty(), Seq::empty())
    } else if s.len() < 4 || s.len() < 4 + header_len(s) {
        DemuxView::Truncated
    } else if s[3] < MPLEX_BASE {
        DemuxView::BadTag(s[3])
    } else {
        let code = (s[3] - MPLEX_BASE) as u8;
        let end = 4 + header_len(s);
        let payload = s.subrange(4, end as int);
        if is_fatal(code) {
            DemuxView::Server(code, payload)
        } else if code == MSG_DATA {
            prepend(payload, Seq::empty(), demux(s.skip(end as int)))
        } else {
            prepend(Seq::empty(), seq![(code, payload)], demux(s.skip(end as int)))
        }
    }
}

/// A frame on the wire: a header of the payload's length and the tag for `code`, then the payload.
pub open spec fn frame(code: u8, payload: Seq<u8>) -> Seq<u8> {
    let n = payload.len();
    seq![(n % 0x100) as u8, (n / 0x100 % 0x100) as u8, (n / 0x1_0000 % 0x100) as u8, (code + MPLEX_BASE) as u8]
        + payload
}

proof fn lemma_frame_header(code: u8, payload: Seq<u8>)
    requires
        payload.len() < 0x100_0000,
        code + MPLEX_BASE <= 0xff,
    ensures
        frame(code, payload).len() == 4 + payload.len(),
        header_len(frame(code, payload)) == payload.len(),
        frame(code, payload)[3] == code + MPLEX_BASE,
        frame(code, payload).subrange(4, 4 + payload.len() as int) == payload,
{
    let n = payload.len() as int;
    let f = frame(code, payload);
    assert(n % 0x100 + (n / 0x100 % 0x100) * 0x100 + (n / 0x1_0000 % 0x100) * 0x1_0000 == n) by (nonlinear_arith)
        requires
            0 <= n < 0x100_0000,
    ;
    assert(f.subrange(4, 4 + n) =~= payload);
}

/// A frame that is neither data nor fatal adds its message, and what follows it
/// is read as if it were alone; a data frame adds its payload to the data.
proof fn lemma_demux_frame(code: u8, payload: Seq<u8>, rest: Seq<u8>)
    requires
        payload.len() < 0x100_0000,
        code + MPLEX_BASE <= 0xff,
        !is_fatal(code),
    ensures
        code == MSG_DATA ==> demux(frame(code, payload) + rest) == prepend(payload, Seq::empty(), demux(rest)),
        code != MSG_DATA ==> demux(frame(code, payload) + rest) == prepend(Seq::empty(), seq![(code, payload)], demux(rest)),
{
    lemma_frame_header(code, payload);
    let f = frame(code, payload);
    let s = f + rest;
    assert(s[3] == f[3]);
    assert(s[0] == f[0] && s[1] == f[1] && s[2] == f[2]);
    assert(s.subrange(4, 4 + payload.len() as int) =~= f.subrange(4, 4 + payload.len() as int));
    assert(s.skip(4 + payload.len() as int) =~= rest);
}

/// Data frames around an out-of-band frame: the data comes out whole and in
/// order, and the message is taken out of the stream into the messages.
pub proof fn lemma_interleaved_frames(d1: Seq<u8>, code: u8, info: Seq<u8>, d2: Seq<u8>)
    requires
        d1.len() < 0x100_0000,
        info.len() < 0x100_0000,
        d2.len() < 0x100_0000,
        code != MSG_DATA,
        !is_fatal(code),
        code + MPLEX_BASE <= 0xff,
    ensures
        demux(frame(MSG_DATA, d1) + frame(code, info) + frame(MSG_DATA, d2)) == DemuxView::Done(
            d1 + d2,
            seq![(code, info)],
        ),
{
    let f1 = frame(MSG_DATA, d1);
    let f2 = frame(code, info);
    let f3 = frame(MSG_DATA, d2);
    lemma_demux_frame(MSG_DATA, d2, Seq::empty());
    assert(f3 + Seq::<u8>::empty() =~= f3);
    assert(demux(Seq::<u8>::empty()) == DemuxView::Done(Seq::empty(), Seq::empty()));
    assert(d2 + Seq::<u8>::empty() =~= d2);
    assert(Seq::<(u8, Seq<u8>)>::empty() + Seq::<(u8, Seq<u8>)>::empty() =~= Seq::<(u8, Seq<u8>)>::empty());
    lemma_demux_frame(code, info, f3);
    assert(Seq::<u8>::empty() + d2 =~= d2);
    assert(seq![(code, info)] + Seq::<(u8, Seq<u8>)>::empty() =~= seq![(code, info)]);
    lemma_demux_frame(MSG_DATA, d1, f2 + f3);
    assert(f1 + f2 + f3 =~= f1 + (f2 + f3));
    assert(Seq::<(u8, Seq<u8>)>::empty() + seq![(code, info)] =~= seq![(code, info)]);
}

proof fn lemma_prepend_assoc(d1: Seq<u8>, m1: Seq<(u8, Seq<u8>)>, d2: Seq<u8>, m2: Seq<(u8, Seq<u8>)>, r: DemuxView)
    ensures
        prepend(d1, m1, prepend(d2, m2, r)) == prepend(d1 + d2, m1 + m2, r),
{
    if let DemuxView::Done(d, m) = r {
        assert(d1 + (d2 + d) =~= (d1 + d2) + d);
        assert(m1 + (m2 + m) =~= (m1 + m2) + m);
    }
}


/// Splits a multiplexed stream into its data and its out-of-band messages.
pub fn demultiplex(s: &[u8]) -> (r: Result<Demuxed, EnvelopeError>)
    ensures
        result_view(r) == demux(s@),
{
    let mut data: Vec<u8> = Vec::new();
    let mut msgs: Vec<Message> = Vec::new();
    let mut pos: usize = 0;
    assert(s@.skip(0) =~= s@);
    assert(data@ =~= Seq::<u8>::empty());
    assert(messages_view(msgs@) =~= Seq::<(u8, Seq<u8>)>::empty());
    while pos < s.len()
        invariant
            pos <= s@.len(),
            demux(s@) == prepend(data@, messages_view(msgs@), demux(s@.skip(pos as int))),
        decreases s@.len() - pos,
    {
        let ghost rest = s@.skip(pos as int);
        if s.len() - pos < 4 {
            return Err(EnvelopeError::Truncated);
        }
        let len: usize = s[pos] as usize + s[pos + 1] as usize * 0x100 + s[pos + 2] as usize * 0x1_0000;
        let tag = s[pos + 3];
        assert(len == header_len(rest));
        if s.len() - pos - 4 < len {
            return Err(EnvelopeError::Truncated);
        }
        if tag < MPLEX_BASE {
            return Err(EnvelopeError::BadTag(tag));
        }
        let code = tag - MPLEX_BASE;
        let end = pos + 4 + len;
        let payload = copy_range(s, pos + 4, end);
        assert(payload@ =~= rest.subrange(4, 4 + len));
        assert(rest.skip(4 + len) =~= s@.skip(end as int));
        if code == MSG_ERROR_XFER || code == MSG_ERROR {
            return Err(EnvelopeError::Server(code, payload));
        }
        let ghost old_data = data@;
        let ghost old_msgs = messages_view(msgs@);
        if code == MSG_DATA {
            append_bytes(&mut data, payload.as_slice());
            assert(messages_view(msgs@) + Seq::<(u8, Seq<u8>)>::empty() =~= messages_view(msgs@));
            proof {
                lemma_prepend_assoc(old_data, old_msgs, payload@, Seq::empty(), demux(s@.skip(end as int)));
            }
        } else {
            msgs.push(Message { code, payload });
            assert(messages_view(msgs@) =~= old_msgs + seq![(code, payload@)]);
            assert(old_data + Seq::<u8>::empty() =~= old_data);
            proof {
                lemma_prepend_assoc(old_data, old_msgs, Seq::empty(), seq![(code, payload@)], demux(s@.skip(end as int)));
            }
        }
        pos = end;
    }
    proof {
        assert(s@.skip(pos as int) =~= Seq::<u8>::empty());
        assert(data@ + Seq::<u8>::empty() =~= data@);
        assert(messages_view(msgs@) + Seq::<(u8, Seq<u8>)>::empty() =~= messages_view(msgs@));
    }
    Ok(Demuxed { data, messages: msgs })
}

} // verus!
