//! The client of a broker, as far as it is no socket: the frames that it
//! sends, the names that it gives its subscriptions, and the messages that
//! it reads out of what the broker sends.

use crate::client::parser::{MsgArg, ParseResult, Parser};
use crate::error::NError;
use crate::text::{decimal_digits, format_decimal};
use crate::wire::{
    lemma_parse_wf, pub_frame, sub_frame_bytes, write_pub, write_sub, FrameView, Machine, Outcome,
    Side,
};
use vstd::prelude::*;

verus! {

/// The `PUB` frames for the first `n` of `subjects`, each with the message
/// at its place in `msgs`, one after the other.
pub open spec fn pub_frames(subjects: Seq<Seq<u8>>, msgs: Seq<Seq<u8>>, n: nat) -> Seq<u8>
    decreases n,
{
    if n == 0 {
        Seq::empty()
    } else {
        pub_frames(subjects, msgs, (n - 1) as nat) + pub_frame(subjects[n - 1], msgs[n - 1])
    }
}

/// The byte strings of a sequence of vectors.
pub open spec fn byte_views(v: Seq<Vec<u8>>) -> Seq<Seq<u8>> {
    Seq::new(v.len(), |i: int| v[i]@)
}

/// The messages in `buf` for a parser that stands at `m`, up to the end of
/// `buf` or the first byte that is refused. The second part is the parser
/// after all of `buf`, or the code of the error.
pub open spec fn messages_in(m: Machine, buf: Seq<u8>) -> (Seq<FrameView>, Result<Machine, i32>)
    decreases buf.len(),
{
    match m.parse(buf) {
        Outcome::Incomplete(next) => (Seq::empty(), Ok(next)),
        Outcome::Failed { code, .. } => (Seq::empty(), Err(code)),
        Outcome::Frame { frame, consumed } => if 1 <= consumed <= buf.len() {
            let rest = messages_in(Machine::start(m.side), buf.skip(consumed as int));
            (seq![frame] + rest.0, rest.1)
        } else {
            (seq![frame], Ok(Machine::start(m.side)))
        },
    }
}

/// The messages of a sequence, as frames.
pub open spec fn msg_views(v: Seq<MsgArg>) -> Seq<FrameView> {
    Seq::new(
        v.len(),
        |i: int|
            FrameView::Msg {
                subject: v[i].subject@,
                sid: v[i].sid@,
                size: v[i].size as nat,
                msg: v[i].msg@,
            },
    )
}

/// The state of a client: the number of its newest subscription, and the
/// parser of what the broker sends.
pub struct Client {
    sid: u64,
    parser: Parser,
}

impl Client {
    /// The number of the newest subscription.
    pub closed spec fn newest(&self) -> u64 {
        self.sid
    }

    /// The parser of what the broker sends.
    pub closed spec fn machine(&self) -> Machine {
        self.parser@
    }

    /// What holds of a client between calls.
    pub open spec fn wf(&self) -> bool {
        self.machine().wf() && self.machine().side == Side::Client
    }

    /// A client that has not subscribed and not read yet.
    pub fn new() -> (c: Self)
        ensures
            c.wf(),
            c.newest() == 0,
            c.machine() == Machine::start(Side::Client),
    {
        Client { sid: 0, parser: Parser::new() }
    }

    /// The number of the newest subscription.
    pub fn sid(&self) -> (sid: u64)
        ensures
            sid == self.newest(),
    {
        self.sid
    }

    /// The frame that publishes `msg` on `subject`.
    pub fn pub_message(subject: &[u8], msg: &[u8]) -> (frame: Vec<u8>)
        ensures
            frame@ == pub_frame(subject@, msg@),
    {
        let mut frame: Vec<u8> = Vec::new();
        write_pub(&mut frame, subject, msg);
        assert(frame@ =~= pub_frame(subject@, msg@));
        frame
    }

    /// The frames that publish each of `msg` on the subject at its place in
    /// `subject`, one after the other.
    pub fn pub_messages(subject: &Vec<Vec<u8>>, msg: &Vec<Vec<u8>>) -> (frames: Vec<u8>)
        requires
            subject@.len() <= msg@.len(),
        ensures
            frames@ == pub_frames(byte_views(subject@), byte_views(msg@), subject@.len()),
    {
        let mut frames: Vec<u8> = Vec::new();
        let mut i: usize = 0;
        while i < subject.len()
            invariant
                i <= subject@.len(),
                subject@.len() <= msg@.len(),
                frames@ == pub_frames(byte_views(subject@), byte_views(msg@), i as nat),
            decreases subject@.len() - i,
        {
            write_pub(&mut frames, subject[i].as_slice(), msg[i].as_slice());
            i += 1;
        }
        frames
    }

    /// The frame that subscribes to `subject`, in the queue group `queue`
    /// if one is given. The subscription gets the next number as its sid.
    pub fn sub_message(&mut self, subject: &[u8], queue: Option<&[u8]>) -> (frame: Vec<u8>)
        requires
            old(self).newest() < u64::MAX,
        ensures
            final(self).newest() == old(self).newest() + 1,
            final(self).machine() == old(self).machine(),
            frame@ == sub_frame_bytes(
                subject@,
                match queue {
                    Some(q) => Some(q@),
                    None => None,
                },
                decimal_digits(final(self).newest() as nat),
            ),
    {
        self.sid = self.sid + 1;
        let sid = format_decimal(self.sid);
        let mut frame: Vec<u8> = Vec::new();
        write_sub(&mut frame, subject, queue, sid.as_slice());
        assert(frame@ =~= sub_frame_bytes(
            subject@,
            match queue {
                Some(q) => Some(q@),
                None => None,
            },
            sid@,
        ));
        frame
    }

    /// Reads what the broker has sent: the messages that are complete in
    /// `buf`, in their order. The start of a message at the end of `buf` is
    /// kept for the next call. A byte that the protocol does not allow ends
    /// the reading with an error, after the messages before it.
    pub fn receive(&mut self, buf: &[u8]) -> (r: (Vec<MsgArg>, Result<(), NError>))
        requires
            old(self).wf(),
        ensures
            final(self).wf(),
            final(self).newest() == old(self).newest(),
            msg_views(r.0@) == messages_in(old(self).machine(), buf@).0,
            match r.1 {
                Ok(_) => messages_in(old(self).machine(), buf@).1 == Ok::<Machine, i32>(
                    final(self).machine(),
                ),
                Err(e) => messages_in(old(self).machine(), buf@).1 == Err::<Machine, i32>(
                    e.err_code,
                ),
            },
    {
        let ghost first = self.parser@;
        let mut msgs: Vec<MsgArg> = Vec::new();
        let mut pos: usize = 0;
        let mut outcome: Result<(), NError> = Ok(());
        assert(buf@.skip(0) =~= buf@);
        assert(msg_views(msgs@) =~= Seq::<FrameView>::empty());
        loop
            invariant_except_break
                pos <= buf@.len(),
                outcome is Ok,
                messages_in(first, buf@).0 == msg_views(msgs@) + messages_in(
                    self.parser@,
                    buf@.skip(pos as int),
                ).0,
                messages_in(first, buf@).1 == messages_in(self.parser@, buf@.skip(pos as int)).1,
            invariant
                self.parser.wf(),
                self.sid == old(self).sid,
                first == old(self).parser@,
            ensures
                msg_views(msgs@) == messages_in(first, buf@).0,
                match outcome {
                    Ok(_) => messages_in(first, buf@).1 == Ok::<Machine, i32>(self.parser@),
                    Err(e) => messages_in(first, buf@).1 == Err::<Machine, i32>(e.err_code),
                },
            decreases buf@.len() - pos,
        {
            let ghost rest = buf@.skip(pos as int);
            let ghost seen = msg_views(msgs@);
            let left = vstd::slice::slice_subrange(buf, pos, buf.len());
            assert(left@ =~= rest);
            proof {
                lemma_parse_wf(self.parser@, rest);
            }
            match self.parser.parse(left) {
                Err(e) => {
                    outcome = Err(e);
                    assert(seen + Seq::<FrameView>::empty() =~= seen);
                    break ;
                },
                Ok((ParseResult::NoMsg, _)) => {
                    assert(seen + Seq::<FrameView>::empty() =~= seen);
                    break ;
                },
                Ok((ParseResult::MsgArg(m), n)) => {
                    let ghost frame = FrameView::Msg {
                        subject: m.subject@,
                        sid: m.sid@,
                        size: m.size as nat,
                        msg: m.msg@,
                    };
                    msgs.push(m);
                    self.parser.clear_msg_buf();
                    proof {
                        assert(msg_views(msgs@) =~= seen.push(frame));
                        assert(rest.skip(n as int) =~= buf@.skip(pos + n));
                        let after = messages_in(Machine::start(Side::Client), rest.skip(n as int));
                        assert(seen.push(frame) + after.0 =~= seen + (seq![frame] + after.0));
                    }
                    pos = pos + n;
                },
            }
        }
        (msgs, outcome)
    }
}

} // verus!
