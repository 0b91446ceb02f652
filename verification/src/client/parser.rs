//! The parser of the frames that the broker sends to a client.
//!
//! ```text
//! MSG <subject> <sid> <size>\r\n<payload>\r\n
//! ```

use crate::error::NError;
use crate::wire::{lemma_frame_side, Decoder, Frame, FrameView, Machine, Outcome, Side};
use vstd::prelude::*;

verus! {

/// The arguments and the payload of a `MSG`.
#[derive(Debug, PartialEq)]
pub struct MsgArg {
    pub subject: Vec<u8>,
    /// The size of the payload.
    pub size: usize,
    pub sid: Vec<u8>,
    pub msg: Vec<u8>,
}

/// What a call of [`Parser::parse`] found.
#[derive(Debug, PartialEq)]
pub enum ParseResult {
    /// The bytes ended before a frame did.
    NoMsg,
    MsgArg(MsgArg),
}

impl View for ParseResult {
    type V = Option<FrameView>;

    open spec fn view(&self) -> Option<FrameView> {
        match self {
            ParseResult::NoMsg => None,
            ParseResult::MsgArg(a) => Some(
                FrameView::Msg {
                    subject: a.subject@,
                    sid: a.sid@,
                    size: a.size as nat,
                    msg: a.msg@,
                },
            ),
        }
    }
}

/// The parser of one connection. It keeps what it has read of a frame from
/// one call to the next.
#[derive(Debug)]
pub struct Parser {
    decoder: Decoder,
}

impl View for Parser {
    type V = Machine;

    closed spec fn view(&self) -> Machine {
        self.decoder@
    }
}

impl Parser {
    /// What holds of every parser: it is a machine of the client side,
    /// within the values of such a machine.
    pub open spec fn wf(&self) -> bool {
        self@.wf() && self@.side == Side::Client
    }

    /// A parser between two frames.
    pub fn new() -> (p: Self)
        ensures
            p.wf(),
            p@ == Machine::start(Side::Client),
    {
        Parser { decoder: Decoder::new(Side::Client) }
    }

    /// Reads `buf` from its start up to the end of the first frame, and
    /// returns the frame with the number of bytes up to its end. What
    /// follows in `buf` was not looked at: the caller hands it in again.
    /// Where `buf` ends before a frame does, the result is `NoMsg` with a
    /// count of zero; all of `buf` was taken, and the next call goes on
    /// inside the frame. A byte that the protocol does not allow there is
    /// an error, and the parser is left as it was before that byte.
    pub fn parse(&mut self, buf: &[u8]) -> (r: Result<(ParseResult, usize), NError>)
        requires
            old(self).wf(),
        ensures
            final(self).wf(),
            match old(self)@.parse(buf@) {
                Outcome::Incomplete(next) => r is Ok && r->Ok_0.0 == ParseResult::NoMsg
                    && r->Ok_0.1 == 0 && final(self)@ == next,
                Outcome::Frame { frame, consumed } => r is Ok && r->Ok_0.0@ == Some(frame)
                    && r->Ok_0.1 == consumed && final(self)@ == Machine::start(Side::Client),
                Outcome::Failed { code, state } => r is Err && r->Err_0.err_code == code
                    && final(self)@ == state,
            },
    {
        proof {
            lemma_frame_side(self@, buf@);
        }
        match self.decoder.parse(buf) {
            Err(e) => Err(e),
            Ok((None, n)) => Ok((ParseResult::NoMsg, n)),
            Ok((Some(Frame::Msg { subject, sid, size, msg }), n)) => Ok(
                (ParseResult::MsgArg(MsgArg { subject, size, sid, msg }), n),
            ),
            Ok((Some(_), n)) => {
                assert(false);
                Ok((ParseResult::NoMsg, n))
            },
        }
    }

    /// Drops the payload under way. Between frames there is none and
    /// nothing changes; inside a payload the frame is given up.
    pub fn clear_msg_buf(&mut self)
        requires
            old(self).wf(),
        ensures
            final(self).wf(),
            final(self)@ == old(self)@.cleared(),
    {
        self.decoder.clear_msg_buf();
    }
}

} // verus!
