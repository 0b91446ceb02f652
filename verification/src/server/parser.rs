//! The parser of the frames that a client sends to the broker.
//!
//! ```text
//! PUB <subject> <size>\r\n<payload>\r\n
//! SUB <subject> <sid>\r\n
//! SUB <subject> <queue> <sid>\r\n
//! ```

use crate::error::NError;
use crate::wire::{
    lemma_frame_side, lemma_parse_wf, Decoder, Frame, FrameView, Machine, Outcome, Side,
};
use vstd::prelude::*;

verus! {

/// The arguments of a `SUB`.
#[derive(Debug, PartialEq)]
pub struct SubArg {
    pub subject: Vec<u8>,
    pub sid: Vec<u8>,
    pub queue: Option<Vec<u8>>,
}

/// The arguments and the payload of a `PUB`.
#[derive(Debug, PartialEq)]
pub struct PubArg {
    pub subject: Vec<u8>,
    /// The size as the publisher wrote it.
    pub size_buf: Vec<u8>,
    /// The size as a number.
    pub size: usize,
    pub msg: Vec<u8>,
}

/// What a call of [`Parser::parse`] found.
#[derive(Debug, PartialEq)]
pub enum ParseResult {
    /// The bytes ended before a frame did.
    NoMsg,
    Sub(SubArg),
    Pub(PubArg),
}

impl View for ParseResult {
    type V = Option<FrameView>;

    open spec fn view(&self) -> Option<FrameView> {
        match self {
            ParseResult::NoMsg => None,
            ParseResult::Sub(a) => Some(
                FrameView::Sub {
                    subject: a.subject@,
                    queue: match a.queue {
                        Some(q) => Some(q@),
                        None => None,
                    },
                    sid: a.sid@,
                },
            ),
            ParseResult::Pub(a) => Some(
                FrameView::Pub {
                    subject: a.subject@,
                    size_buf: a.size_buf@,
                    size: a.size as nat,
                    msg: a.msg@,
                },
            ),
        }
    }
}

/// The parser of one connection. It keeps what it has read of a frame from
/// one call to the next.
#[derive(Debug)]
pub struct Parser {
    decoder: Decoder,
}

impl View for Parser {
    type V = Machine;

    closed spec fn view(&self) -> Machine {
        self.decoder@
    }
}

impl Parser {
    /// What holds of every parser: it is a machine of the server side,
    /// within the values of such a machine.
    pub open spec fn wf(&self) -> bool {
        self@.wf() && self@.side == Side::Server
    }

    /// A parser between two frames.
    pub fn new() -> (p: Self)
        ensures
            p.wf(),
            p@ == Machine::start(Side::Server),
    {
        Parser { decoder: Decoder::new(Side::Server) }
    }

    /// Reads `buf` from its start up to the end of the first frame, and
    /// returns the frame with the number of bytes up to its end. What
    /// follows in `buf` was not looked at: the caller hands it in again.
    /// Where `buf` ends before a frame does, the result is `NoMsg` with a
    /// count of zero; all of `buf` was taken, and the next call goes on
    /// inside the frame. A byte that the protocol does not allow there is
    /// an error, and the parser is left as it was before that byte.
    pub fn parse(&mut self, buf: &[u8]) -> (r: Result<(ParseResult, usize), NError>)
        requires
            old(self).wf(),
        ensures
            final(self).wf(),
            match old(self)@.parse(buf@) {
                Outcome::Incomplete(next) => r is Ok && r->Ok_0.0 == ParseResult::NoMsg
                    && r->Ok_0.1 == 0 && final(self)@ == next,
                Outcome::Frame { frame, consumed } => r is Ok && r->Ok_0.0@ == Some(frame)
                    && r->Ok_0.1 == consumed && final(self)@ == Machine::start(Side::Server),
                Outcome::Failed { code, state } => r is Err && r->Err_0.err_code == code
                    && final(self)@ == state,
            },
    {
        proof {
            lemma_frame_side(self@, buf@);
        }
        match self.decoder.parse(buf) {
            Err(e) => Err(e),
            Ok((None, n)) => Ok((ParseResult::NoMsg, n)),
            Ok((Some(Frame::Sub { subject, queue, sid }), n)) => Ok(
                (ParseResult::Sub(SubArg { subject, sid, queue }), n),
            ),
            Ok((Some(Frame::Pub { subject, size_buf, size, msg }), n)) => Ok(
                (ParseResult::Pub(PubArg { subject, size_buf, size, msg }), n),
            ),
            Ok((Some(Frame::Msg { .. }), n)) => {
                assert(false);
                Ok((ParseResult::NoMsg, n))
            },
        }
    }

    /// Drops the payload under way. Between frames there is none and
    /// nothing changes; inside a payload the frame is given up.
    pub fn clear_msg_buf(&mut self)
        requires
            old(self).wf(),
        ensures
            final(self).wf(),
            final(self)@ == old(self)@.cleared(),
    {
        self.decoder.clear_msg_buf();
    }

    /// A walk over the frames in `buf`.
    pub fn iter<'a>(&'a mut self, buf: &'a [u8]) -> (it: ParseIter<'a>)
        requires
            old(self).wf(),
        ensures
            it.wf(),
            it.machine() == old(self)@,
            it.rest() == buf@,
            *final(self) == *final(it.parser),
    {
        ParseIter { parser: self, buf }
    }
}

/// A walk over the frames in a buffer, on a parser that was lent for it.
/// When the walk is over the parser is as the walk has left it.
pub struct ParseIter<'a> {
    /// The parser that was lent.
    pub parser: &'a mut Parser,
    /// The bytes that the walk has yet to read.
    pub buf: &'a [u8],
}

impl<'a> ParseIter<'a> {
    /// What holds of every walk: its parser is valid.
    pub closed spec fn wf(&self) -> bool {
        self.parser.wf()
    }

    /// The parser's machine.
    pub closed spec fn machine(&self) -> Machine {
        self.parser@
    }

    /// The bytes that the walk has yet to read.
    pub closed spec fn rest(&self) -> Seq<u8> {
        self.buf@
    }

    /// The next frame. `None` when no byte is left. `NoMsg` when the bytes
    /// end before a frame does, and an error when a byte is refused: either
    /// ends the walk.
    pub fn next(&mut self) -> (item: Option<Result<ParseResult, NError>>)
        requires
            old(self).wf(),
        ensures
            final(self).wf(),
            *final(final(self).parser) == *final(old(self).parser),
            old(self).rest().len() == 0 ==> item is None && final(self).rest().len() == 0
                && final(self).machine() == old(self).machine(),
            old(self).rest().len() > 0 ==> item is Some && match old(self).machine().parse(
                old(self).rest(),
            ) {
                Outcome::Incomplete(next) => item->Some_0 is Ok && item->Some_0->Ok_0
                    == ParseResult::NoMsg && final(self).machine() == next && final(self).rest().len() == 0,
                Outcome::Frame { frame, consumed } => item->Some_0 is Ok && item->Some_0->Ok_0@
                    == Some(frame) && final(self).machine() == Machine::start(Side::Server)
                    && final(self).rest() == old(self).rest().skip(consumed as int),
                Outcome::Failed { code, state } => item->Some_0 is Err
                    && item->Some_0->Err_0.err_code == code && final(self).machine() == state
                    && final(self).rest().len() == 0,
            },
    {
        if self.buf.len() == 0 {
            return None;
        }
        proof {
            lemma_parse_wf(self.parser@, self.buf@);
        }
        match self.parser.parse(self.buf) {
            Ok((ParseResult::NoMsg, _)) => {
                self.buf = vstd::slice::slice_subrange(self.buf, 0, 0);
                Some(Ok(ParseResult::NoMsg))
            },
            Ok((frame, n)) => {
                self.buf = vstd::slice::slice_subrange(self.buf, n, self.buf.len());
                Some(Ok(frame))
            },
            Err(e) => {
                self.buf = vstd::slice::slice_subrange(self.buf, 0, 0);
                Some(Err(e))
            },
        }
    }
}

} // verus!
