//! The wire protocol: its frames, the byte-by-byte machine that reads them
//! out of a stream cut at arbitrary places, and the writers of each frame.
//!
//! ```text
//! PUB <subject> <size>\r\n<payload>\r\n
//! SUB <subject> <sid>\r\n
//! SUB <subject> <queue> <sid>\r\n
//! MSG <subject> <sid> <size>\r\n<payload>\r\n
//! ```
//!
//! A server reads `SUB` and `PUB`, a client reads `MSG`. The machine is the
//! same for both: a command word, blanks, an argument line, and for `PUB`
//! and `MSG` a payload of the declared size and a line end. [`Machine`] is
//! the machine as a mathematical value and [`Machine::step`] its transition
//! on one byte. [`Decoder`] is the machine at run time.

use crate::error::{NError, ERROR_MESSAGE_SIZE_TOO_LARGE, ERROR_PARSE};
use crate::text::{
    decimal, decimal_digits, fields, format_decimal, lemma_decimal_digits, lemma_fields_join,
    lemma_fields_single, parse_decimal, split_fields, views, CR, LF, SPACE, TAB,
};
use vstd::prelude::*;

verus! {

/// The longest argument line that is read.
pub const BUF_LEN: usize = 512;

/// The largest payload that may be declared, one mebibyte.
pub const MAX_PAYLOAD: usize = 1048576;

/// The commands of the protocol.
#[derive(Debug, Clone, Copy, PartialEq, Eq, Structural)]
pub enum Op {
    Sub,
    Pub,
    Msg,
}

/// The end of a connection that a machine reads for.
#[derive(Debug, Clone, Copy, PartialEq, Eq, Structural)]
pub enum Side {
    /// Reads `SUB` and `PUB`.
    Server,
    /// Reads `MSG`.
    Client,
}

/// The place in a frame that a machine has reached.
#[derive(Debug, Clone, Copy, PartialEq, Eq, Structural)]
pub enum ParseState {
    /// Between frames.
    Start,
    /// After the first letter of a command word.
    First(Op),
    /// After its second letter.
    Second(Op),
    /// After the whole word: a blank has to follow.
    Third(Op),
    /// Among the blanks before the argument line.
    Blank(Op),
    /// In the argument line.
    Arg(Op),
    /// In the payload.
    Body(Op),
    /// After the payload: the line end has to follow.
    Trailer(Op),
}

/// A frame as a mathematical value.
pub enum FrameView {
    Sub { subject: Seq<u8>, queue: Option<Seq<u8>>, sid: Seq<u8> },
    Pub { subject: Seq<u8>, size_buf: Seq<u8>, size: nat, msg: Seq<u8> },
    Msg { subject: Seq<u8>, sid: Seq<u8>, size: nat, msg: Seq<u8> },
}

/// What one byte does to a machine.
pub enum Step {
    /// The byte was taken and the machine goes on from the given value.
    Go(Machine),
    /// The byte ended a frame. The machine is back at its start.
    Done(FrameView),
    /// The byte is refused with the given error code. The machine stays as
    /// it was.
    Fail(i32),
}

/// What a run of bytes does to a machine.
pub enum Outcome {
    /// The bytes ran out inside a frame, or between two. All of them were
    /// taken, and the machine goes on from the given value.
    Incomplete(Machine),
    /// A frame ended with the byte before `consumed`. The machine is back
    /// at its start, and the bytes from `consumed` on were not looked at.
    Frame { frame: FrameView, consumed: nat },
    /// A byte was refused. The machine is left as it was before that byte.
    Failed { code: i32, state: Machine },
}

impl Outcome {
    /// The same outcome `k` bytes further into the stream.
    pub open spec fn shifted(self, k: nat) -> Outcome {
        match self {
            Outcome::Frame { frame, consumed } => Outcome::Frame { frame, consumed: consumed + k },
            other => other,
        }
    }
}

/// The three letters of a command word.
pub open spec fn word(op: Op) -> Seq<u8> {
    match op {
        Op::Sub => seq![83u8, 85u8, 66u8],
        Op::Pub => seq![80u8, 85u8, 66u8],
        Op::Msg => seq![77u8, 83u8, 71u8],
    }
}

/// Whether a machine for `side` reads the command `op`.
pub open spec fn accepts(side: Side, op: Op) -> bool {
    match side {
        Side::Server => op == Op::Sub || op == Op::Pub,
        Side::Client => op == Op::Msg,
    }
}

/// The command that begins with the letter `b`, if `side` reads one.
pub open spec fn command_of(side: Side, b: u8) -> Option<Op> {
    if accepts(side, Op::Sub) && b == word(Op::Sub)[0] {
        Some(Op::Sub)
    } else if accepts(side, Op::Pub) && b == word(Op::Pub)[0] {
        Some(Op::Pub)
    } else if accepts(side, Op::Msg) && b == word(Op::Msg)[0] {
        Some(Op::Msg)
    } else {
        None
    }
}

/// A space or a tab.
pub open spec fn is_blank(b: u8) -> bool {
    b == SPACE || b == TAB
}

/// The number of fields in the argument line of a command with a payload.
pub open spec fn field_count(op: Op) -> nat {
    match op {
        Op::Msg => 3,
        _ => 2,
    }
}

/// The frame that the argument line `arg` of a `SUB` makes: two fields are
/// subject and sid, three are subject, queue and sid. `None` for any other
/// number of fields.
pub open spec fn sub_frame(arg: Seq<u8>) -> Option<FrameView> {
    let f = fields(arg);
    if f.len() == 2 {
        Some(FrameView::Sub { subject: f[0], queue: None, sid: f[1] })
    } else if f.len() == 3 {
        Some(FrameView::Sub { subject: f[0], queue: Some(f[1]), sid: f[2] })
    } else {
        None
    }
}

/// The payload size that the argument line `arg` of a `PUB` or `MSG`
/// declares, or the code of the error that it earns. The size is the last
/// field. It has to be a decimal number that the machine's integers hold,
/// above zero and at most [`MAX_PAYLOAD`], and the line has to have just
/// the fields of its command.
pub open spec fn declared_size(op: Op, arg: Seq<u8>) -> Result<nat, i32> {
    let f = fields(arg);
    if f.len() == 0 {
        Err(ERROR_PARSE)
    } else {
        match decimal(f.last()) {
            None => Err(ERROR_PARSE),
            Some(n) => if n > usize::MAX {
                Err(ERROR_PARSE)
            } else if n == 0 || n > MAX_PAYLOAD {
                Err(ERROR_MESSAGE_SIZE_TOO_LARGE)
            } else if f.len() != field_count(op) {
                Err(ERROR_PARSE)
            } else {
                Ok(n)
            },
        }
    }
}

/// The frame that the argument line `arg` and the payload `msg` make.
pub open spec fn body_frame(op: Op, arg: Seq<u8>, msg: Seq<u8>) -> FrameView {
    let f = fields(arg);
    match op {
        Op::Msg => FrameView::Msg { subject: f[0], sid: f[1], size: msg.len(), msg },
        _ => FrameView::Pub { subject: f[0], size_buf: f[1], size: msg.len(), msg },
    }
}

/// A machine that reads frames: where it stands, the argument line and the
/// payload as far as they were read, and the declared payload size.
pub struct Machine {
    pub side: Side,
    pub state: ParseState,
    pub arg: Seq<u8>,
    pub msg: Seq<u8>,
    pub total: nat,
}

impl Machine {
    /// The machine between two frames.
    pub open spec fn start(side: Side) -> Machine {
        Machine { side, state: ParseState::Start, arg: Seq::empty(), msg: Seq::empty(), total: 0 }
    }

    /// The machine at another place, with all else the same.
    pub open spec fn at(self, state: ParseState) -> Machine {
        Machine { state, ..self }
    }

    /// The values that a machine takes on: a command that its side reads;
    /// an argument line within [`BUF_LEN`]; a payload only behind an
    /// argument line that declares its size, and within that size.
    pub open spec fn wf(self) -> bool {
        match self.state {
            ParseState::Start => self.arg.len() == 0 && self.msg.len() == 0 && self.total == 0,
            ParseState::First(op) | ParseState::Second(op) | ParseState::Third(op)
            | ParseState::Blank(op) => accepts(self.side, op) && self.arg.len() == 0
                && self.msg.len() == 0 && self.total == 0,
            ParseState::Arg(op) => accepts(self.side, op) && self.arg.len() <= BUF_LEN
                && self.msg.len() == 0 && self.total == 0,
            ParseState::Body(op) => accepts(self.side, op) && op != Op::Sub && self.arg.len()
                <= BUF_LEN && declared_size(op, self.arg) == Ok::<nat, i32>(self.total)
                && self.msg.len() < self.total,
            ParseState::Trailer(op) => accepts(self.side, op) && op != Op::Sub
                && self.arg.len() <= BUF_LEN && declared_size(op, self.arg) == Ok::<nat, i32>(
                self.total,
            ) && self.msg.len() == self.total,
        }
    }

    /// What the byte `b` does in the argument line of `op`. A carriage
    /// return is passed over. A line feed ends the line: a `SUB` is then
    /// complete, a `PUB` or `MSG` goes on to its payload. Any other byte
    /// joins the line, unless the line is full.
    pub open spec fn step_arg(self, op: Op, b: u8) -> Step {
        if b == CR {
            Step::Go(self.at(ParseState::Arg(op)))
        } else if b == LF {
            match op {
                Op::Sub => match sub_frame(self.arg) {
                    Some(frame) => Step::Done(frame),
                    None => Step::Fail(ERROR_PARSE),
                },
                _ => match declared_size(op, self.arg) {
                    Ok(n) => Step::Go(Machine { state: ParseState::Body(op), total: n, ..self }),
                    Err(code) => Step::Fail(code),
                },
            }
        } else if self.arg.len() >= BUF_LEN {
            Step::Fail(ERROR_PARSE)
        } else {
            Step::Go(Machine { state: ParseState::Arg(op), arg: self.arg.push(b), ..self })
        }
    }

    /// What the byte `b` does to the machine.
    pub open spec fn step(self, b: u8) -> Step {
        match self.state {
            ParseState::Start => match command_of(self.side, b) {
                Some(op) => Step::Go(self.at(ParseState::First(op))),
                None => Step::Fail(ERROR_PARSE),
            },
            ParseState::First(op) => if b == word(op)[1] {
                Step::Go(self.at(ParseState::Second(op)))
            } else {
                Step::Fail(ERROR_PARSE)
            },
            ParseState::Second(op) => if b == word(op)[2] {
                Step::Go(self.at(ParseState::Third(op)))
            } else {
                Step::Fail(ERROR_PARSE)
            },
            ParseState::Third(op) => if is_blank(b) {
                Step::Go(self.at(ParseState::Blank(op)))
            } else {
                Step::Fail(ERROR_PARSE)
            },
            ParseState::Blank(op) => if is_blank(b) {
                Step::Go(self)
            } else {
                self.step_arg(op, b)
            },
            ParseState::Arg(op) => self.step_arg(op, b),
            ParseState::Body(op) => {
                let msg = self.msg.push(b);
                if msg.len() >= self.total {
                    Step::Go(Machine { state: ParseState::Trailer(op), msg, ..self })
                } else {
                    Step::Go(Machine { msg, ..self })
                }
            },
            ParseState::Trailer(op) => if b == CR {
                Step::Go(self)
            } else if b == LF {
                Step::Done(body_frame(op, self.arg, self.msg))
            } else {
                Step::Fail(ERROR_PARSE)
            },
        }
    }

    /// What the bytes `buf` do to the machine, up to the first frame that
    /// ends or the first byte that is refused.
    pub open spec fn parse(self, buf: Seq<u8>) -> Outcome
        decreases buf.len(),
    {
        if buf.len() == 0 {
            Outcome::Incomplete(self)
        } else {
            match self.step(buf[0]) {
                Step::Go(next) => next.parse(buf.drop_first()).shifted(1),
                Step::Done(frame) => Outcome::Frame { frame, consumed: 1 },
                Step::Fail(code) => Outcome::Failed { code, state: self },
            }
        }
    }

    /// The machine once the payload under way is dropped: a frame whose
    /// payload was being read is given up, and the machine is back between
    /// frames. Anywhere else there is no payload and nothing changes.
    pub open spec fn cleared(self) -> Machine {
        match self.state {
            ParseState::Body(_) | ParseState::Trailer(_) => Machine::start(self.side),
            _ => self,
        }
    }
}

/// A step keeps a machine within its values, and keeps its side.
pub proof fn lemma_step_wf(m: Machine, b: u8)
    requires
        m.wf(),
    ensures
        match m.step(b) {
            Step::Go(next) => next.wf() && next.side == m.side,
            _ => true,
        },
{
}

/// A run keeps a machine within its values, and keeps its side.
pub proof fn lemma_parse_wf(m: Machine, buf: Seq<u8>)
    requires
        m.wf(),
    ensures
        match m.parse(buf) {
            Outcome::Incomplete(next) => next.wf() && next.side == m.side,
            Outcome::Frame { consumed, .. } => 1 <= consumed <= buf.len(),
            Outcome::Failed { state, .. } => state.wf() && state.side == m.side,
        },
    decreases buf.len(),
{
    if buf.len() > 0 {
        lemma_step_wf(m, buf[0]);
        match m.step(buf[0]) {
            Step::Go(next) => {
                lemma_parse_wf(next, buf.drop_first());
            },
            _ => {},
        }
    }
}

/// Reading does not depend on where the stream is cut. If the bytes `a`
/// run out inside a frame, reading `b` from where `a` left the machine
/// gives what reading `a` and `b` in one piece gives: the same frame or
/// the same error, with the place of the frame's end counted from the
/// start of `b`. If `a` holds a whole frame or a refused byte, `b` is not
/// looked at.
pub proof fn lemma_parse_split(m: Machine, a: Seq<u8>, b: Seq<u8>)
    ensures
        m.parse(a + b) == match m.parse(a) {
            Outcome::Incomplete(next) => next.parse(b).shifted(a.len()),
            other => other,
        },
    decreases a.len(),
{
    if a.len() == 0 {
        assert(a + b =~= b);
        match m.parse(b) {
            Outcome::Frame { frame, consumed } => {},
            _ => {},
        }
    } else {
        let ab = a + b;
        assert(ab[0] == a[0]);
        assert(ab.drop_first() =~= a.drop_first() + b);
        match m.step(a[0]) {
            Step::Go(next) => {
                lemma_parse_split(next, a.drop_first(), b);
                match next.parse(a.drop_first()) {
                    Outcome::Incomplete(last) => {
                        match last.parse(b) {
                            Outcome::Frame { frame, consumed } => {},
                            _ => {},
                        }
                    },
                    _ => {},
                }
            },
            _ => {},
        }
    }
}

/// Whether the frame `f` is one that `side` reads.
pub open spec fn frame_of_side(side: Side, f: FrameView) -> bool {
    match side {
        Side::Server => f is Sub || f is Pub,
        Side::Client => f is Msg,
    }
}

/// A machine hands out only the frames of its side.
pub proof fn lemma_frame_side(m: Machine, buf: Seq<u8>)
    requires
        m.wf(),
    ensures
        m.parse(buf) matches Outcome::Frame { frame, .. } ==> frame_of_side(m.side, frame),
    decreases buf.len(),
{
    if buf.len() > 0 {
        lemma_step_wf(m, buf[0]);
        match m.step(buf[0]) {
            Step::Go(next) => {
                lemma_frame_side(next, buf.drop_first());
            },
            _ => {},
        }
    }
}

/// A frame at run time.
#[derive(Debug)]
pub enum Frame {
    Sub { subject: Vec<u8>, queue: Option<Vec<u8>>, sid: Vec<u8> },
    Pub { subject: Vec<u8>, size_buf: Vec<u8>, size: usize, msg: Vec<u8> },
    Msg { subject: Vec<u8>, sid: Vec<u8>, size: usize, msg: Vec<u8> },
}

impl View for Frame {
    type V = FrameView;

    open spec fn view(&self) -> FrameView {
        match self {
            Frame::Sub { subject, queue, sid } => FrameView::Sub {
                subject: subject@,
                queue: match queue {
                    Some(q) => Some(q@),
                    None => None,
                },
                sid: sid@,
            },
            Frame::Pub { subject, size_buf, size, msg } => FrameView::Pub {
                subject: subject@,
                size_buf: size_buf@,
                size: *size as nat,
                msg: msg@,
            },
            Frame::Msg { subject, sid, size, msg } => FrameView::Msg {
                subject: subject@,
                sid: sid@,
                size: *size as nat,
                msg: msg@,
            },
        }
    }
}

/// The frame of a `SUB` with the argument line `arg`: two fields are
/// subject and sid, three are subject, queue and sid, and any other number
/// is a parse error.
pub fn process_sub(arg: &[u8]) -> (r: Result<Frame, NError>)
    ensures
        match r {
            Ok(frame) => sub_frame(arg@) == Some(frame@),
            Err(e) => sub_frame(arg@) is None && e.err_code == ERROR_PARSE,
        },
{
    let mut f = split_fields(arg);
    let ghost all = views(f@);
    if f.len() == 2 {
        let sid = f.pop().unwrap();
        let subject = f.pop().unwrap();
        assert(sid@ == all[1] && subject@ == all[0]);
        Ok(Frame::Sub { subject, queue: None, sid })
    } else if f.len() == 3 {
        let sid = f.pop().unwrap();
        let queue = f.pop().unwrap();
        let subject = f.pop().unwrap();
        assert(sid@ == all[2] && queue@ == all[1] && subject@ == all[0]);
        Ok(Frame::Sub { subject, queue: Some(queue), sid })
    } else {
        Err(NError::new(ERROR_PARSE))
    }
}

/// The payload size that the argument line `arg` of a `PUB` or `MSG`
/// declares, or the error that the line earns.
pub fn get_message_size(op: Op, arg: &[u8]) -> (r: Result<usize, NError>)
    ensures
        match r {
            Ok(n) => declared_size(op, arg@) == Ok::<nat, i32>(n as nat),
            Err(e) => declared_size(op, arg@) == Err::<nat, i32>(e.err_code),
        },
{
    let f = split_fields(arg);
    let ghost all = views(f@);
    if f.len() == 0 {
        return Err(NError::new(ERROR_PARSE));
    }
    assert(f@[f@.len() - 1]@ == all.last());
    let size = match parse_decimal(f[f.len() - 1].as_slice()) {
        Some(n) => n,
        None => {
            return Err(NError::new(ERROR_PARSE));
        },
    };
    if size == 0 || size > MAX_PAYLOAD {
        return Err(NError::new(ERROR_MESSAGE_SIZE_TOO_LARGE));
    }
    let wanted: usize = match op {
        Op::Msg => 3,
        _ => 2,
    };
    if f.len() != wanted {
        return Err(NError::new(ERROR_PARSE));
    }
    Ok(size)
}

/// The frame with a payload that the argument line `arg` and the payload
/// `msg` make: a `MSG` frame where `op` is `Msg`, and else a `PUB` frame. A
/// line that has not just the fields of its command is a parse error.
pub fn process_msg(op: Op, arg: &[u8], msg: Vec<u8>) -> (r: Result<Frame, NError>)
    ensures
        match r {
            Ok(frame) => fields(arg@).len() == field_count(op) && frame@ == body_frame(
                op,
                arg@,
                msg@,
            ),
            Err(e) => fields(arg@).len() != field_count(op) && e.err_code == ERROR_PARSE,
        },
{
    let mut f = split_fields(arg);
    let ghost all = views(f@);
    let size: usize = msg.len();
    match op {
        Op::Msg => {
            if f.len() != 3 {
                return Err(NError::new(ERROR_PARSE));
            }
            let _size_buf = f.pop().unwrap();
            let sid = f.pop().unwrap();
            let subject = f.pop().unwrap();
            assert(sid@ == all[1] && subject@ == all[0]);
            Ok(Frame::Msg { subject, sid, size, msg })
        },
        _ => {
            if f.len() != 2 {
                return Err(NError::new(ERROR_PARSE));
            }
            let size_buf = f.pop().unwrap();
            let subject = f.pop().unwrap();
            assert(size_buf@ == all[1] && subject@ == all[0]);
            Ok(Frame::Pub { subject, size_buf, size, msg })
        },
    }
}

/// The machine at run time. It keeps what it has read of a frame from one
/// call to the next, so a frame may arrive in any number of pieces.
#[derive(Debug)]
pub struct Decoder {
    side: Side,
    state: ParseState,
    arg: Vec<u8>,
    msg: Vec<u8>,
    total: usize,
}

impl View for Decoder {
    type V = Machine;

    closed spec fn view(&self) -> Machine {
        Machine {
            side: self.side,
            state: self.state,
            arg: self.arg@,
            msg: self.msg@,
            total: self.total as nat,
        }
    }
}

impl Decoder {
    /// A machine for `side`, between two frames.
    pub fn new(side: Side) -> (d: Self)
        ensures
            d@ == Machine::start(side),
            d@.wf(),
    {
        Decoder { side, state: ParseState::Start, arg: Vec::new(), msg: Vec::new(), total: 0 }
    }

    /// Puts the machine back between two frames.
    fn reset(&mut self)
        ensures
            final(self)@ == Machine::start(old(self)@.side),
    {
        self.state = ParseState::Start;
        self.arg = Vec::new();
        self.msg = Vec::new();
        self.total = 0;
    }

    /// Adds a byte to the argument line, unless the line is full.
    fn add_arg(&mut self, b: u8) -> (r: Result<(), NError>)
        ensures
            match r {
                Ok(_) => old(self)@.arg.len() < BUF_LEN && final(self)@ == (Machine {
                    arg: old(self)@.arg.push(b),
                    ..old(self)@
                }),
                Err(e) => old(self)@.arg.len() >= BUF_LEN && e.err_code == ERROR_PARSE && final(self)@ == old(self)@,
            },
    {
        if self.arg.len() >= BUF_LEN {
            return Err(NError::new(ERROR_PARSE));
        }
        self.arg.push(b);
        Ok(())
    }

    /// Adds a byte to the payload.
    fn add_msg(&mut self, b: u8)
        ensures
            final(self)@ == (Machine { msg: old(self)@.msg.push(b), ..old(self)@ }),
    {
        self.msg.push(b);
    }

    /// The frame of a `PUB` or `MSG` whose payload is complete. The payload
    /// leaves the machine with the frame.
    fn take_frame(&mut self, op: Op) -> (r: Result<Frame, NError>)
        requires
            op != Op::Sub,
            declared_size(op, old(self)@.arg) is Ok,
        ensures
            r is Ok,
            r->Ok_0@ == body_frame(op, old(self)@.arg, old(self)@.msg),
            final(self)@ == (Machine { msg: Seq::empty(), ..old(self)@ }),
    {
        let mut msg: Vec<u8> = Vec::new();
        core::mem::swap(&mut self.msg, &mut msg);
        process_msg(op, self.arg.as_slice(), msg)
    }

    /// Takes one byte in the argument line of `op`.
    fn feed_arg(&mut self, op: Op, b: u8) -> (r: Result<Option<Frame>, NError>)
        requires
            old(self)@.wf(),
            old(self)@.state == ParseState::Blank(op) || old(self)@.state == ParseState::Arg(op),
        ensures
            match old(self)@.step_arg(op, b) {
                Step::Go(next) => r is Ok && r->Ok_0 is None && final(self)@ == next,
                Step::Done(frame) => r is Ok && r->Ok_0 is Some && r->Ok_0->Some_0@ == frame
                    && final(self)@ == Machine::start(old(self)@.side),
                Step::Fail(code) => r is Err && r->Err_0.err_code == code && final(self)@ == old(self)@,
            },
    {
        if b == CR {
            self.state = ParseState::Arg(op);
            Ok(None)
        } else if b == LF {
            match op {
                Op::Sub => {
                    let frame = process_sub(self.arg.as_slice())?;
                    self.reset();
                    Ok(Some(frame))
                },
                _ => {
                    let size = get_message_size(op, self.arg.as_slice())?;
                    self.total = size;
                    self.state = ParseState::Body(op);
                    Ok(None)
                },
            }
        } else {
            self.add_arg(b)?;
            self.state = ParseState::Arg(op);
            Ok(None)
        }
    }

    /// Takes one byte: the machine moves on, hands out the frame that the
    /// byte ends, or refuses the byte and stays as it was.
    pub fn feed(&mut self, b: u8) -> (r: Result<Option<Frame>, NError>)
        requires
            old(self)@.wf(),
        ensures
            final(self)@.wf(),
            final(self)@.side == old(self)@.side,
            match old(self)@.step(b) {
                Step::Go(next) => r is Ok && r->Ok_0 is None && final(self)@ == next,
                Step::Done(frame) => r is Ok && r->Ok_0 is Some && r->Ok_0->Some_0@ == frame
                    && final(self)@ == Machine::start(old(self)@.side),
                Step::Fail(code) => r is Err && r->Err_0.err_code == code && final(self)@ == old(self)@,
            },
    {
        proof {
            lemma_step_wf(self@, b);
        }
        match self.state {
            ParseState::Start => {
                let op = match self.side {
                    Side::Server => {
                        if b == 83 {
                            Op::Sub
                        } else if b == 80 {
                            Op::Pub
                        } else {
                            return Err(NError::new(ERROR_PARSE));
                        }
                    },
                    Side::Client => {
                        if b == 77 {
                            Op::Msg
                        } else {
                            return Err(NError::new(ERROR_PARSE));
                        }
                    },
                };
                self.state = ParseState::First(op);
                Ok(None)
            },
            ParseState::First(op) => {
                let wanted: u8 = match op {
                    Op::Msg => 83,
                    _ => 85,
                };
                if b != wanted {
                    return Err(NError::new(ERROR_PARSE));
                }
                self.state = ParseState::Second(op);
                Ok(None)
            },
            ParseState::Second(op) => {
                let wanted: u8 = match op {
                    Op::Msg => 71,
                    _ => 66,
                };
                if b != wanted {
                    return Err(NError::new(ERROR_PARSE));
                }
                self.state = ParseState::Third(op);
                Ok(None)
            },
            ParseState::Third(op) => {
                if b != SPACE && b != TAB {
                    return Err(NError::new(ERROR_PARSE));
                }
                self.state = ParseState::Blank(op);
                Ok(None)
            },
            ParseState::Blank(op) => {
                if b == SPACE || b == TAB {
                    Ok(None)
                } else {
                    self.feed_arg(op, b)
                }
            },
            ParseState::Arg(op) => self.feed_arg(op, b),
            ParseState::Body(op) => {
                self.add_msg(b);
                if self.msg.len() >= self.total {
                    self.state = ParseState::Trailer(op);
                }
                Ok(None)
            },
            ParseState::Trailer(op) => {
                if b == CR {
                    Ok(None)
                } else if b == LF {
                    let frame = self.take_frame(op)?;
                    self.reset();
                    Ok(Some(frame))
                } else {
                    Err(NError::new(ERROR_PARSE))
                }
            },
        }
    }

    /// Reads `buf` from its start up to the end of the first frame. With a
    /// frame comes the number of bytes up to its end: what follows in `buf`
    /// was not looked at and is to be handed in again. Without a frame all
    /// of `buf` was taken, the count is zero, and the next call goes on
    /// inside the frame. A refused byte is an error and leaves the machine
    /// as it was before that byte.
    pub fn parse(&mut self, buf: &[u8]) -> (r: Result<(Option<Frame>, usize), NError>)
        requires
            old(self)@.wf(),
        ensures
            final(self)@.wf(),
            final(self)@.side == old(self)@.side,
            match old(self)@.parse(buf@) {
                Outcome::Incomplete(next) => r is Ok && r->Ok_0.0 is None && r->Ok_0.1 == 0
                    && final(self)@ == next,
                Outcome::Frame { frame, consumed } => r is Ok && r->Ok_0.0 is Some
                    && r->Ok_0.0->Some_0@ == frame && r->Ok_0.1 == consumed && final(self)@
                    == Machine::start(old(self)@.side),
                Outcome::Failed { code, state } => r is Err && r->Err_0.err_code == code
                    && final(self)@ == state,
            },
    {
        let ghost first = self@;
        let mut i: usize = 0;
        assert(buf@.skip(0) =~= buf@);
        while i < buf.len()
            invariant
                i <= buf@.len(),
                first == old(self)@,
                self@.wf(),
                self@.side == first.side,
                first.parse(buf@) == self@.parse(buf@.skip(i as int)).shifted(i as nat),
            decreases buf@.len() - i,
        {
            let ghost before = self@;
            let ghost rest = buf@.skip(i as int);
            assert(rest[0] == buf@[i as int]);
            assert(rest.drop_first() =~= buf@.skip(i + 1));
            match self.feed(buf[i]) {
                Ok(None) => {
                    proof {
                        let after = self@.parse(buf@.skip(i + 1));
                        match after {
                            Outcome::Frame { frame, consumed } => {},
                            _ => {},
                        }
                    }
                },
                Ok(Some(frame)) => {
                    return Ok((Some(frame), i + 1));
                },
                Err(e) => {
                    return Err(e);
                },
            }
            i += 1;
        }
        Ok((None, 0))
    }

    /// Drops the payload under way and its counters. Between frames there
    /// is none and nothing changes; inside a payload the frame is given up.
    pub fn clear_msg_buf(&mut self)
        requires
            old(self)@.wf(),
        ensures
            final(self)@ == old(self)@.cleared(),
            final(self)@.wf(),
    {
        match self.state {
            ParseState::Body(_) | ParseState::Trailer(_) => {
                self.reset();
            },
            _ => {},
        }
    }
}

/// The line end, a carriage return and a line feed.
pub open spec fn line_end() -> Seq<u8> {
    seq![CR, LF]
}

/// The bytes of a `PUB` frame for `payload` on `subject`.
pub open spec fn pub_frame(subject: Seq<u8>, payload: Seq<u8>) -> Seq<u8> {
    word(Op::Pub) + seq![SPACE] + subject + seq![SPACE] + decimal_digits(payload.len())
        + line_end() + payload + line_end()
}

/// The argument line of a `SUB`.
pub open spec fn sub_line(subject: Seq<u8>, queue: Option<Seq<u8>>, sid: Seq<u8>) -> Seq<u8> {
    match queue {
        Some(q) => subject + seq![SPACE] + q + seq![SPACE] + sid,
        None => subject + seq![SPACE] + sid,
    }
}

/// The bytes of a `SUB` frame.
pub open spec fn sub_frame_bytes(subject: Seq<u8>, queue: Option<Seq<u8>>, sid: Seq<u8>) -> Seq<
    u8,
> {
    word(Op::Sub) + seq![SPACE] + sub_line(subject, queue, sid) + line_end()
}

/// The bytes of a `MSG` frame. `size_buf` is the size as the publisher
/// wrote it.
pub open spec fn msg_frame(
    subject: Seq<u8>,
    sid: Seq<u8>,
    size_buf: Seq<u8>,
    payload: Seq<u8>,
) -> Seq<u8> {
    word(Op::Msg) + seq![SPACE] + subject + seq![SPACE] + sid + seq![SPACE] + size_buf
        + line_end() + payload + line_end()
}

/// A text that can stand as a field of an argument line and come back as
/// it went in: it is not empty and holds no space, carriage return or line
/// feed.
pub open spec fn plain_field(a: Seq<u8>) -> bool {
    a.len() > 0 && forall|j: int| 0 <= j < a.len() ==> a[j] != SPACE && a[j] != CR && a[j] != LF
}

/// A byte string without carriage return and line feed.
pub open spec fn plain_line(a: Seq<u8>) -> bool {
    forall|j: int| 0 <= j < a.len() ==> a[j] != CR && a[j] != LF
}

/// Reading one byte is one step.
pub proof fn lemma_parse_one(m: Machine, b: u8)
    ensures
        m.parse(seq![b]) == match m.step(b) {
            Step::Go(next) => Outcome::Incomplete(next),
            Step::Done(frame) => Outcome::Frame { frame, consumed: 1 },
            Step::Fail(code) => Outcome::Failed { code, state: m },
        },
{
    let s = seq![b];
    assert(s.drop_first() =~= Seq::<u8>::empty());
    match m.step(b) {
        Step::Go(next) => {
            assert(next.parse(s.drop_first()) == Outcome::Incomplete(next));
        },
        _ => {},
    }
}

/// A command word and a blank take a machine from the start to the blanks
/// before the argument line.
pub proof fn lemma_run_word(side: Side, op: Op)
    requires
        accepts(side, op),
    ensures
        Machine::start(side).parse(word(op) + seq![SPACE]) == Outcome::Incomplete(
            Machine::start(side).at(ParseState::Blank(op)),
        ),
{
    let m0 = Machine::start(side);
    let w = word(op);
    let m1 = m0.at(ParseState::First(op));
    let m2 = m0.at(ParseState::Second(op));
    let m3 = m0.at(ParseState::Third(op));
    let m4 = m0.at(ParseState::Blank(op));
    lemma_parse_one(m0, w[0]);
    lemma_parse_one(m1, w[1]);
    lemma_parse_one(m2, w[2]);
    lemma_parse_one(m3, SPACE);
    lemma_parse_split(m0, seq![w[0]], seq![w[1]]);
    lemma_parse_split(m0, seq![w[0]] + seq![w[1]], seq![w[2]]);
    lemma_parse_split(m0, seq![w[0]] + seq![w[1]] + seq![w[2]], seq![SPACE]);
    assert(seq![w[0]] + seq![w[1]] + seq![w[2]] + seq![SPACE] =~= w + seq![SPACE]);
}

/// Bytes that are neither carriage return nor line feed join the argument
/// line, as far as the line has room.
pub proof fn lemma_run_line(m: Machine, op: Op, line: Seq<u8>)
    requires
        m.state == ParseState::Arg(op),
        plain_line(line),
        m.arg.len() + line.len() <= BUF_LEN,
    ensures
        m.parse(line) == Outcome::Incomplete(Machine { arg: m.arg + line, ..m }),
    decreases line.len(),
{
    if line.len() == 0 {
        assert(m.arg + line =~= m.arg);
    } else {
        let next = Machine { arg: m.arg.push(line[0]), ..m };
        assert(m.step(line[0]) == Step::Go(next));
        let rest = line.drop_first();
        assert forall|j: int| 0 <= j < rest.len() implies rest[j] != CR && rest[j] != LF by {
            assert(rest[j] == line[j + 1]);
        }
        lemma_run_line(next, op, rest);
        assert(next.arg + rest =~= m.arg + line);
    }
}

/// The first byte that is no blank opens the argument line.
pub proof fn lemma_run_first(m: Machine, op: Op, line: Seq<u8>)
    requires
        m.state == ParseState::Blank(op),
        m.arg.len() == 0,
        line.len() >= 1,
        !is_blank(line[0]),
        plain_line(line),
        line.len() <= BUF_LEN,
    ensures
        m.parse(line) == Outcome::Incomplete(Machine { state: ParseState::Arg(op), arg: line, ..m }),
{
    let next = Machine { state: ParseState::Arg(op), arg: m.arg.push(line[0]), ..m };
    assert(m.step(line[0]) == Step::Go(next));
    let rest = line.drop_first();
    assert forall|j: int| 0 <= j < rest.len() implies rest[j] != CR && rest[j] != LF by {
        assert(rest[j] == line[j + 1]);
    }
    lemma_run_line(next, op, rest);
    assert(next.arg + rest =~= line);
}

/// The bytes that fill the payload take the machine to the line end.
pub proof fn lemma_run_body(m: Machine, op: Op, bytes: Seq<u8>)
    requires
        m.state == ParseState::Body(op),
        bytes.len() >= 1,
        m.msg.len() + bytes.len() == m.total,
    ensures
        m.parse(bytes) == Outcome::Incomplete(
            Machine { state: ParseState::Trailer(op), msg: m.msg + bytes, ..m },
        ),
    decreases bytes.len(),
{
    let rest = bytes.drop_first();
    if bytes.len() == 1 {
        let next = Machine { state: ParseState::Trailer(op), msg: m.msg.push(bytes[0]), ..m };
        assert(m.step(bytes[0]) == Step::Go(next));
        assert(rest =~= Seq::<u8>::empty());
        assert(next.parse(rest) == Outcome::Incomplete(next));
        assert(m.msg.push(bytes[0]) =~= m.msg + bytes);
    } else {
        let next = Machine { msg: m.msg.push(bytes[0]), ..m };
        assert(m.step(bytes[0]) == Step::Go(next));
        lemma_run_body(next, op, rest);
        assert(next.msg + rest =~= m.msg + bytes);
    }
}

/// A frame with a payload is read back whole: the command word, a space,
/// an argument line that declares the payload's size, the line end, the
/// payload and the line end give the frame of that line and payload, and
/// every byte is used.
pub proof fn lemma_read_body_frame(side: Side, op: Op, line: Seq<u8>, payload: Seq<u8>)
    requires
        accepts(side, op),
        op != Op::Sub,
        line.len() >= 1,
        !is_blank(line[0]),
        plain_line(line),
        line.len() <= BUF_LEN,
        declared_size(op, line) == Ok::<nat, i32>(payload.len()),
    ensures
        Machine::start(side).parse(
            word(op) + seq![SPACE] + line + line_end() + payload + line_end(),
        ) == (Outcome::Frame {
            frame: body_frame(op, line, payload),
            consumed: (word(op) + seq![SPACE] + line + line_end() + payload + line_end()).len(),
        }),
{
    let m0 = Machine::start(side);
    let m1 = m0.at(ParseState::Blank(op));
    let m2 = Machine { state: ParseState::Arg(op), arg: line, ..m1 };
    let m3 = Machine { state: ParseState::Body(op), total: payload.len(), ..m2 };
    let m4 = Machine { state: ParseState::Trailer(op), msg: payload, ..m3 };
    let upto_word = word(op) + seq![SPACE];
    let upto_line = upto_word + line;
    let upto_cr = upto_line + seq![CR];
    let upto_lf = upto_cr + seq![LF];
    let upto_payload = upto_lf + payload;
    let upto_last_cr = upto_payload + seq![CR];
    let whole = upto_last_cr + seq![LF];
    lemma_run_word(side, op);
    lemma_run_first(m1, op, line);
    lemma_parse_split(m0, upto_word, line);
    lemma_parse_one(m2, CR);
    lemma_parse_split(m0, upto_line, seq![CR]);
    lemma_parse_one(m2, LF);
    lemma_parse_split(m0, upto_cr, seq![LF]);
    assert(m0.parse(upto_lf) == Outcome::Incomplete(m3));
    lemma_run_body(m3, op, payload);
    assert(m3.msg + payload =~= payload);
    lemma_parse_split(m0, upto_lf, payload);
    lemma_parse_one(m4, CR);
    lemma_parse_split(m0, upto_payload, seq![CR]);
    lemma_parse_one(m4, LF);
    lemma_parse_split(m0, upto_last_cr, seq![LF]);
    assert(whole =~= word(op) + seq![SPACE] + line + line_end() + payload + line_end());
}

/// A `SUB` frame is read back whole: the command word, a space, an
/// argument line of two or three fields and the line end give the frame of
/// that line, and every byte is used.
pub proof fn lemma_read_sub_frame(line: Seq<u8>)
    requires
        line.len() >= 1,
        !is_blank(line[0]),
        plain_line(line),
        line.len() <= BUF_LEN,
        sub_frame(line) is Some,
    ensures
        Machine::start(Side::Server).parse(word(Op::Sub) + seq![SPACE] + line + line_end()) == (
        Outcome::Frame {
            frame: sub_frame(line)->Some_0,
            consumed: (word(Op::Sub) + seq![SPACE] + line + line_end()).len(),
        }),
{
    let op = Op::Sub;
    let m0 = Machine::start(Side::Server);
    let m1 = m0.at(ParseState::Blank(op));
    let m2 = Machine { state: ParseState::Arg(op), arg: line, ..m1 };
    let upto_word = word(op) + seq![SPACE];
    let upto_line = upto_word + line;
    let upto_cr = upto_line + seq![CR];
    let upto_lf = upto_cr + seq![LF];
    lemma_run_word(Side::Server, op);
    lemma_run_first(m1, op, line);
    lemma_parse_split(m0, upto_word, line);
    lemma_parse_one(m2, CR);
    lemma_parse_split(m0, upto_line, seq![CR]);
    lemma_parse_one(m2, LF);
    lemma_parse_split(m0, upto_cr, seq![LF]);
    assert(upto_lf =~= word(op) + seq![SPACE] + line + line_end());
}

/// A published message comes back as it went in. For a subject that is
/// not empty, holds no space, carriage return or line feed and does not
/// begin with a tab, and a payload of one byte up to [`MAX_PAYLOAD`], a
/// server that reads the `PUB` frame gets that subject and that payload,
/// byte for byte, and uses every byte of the frame. The argument line has
/// to fit in [`BUF_LEN`] bytes.
pub proof fn lemma_pub_round_trip(subject: Seq<u8>, payload: Seq<u8>)
    requires
        plain_field(subject),
        subject[0] != TAB,
        1 <= payload.len() <= MAX_PAYLOAD,
        subject.len() + 1 + decimal_digits(payload.len()).len() <= BUF_LEN,
    ensures
        Machine::start(Side::Server).parse(pub_frame(subject, payload)) == (Outcome::Frame {
            frame: FrameView::Pub {
                subject,
                size_buf: decimal_digits(payload.len()),
                size: payload.len(),
                msg: payload,
            },
            consumed: pub_frame(subject, payload).len(),
        }),
{
    let digits = decimal_digits(payload.len());
    let line = subject + seq![SPACE] + digits;
    lemma_decimal_digits(payload.len());
    assert forall|j: int| 0 <= j < digits.len() implies digits[j] != SPACE && digits[j] != CR
        && digits[j] != LF by {
        assert(crate::text::is_digit(digits[j]));
    }
    lemma_fields_single(digits);
    lemma_fields_join(subject, digits);
    assert(fields(line) =~= seq![subject, digits]);
    assert(line[0] == subject[0]);
    assert forall|j: int| 0 <= j < line.len() implies line[j] != CR && line[j] != LF by {
        if j < subject.len() {
            assert(line[j] == subject[j]);
        } else if j > subject.len() {
            assert(line[j] == digits[j - subject.len() - 1]);
        }
    }
    assert(MAX_PAYLOAD <= usize::MAX);
    lemma_read_body_frame(Side::Server, Op::Pub, line, payload);
    assert(pub_frame(subject, payload) =~= word(Op::Pub) + seq![SPACE] + line + line_end()
        + payload + line_end());
}

/// A delivered message comes back as it was sent. For a subject and a sid
/// that are plain fields, the subject not beginning with a tab, a size text
/// that is plain and writes the payload's length, and a payload of one byte
/// up to [`MAX_PAYLOAD`], a client that reads the `MSG` frame gets that
/// subject, sid and payload and uses every byte of the frame.
pub proof fn lemma_msg_round_trip(
    subject: Seq<u8>,
    sid: Seq<u8>,
    size_buf: Seq<u8>,
    payload: Seq<u8>,
)
    requires
        plain_field(subject),
        subject[0] != TAB,
        plain_field(sid),
        plain_field(size_buf),
        decimal(size_buf) == Some(payload.len()),
        1 <= payload.len() <= MAX_PAYLOAD,
        subject.len() + 1 + sid.len() + 1 + size_buf.len() <= BUF_LEN,
    ensures
        Machine::start(Side::Client).parse(msg_frame(subject, sid, size_buf, payload)) == (
        Outcome::Frame {
            frame: FrameView::Msg { subject, sid, size: payload.len(), msg: payload },
            consumed: msg_frame(subject, sid, size_buf, payload).len(),
        }),
{
    let tail = sid + seq![SPACE] + size_buf;
    let line = subject + seq![SPACE] + tail;
    lemma_fields_single(size_buf);
    lemma_fields_join(sid, size_buf);
    lemma_fields_join(subject, tail);
    assert(fields(line) =~= seq![subject, sid, size_buf]);
    assert(line[0] == subject[0]);
    assert forall|j: int| 0 <= j < line.len() implies line[j] != CR && line[j] != LF by {
        if j < subject.len() {
            assert(line[j] == subject[j]);
        } else if j > subject.len() {
            let k = j - subject.len() - 1;
            assert(line[j] == tail[k]);
            if k < sid.len() {
                assert(tail[k] == sid[k]);
            } else if k > sid.len() {
                assert(tail[k] == size_buf[k - sid.len() - 1]);
            }
        }
    }
    assert(MAX_PAYLOAD <= usize::MAX);
    lemma_read_body_frame(Side::Client, Op::Msg, line, payload);
    assert(msg_frame(subject, sid, size_buf, payload) =~= word(Op::Msg) + seq![SPACE] + line
        + line_end() + payload + line_end());
}

/// A subscription request comes back as it went in. For a subject, a sid
/// and, if there is one, a queue that are plain fields, the subject not
/// beginning with a tab, a server that reads the `SUB` frame gets them
/// and uses every byte of the frame.
pub proof fn lemma_sub_round_trip(subject: Seq<u8>, queue: Option<Seq<u8>>, sid: Seq<u8>)
    requires
        plain_field(subject),
        subject[0] != TAB,
        plain_field(sid),
        queue is Some ==> plain_field(queue->Some_0),
        sub_line(subject, queue, sid).len() <= BUF_LEN,
    ensures
        Machine::start(Side::Server).parse(sub_frame_bytes(subject, queue, sid)) == (
        Outcome::Frame {
            frame: FrameView::Sub { subject, queue, sid },
            consumed: sub_frame_bytes(subject, queue, sid).len(),
        }),
{
    let line = sub_line(subject, queue, sid);
    lemma_fields_single(sid);
    match queue {
        Some(q) => {
            let tail = q + seq![SPACE] + sid;
            lemma_fields_join(q, sid);
            lemma_fields_join(subject, tail);
            assert(line =~= subject + seq![SPACE] + tail);
            assert(fields(line) =~= seq![subject, q, sid]);
            assert forall|j: int| 0 <= j < line.len() implies line[j] != CR && line[j] != LF by {
                if j < subject.len() {
                    assert(line[j] == subject[j]);
                } else if j > subject.len() {
                    let k = j - subject.len() - 1;
                    assert(line[j] == tail[k]);
                    if k < q.len() {
                        assert(tail[k] == q[k]);
                    } else if k > q.len() {
                        assert(tail[k] == sid[k - q.len() - 1]);
                    }
                }
            }
        },
        None => {
            lemma_fields_join(subject, sid);
            assert(fields(line) =~= seq![subject, sid]);
            assert forall|j: int| 0 <= j < line.len() implies line[j] != CR && line[j] != LF by {
                if j < subject.len() {
                    assert(line[j] == subject[j]);
                } else if j > subject.len() {
                    assert(line[j] == sid[j - subject.len() - 1]);
                }
            }
        },
    }
    assert(line[0] == subject[0]);
    lemma_read_sub_frame(line);
}

/// Appends a `PUB` frame for `msg` on `subject` to `buf`.
pub fn write_pub(buf: &mut Vec<u8>, subject: &[u8], msg: &[u8])
    ensures
        final(buf)@ == old(buf)@ + pub_frame(subject@, msg@),
{
    let size = format_decimal(msg.len() as u64);
    buf.push(80);
    buf.push(85);
    buf.push(66);
    buf.push(SPACE);
    buf.extend_from_slice(subject);
    buf.push(SPACE);
    buf.extend_from_slice(size.as_slice());
    buf.push(CR);
    buf.push(LF);
    buf.extend_from_slice(msg);
    buf.push(CR);
    buf.push(LF);
    assert(buf@ =~= old(buf)@ + pub_frame(subject@, msg@));
}

/// Appends a `SUB` frame to `buf`.
pub fn write_sub(buf: &mut Vec<u8>, subject: &[u8], queue: Option<&[u8]>, sid: &[u8])
    ensures
        final(buf)@ == old(buf)@ + sub_frame_bytes(
            subject@,
            match queue {
                Some(q) => Some(q@),
                None => None,
            },
            sid@,
        ),
{
    buf.push(83);
    buf.push(85);
    buf.push(66);
    buf.push(SPACE);
    buf.extend_from_slice(subject);
    buf.push(SPACE);
    match queue {
        Some(q) => {
            buf.extend_from_slice(q);
            buf.push(SPACE);
        },
        None => {},
    }
    buf.extend_from_slice(sid);
    buf.push(CR);
    buf.push(LF);
    assert(buf@ =~= old(buf)@ + sub_frame_bytes(
        subject@,
        match queue {
            Some(q) => Some(q@),
            None => None,
        },
        sid@,
    ));
}

/// Appends a `MSG` frame to `buf`. `size_buf` is the size as the publisher
/// wrote it; it is passed on and not written anew.
pub fn write_msg(buf: &mut Vec<u8>, subject: &[u8], sid: &[u8], size_buf: &[u8], msg: &[u8])
    ensures
        final(buf)@ == old(buf)@ + msg_frame(subject@, sid@, size_buf@, msg@),
{
    buf.push(77);
    buf.push(83);
    buf.push(71);
    buf.push(SPACE);
    buf.extend_from_slice(subject);
    buf.push(SPACE);
    buf.extend_from_slice(sid);
    buf.push(SPACE);
    buf.extend_from_slice(size_buf);
    buf.push(CR);
    buf.push(LF);
    buf.extend_from_slice(msg);
    buf.push(CR);
    buf.push(LF);
    assert(buf@ =~= old(buf)@ + msg_frame(subject@, sid@, size_buf@, msg@));
}

} // verus!
