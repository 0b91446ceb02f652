//! The handling of one connection: what a read from the socket does to the
//! subscription index and to the outbound buffers of the subscribers.
//!
//! Reading and writing the socket is left to the caller. The caller hands
//! in what it has read, and is told which connections have bytes to send.
//!
//! What the broker decides, and what it leaves open:
//!
//! - A connection notes its subscriptions by subject. A second subscription
//!   to the same subject is put into the index beside the first and takes
//!   its place in the connection's notes. When the connection ends, the
//!   noted ones are taken out of the index; one that was replaced stays
//!   there, and what is delivered to it is dropped, since the sending side
//!   of its connection is closed.
//! - Nothing asks that the `sid` of a subscription be unique, on one
//!   connection or among all: it is passed on as the subscriber wrote it,
//!   and two subscriptions that differ in nothing else are still two.
//! - An outbound buffer has no limit and nothing is shed. What is delivered
//!   waits in the buffer until the caller takes it; the buffer of a
//!   subscriber that is never written to grows until its connection is
//!   closed.
//! - Subjects, queue names and sids are bytes and are compared byte by
//!   byte. Nothing asks that they be text.

use crate::error::{NError, ERROR_INVALID_SUBJECT, ERROR_NON_LITERAL_SUBJECT};
use crate::server::parser::{ParseResult, Parser, PubArg, SubArg};
use crate::server::server::ServerState;
use crate::server::simple_sublist::{
    arc_clone, lemma_sub_views_push, matching, sub_views, ArcSubResult, ArcSubscription,
    SubListTrait, SubResult, SubResultView, Subscription, SubscriptionView,
};
use crate::subject::{is_valid_literal_subject, valid_literal_subject};
use crate::text::bytes_eq;
use crate::wire::{msg_frame, write_msg, FrameView, Machine, Outcome, Side};
use rand::rngs::StdRng;
use rand::RngCore;
use std::collections::HashMap;
use std::sync::Arc;
use vstd::prelude::*;

verus! {

broadcast use vstd::std_specs::hash::group_hash_axioms;

/// `rand::rngs::StdRng`, the random number generator that picks the member
/// of a queue group.
#[verifier::external_type_specification]
#[verifier::external_body]
pub struct ExStdRng(StdRng);

/// `RngCore::next_u32` on a `StdRng`: the next random number. Nothing is
/// known of it.
#[verifier::external_body]
fn next_u32(rng: &mut StdRng) -> u32 {
    rng.next_u32()
}

/// The sending side of a connection: the bytes that wait to be written to
/// its socket. Once the connection is closed there is no buffer any more,
/// and what is sent to it is dropped.
#[derive(Debug)]
pub struct ClientMessageSender {
    pub msg_buf: Option<Vec<u8>>,
}

impl View for ClientMessageSender {
    type V = Option<Seq<u8>>;

    open spec fn view(&self) -> Option<Seq<u8>> {
        match self.msg_buf {
            Some(b) => Some(b@),
            None => None,
        }
    }
}

impl ClientMessageSender {
    /// The sending side of a connection that was just made.
    pub fn new() -> (s: Self)
        ensures
            s@ == Some(Seq::<u8>::empty()),
    {
        ClientMessageSender { msg_buf: Some(Vec::new()) }
    }

    /// Hands out the bytes that wait to be written, and keeps none of them.
    /// A closed connection has none.
    pub fn send_all(&mut self) -> (bytes: Vec<u8>)
        ensures
            bytes@ == match old(self)@ {
                Some(b) => b,
                None => Seq::empty(),
            },
            final(self)@ == match old(self)@ {
                Some(b) => Some(Seq::<u8>::empty()),
                None => None,
            },
    {
        match self.msg_buf.take() {
            Some(b) => {
                self.msg_buf = Some(Vec::new());
                b
            },
            None => Vec::new(),
        }
    }

    /// Closes the sending side: the bytes that wait are dropped.
    pub fn close(&mut self)
        ensures
            final(self)@ is None,
    {
        self.msg_buf = None;
    }
}

/// The outbound buffers of the connections: for each connection that is
/// known, the bytes that wait, or `None` if it is closed.
pub type Outbound = Map<u64, Option<Seq<u8>>>;

/// The outbound buffers of a table of connections.
pub open spec fn outbound_of(clients: Map<u64, ClientMessageSender>) -> Outbound {
    Map::new(|c: u64| clients.contains_key(c), |c: u64| clients[c]@)
}

/// Whether the connection `cid` is known and open.
pub open spec fn is_open(out: Outbound, cid: u64) -> bool {
    out.contains_key(cid) && out[cid] is Some
}

/// The buffers after `frame` was sent to the connection `cid`: it is added
/// to the buffer of an open connection and dropped otherwise.
pub open spec fn sent(out: Outbound, cid: u64, frame: Seq<u8>) -> Outbound {
    if is_open(out, cid) {
        out.insert(cid, Some(out[cid]->Some_0 + frame))
    } else {
        out
    }
}

/// The subscribers that one message is delivered to: every direct
/// subscriber, and of each queue group the one member that the group's
/// number in `picks` falls on.
pub open spec fn targets(result: SubResultView, picks: Seq<u32>) -> Seq<SubscriptionView> {
    result.psubs + Seq::new(
        result.qsubs.len(),
        |g: int| result.qsubs[g][picks[g] as int % result.qsubs[g].len() as int],
    )
}

/// The buffers after a message was delivered to `to`, one after the other.
/// Each gets a `MSG` frame with the subject of the message, its own sid,
/// the size as the publisher wrote it, and the payload.
pub open spec fn delivered(
    out: Outbound,
    to: Seq<SubscriptionView>,
    subject: Seq<u8>,
    size_buf: Seq<u8>,
    msg: Seq<u8>,
) -> Outbound
    decreases to.len(),
{
    if to.len() == 0 {
        out
    } else {
        sent(
            delivered(out, to.drop_last(), subject, size_buf, msg),
            to.last().cid,
            msg_frame(subject, to.last().sid, size_buf, msg),
        )
    }
}

/// The open connections among those of `to`.
pub open spec fn reached(out: Outbound, to: Seq<SubscriptionView>) -> Set<u64> {
    Set::new(
        |c: u64| is_open(out, c) && exists|k: int| 0 <= k < to.len() && (#[trigger] to[k]).cid == c,
    )
}

/// Delivering keeps the connections that are known, and keeps them open or
/// closed as they were.
pub proof fn lemma_delivered_open(
    out: Outbound,
    to: Seq<SubscriptionView>,
    subject: Seq<u8>,
    size_buf: Seq<u8>,
    msg: Seq<u8>,
)
    ensures
        delivered(out, to, subject, size_buf, msg).dom() == out.dom(),
        forall|c: u64| is_open(delivered(out, to, subject, size_buf, msg), c) == is_open(out, c),
    decreases to.len(),
{
    if to.len() > 0 {
        lemma_delivered_open(out, to.drop_last(), subject, size_buf, msg);
        let mid = delivered(out, to.drop_last(), subject, size_buf, msg);
        let end = delivered(out, to, subject, size_buf, msg);
        assert(end.dom() =~= mid.dom());
    }
}

/// The set of connections with bytes to send, in the order of their
/// numbers.
pub open spec fn ordered(v: Seq<u64>) -> bool {
    forall|i: int, j: int| 0 <= i < j < v.len() ==> v[i] < v[j]
}

/// Puts `cid` into the ordered set `pendings`, unless it is there.
pub fn pending_insert(pendings: &mut Vec<u64>, cid: u64)
    requires
        ordered(old(pendings)@),
    ensures
        ordered(final(pendings)@),
        final(pendings)@.to_set() == old(pendings)@.to_set().insert(cid),
{
    let ghost before = pendings@;
    let mut i: usize = 0;
    while i < pendings.len() && pendings[i] < cid
        invariant
            i <= pendings@.len(),
            pendings@ == before,
            forall|j: int| 0 <= j < i ==> pendings@[j] < cid,
        decreases pendings@.len() - i,
    {
        i += 1;
    }
    if i < pendings.len() && pendings[i] == cid {
        assert(before.to_set().insert(cid) =~= before.to_set()) by {
            assert(before[i as int] == cid);
        }
        return ;
    }
    pendings.insert(i, cid);
    proof {
        let after = pendings@;
        assert(after == before.insert(i as int, cid));
        assert forall|a: int, b: int| 0 <= a < b < after.len() implies after[a] < after[b] by {
            if a < i && b > i {
                assert(after[a] == before[a] && after[b] == before[b - 1]);
            } else if a > i {
                assert(after[a] == before[a - 1] && after[b] == before[b - 1]);
            } else if b < i {
                assert(after[a] == before[a] && after[b] == before[b]);
            }
        }
        assert forall|x: u64| after.to_set().contains(x) <==> before.to_set().insert(cid).contains(
            x,
        ) by {
            if after.contains(x) {
                let a = choose|a: int| 0 <= a < after.len() && after[a] == x;
                if a < i {
                    assert(before[a] == x);
                } else if a > i {
                    assert(before[a - 1] == x);
                }
            }
            if before.contains(x) {
                let a = choose|a: int| 0 <= a < before.len() && before[a] == x;
                if a < i {
                    assert(after[a] == x);
                } else {
                    assert(after[a + 1] == x);
                }
            }
            if x == cid {
                assert(after[i as int] == x);
            }
        }
        assert(after.to_set() =~= before.to_set().insert(cid));
    }
}

/// Sends one message to one subscriber: a `MSG` frame is added to the
/// outbound buffer of the subscriber's connection, and the connection is
/// noted as having bytes to send. A connection that is closed or not known
/// gets nothing.
pub fn send_message(
    clients: &mut HashMap<u64, ClientMessageSender>,
    pendings: &mut Vec<u64>,
    sub: &Subscription,
    pub_arg: &PubArg,
)
    requires
        ordered(old(pendings)@),
    ensures
        ordered(final(pendings)@),
        outbound_of(final(clients)@) == sent(
            outbound_of(old(clients)@),
            sub@.cid,
            msg_frame(pub_arg.subject@, sub@.sid, pub_arg.size_buf@, pub_arg.msg@),
        ),
        final(pendings)@.to_set() == if is_open(outbound_of(old(clients)@), sub@.cid) {
            old(pendings)@.to_set().insert(sub@.cid)
        } else {
            old(pendings)@.to_set()
        },
{
    let cid = sub.cid;
    let ghost before = clients@;
    match clients.remove(&cid) {
        Some(mut sender) => {
            let ghost was = sender@;
            assert(before.contains_key(cid) && before[cid] == sender);
            match &mut sender.msg_buf {
                Some(buf) => {
                    write_msg(
                        buf,
                        pub_arg.subject.as_slice(),
                        sub.sid.as_slice(),
                        pub_arg.size_buf.as_slice(),
                        pub_arg.msg.as_slice(),
                    );
                },
                None => {},
            }
            let open = sender.msg_buf.is_some();
            let ghost now = sender@;
            clients.insert(cid, sender);
            assert(outbound_of(clients@) =~= sent(
                outbound_of(before),
                cid,
                msg_frame(pub_arg.subject@, sub@.sid, pub_arg.size_buf@, pub_arg.msg@),
            ));
            if open {
                pending_insert(pendings, cid);
            }
        },
        None => {
            assert(clients@ =~= before);
        },
    }
}

/// The member of a group of `len` that the random number `n` falls on.
pub fn pick(n: u32, len: usize) -> (at: usize)
    requires
        len > 0,
    ensures
        at == n as int % len as int,
        at < len,
{
    (n as usize) % len
}

/// Delivers one message to the subscribers of `result`: to every direct
/// subscriber in turn, then to one member of each queue group, which the
/// group's number in `picks` chooses.
pub fn deliver(
    clients: &mut HashMap<u64, ClientMessageSender>,
    pendings: &mut Vec<u64>,
    result: &SubResult,
    picks: &Vec<u32>,
    pub_arg: &PubArg,
)
    requires
        ordered(old(pendings)@),
        result@.wf(),
        picks@.len() == result@.qsubs.len(),
    ensures
        ordered(final(pendings)@),
        outbound_of(final(clients)@) == delivered(
            outbound_of(old(clients)@),
            targets(result@, picks@),
            pub_arg.subject@,
            pub_arg.size_buf@,
            pub_arg.msg@,
        ),
        final(pendings)@.to_set() == old(pendings)@.to_set().union(
            reached(outbound_of(old(clients)@), targets(result@, picks@)),
        ),
{
    let ghost out0 = outbound_of(clients@);
    let ghost set0 = pendings@.to_set();
    let ghost to = targets(result@, picks@);
    let ghost subject = pub_arg.subject@;
    let ghost size_buf = pub_arg.size_buf@;
    let ghost msg = pub_arg.msg@;
    let ghost direct = result@.psubs.len() as int;
    assert(to.take(0) =~= Seq::<SubscriptionView>::empty());
    assert(reached(out0, to.take(0)) =~= Set::<u64>::empty());
    let mut i: usize = 0;
    while i < result.psubs.len()
        invariant
            i <= result.psubs@.len(),
            direct == result@.psubs.len(),
            to == targets(result@, picks@),
            ordered(pendings@),
            outbound_of(clients@) == delivered(out0, to.take(i as int), subject, size_buf, msg),
            pendings@.to_set() == set0.union(reached(out0, to.take(i as int))),
            subject == pub_arg.subject@,
            size_buf == pub_arg.size_buf@,
            msg == pub_arg.msg@,
        decreases result.psubs@.len() - i,
    {
        assert(to[i as int] == result.psubs@[i as int]@);
        proof {
            lemma_deliver_step(out0, to, i as int, subject, size_buf, msg, set0);
        }
        send_message(clients, pendings, &result.psubs[i], pub_arg);
        i += 1;
    }
    let mut g: usize = 0;
    while g < result.qsubs.len()
        invariant
            g <= result.qsubs@.len(),
            direct == result@.psubs.len(),
            picks@.len() == result@.qsubs.len(),
            result@.wf(),
            to == targets(result@, picks@),
            ordered(pendings@),
            outbound_of(clients@) == delivered(out0, to.take(direct + g), subject, size_buf, msg),
            pendings@.to_set() == set0.union(reached(out0, to.take(direct + g))),
            subject == pub_arg.subject@,
            size_buf == pub_arg.size_buf@,
            msg == pub_arg.msg@,
        decreases result.qsubs@.len() - g,
    {
        assert(result@.qsubs[g as int].len() > 0);
        assert(result@.qsubs[g as int] == crate::server::simple_sublist::sub_views(
            result.qsubs@[g as int]@,
        ));
        let at = pick(picks[g], result.qsubs[g].len());
        assert(to[direct + g] == result.qsubs@[g as int]@[at as int]@);
        proof {
            lemma_deliver_step(out0, to, direct + g, subject, size_buf, msg, set0);
        }
        send_message(clients, pendings, &result.qsubs[g][at], pub_arg);
        g += 1;
    }
    assert(to.take(direct + g) =~= to);
}

/// One more delivery: what the buffers and the set of reached connections
/// are after the first `k + 1` targets, from what they are after the first
/// `k`.
proof fn lemma_deliver_step(
    out0: Outbound,
    to: Seq<SubscriptionView>,
    k: int,
    subject: Seq<u8>,
    size_buf: Seq<u8>,
    msg: Seq<u8>,
    set0: Set<u64>,
)
    requires
        0 <= k < to.len(),
    ensures
        delivered(out0, to.take(k + 1), subject, size_buf, msg) == sent(
            delivered(out0, to.take(k), subject, size_buf, msg),
            to[k].cid,
            msg_frame(subject, to[k].sid, size_buf, msg),
        ),
        set0.union(reached(out0, to.take(k + 1))) == if is_open(
            delivered(out0, to.take(k), subject, size_buf, msg),
            to[k].cid,
        ) {
            set0.union(reached(out0, to.take(k))).insert(to[k].cid)
        } else {
            set0.union(reached(out0, to.take(k)))
        },
{
    let next = to.take(k + 1);
    let seen = to.take(k);
    assert(next.drop_last() =~= seen);
    assert(next.last() == to[k]);
    lemma_delivered_open(out0, seen, subject, size_buf, msg);
    let c = to[k].cid;
    assert forall|x: u64| reached(out0, next).contains(x) <==> (reached(out0, seen).contains(x) || (x
        == c && is_open(out0, c))) by {
        if reached(out0, next).contains(x) {
            let j = choose|j: int| 0 <= j < next.len() && (#[trigger] next[j]).cid == x;
            if j < k {
                assert(seen[j].cid == x);
            }
        }
        if reached(out0, seen).contains(x) {
            let j = choose|j: int| 0 <= j < seen.len() && (#[trigger] seen[j]).cid == x;
            assert(next[j].cid == x);
        }
        if x == c && is_open(out0, c) {
            assert(next[k].cid == x);
        }
    }
    if is_open(out0, c) {
        assert(set0.union(reached(out0, next)) =~= set0.union(reached(out0, seen)).insert(c));
    } else {
        assert(set0.union(reached(out0, next)) =~= set0.union(reached(out0, seen)));
    }
}

/// The results that were found for the subjects of one read, so that a
/// subject that is published to many times is matched once.
pub type ReadCache = Seq<(Seq<u8>, SubResultView)>;

/// All that a read from a connection can change, as one mathematical
/// value.
pub struct World {
    /// The parser of the connection.
    pub machine: Machine,
    /// The subscriptions in the index.
    pub index: Set<SubscriptionView>,
    /// The subscriptions that the connection has made and is to take back
    /// when it ends, one for each subject.
    pub owned: Seq<SubscriptionView>,
    /// The identity of the next subscription that the connection makes.
    pub next_id: u64,
    /// The outbound buffers of all connections.
    pub outbound: Outbound,
    /// The results that were found in this read.
    pub cached: ReadCache,
    /// The connections that got bytes to send in this read.
    pub pending: Set<u64>,
}

/// The number after `n`, beginning again at zero after the largest.
pub open spec fn next_id(n: u64) -> u64 {
    if n == u64::MAX {
        0
    } else {
        (n + 1) as u64
    }
}

/// The place of the first subscription to `subject` in `owned`, or the
/// length of `owned` if there is none.
pub open spec fn owned_at(owned: Seq<SubscriptionView>, subject: Seq<u8>) -> nat
    decreases owned.len(),
{
    if owned.len() == 0 || owned[0].subject == subject {
        0
    } else {
        1 + owned_at(owned.drop_first(), subject)
    }
}

/// The subscriptions of a connection after it has made `s`: `s` stands in
/// the place of the one with the same subject, if there is one, and else at
/// the end.
pub open spec fn put_owned(owned: Seq<SubscriptionView>, s: SubscriptionView) -> Seq<
    SubscriptionView,
> {
    let k = owned_at(owned, s.subject);
    if k < owned.len() {
        owned.update(k as int, s)
    } else {
        owned.push(s)
    }
}

/// The result that was found for `subject` earlier in the read.
pub open spec fn cached_find(cached: ReadCache, subject: Seq<u8>) -> Option<SubResultView>
    decreases cached.len(),
{
    if cached.len() == 0 {
        None
    } else if cached[0].0 == subject {
        Some(cached[0].1)
    } else {
        cached_find(cached.drop_first(), subject)
    }
}

/// The world after the connection `cid` has subscribed: the subscription
/// is in the index and among those of the connection, and the next
/// subscription gets the next identity.
pub open spec fn sub_applied(
    w: World,
    cid: u64,
    subject: Seq<u8>,
    queue: Option<Seq<u8>>,
    sid: Seq<u8>,
) -> World {
    let s = SubscriptionView { subject, queue, sid, cid, id: w.next_id };
    World {
        index: w.index.insert(s),
        owned: put_owned(w.owned, s),
        next_id: next_id(w.next_id),
        ..w
    }
}

/// Whether `result` and `picks` can be what a publish to `subject` goes
/// by. The result is the one that was found for the subject earlier in the
/// read, or else it is in order and holds just the subscriptions in the
/// index that the subject goes to. There is one pick for each queue group.
pub open spec fn pub_fits<T: SubListTrait>(
    w: World,
    subject: Seq<u8>,
    result: SubResultView,
    picks: Seq<u32>,
) -> bool {
    &&& result.wf()
    &&& picks.len() == result.qsubs.len()
    &&& match cached_find(w.cached, subject) {
        Some(r) => result == r,
        None => result.members() == matching(
            w.index,
            subject,
            |l: Seq<u8>, p: Seq<u8>| T::matches(l, p),
        ),
    }
}

/// The world after a publish that went by `result` and `picks`: the
/// message is delivered, the connections that it reached are noted, and
/// the result is kept for the rest of the read.
pub open spec fn pub_applied(
    w: World,
    subject: Seq<u8>,
    size_buf: Seq<u8>,
    msg: Seq<u8>,
    result: SubResultView,
    picks: Seq<u32>,
) -> World {
    World {
        outbound: delivered(w.outbound, targets(result, picks), subject, size_buf, msg),
        pending: w.pending.union(reached(w.outbound, targets(result, picks))),
        cached: if cached_find(w.cached, subject) is None {
            w.cached.push((subject, result))
        } else {
            w.cached
        },
        ..w
    }
}

/// Whether the world `next` can come of the world `w` by one frame at the
/// start of `buf`, which is `n` bytes long.
pub open spec fn stepped<T: SubListTrait>(cid: u64, w: World, buf: Seq<u8>, next: World, n: nat) -> bool {
    match w.machine.parse(buf) {
        Outcome::Frame { frame, consumed } => {
            let at_start = World { machine: Machine::start(Side::Server), ..w };
            n == consumed && match frame {
                FrameView::Sub { subject, queue, sid } => T::takes(subject) && next == sub_applied(
                    at_start,
                    cid,
                    subject,
                    queue,
                    sid,
                ),
                FrameView::Pub { subject, size_buf, size, msg } => valid_literal_subject(subject)
                    && exists|result: SubResultView, picks: Seq<u32>|
                    #[trigger] pub_fits::<T>(w, subject, result, picks) && next == pub_applied(
                        at_start,
                        subject,
                        size_buf,
                        msg,
                        result,
                        picks,
                    ),
                FrameView::Msg { .. } => false,
            }
        },
        _ => false,
    }
}

/// The code of the error that the start of `buf` earns, if it earns one: a
/// byte that the parser refuses, a subscription to a subject that the
/// index does not take, or a publish to a subject with a wildcard.
pub open spec fn step_fails<T: SubListTrait>(w: World, buf: Seq<u8>) -> Option<i32> {
    match w.machine.parse(buf) {
        Outcome::Failed { code, .. } => Some(code),
        Outcome::Frame { frame, .. } => match frame {
            FrameView::Sub { subject, .. } => if T::takes(subject) {
                None
            } else {
                Some(ERROR_INVALID_SUBJECT)
            },
            FrameView::Pub { subject, .. } => if valid_literal_subject(subject) {
                None
            } else {
                Some(ERROR_NON_LITERAL_SUBJECT)
            },
            FrameView::Msg { .. } => None,
        },
        Outcome::Incomplete(_) => None,
    }
}

/// Whether the world `w` can come of the world `first` by the first `k`
/// frames of `buf`, which end at `pos`.
pub open spec fn did<T: SubListTrait>(
    cid: u64,
    first: World,
    buf: Seq<u8>,
    w: World,
    pos: nat,
    k: nat,
) -> bool
    decreases k,
{
    if k == 0 {
        w == first && pos == 0
    } else {
        exists|prev: World, at: nat|
            did::<T>(cid, first, buf, prev, at, (k - 1) as nat) && #[trigger] stepped_to::<T>(
                cid,
                prev,
                buf,
                at,
                w,
                pos,
            )
    }
}

/// Whether the world `next` can come of the world `w` by the one frame of
/// `buf` that begins at `at` and ends at `pos`.
pub open spec fn stepped_to<T: SubListTrait>(
    cid: u64,
    w: World,
    buf: Seq<u8>,
    at: nat,
    next: World,
    pos: nat,
) -> bool {
    at <= pos <= buf.len() && stepped::<T>(cid, w, buf.skip(at as int), next, (pos - at) as nat)
}

/// The results of a read cache, as mathematical values.
pub open spec fn cache_views(cache: Seq<(Vec<u8>, ArcSubResult)>) -> ReadCache {
    Seq::new(cache.len(), |i: int| (cache[i].0@, cache[i].1@))
}

/// Whether every result of a read cache is in order.
pub open spec fn cache_ok(cached: ReadCache) -> bool {
    forall|i: int| 0 <= i < cached.len() ==> (#[trigger] cached[i]).1.wf()
}

/// One connection of the broker: its number, its parser, and the
/// subscriptions that it has made.
pub struct Client {
    cid: u64,
    parser: Parser,
    subs: Vec<ArcSubscription>,
    next_id: u64,
}

/// The world of a connection.
pub open spec fn world_of<T: SubListTrait>(
    client: Client,
    state: ServerState<T>,
    cache: Seq<(Vec<u8>, ArcSubResult)>,
    pendings: Seq<u64>,
) -> World {
    World {
        machine: client.machine(),
        index: state.sublist.subs(),
        owned: client.owned(),
        next_id: client.fresh_id(),
        outbound: outbound_of(state.clients@),
        cached: cache_views(cache),
        pending: pendings.to_set(),
    }
}

/// The place of the subscription to `subject` in `subs`, or the length of
/// `subs` if there is none.
fn owned_position(subs: &Vec<ArcSubscription>, subject: &[u8]) -> (at: usize)
    ensures
        at == owned_at(sub_views(subs@), subject@),
        at <= subs@.len(),
{
    let ghost all = sub_views(subs@);
    let mut i: usize = 0;
    assert(all.skip(0) =~= all);
    while i < subs.len()
        invariant
            i <= subs@.len(),
            all == sub_views(subs@),
            owned_at(all, subject@) == i + owned_at(all.skip(i as int), subject@),
        decreases subs@.len() - i,
    {
        let ghost rest = all.skip(i as int);
        assert(rest[0] == subs@[i as int]@);
        if bytes_eq(subs[i].subject.as_slice(), subject) {
            return i;
        }
        assert(rest.drop_first() =~= all.skip(i + 1));
        i += 1;
    }
    i
}

/// The result that the read cache holds for `subject`.
fn cache_lookup(cache: &Vec<(Vec<u8>, ArcSubResult)>, subject: &[u8]) -> (found: Option<
    ArcSubResult,
>)
    ensures
        match found {
            Some(r) => cached_find(cache_views(cache@), subject@) == Some(r@),
            None => cached_find(cache_views(cache@), subject@) is None,
        },
{
    let ghost all = cache_views(cache@);
    let mut i: usize = 0;
    assert(all.skip(0) =~= all);
    while i < cache.len()
        invariant
            i <= cache@.len(),
            all == cache_views(cache@),
            cached_find(all, subject@) == cached_find(all.skip(i as int), subject@),
        decreases cache@.len() - i,
    {
        let ghost rest = all.skip(i as int);
        assert(rest[0] == (cache@[i as int].0@, cache@[i as int].1@));
        if bytes_eq(cache[i].0.as_slice(), subject) {
            return Some(arc_clone(&cache[i].1));
        }
        assert(rest.drop_first() =~= all.skip(i + 1));
        i += 1;
    }
    None
}

impl Client {
    /// What holds of a connection between calls: its parser is in order,
    /// and the index takes the subjects of its subscriptions.
    pub open spec fn wf<T: SubListTrait>(&self) -> bool {
        &&& self.machine().wf()
        &&& self.machine().side == Side::Server
        &&& forall|i: int|
            0 <= i < self.owned().len() ==> T::takes((#[trigger] self.owned()[i]).subject)
    }

    /// The subscriptions that the connection has made and not replaced.
    pub closed spec fn owned(&self) -> Seq<SubscriptionView> {
        sub_views(self.subs@)
    }

    /// The number of the connection.
    pub closed spec fn number(&self) -> u64 {
        self.cid
    }

    /// The parser of the connection.
    pub closed spec fn machine(&self) -> Machine {
        self.parser@
    }

    /// The identity of the next subscription that the connection makes.
    pub closed spec fn fresh_id(&self) -> u64 {
        self.next_id
    }

    /// The connection `cid`, before it has read anything.
    pub fn new(cid: u64) -> (c: Self)
        ensures
            c.number() == cid,
            c.owned().len() == 0,
            c.machine() == Machine::start(Side::Server),
            c.fresh_id() == 0,
    {
        Client { cid, parser: Parser::new(), subs: Vec::new(), next_id: 0 }
    }

    /// The number of the connection.
    pub fn cid(&self) -> (cid: u64)
        ensures
            cid == self.number(),
    {
        self.cid
    }
}

impl Client {
    /// Makes a subscription for the connection, as a `SUB` asks: it is put
    /// into the index and noted as one of the connection's, in place of an
    /// older one to the same subject. A subject that the index does not
    /// take is an error and changes nothing.
    pub fn process_sub<T: SubListTrait>(&mut self, state: &mut ServerState<T>, sub: &SubArg) -> (r:
        Result<(), NError>)
        requires
            old(self).wf::<T>(),
            old(state).sublist.wf(),
        ensures
            final(self).wf::<T>(),
            final(state).sublist.wf(),
            final(self).number() == old(self).number(),
            final(self).machine() == old(self).machine(),
            final(state).clients == old(state).clients,
            final(state).gen_cid == old(state).gen_cid,
            match r {
                Ok(_) => {
                    let s = SubscriptionView {
                        subject: sub.subject@,
                        queue: match sub.queue {
                            Some(q) => Some(q@),
                            None => None,
                        },
                        sid: sub.sid@,
                        cid: old(self).number(),
                        id: old(self).fresh_id(),
                    };
                    &&& T::takes(sub.subject@)
                    &&& final(state).sublist.subs() == old(state).sublist.subs().insert(s)
                    &&& final(self).owned() == put_owned(old(self).owned(), s)
                    &&& final(self).fresh_id() == next_id(old(self).fresh_id())
                },
                Err(e) => {
                    &&& !T::takes(sub.subject@)
                    &&& e.err_code == ERROR_INVALID_SUBJECT
                    &&& final(state).sublist.subs() == old(state).sublist.subs()
                    &&& final(self).owned() == old(self).owned()
                    &&& final(self).fresh_id() == old(self).fresh_id()
                },
            },
    {
        let queue: Option<&[u8]> = match &sub.queue {
            Some(q) => Some(q.as_slice()),
            None => None,
        };
        let made = Arc::new(
            Subscription::new(
                sub.subject.as_slice(),
                queue,
                sub.sid.as_slice(),
                self.cid,
                self.next_id,
            ),
        );
        match state.sublist.insert(arc_clone(&made)) {
            Err(e) => {
                return Err(e);
            },
            Ok(_) => {},
        }
        let ghost before = sub_views(self.subs@);
        let at = owned_position(&self.subs, sub.subject.as_slice());
        if at < self.subs.len() {
            self.subs.set(at, made);
            assert(sub_views(self.subs@) =~= before.update(at as int, made@));
        } else {
            proof {
                lemma_sub_views_push(self.subs@, made);
            }
            self.subs.push(made);
        }
        self.next_id = if self.next_id == u64::MAX {
            0
        } else {
            self.next_id + 1
        };
        proof {
            let after = sub_views(self.subs@);
            assert forall|i: int| 0 <= i < after.len() implies T::takes(
                (#[trigger] after[i]).subject,
            ) by {
                if i < before.len() && i != at {
                    assert(after[i] == before[i]);
                }
            }
        }
        Ok(())
    }

    /// Delivers a message, as a `PUB` asks. The subscribers are those that
    /// were found for the subject earlier in the read, or else those that
    /// the index finds, which are then kept in `cache`. Every direct
    /// subscriber gets the message, and of each queue group one member,
    /// picked at random. The connections that were reached are noted in
    /// `pendings`. A subject with a wildcard is an error and changes
    /// nothing.
    pub fn process_pub<T: SubListTrait>(
        &self,
        state: &mut ServerState<T>,
        pub_arg: &PubArg,
        cache: &mut Vec<(Vec<u8>, ArcSubResult)>,
        rng: &mut StdRng,
        pendings: &mut Vec<u64>,
    ) -> (r: Result<(), NError>)
        requires
            old(state).sublist.wf(),
            cache_ok(cache_views(old(cache)@)),
            ordered(old(pendings)@),
        ensures
            final(state).sublist.wf(),
            final(state).gen_cid == old(state).gen_cid,
            cache_ok(cache_views(final(cache)@)),
            ordered(final(pendings)@),
            match r {
                Ok(_) => valid_literal_subject(pub_arg.subject@) && exists|
                    result: SubResultView,
                    picks: Seq<u32>,
                |
                    #[trigger] pub_fits::<T>(
                        world_of(*self, *old(state), old(cache)@, old(pendings)@),
                        pub_arg.subject@,
                        result,
                        picks,
                    ) && world_of(*self, *final(state), final(cache)@, final(pendings)@)
                        == pub_applied(
                        world_of(*self, *old(state), old(cache)@, old(pendings)@),
                        pub_arg.subject@,
                        pub_arg.size_buf@,
                        pub_arg.msg@,
                        result,
                        picks,
                    ),
                Err(e) => !valid_literal_subject(pub_arg.subject@) && e.err_code
                    == ERROR_NON_LITERAL_SUBJECT && world_of(
                    *self,
                    *final(state),
                    final(cache)@,
                    final(pendings)@,
                ) == world_of(*self, *old(state), old(cache)@, old(pendings)@),
            },
    {
        let ghost w = world_of(*self, *state, cache@, pendings@);
        if !is_valid_literal_subject(pub_arg.subject.as_slice()) {
            return Err(NError::new(ERROR_NON_LITERAL_SUBJECT));
        }
        let ghost cached = cache_views(cache@);
        let result = match cache_lookup(cache, pub_arg.subject.as_slice()) {
            Some(r) => {
                proof {
                    lemma_cached_found(cached, pub_arg.subject@);
                }
                r
            },
            None => {
                let r = state.sublist.match_subject(pub_arg.subject.as_slice());
                cache.push((vstd::slice::slice_to_vec(pub_arg.subject.as_slice()), arc_clone(&r)));
                assert(cache_views(cache@) =~= cached.push((pub_arg.subject@, r@)));
                r
            },
        };
        let mut picks: Vec<u32> = Vec::new();
        let mut g: usize = 0;
        while g < result.qsubs.len()
            invariant
                g <= result.qsubs@.len(),
                picks@.len() == g,
            decreases result.qsubs@.len() - g,
        {
            picks.push(next_u32(rng));
            g += 1;
        }
        assert(picks@.len() == result@.qsubs.len());
        deliver(&mut state.clients, pendings, &result, &picks, pub_arg);
        proof {
            assert(pub_fits::<T>(w, pub_arg.subject@, result@, picks@));
            let after = world_of(*self, *state, cache@, pendings@);
            let want = pub_applied(
                w,
                pub_arg.subject@,
                pub_arg.size_buf@,
                pub_arg.msg@,
                result@,
                picks@,
            );
            assert(after.pending =~= want.pending);
            assert(after.cached =~= want.cached);
            assert(after == want);
        }
        Ok(())
    }

    /// Reads the frame at the start of `buf` and does what it asks. The
    /// result is the number of bytes of the frame, or zero where `buf` ends
    /// before a frame does; then all of `buf` was taken.
    pub fn process_frame<T: SubListTrait>(
        &mut self,
        state: &mut ServerState<T>,
        buf: &[u8],
        cache: &mut Vec<(Vec<u8>, ArcSubResult)>,
        rng: &mut StdRng,
        pendings: &mut Vec<u64>,
    ) -> (r: Result<usize, NError>)
        requires
            old(self).wf::<T>(),
            old(state).sublist.wf(),
            cache_ok(cache_views(old(cache)@)),
            ordered(old(pendings)@),
        ensures
            final(self).wf::<T>(),
            final(state).sublist.wf(),
            final(state).gen_cid == old(state).gen_cid,
            final(self).number() == old(self).number(),
            cache_ok(cache_views(final(cache)@)),
            ordered(final(pendings)@),
            match r {
                Ok(n) => if n == 0 {
                    world_of(*old(self), *old(state), old(cache)@, old(pendings)@).machine.parse(
                        buf@,
                    ) matches Outcome::Incomplete(m) && world_of(
                        *final(self),
                        *final(state),
                        final(cache)@,
                        final(pendings)@,
                    ) == (World {
                        machine: m,
                        ..world_of(*old(self), *old(state), old(cache)@, old(pendings)@)
                    })
                } else {
                    n <= buf@.len() && stepped::<T>(
                        old(self).number(),
                        world_of(*old(self), *old(state), old(cache)@, old(pendings)@),
                        buf@,
                        world_of(*final(self), *final(state), final(cache)@, final(pendings)@),
                        n as nat,
                    )
                },
                Err(e) => step_fails::<T>(
                    world_of(*old(self), *old(state), old(cache)@, old(pendings)@),
                    buf@,
                ) == Some(e.err_code) && world_of(
                    *final(self),
                    *final(state),
                    final(cache)@,
                    final(pendings)@,
                ) == (World {
                    machine: final(self).machine(),
                    ..world_of(*old(self), *old(state), old(cache)@, old(pendings)@)
                }),
            },
    {
        let ghost w = world_of(*self, *state, cache@, pendings@);
        proof {
            crate::wire::lemma_parse_wf(self.parser@, buf@);
        }
        match self.parser.parse(buf) {
            Err(e) => Err(e),
            Ok((ParseResult::NoMsg, _)) => Ok(0),
            Ok((ParseResult::Sub(sub), n)) => {
                match self.process_sub(state, &sub) {
                    Err(e) => Err(e),
                    Ok(_) => {
                        proof {
                            let after = world_of(*self, *state, cache@, pendings@);
                            let at_start = World { machine: Machine::start(Side::Server), ..w };
                            let queue = match sub.queue {
                                Some(q) => Some(q@),
                                None => None,
                            };
                            assert(after == sub_applied(
                                at_start,
                                old(self).number(),
                                sub.subject@,
                                queue,
                                sub.sid@,
                            ));
                        }
                        Ok(n)
                    },
                }
            },
            Ok((ParseResult::Pub(pub_arg), n)) => {
                let ghost mid = world_of(*self, *state, cache@, pendings@);
                match self.process_pub(state, &pub_arg, cache, rng, pendings) {
                    Err(e) => Err(e),
                    Ok(_) => {
                        self.parser.clear_msg_buf();
                        proof {
                            let after = world_of(*self, *state, cache@, pendings@);
                            let (result, picks) = choose|result: SubResultView, picks: Seq<u32>|
                                #[trigger] pub_fits::<T>(mid, pub_arg.subject@, result, picks)
                                    && after == pub_applied(
                                    mid,
                                    pub_arg.subject@,
                                    pub_arg.size_buf@,
                                    pub_arg.msg@,
                                    result,
                                    picks,
                                );
                            assert(pub_fits::<T>(w, pub_arg.subject@, result, picks));
                        }
                        Ok(n)
                    },
                }
            },
        }
    }

    /// Takes in what was read from the connection: every frame in `buf` is
    /// read and done, one after the other, and the start of a frame at the
    /// end of `buf` is kept for the next read. The result names the
    /// connections that got bytes to send; they are to be written out
    /// before the next read. An error ends the reading at the frame that
    /// earned it; the connection is then to be closed.
    pub fn client_read<T: SubListTrait>(
        &mut self,
        state: &mut ServerState<T>,
        buf: &[u8],
        rng: &mut StdRng,
    ) -> (r: Result<Vec<u64>, NError>)
        requires
            old(self).wf::<T>(),
            old(state).sublist.wf(),
        ensures
            final(self).wf::<T>(),
            final(state).sublist.wf(),
            final(state).gen_cid == old(state).gen_cid,
            final(self).number() == old(self).number(),
            exists|k: nat, at: nat, w: World|
                {
                    &&& #[trigger] did::<T>(
                        old(self).number(),
                        world_of(*old(self), *old(state), Seq::empty(), Seq::empty()),
                        buf@,
                        w,
                        at,
                        k,
                    )
                    &&& at <= buf@.len()
                    &&& final(state).sublist.subs() == w.index
                    &&& outbound_of(final(state).clients@) == w.outbound
                    &&& final(self).owned() == w.owned
                    &&& final(self).fresh_id() == w.next_id
                    &&& match r {
                        Ok(pendings) => ordered(pendings@) && pendings@.to_set() == w.pending
                            && w.machine.parse(buf@.skip(at as int)) == Outcome::Incomplete(
                            final(self).machine(),
                        ),
                        Err(e) => step_fails::<T>(w, buf@.skip(at as int)) == Some(e.err_code),
                    }
                },
    {
        let ghost cid = self.number();
        let ghost first = world_of(*self, *state, Seq::empty(), Seq::empty());
        let mut cache: Vec<(Vec<u8>, ArcSubResult)> = Vec::new();
        let mut pendings: Vec<u64> = Vec::new();
        let mut pos: usize = 0;
        let ghost mut done: nat = 0;
        assert(cache_views(cache@) =~= cache_views(Seq::empty()));
        let mut outcome: Option<NError> = None;
        while pos < buf.len()
            invariant_except_break
                outcome is None,
                did::<T>(
                    cid,
                    first,
                    buf@,
                    world_of(*self, *state, cache@, pendings@),
                    pos as nat,
                    done,
                ),
            invariant
                pos <= buf@.len(),
                self.wf::<T>(),
                state.sublist.wf(),
                state.gen_cid == old(state).gen_cid,
                self.number() == cid,
                cid == old(self).number(),
                first == world_of(*old(self), *old(state), Seq::empty(), Seq::empty()),
                cache_ok(cache_views(cache@)),
                ordered(pendings@),
            ensures
                exists|k: nat, at: nat, w: World|
                    {
                        &&& #[trigger] did::<T>(cid, first, buf@, w, at, k)
                        &&& at <= buf@.len()
                        &&& state.sublist.subs() == w.index
                        &&& outbound_of(state.clients@) == w.outbound
                        &&& self.owned() == w.owned
                        &&& self.fresh_id() == w.next_id
                        &&& match outcome {
                            None => pendings@.to_set() == w.pending && w.machine.parse(
                                buf@.skip(at as int),
                            ) == Outcome::Incomplete(self.machine()),
                            Some(e) => step_fails::<T>(w, buf@.skip(at as int)) == Some(e.err_code),
                        }
                    },
            decreases buf@.len() - pos,
        {
            let ghost now = world_of(*self, *state, cache@, pendings@);
            let ghost rest = buf@.skip(pos as int);
            let left = vstd::slice::slice_subrange(buf, pos, buf.len());
            assert(left@ =~= rest);
            match self.process_frame(state, left, &mut cache, rng, &mut pendings) {
                Err(e) => {
                    assert(did::<T>(cid, first, buf@, now, pos as nat, done));
                    outcome = Some(e);
                    break ;
                },
                Ok(n) => {
                    if n == 0 {
                        assert(did::<T>(cid, first, buf@, now, pos as nat, done));
                        break ;
                    }
                    proof {
                        let next = world_of(*self, *state, cache@, pendings@);
                        lemma_did_step::<T>(
                            cid,
                            first,
                            buf@,
                            now,
                            pos as nat,
                            next,
                            (pos + n) as nat,
                            done,
                        );
                        done = done + 1;
                    }
                    pos = pos + n;
                    proof {
                        if pos == buf@.len() {
                            let w = world_of(*self, *state, cache@, pendings@);
                            assert(buf@.skip(pos as int).len() == 0);
                            assert(did::<T>(cid, first, buf@, w, pos as nat, done));
                        }
                    }
                },
            }
        }
        match outcome {
            Some(e) => Err(e),
            None => Ok(pendings),
        }
    }

    /// Ends the connection: every subscription that it has made is taken
    /// out of the index, and its sending side is closed.
    pub fn process_error<T: SubListTrait>(&mut self, state: &mut ServerState<T>)
        requires
            old(self).wf::<T>(),
            old(state).sublist.wf(),
        ensures
            final(self).wf::<T>(),
            final(state).sublist.wf(),
            final(state).gen_cid == old(state).gen_cid,
            final(self).number() == old(self).number(),
            final(self).machine() == old(self).machine(),
            final(self).owned().len() == 0,
            final(state).sublist.subs() == old(state).sublist.subs().difference(
                old(self).owned().to_set(),
            ),
            outbound_of(final(state).clients@) == if outbound_of(old(state).clients@).contains_key(
                old(self).number(),
            ) {
                outbound_of(old(state).clients@).insert(old(self).number(), None)
            } else {
                outbound_of(old(state).clients@)
            },
    {
        let ghost index0 = state.sublist.subs();
        let ghost owned0 = sub_views(self.subs@);
        assert(owned0.skip(owned0.len() as int) =~= Seq::<SubscriptionView>::empty());
        assert(index0.difference(Seq::<SubscriptionView>::empty().to_set()) =~= index0);
        while self.subs.len() > 0
            invariant
                self.parser == old(self).parser,
                self.cid == old(self).cid,
                state.clients == old(state).clients,
                state.gen_cid == old(state).gen_cid,
                state.sublist.wf(),
                self.subs@.len() <= owned0.len(),
                sub_views(self.subs@) == owned0.take(self.subs@.len() as int),
                forall|i: int| 0 <= i < owned0.len() ==> T::takes((#[trigger] owned0[i]).subject),
                state.sublist.subs() == index0.difference(
                    owned0.skip(self.subs@.len() as int).to_set(),
                ),
            decreases self.subs@.len(),
        {
            let ghost n = self.subs@.len() as int;
            let ghost held = state.sublist.subs();
            let ghost before = self.subs@;
            let sub = self.subs.pop().unwrap();
            proof {
                assert(sub@ == sub_views(before)[n - 1]);
                assert(sub@ == owned0[n - 1]);
                assert(sub_views(self.subs@) =~= owned0.take(n - 1));
                let gone = owned0.skip(n);
                let more = owned0.skip(n - 1);
                assert(more =~= seq![owned0[n - 1]] + gone);
                assert forall|x: SubscriptionView| more.to_set().contains(x) <==> gone.to_set().insert(
                    sub@,
                ).contains(x) by {
                    if more.contains(x) {
                        let a = choose|a: int| 0 <= a < more.len() && more[a] == x;
                        if a > 0 {
                            assert(gone[a - 1] == x);
                        }
                    }
                    if gone.contains(x) {
                        let a = choose|a: int| 0 <= a < gone.len() && gone[a] == x;
                        assert(more[a + 1] == x);
                    }
                    if x == sub@ {
                        assert(more[0] == x);
                    }
                }
                assert(more.to_set() =~= gone.to_set().insert(sub@));
            }
            let _gone = state.sublist.remove(sub);
            proof {
                assert(state.sublist.subs() =~= held.remove(owned0[n - 1]));
                assert(state.sublist.subs() =~= index0.difference(owned0.skip(n - 1).to_set()));
            }
        }
        proof {
            assert(owned0.skip(0) =~= owned0);
        }
        state.close(self.cid);
    }
}

/// One more frame: what came of `first` by `k` frames and then of that by
/// one frame more came of `first` by `k + 1` frames.
pub proof fn lemma_did_step<T: SubListTrait>(
    cid: u64,
    first: World,
    buf: Seq<u8>,
    prev: World,
    at: nat,
    w: World,
    pos: nat,
    k: nat,
)
    requires
        did::<T>(cid, first, buf, prev, at, k),
        at <= pos <= buf.len(),
        stepped::<T>(cid, prev, buf.skip(at as int), w, (pos - at) as nat),
    ensures
        did::<T>(cid, first, buf, w, pos, k + 1),
{
    let k1 = k + 1;
    assert(did::<T>(cid, first, buf, prev, at, (k1 - 1) as nat));
    assert(stepped_to::<T>(cid, prev, buf, at, w, pos));
}

/// A result that the read cache holds is in order if all its results are.
proof fn lemma_cached_found(cached: ReadCache, subject: Seq<u8>)
    requires
        cache_ok(cached),
    ensures
        cached_find(cached, subject) matches Some(r) ==> r.wf(),
    decreases cached.len(),
{
    if cached.len() > 0 {
        if cached[0].0 != subject {
            let rest = cached.drop_first();
            assert forall|i: int| 0 <= i < rest.len() implies (#[trigger] rest[i]).1.wf() by {
                assert(rest[i] == cached[i + 1]);
            }
            lemma_cached_found(rest, subject);
        }
    }
}

/// One message goes to every direct subscriber and to one member of each
/// queue group, whatever the picks are: there are as many deliveries as
/// there are direct subscribers and groups, and the delivery for a group
/// goes to a member of that group.
pub proof fn lemma_one_of_each_group(result: SubResultView, picks: Seq<u32>)
    requires
        result.wf(),
        picks.len() == result.qsubs.len(),
    ensures
        targets(result, picks).len() == result.psubs.len() + result.qsubs.len(),
        forall|i: int| 0 <= i < result.psubs.len() ==> targets(result, picks)[i] == result.psubs[i],
        forall|g: int|
            0 <= g < result.qsubs.len() ==> (#[trigger] result.qsubs[g]).contains(
                targets(result, picks)[result.psubs.len() + g],
            ),
{
    let to = targets(result, picks);
    assert forall|g: int| 0 <= g < result.qsubs.len() implies (#[trigger] result.qsubs[g]).contains(
        to[result.psubs.len() + g],
    ) by {
        let group = result.qsubs[g];
        let at = picks[g] as int % group.len() as int;
        assert(group.len() > 0);
        assert(0 <= at < group.len());
        assert(to[result.psubs.len() + g] == group[at]);
    }
}

} // verus!
