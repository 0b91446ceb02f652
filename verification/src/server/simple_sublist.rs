//! Subscriptions, the result of matching a subject against them, what
//! every subscription index offers, and the plainest such index.

use crate::error::{NError, ERROR_INVALID_SUBJECT, ERROR_SUBSCRIBTION_NOT_FOUND};
use crate::text::bytes_eq;
use std::sync::Arc;
use vstd::prelude::*;

verus! {

/// One subscription of one connection.
///
/// Two subscriptions are the same subscription when all their fields
/// agree. `id` is there to tell apart two subscriptions that agree in
/// everything else: whoever makes subscriptions gives each its own.
#[derive(Debug)]
pub struct Subscription {
    /// The subject pattern.
    pub subject: Vec<u8>,
    /// The queue group, if the subscription is in one.
    pub queue: Option<Vec<u8>>,
    /// The name that the subscriber gave the subscription.
    pub sid: Vec<u8>,
    /// The connection that messages are delivered to.
    pub cid: u64,
    /// The identity of the subscription.
    pub id: u64,
}

/// A subscription as a mathematical value.
pub struct SubscriptionView {
    pub subject: Seq<u8>,
    pub queue: Option<Seq<u8>>,
    pub sid: Seq<u8>,
    pub cid: u64,
    pub id: u64,
}

impl View for Subscription {
    type V = SubscriptionView;

    open spec fn view(&self) -> SubscriptionView {
        SubscriptionView {
            subject: self.subject@,
            queue: match self.queue {
                Some(q) => Some(q@),
                None => None,
            },
            sid: self.sid@,
            cid: self.cid,
            id: self.id,
        }
    }
}

/// A subscription that the index and its owner share.
pub type ArcSubscription = Arc<Subscription>;

/// `Arc::clone` of the standard library: another handle to the value that
/// `a` shares. The new handle stands for the same value.
#[verifier::external_body]
pub(crate) fn arc_clone<T>(a: &Arc<T>) -> (r: Arc<T>)
    ensures
        r == *a,
{
    Arc::clone(a)
}

impl Subscription {
    /// A subscription with the given fields.
    pub fn new(subject: &[u8], queue: Option<&[u8]>, sid: &[u8], cid: u64, id: u64) -> (s: Self)
        ensures
            s@ == (SubscriptionView {
                subject: subject@,
                queue: match queue {
                    Some(q) => Some(q@),
                    None => None,
                },
                sid: sid@,
                cid,
                id,
            }),
    {
        Subscription {
            subject: vstd::slice::slice_to_vec(subject),
            queue: match queue {
                Some(q) => Some(vstd::slice::slice_to_vec(q)),
                None => None,
            },
            sid: vstd::slice::slice_to_vec(sid),
            cid,
            id,
        }
    }

    /// Whether `self` and `other` are the same subscription.
    pub fn same(&self, other: &Subscription) -> (same: bool)
        ensures
            same == (self@ == other@),
    {
        let queues = match (&self.queue, &other.queue) {
            (Some(a), Some(b)) => bytes_eq(a.as_slice(), b.as_slice()),
            (None, None) => true,
            _ => false,
        };
        queues && self.id == other.id && self.cid == other.cid && bytes_eq(
            self.subject.as_slice(),
            other.subject.as_slice(),
        ) && bytes_eq(self.sid.as_slice(), other.sid.as_slice())
    }

    /// Whether the subscription is in the queue group `name`.
    pub fn in_queue(&self, name: &[u8]) -> (b: bool)
        ensures
            b == (self@.queue == Some(name@)),
    {
        match &self.queue {
            Some(q) => bytes_eq(q.as_slice(), name),
            None => false,
        }
    }
}

/// A shared subscription as a member of a set of subscriptions: two
/// members are equal when they are the same subscription.
#[derive(Debug)]
pub struct ArcSubscriptionWrapper(pub ArcSubscription);

impl ArcSubscriptionWrapper {
    /// Whether the two members are the same subscription.
    pub fn same(&self, other: &ArcSubscriptionWrapper) -> (same: bool)
        ensures
            same == (self.0@ == other.0@),
    {
        self.0.same(&other.0)
    }
}

/// The subscriptions of a sequence, as mathematical values.
pub open spec fn sub_views(v: Seq<ArcSubscription>) -> Seq<SubscriptionView> {
    Seq::new(v.len(), |i: int| v[i]@)
}

/// The groups of a sequence of groups, as mathematical values.
pub open spec fn group_views(v: Seq<Vec<ArcSubscription>>) -> Seq<Seq<SubscriptionView>> {
    Seq::new(v.len(), |i: int| sub_views(v[i]@))
}

/// The subscribers of one subject: those outside any queue group, and the
/// queue groups, one for each queue name.
#[derive(Debug)]
pub struct SubResult {
    /// The subscribers outside any queue group.
    pub psubs: Vec<ArcSubscription>,
    /// The queue groups.
    pub qsubs: Vec<Vec<ArcSubscription>>,
}

/// A [`SubResult`] as a mathematical value.
pub struct SubResultView {
    pub psubs: Seq<SubscriptionView>,
    pub qsubs: Seq<Seq<SubscriptionView>>,
}

impl SubResultView {
    /// The subscriptions of the result, direct or in a group.
    pub open spec fn members(self) -> Set<SubscriptionView> {
        Set::new(
            |s: SubscriptionView|
                self.psubs.contains(s) || exists|g: int|
                    0 <= g < self.qsubs.len() && (#[trigger] self.qsubs[g]).contains(s),
        )
    }

    /// What holds of a result that an index hands out. No subscription
    /// occurs twice. The direct subscribers have no queue. A group is not
    /// empty, its members have the queue of its first member, and no two
    /// groups are of the same queue.
    pub open spec fn wf(self) -> bool {
        &&& self.psubs.no_duplicates()
        &&& forall|i: int| 0 <= i < self.psubs.len() ==> (#[trigger] self.psubs[i]).queue is None
        &&& forall|g: int|
            0 <= g < self.qsubs.len() ==> {
                &&& (#[trigger] self.qsubs[g]).len() > 0
                &&& self.qsubs[g].no_duplicates()
                &&& self.qsubs[g][0].queue is Some
                &&& forall|j: int|
                    0 <= j < self.qsubs[g].len() ==> (#[trigger] self.qsubs[g][j]).queue
                        == self.qsubs[g][0].queue
            }
        &&& forall|g: int, h: int|
            0 <= g < h < self.qsubs.len() ==> (#[trigger] self.qsubs[g])[0].queue != (
            #[trigger] self.qsubs[h])[0].queue
    }
}

impl SubResultView {
    /// The place of the group of the queue `queue`.
    pub open spec fn group_of(self, queue: Option<Seq<u8>>) -> int {
        choose|g: int| 0 <= g < self.qsubs.len() && (#[trigger] self.qsubs[g])[0].queue == queue
    }

    /// Whether there is a group of the queue `queue`.
    pub open spec fn has_group(self, queue: Option<Seq<u8>>) -> bool {
        exists|g: int| 0 <= g < self.qsubs.len() && (#[trigger] self.qsubs[g])[0].queue == queue
    }

    /// The result with `s` in it. A subscription that is in the result
    /// already changes nothing. One without a queue comes after the direct
    /// subscribers. One with a queue comes after the members of the group
    /// of its queue, or, where there is no such group, makes a new group
    /// after the others.
    pub open spec fn added(self, s: SubscriptionView) -> SubResultView {
        if self.members().contains(s) {
            self
        } else if s.queue is None {
            SubResultView { psubs: self.psubs.push(s), qsubs: self.qsubs }
        } else if self.has_group(s.queue) {
            let g = self.group_of(s.queue);
            SubResultView { psubs: self.psubs, qsubs: self.qsubs.update(g, self.qsubs[g].push(s)) }
        } else {
            SubResultView { psubs: self.psubs, qsubs: self.qsubs.push(seq![s]) }
        }
    }

    /// The result without `s`. The others keep their order. A group that
    /// loses its last member is given up.
    pub open spec fn removed(self, s: SubscriptionView) -> SubResultView {
        if !self.members().contains(s) {
            self
        } else if s.queue is None {
            SubResultView { psubs: self.psubs.remove(self.psubs.index_of(s)), qsubs: self.qsubs }
        } else {
            let g = self.group_of(s.queue);
            if self.qsubs[g].len() == 1 {
                SubResultView { psubs: self.psubs, qsubs: self.qsubs.remove(g) }
            } else {
                SubResultView {
                    psubs: self.psubs,
                    qsubs: self.qsubs.update(g, self.qsubs[g].remove(self.qsubs[g].index_of(s))),
                }
            }
        }
    }
}

impl View for SubResult {
    type V = SubResultView;

    open spec fn view(&self) -> SubResultView {
        SubResultView { psubs: sub_views(self.psubs@), qsubs: group_views(self.qsubs@) }
    }
}

/// A result that indexes and their callers share.
pub type ArcSubResult = Arc<SubResult>;

/// The place of the subscription `sub` in `v`, if it is there.
pub fn position(v: &Vec<ArcSubscription>, sub: &Subscription) -> (at: Option<usize>)
    ensures
        match at {
            Some(i) => i < v@.len() && v@[i as int]@ == sub@,
            None => !sub_views(v@).contains(sub@),
        },
{
    let mut i: usize = 0;
    while i < v.len()
        invariant
            i <= v@.len(),
            forall|j: int| 0 <= j < i ==> sub_views(v@)[j] != sub@,
        decreases v@.len() - i,
    {
        if v[i].same(sub) {
            return Some(i);
        }
        assert(sub_views(v@)[i as int] == v@[i as int]@);
        i += 1;
    }
    None
}

/// A copy of `v` that shares its subscriptions.
pub fn share_all(v: &Vec<ArcSubscription>) -> (copy: Vec<ArcSubscription>)
    ensures
        copy@ == v@,
{
    let mut copy: Vec<ArcSubscription> = Vec::new();
    let mut i: usize = 0;
    while i < v.len()
        invariant
            i <= v@.len(),
            copy@ == v@.take(i as int),
        decreases v@.len() - i,
    {
        copy.push(arc_clone(&v[i]));
        assert(copy@ =~= v@.take(i + 1));
        i += 1;
    }
    assert(v@.take(i as int) =~= v@);
    copy
}

impl SubResult {
    /// A result without subscribers.
    pub fn new() -> (r: Self)
        ensures
            r@.wf(),
            r@.members() == Set::<SubscriptionView>::empty(),
            r@.psubs.len() == 0,
            r@.qsubs.len() == 0,
    {
        let r = SubResult { psubs: Vec::new(), qsubs: Vec::new() };
        assert(r@.members() =~= Set::<SubscriptionView>::empty());
        r
    }

    /// Whether the result has no subscriber.
    pub fn is_empty(&self) -> (empty: bool)
        ensures
            empty == (self@.psubs.len() == 0 && self@.qsubs.len() == 0),
            self@.wf() ==> empty == (self@.members() == Set::<SubscriptionView>::empty()),
    {
        proof {
            if self@.wf() {
                if self@.psubs.len() > 0 {
                    assert(self@.psubs.contains(self@.psubs[0]));
                    assert(self@.members().contains(self@.psubs[0]));
                } else if self@.qsubs.len() > 0 {
                    assert(self@.qsubs[0].contains(self@.qsubs[0][0]));
                    assert(self@.members().contains(self@.qsubs[0][0]));
                } else {
                    assert(self@.members() =~= Set::<SubscriptionView>::empty());
                }
            }
        }
        self.psubs.len() == 0 && self.qsubs.len() == 0
    }

    /// A copy of the result that shares its subscriptions.
    pub fn share(&self) -> (copy: Self)
        ensures
            copy@ == self@,
    {
        let psubs = share_all(&self.psubs);
        let mut qsubs: Vec<Vec<ArcSubscription>> = Vec::new();
        let mut g: usize = 0;
        while g < self.qsubs.len()
            invariant
                g <= self.qsubs@.len(),
                qsubs@.len() == g,
                group_views(qsubs@) == group_views(self.qsubs@).take(g as int),
            decreases self.qsubs@.len() - g,
        {
            let ghost before = qsubs@;
            let group = share_all(&self.qsubs[g]);
            qsubs.push(group);
            assert forall|h: int| 0 <= h <= g implies group_views(qsubs@)[h] == group_views(
                self.qsubs@,
            )[h] by {
                if h < g {
                    assert(group_views(before)[h] == group_views(self.qsubs@).take(g as int)[h]);
                    assert(qsubs@[h] == before[h]);
                } else {
                    assert(qsubs@[h] == group);
                }
            }
            assert(group_views(qsubs@) =~= group_views(self.qsubs@).take(g + 1));
            g += 1;
        }
        assert(group_views(self.qsubs@).take(g as int) =~= group_views(self.qsubs@));
        SubResult { psubs, qsubs }
    }

    /// The place of the group of the queue `name`, if there is one.
    pub fn find_group(&self, name: &[u8]) -> (at: Option<usize>)
        requires
            self@.wf(),
        ensures
            match at {
                Some(g) => g < self@.qsubs.len() && self@.qsubs[g as int][0].queue == Some(name@),
                None => forall|g: int|
                    0 <= g < self@.qsubs.len() ==> (#[trigger] self@.qsubs[g])[0].queue != Some(
                        name@,
                    ),
            },
    {
        let mut g: usize = 0;
        while g < self.qsubs.len()
            invariant
                g <= self.qsubs@.len(),
                self@.wf(),
                forall|h: int| 0 <= h < g ==> (#[trigger] self@.qsubs[h])[0].queue != Some(name@),
            decreases self.qsubs@.len() - g,
        {
            assert(self@.qsubs[g as int].len() > 0);
            assert(self@.qsubs[g as int][0] == self.qsubs@[g as int]@[0]@);
            if self.qsubs[g][0].in_queue(name) {
                return Some(g);
            }
            g += 1;
        }
        None
    }

    /// Whether `sub` is among the subscriptions of the result.
    pub fn contains(&self, sub: &Subscription) -> (found: bool)
        requires
            self@.wf(),
        ensures
            found == self@.members().contains(sub@),
    {
        match &sub.queue {
            None => {
                let at = position(&self.psubs, sub);
                proof {
                    lemma_group_of(self@, sub@);
                    if at is Some {
                        assert(self@.psubs[at->Some_0 as int] == sub@);
                    }
                }
                at.is_some()
            },
            Some(q) => {
                proof {
                    lemma_group_of(self@, sub@);
                }
                match self.find_group(q.as_slice()) {
                    None => false,
                    Some(g) => {
                        let at = position(&self.qsubs[g], sub);
                        proof {
                            assert(sub_views(self.qsubs@[g as int]@) == self@.qsubs[g as int]);
                            if at is Some {
                                assert(self@.qsubs[g as int][at->Some_0 as int] == sub@);
                            }
                        }
                        at.is_some()
                    },
                }
            },
        }
    }
}

/// Where a subscription can stand in a result: one without a queue only
/// among the direct subscribers, one with a queue only in the group of
/// that queue.
pub proof fn lemma_group_of(r: SubResultView, s: SubscriptionView)
    requires
        r.wf(),
    ensures
        r.psubs.contains(s) ==> s.queue is None,
        forall|g: int|
            0 <= g < r.qsubs.len() && (#[trigger] r.qsubs[g]).contains(s) ==> s.queue
                == r.qsubs[g][0].queue,
        r.members().contains(s) <==> (r.psubs.contains(s) || exists|g: int|
            0 <= g < r.qsubs.len() && (#[trigger] r.qsubs[g]).contains(s)),
{
    if r.psubs.contains(s) {
        let i = choose|i: int| 0 <= i < r.psubs.len() && r.psubs[i] == s;
        assert(r.psubs[i].queue is None);
    }
    assert forall|g: int| 0 <= g < r.qsubs.len() && (#[trigger] r.qsubs[g]).contains(
        s,
    ) implies s.queue == r.qsubs[g][0].queue by {
        let j = choose|j: int| 0 <= j < r.qsubs[g].len() && r.qsubs[g][j] == s;
        assert(r.qsubs[g][j].queue == r.qsubs[g][0].queue);
    }
}

/// The group of a queue is the only one of that queue.
pub proof fn lemma_one_group(r: SubResultView, g: int)
    requires
        r.wf(),
        0 <= g < r.qsubs.len(),
    ensures
        r.has_group(r.qsubs[g][0].queue),
        r.group_of(r.qsubs[g][0].queue) == g,
{
    let q = r.qsubs[g][0].queue;
    let h = r.group_of(q);
    if h != g {
        if h < g {
            assert(r.qsubs[h][0].queue != r.qsubs[g][0].queue);
        } else {
            assert(r.qsubs[g][0].queue != r.qsubs[h][0].queue);
        }
    }
}

/// A subscription without a queue that is not yet among the direct
/// subscribers joins them.
pub proof fn lemma_add_direct(r: SubResultView, s: SubscriptionView)
    requires
        r.wf(),
        s.queue is None,
        !r.psubs.contains(s),
    ensures
        (SubResultView { psubs: r.psubs.push(s), qsubs: r.qsubs }).wf(),
        (SubResultView { psubs: r.psubs.push(s), qsubs: r.qsubs }).members() == r.members().insert(
            s,
        ),
{
    let r2 = SubResultView { psubs: r.psubs.push(s), qsubs: r.qsubs };
    assert forall|i: int, j: int|
        0 <= i < r2.psubs.len() && 0 <= j < r2.psubs.len() && i != j implies r2.psubs[i]
        != r2.psubs[j] by {
        if i < r.psubs.len() && j < r.psubs.len() {
            assert(r.psubs[i] != r.psubs[j]);
        } else if i < r.psubs.len() {
            assert(r.psubs.contains(r.psubs[i]));
        } else {
            assert(r.psubs.contains(r.psubs[j]));
        }
    }
    assert forall|x: SubscriptionView| r2.members().contains(x) <==> r.members().insert(
        s,
    ).contains(x) by {
        if r2.psubs.contains(x) {
            let i = choose|i: int| 0 <= i < r2.psubs.len() && r2.psubs[i] == x;
            if i < r.psubs.len() {
                assert(r.psubs[i] == x);
            }
        }
        if r.psubs.contains(x) {
            let i = choose|i: int| 0 <= i < r.psubs.len() && r.psubs[i] == x;
            assert(r2.psubs[i] == x);
        }
        if x == s {
            assert(r2.psubs[r.psubs.len() as int] == x);
        }
    }
    assert(r2.members() =~= r.members().insert(s));
}

/// A subscription of the queue of the group `g` that is not yet in the
/// group joins it.
pub proof fn lemma_add_to_group(r: SubResultView, g: int, s: SubscriptionView)
    requires
        r.wf(),
        0 <= g < r.qsubs.len(),
        s.queue == r.qsubs[g][0].queue,
        !r.qsubs[g].contains(s),
    ensures
        (SubResultView { psubs: r.psubs, qsubs: r.qsubs.update(g, r.qsubs[g].push(s)) }).wf(),
        (SubResultView {
            psubs: r.psubs,
            qsubs: r.qsubs.update(g, r.qsubs[g].push(s)),
        }).members() == r.members().insert(s),
{
    let old_group = r.qsubs[g];
    let group = old_group.push(s);
    let r2 = SubResultView { psubs: r.psubs, qsubs: r.qsubs.update(g, group) };
    assert forall|i: int, j: int|
        0 <= i < group.len() && 0 <= j < group.len() && i != j implies group[i] != group[j] by {
        if i < old_group.len() && j < old_group.len() {
            assert(old_group[i] != old_group[j]);
        } else if i < old_group.len() {
            assert(old_group.contains(old_group[i]));
        } else {
            assert(old_group.contains(old_group[j]));
        }
    }
    assert(group[0] == old_group[0]);
    assert forall|h: int| 0 <= h < r2.qsubs.len() implies {
        &&& (#[trigger] r2.qsubs[h]).len() > 0
        &&& r2.qsubs[h].no_duplicates()
        &&& r2.qsubs[h][0].queue is Some
        &&& r2.qsubs[h][0] == r.qsubs[h][0]
        &&& forall|j: int|
            0 <= j < r2.qsubs[h].len() ==> (#[trigger] r2.qsubs[h][j]).queue
                == r2.qsubs[h][0].queue
    } by {
        assert(r.qsubs[h].len() > 0);
        if h == g {
            assert forall|j: int| 0 <= j < group.len() implies (#[trigger] group[j]).queue
                == group[0].queue by {
                if j < old_group.len() {
                    assert(old_group[j].queue == old_group[0].queue);
                }
            }
        } else {
            assert(r2.qsubs[h] == r.qsubs[h]);
        }
    }
    assert forall|a: int, b: int| 0 <= a < b < r2.qsubs.len() implies (
    #[trigger] r2.qsubs[a])[0].queue != (#[trigger] r2.qsubs[b])[0].queue by {
        assert(r.qsubs[a][0].queue != r.qsubs[b][0].queue);
    }
    assert forall|x: SubscriptionView| r2.members().contains(x) <==> r.members().insert(
        s,
    ).contains(x) by {
        if r2.members().contains(x) && !r2.psubs.contains(x) {
            let h = choose|h: int| 0 <= h < r2.qsubs.len() && (#[trigger] r2.qsubs[h]).contains(x);
            if h == g {
                let j = choose|j: int| 0 <= j < group.len() && group[j] == x;
                if j < old_group.len() {
                    assert(old_group[j] == x);
                    assert(r.qsubs[g].contains(x));
                }
            } else {
                assert(r.qsubs[h].contains(x));
            }
        }
        if r.members().contains(x) && !r.psubs.contains(x) {
            let h = choose|h: int| 0 <= h < r.qsubs.len() && (#[trigger] r.qsubs[h]).contains(x);
            if h == g {
                let j = choose|j: int| 0 <= j < old_group.len() && old_group[j] == x;
                assert(group[j] == x);
                assert(r2.qsubs[g].contains(x));
            } else {
                assert(r2.qsubs[h].contains(x));
            }
        }
        if x == s {
            assert(group[old_group.len() as int] == x);
            assert(r2.qsubs[g].contains(x));
        }
    }
    assert(r2.members() =~= r.members().insert(s));
}

/// A subscription of a queue that has no group yet opens one.
pub proof fn lemma_add_group(r: SubResultView, s: SubscriptionView)
    requires
        r.wf(),
        s.queue is Some,
        forall|g: int| 0 <= g < r.qsubs.len() ==> (#[trigger] r.qsubs[g])[0].queue != s.queue,
    ensures
        (SubResultView { psubs: r.psubs, qsubs: r.qsubs.push(seq![s]) }).wf(),
        (SubResultView { psubs: r.psubs, qsubs: r.qsubs.push(seq![s]) }).members()
            == r.members().insert(s),
{
    let r2 = SubResultView { psubs: r.psubs, qsubs: r.qsubs.push(seq![s]) };
    let n = r.qsubs.len() as int;
    assert forall|h: int| 0 <= h < r2.qsubs.len() implies {
        &&& (#[trigger] r2.qsubs[h]).len() > 0
        &&& r2.qsubs[h].no_duplicates()
        &&& r2.qsubs[h][0].queue is Some
        &&& forall|j: int|
            0 <= j < r2.qsubs[h].len() ==> (#[trigger] r2.qsubs[h][j]).queue
                == r2.qsubs[h][0].queue
    } by {
        if h < n {
            assert(r2.qsubs[h] == r.qsubs[h]);
            assert(r.qsubs[h].len() > 0);
        }
    }
    assert forall|a: int, b: int| 0 <= a < b < r2.qsubs.len() implies (
    #[trigger] r2.qsubs[a])[0].queue != (#[trigger] r2.qsubs[b])[0].queue by {
        assert(r2.qsubs[a] == r.qsubs[a]);
        if b < n {
            assert(r2.qsubs[b] == r.qsubs[b]);
            assert(r.qsubs[a][0].queue != r.qsubs[b][0].queue);
        }
    }
    assert forall|x: SubscriptionView| r2.members().contains(x) <==> r.members().insert(
        s,
    ).contains(x) by {
        if r2.members().contains(x) && !r2.psubs.contains(x) {
            let h = choose|h: int| 0 <= h < r2.qsubs.len() && (#[trigger] r2.qsubs[h]).contains(x);
            if h < n {
                assert(r.qsubs[h].contains(x));
            } else {
                let j = choose|j: int| 0 <= j < r2.qsubs[h].len() && r2.qsubs[h][j] == x;
                assert(x == s);
            }
        }
        if r.members().contains(x) && !r.psubs.contains(x) {
            let h = choose|h: int| 0 <= h < r.qsubs.len() && (#[trigger] r.qsubs[h]).contains(x);
            assert(r2.qsubs[h] == r.qsubs[h]);
            assert(r2.qsubs[h].contains(x));
        }
        if x == s {
            assert(r2.qsubs[n][0] == x);
            assert(r2.qsubs[n].contains(x));
        }
    }
    assert(r2.members() =~= r.members().insert(s));
}

/// A direct subscriber leaves.
pub proof fn lemma_remove_direct(r: SubResultView, i: int)
    requires
        r.wf(),
        0 <= i < r.psubs.len(),
    ensures
        (SubResultView { psubs: r.psubs.remove(i), qsubs: r.qsubs }).wf(),
        (SubResultView { psubs: r.psubs.remove(i), qsubs: r.qsubs }).members()
            == r.members().remove(r.psubs[i]),
{
    let s = r.psubs[i];
    let r2 = SubResultView { psubs: r.psubs.remove(i), qsubs: r.qsubs };
    lemma_group_of(r, s);
    assert(r.psubs.contains(s));
    assert forall|a: int| 0 <= a < r2.psubs.len() implies (#[trigger] r2.psubs[a]).queue is None
        && r2.psubs[a] != s by {
        if a < i {
            assert(r2.psubs[a] == r.psubs[a]);
        } else {
            assert(r2.psubs[a] == r.psubs[a + 1]);
        }
    }
    assert forall|a: int, b: int|
        0 <= a < r2.psubs.len() && 0 <= b < r2.psubs.len() && a != b implies r2.psubs[a]
        != r2.psubs[b] by {
        let a1 = if a < i {
            a
        } else {
            a + 1
        };
        let b1 = if b < i {
            b
        } else {
            b + 1
        };
        assert(r2.psubs[a] == r.psubs[a1] && r2.psubs[b] == r.psubs[b1]);
    }
    assert forall|x: SubscriptionView| r2.members().contains(x) <==> r.members().remove(
        s,
    ).contains(x) by {
        if r2.psubs.contains(x) {
            let a = choose|a: int| 0 <= a < r2.psubs.len() && r2.psubs[a] == x;
            let a1 = if a < i {
                a
            } else {
                a + 1
            };
            assert(r.psubs[a1] == x);
        }
        if r.psubs.contains(x) && x != s {
            let a = choose|a: int| 0 <= a < r.psubs.len() && r.psubs[a] == x;
            let a2 = if a < i {
                a
            } else {
                a - 1
            };
            assert(r2.psubs[a2] == x);
        }
    }
    assert(r2.members() =~= r.members().remove(s));
}

/// A member of a group of two or more leaves.
pub proof fn lemma_remove_from_group(r: SubResultView, g: int, j: int)
    requires
        r.wf(),
        0 <= g < r.qsubs.len(),
        0 <= j < r.qsubs[g].len(),
        r.qsubs[g].len() > 1,
    ensures
        (SubResultView { psubs: r.psubs, qsubs: r.qsubs.update(g, r.qsubs[g].remove(j)) }).wf(),
        (SubResultView {
            psubs: r.psubs,
            qsubs: r.qsubs.update(g, r.qsubs[g].remove(j)),
        }).members() == r.members().remove(r.qsubs[g][j]),
{
    let old_group = r.qsubs[g];
    let s = old_group[j];
    let group = old_group.remove(j);
    let r2 = SubResultView { psubs: r.psubs, qsubs: r.qsubs.update(g, group) };
    lemma_group_of(r, s);
    assert(old_group.contains(s));
    assert(old_group[j].queue == old_group[0].queue);
    assert forall|a: int| 0 <= a < group.len() implies (#[trigger] group[a]).queue
        == old_group[0].queue && group[a] != s by {
        let a1 = if a < j {
            a
        } else {
            a + 1
        };
        assert(group[a] == old_group[a1]);
        assert(old_group[a1].queue == old_group[0].queue);
    }
    assert forall|a: int, b: int|
        0 <= a < group.len() && 0 <= b < group.len() && a != b implies group[a] != group[b] by {
        let a1 = if a < j {
            a
        } else {
            a + 1
        };
        let b1 = if b < j {
            b
        } else {
            b + 1
        };
        assert(group[a] == old_group[a1] && group[b] == old_group[b1]);
    }
    assert forall|h: int| 0 <= h < r2.qsubs.len() implies {
        &&& (#[trigger] r2.qsubs[h]).len() > 0
        &&& r2.qsubs[h].no_duplicates()
        &&& r2.qsubs[h][0].queue is Some
        &&& r2.qsubs[h][0].queue == r.qsubs[h][0].queue
        &&& forall|k: int|
            0 <= k < r2.qsubs[h].len() ==> (#[trigger] r2.qsubs[h][k]).queue
                == r2.qsubs[h][0].queue
    } by {
        assert(r.qsubs[h].len() > 0);
        if h != g {
            assert(r2.qsubs[h] == r.qsubs[h]);
        } else {
            assert(group[0].queue == old_group[0].queue);
        }
    }
    assert forall|a: int, b: int| 0 <= a < b < r2.qsubs.len() implies (
    #[trigger] r2.qsubs[a])[0].queue != (#[trigger] r2.qsubs[b])[0].queue by {
        assert(r.qsubs[a][0].queue != r.qsubs[b][0].queue);
    }
    assert forall|x: SubscriptionView| r2.members().contains(x) <==> r.members().remove(
        s,
    ).contains(x) by {
        lemma_group_of(r, x);
        if r2.members().contains(x) && !r2.psubs.contains(x) {
            let h = choose|h: int| 0 <= h < r2.qsubs.len() && (#[trigger] r2.qsubs[h]).contains(x);
            if h == g {
                let a = choose|a: int| 0 <= a < group.len() && group[a] == x;
                let a1 = if a < j {
                    a
                } else {
                    a + 1
                };
                assert(old_group[a1] == x);
                assert(r.qsubs[g].contains(x));
            } else {
                assert(r.qsubs[h].contains(x));
            }
        }
        if r.members().contains(x) && !r.psubs.contains(x) && x != s {
            let h = choose|h: int| 0 <= h < r.qsubs.len() && (#[trigger] r.qsubs[h]).contains(x);
            if h == g {
                let a = choose|a: int| 0 <= a < old_group.len() && old_group[a] == x;
                let a2 = if a < j {
                    a
                } else {
                    a - 1
                };
                assert(group[a2] == x);
                assert(r2.qsubs[g].contains(x));
            } else {
                assert(r2.qsubs[h].contains(x));
            }
        }
        if x == s && r2.members().contains(x) {
            let h = choose|h: int| 0 <= h < r2.qsubs.len() && (#[trigger] r2.qsubs[h]).contains(x);
            if h != g {
                assert(r.qsubs[h].contains(x));
                assert(r.qsubs[h][0].queue == s.queue);
                if h < g {
                    assert(r.qsubs[h][0].queue != r.qsubs[g][0].queue);
                } else {
                    assert(r.qsubs[g][0].queue != r.qsubs[h][0].queue);
                }
            }
        }
    }
    assert(r2.members() =~= r.members().remove(s));
}

/// The only member of a group leaves, and the group with it.
pub proof fn lemma_remove_group(r: SubResultView, g: int)
    requires
        r.wf(),
        0 <= g < r.qsubs.len(),
        r.qsubs[g].len() == 1,
    ensures
        (SubResultView { psubs: r.psubs, qsubs: r.qsubs.remove(g) }).wf(),
        (SubResultView { psubs: r.psubs, qsubs: r.qsubs.remove(g) }).members()
            == r.members().remove(r.qsubs[g][0]),
{
    let s = r.qsubs[g][0];
    let r2 = SubResultView { psubs: r.psubs, qsubs: r.qsubs.remove(g) };
    lemma_group_of(r, s);
    assert(r.qsubs[g].contains(s));
    assert forall|h: int| 0 <= h < r2.qsubs.len() implies {
        &&& (#[trigger] r2.qsubs[h]).len() > 0
        &&& r2.qsubs[h].no_duplicates()
        &&& r2.qsubs[h][0].queue is Some
        &&& r2.qsubs[h][0].queue != s.queue
        &&& forall|k: int|
            0 <= k < r2.qsubs[h].len() ==> (#[trigger] r2.qsubs[h][k]).queue
                == r2.qsubs[h][0].queue
    } by {
        let h1 = if h < g {
            h
        } else {
            h + 1
        };
        assert(r2.qsubs[h] == r.qsubs[h1]);
        assert(r.qsubs[h1].len() > 0);
        if h1 < g {
            assert(r.qsubs[h1][0].queue != r.qsubs[g][0].queue);
        } else {
            assert(r.qsubs[g][0].queue != r.qsubs[h1][0].queue);
        }
    }
    assert forall|a: int, b: int| 0 <= a < b < r2.qsubs.len() implies (
    #[trigger] r2.qsubs[a])[0].queue != (#[trigger] r2.qsubs[b])[0].queue by {
        let a1 = if a < g {
            a
        } else {
            a + 1
        };
        let b1 = if b < g {
            b
        } else {
            b + 1
        };
        assert(r2.qsubs[a] == r.qsubs[a1] && r2.qsubs[b] == r.qsubs[b1]);
        assert(r.qsubs[a1][0].queue != r.qsubs[b1][0].queue);
    }
    assert forall|x: SubscriptionView| r2.members().contains(x) <==> r.members().remove(
        s,
    ).contains(x) by {
        lemma_group_of(r, x);
        if r2.members().contains(x) && !r2.psubs.contains(x) {
            let h = choose|h: int| 0 <= h < r2.qsubs.len() && (#[trigger] r2.qsubs[h]).contains(x);
            let h1 = if h < g {
                h
            } else {
                h + 1
            };
            assert(r2.qsubs[h] == r.qsubs[h1]);
            assert(r.qsubs[h1].contains(x));
            assert(x.queue == r.qsubs[h1][0].queue);
        }
        if r.members().contains(x) && !r.psubs.contains(x) && x != s {
            let h = choose|h: int| 0 <= h < r.qsubs.len() && (#[trigger] r.qsubs[h]).contains(x);
            if h == g {
                let a = choose|a: int| 0 <= a < r.qsubs[g].len() && r.qsubs[g][a] == x;
                assert(false);
            } else {
                let h2 = if h < g {
                    h
                } else {
                    h - 1
                };
                assert(r2.qsubs[h2] == r.qsubs[h]);
                assert(r2.qsubs[h2].contains(x));
            }
        }
    }
    assert(r2.members() =~= r.members().remove(s));
}

/// Pushing a subscription onto a sequence pushes its value onto the values.
pub proof fn lemma_sub_views_push(v: Seq<ArcSubscription>, sub: ArcSubscription)
    ensures
        sub_views(v.push(sub)) == sub_views(v).push(sub@),
{
    assert(sub_views(v.push(sub)) =~= sub_views(v).push(sub@));
}

/// Taking a subscription out of a sequence takes its value out of the
/// values.
pub proof fn lemma_sub_views_remove(v: Seq<ArcSubscription>, i: int)
    requires
        0 <= i < v.len(),
    ensures
        sub_views(v.remove(i)) == sub_views(v).remove(i),
{
    assert(sub_views(v.remove(i)) =~= sub_views(v).remove(i));
}

impl SubResult {
    /// Adds `sub` to the result: to the direct subscribers if it has no
    /// queue, else to the group of its queue, which is opened if need be.
    /// A subscription that is in the result already is not added again.
    pub fn add(&mut self, sub: ArcSubscription) -> (added: bool)
        requires
            old(self)@.wf(),
        ensures
            final(self)@.wf(),
            final(self)@ == old(self)@.added(sub@),
            final(self)@.members() == old(self)@.members().insert(sub@),
            added == !old(self)@.members().contains(sub@),
    {
        if self.contains(&sub) {
            assert(self@.members().insert(sub@) =~= self@.members());
            return false;
        }
        let place: Option<Option<usize>> = match &sub.queue {
            None => None,
            Some(q) => Some(self.find_group(q.as_slice())),
        };
        proof {
            lemma_group_of(self@, sub@);
        }
        let ghost before = self@;
        let ghost old_groups = self.qsubs@;
        match place {
            None => {
                proof {
                    lemma_sub_views_push(self.psubs@, sub);
                    lemma_add_direct(before, sub@);
                }
                self.psubs.push(sub);
            },
            Some(Some(g)) => {
                proof {
                    lemma_sub_views_push(self.qsubs@[g as int]@, sub);
                    lemma_add_to_group(before, g as int, sub@);
                    lemma_one_group(before, g as int);
                }
                self.qsubs[g].push(sub);
                assert(group_views(self.qsubs@) =~= before.qsubs.update(
                    g as int,
                    before.qsubs[g as int].push(sub@),
                )) by {
                    assert forall|h: int| 0 <= h < self.qsubs@.len() implies group_views(
                        self.qsubs@,
                    )[h] == before.qsubs.update(g as int, before.qsubs[g as int].push(sub@))[h] by {
                        if h != g {
                            assert(self.qsubs@[h] == old_groups[h]);
                        }
                    }
                }
            },
            Some(None) => {
                proof {
                    lemma_add_group(before, sub@);
                }
                let mut group: Vec<ArcSubscription> = Vec::new();
                group.push(sub);
                assert(sub_views(group@) =~= seq![sub@]);
                self.qsubs.push(group);
                assert(group_views(self.qsubs@) =~= before.qsubs.push(seq![sub@])) by {
                    assert forall|h: int| 0 <= h < self.qsubs@.len() implies group_views(
                        self.qsubs@,
                    )[h] == before.qsubs.push(seq![sub@])[h] by {
                        if h < old_groups.len() {
                            assert(self.qsubs@[h] == old_groups[h]);
                        }
                    }
                }
            },
        }
        true
    }

    /// Takes `sub` out of the result. A group that loses its last member
    /// goes with it.
    pub fn remove(&mut self, sub: &Subscription) -> (removed: bool)
        requires
            old(self)@.wf(),
        ensures
            final(self)@.wf(),
            final(self)@ == old(self)@.removed(sub@),
            final(self)@.members() == old(self)@.members().remove(sub@),
            removed == old(self)@.members().contains(sub@),
    {
        let ghost before = self@;
        let ghost old_groups = self.qsubs@;
        proof {
            lemma_group_of(before, sub@);
        }
        match &sub.queue {
            None => {
                match position(&self.psubs, sub) {
                    Some(i) => {
                        proof {
                            lemma_sub_views_remove(self.psubs@, i as int);
                            lemma_remove_direct(before, i as int);
                            assert(before.psubs[i as int] == sub@);
                            assert(before.psubs.contains(sub@));
                        }
                        let _gone = self.psubs.remove(i);
                        true
                    },
                    None => {
                        assert(before.members().remove(sub@) =~= before.members());
                        false
                    },
                }
            },
            Some(q) => {
                let found = match self.find_group(q.as_slice()) {
                    Some(g) => {
                        assert(sub_views(self.qsubs@[g as int]@) == before.qsubs[g as int]);
                        match position(&self.qsubs[g], sub) {
                            Some(j) => Some((g, j)),
                            None => None,
                        }
                    },
                    None => None,
                };
                match found {
                    Some((g, j)) => {
                        assert(before.qsubs[g as int][j as int] == sub@);
                        assert(before.qsubs[g as int].contains(sub@));
                        proof {
                            lemma_one_group(before, g as int);
                        }
                        if self.qsubs[g].len() == 1 {
                            proof {
                                lemma_remove_group(before, g as int);
                            }
                            let _gone = self.qsubs.remove(g);
                            assert(group_views(self.qsubs@) =~= before.qsubs.remove(g as int)) by {
                                assert forall|h: int|
                                    0 <= h < self.qsubs@.len() implies group_views(self.qsubs@)[h]
                                    == before.qsubs.remove(g as int)[h] by {
                                    if h < g {
                                        assert(self.qsubs@[h] == old_groups[h]);
                                    } else {
                                        assert(self.qsubs@[h] == old_groups[h + 1]);
                                    }
                                }
                            }
                        } else {
                            proof {
                                lemma_sub_views_remove(self.qsubs@[g as int]@, j as int);
                                lemma_remove_from_group(before, g as int, j as int);
                            }
                            let _gone = self.qsubs[g].remove(j);
                            assert(group_views(self.qsubs@) =~= before.qsubs.update(
                                g as int,
                                before.qsubs[g as int].remove(j as int),
                            )) by {
                                assert forall|h: int|
                                    0 <= h < self.qsubs@.len() implies group_views(self.qsubs@)[h]
                                    == before.qsubs.update(
                                    g as int,
                                    before.qsubs[g as int].remove(j as int),
                                )[h] by {
                                    if h != g {
                                        assert(self.qsubs@[h] == old_groups[h]);
                                    }
                                }
                            }
                        }
                        true
                    },
                    None => {
                        assert(!before.members().contains(sub@));
                        assert(before.members().remove(sub@) =~= before.members());
                        false
                    },
                }
            },
        }
    }
}

/// The subscriptions among `subs` that a message on the subject `literal`
/// goes to, where `matches` says whether a literal subject is matched by a
/// pattern.
pub open spec fn matching(
    subs: Set<SubscriptionView>,
    literal: Seq<u8>,
    matches: spec_fn(Seq<u8>, Seq<u8>) -> bool,
) -> Set<SubscriptionView> {
    Set::new(|s: SubscriptionView| subs.contains(s) && matches(literal, s.subject))
}

/// What a subscription index offers: it holds a set of subscriptions, takes
/// new ones, gives them up again, and finds those that a subject goes to.
pub trait SubListTrait {
    /// The subscriptions that the index holds.
    spec fn subs(&self) -> Set<SubscriptionView>;

    /// What holds of the index between calls.
    spec fn wf(&self) -> bool;

    /// Whether the index takes subscriptions to `subject`.
    spec fn takes(subject: Seq<u8>) -> bool;

    /// Whether a message on the subject `literal` goes to the subscribers
    /// of `pattern`.
    spec fn matches(literal: Seq<u8>, pattern: Seq<u8>) -> bool;

    /// Puts `sub` into the index. A subject that the index does not take
    /// is an error and changes nothing.
    fn insert(&mut self, sub: ArcSubscription) -> (r: Result<(), NError>)
        requires
            old(self).wf(),
        ensures
            final(self).wf(),
            match r {
                Ok(_) => Self::takes(sub@.subject) && final(self).subs() == old(self).subs().insert(
                    sub@,
                ),
                Err(e) => !Self::takes(sub@.subject) && e.err_code == ERROR_INVALID_SUBJECT
                    && final(self).subs() == old(self).subs(),
            },
    ;

    /// Takes `sub` out of the index. A subject that the index does not
    /// take, or a subscription that it does not hold, is an error and
    /// changes nothing.
    fn remove(&mut self, sub: ArcSubscription) -> (r: Result<(), NError>)
        requires
            old(self).wf(),
        ensures
            final(self).wf(),
            match r {
                Ok(_) => Self::takes(sub@.subject) && old(self).subs().contains(sub@) && final(self).subs() == old(self).subs().remove(sub@),
                Err(e) => final(self).subs() == old(self).subs() && if !Self::takes(
                    sub@.subject,
                ) {
                    e.err_code == ERROR_INVALID_SUBJECT
                } else {
                    !old(self).subs().contains(sub@) && e.err_code == ERROR_SUBSCRIBTION_NOT_FOUND
                },
            },
    ;

    /// The subscribers that a message on `subject` goes to: just those
    /// held subscriptions whose pattern the subject matches.
    fn match_subject(&mut self, subject: &[u8]) -> (r: ArcSubResult)
        requires
            old(self).wf(),
            crate::subject::valid_literal_subject(subject@),
        ensures
            final(self).wf(),
            final(self).subs() == old(self).subs(),
            r@.wf(),
            r@.members() == matching(
                old(self).subs(),
                subject@,
                |l: Seq<u8>, p: Seq<u8>| Self::matches(l, p),
            ),
    ;
}

/// The plainest index: a list of the subscriptions. It knows no wildcards:
/// a message goes to the subscribers of just its own subject.
#[derive(Debug)]
pub struct SimpleSubList {
    subs: Vec<ArcSubscription>,
}

impl SimpleSubList {
    /// An index without subscriptions.
    pub fn new() -> (list: Self)
        ensures
            list.wf(),
            list.subs() == Set::<SubscriptionView>::empty(),
    {
        let list = SimpleSubList { subs: Vec::new() };
        assert(list.subs() =~= Set::<SubscriptionView>::empty());
        list
    }
}

impl SubListTrait for SimpleSubList {
    closed spec fn subs(&self) -> Set<SubscriptionView> {
        sub_views(self.subs@).to_set()
    }

    closed spec fn wf(&self) -> bool {
        sub_views(self.subs@).no_duplicates()
    }

    open spec fn takes(subject: Seq<u8>) -> bool {
        true
    }

    open spec fn matches(literal: Seq<u8>, pattern: Seq<u8>) -> bool {
        literal == pattern
    }

    fn insert(&mut self, sub: ArcSubscription) -> (r: Result<(), NError>) {
        let ghost before = sub_views(self.subs@);
        match position(&self.subs, &sub) {
            Some(i) => {
                assert(before[i as int] == sub@);
                assert(before.to_set().insert(sub@) =~= before.to_set());
            },
            None => {
                proof {
                    lemma_sub_views_push(self.subs@, sub);
                }
                self.subs.push(sub);
                proof {
                    let after = before.push(sub@);
                    assert forall|i: int, j: int|
                        0 <= i < after.len() && 0 <= j < after.len() && i != j implies after[i]
                        != after[j] by {
                        if i < before.len() && j < before.len() {
                            assert(before[i] != before[j]);
                        } else if i < before.len() {
                            assert(before.contains(before[i]));
                        } else {
                            assert(before.contains(before[j]));
                        }
                    }
                    assert forall|x: SubscriptionView| after.to_set().contains(x)
                        <==> before.to_set().insert(sub@).contains(x) by {
                        if after.contains(x) {
                            let i = choose|i: int| 0 <= i < after.len() && after[i] == x;
                            if i < before.len() {
                                assert(before[i] == x);
                            }
                        }
                        if before.contains(x) {
                            let i = choose|i: int| 0 <= i < before.len() && before[i] == x;
                            assert(after[i] == x);
                        }
                        if x == sub@ {
                            assert(after[before.len() as int] == x);
                        }
                    }
                    assert(after.to_set() =~= before.to_set().insert(sub@));
                }
            },
        }
        Ok(())
    }

    fn remove(&mut self, sub: ArcSubscription) -> (r: Result<(), NError>) {
        let ghost before = sub_views(self.subs@);
        match position(&self.subs, &sub) {
            Some(i) => {
                proof {
                    lemma_sub_views_remove(self.subs@, i as int);
                }
                let _gone = self.subs.remove(i);
                proof {
                    let after = before.remove(i as int);
                    assert(before[i as int] == sub@);
                    assert(before.contains(sub@));
                    assert forall|a: int, b: int|
                        0 <= a < after.len() && 0 <= b < after.len() && a != b implies after[a]
                        != after[b] by {
                        let a1 = if a < i {
                            a
                        } else {
                            a + 1
                        };
                        let b1 = if b < i {
                            b
                        } else {
                            b + 1
                        };
                        assert(after[a] == before[a1] && after[b] == before[b1]);
                    }
                    assert forall|x: SubscriptionView| after.to_set().contains(x)
                        <==> before.to_set().remove(sub@).contains(x) by {
                        if after.contains(x) {
                            let a = choose|a: int| 0 <= a < after.len() && after[a] == x;
                            let a1 = if a < i {
                                a
                            } else {
                                a + 1
                            };
                            assert(before[a1] == x);
                        }
                        if before.contains(x) && x != sub@ {
                            let a = choose|a: int| 0 <= a < before.len() && before[a] == x;
                            let a2 = if a < i {
                                a
                            } else {
                                a - 1
                            };
                            assert(after[a2] == x);
                        }
                    }
                    assert(after.to_set() =~= before.to_set().remove(sub@));
                }
                Ok(())
            },
            None => Err(NError::new(ERROR_SUBSCRIBTION_NOT_FOUND)),
        }
    }

    fn match_subject(&mut self, subject: &[u8]) -> (r: ArcSubResult) {
        let ghost all = sub_views(self.subs@);
        let ghost matches = |l: Seq<u8>, p: Seq<u8>| Self::matches(l, p);
        let mut r = SubResult::new();
        let mut i: usize = 0;
        while i < self.subs.len()
            invariant
                i <= self.subs@.len(),
                all == sub_views(self.subs@),
                matches == |l: Seq<u8>, p: Seq<u8>| Self::matches(l, p),
                r@.wf(),
                r@.members() == matching(all.take(i as int).to_set(), subject@, matches),
            decreases self.subs@.len() - i,
        {
            let ghost seen = all.take(i as int);
            let ghost next = all.take(i + 1);
            assert(all[i as int] == self.subs@[i as int]@);
            assert(next =~= seen.push(all[i as int]));
            assert(next.to_set() =~= seen.to_set().insert(all[i as int])) by {
                assert forall|x: SubscriptionView| next.to_set().contains(x)
                    <==> seen.to_set().insert(all[i as int]).contains(x) by {
                    if next.contains(x) {
                        let a = choose|a: int| 0 <= a < next.len() && next[a] == x;
                        if a < seen.len() {
                            assert(seen[a] == x);
                        }
                    }
                    if seen.contains(x) {
                        let a = choose|a: int| 0 <= a < seen.len() && seen[a] == x;
                        assert(next[a] == x);
                    }
                    if x == all[i as int] {
                        assert(next[i as int] == x);
                    }
                }
            }
            if bytes_eq(self.subs[i].subject.as_slice(), subject) {
                r.add(arc_clone(&self.subs[i]));
                assert(r@.members() =~= matching(next.to_set(), subject@, matches));
            } else {
                assert(r@.members() =~= matching(next.to_set(), subject@, matches));
            }
            i += 1;
        }
        assert(all.take(i as int) =~= all);
        Arc::new(r)
    }
}

impl SubResult {
    /// Adds every subscription of `other` to the result.
    pub fn add_all(&mut self, other: &SubResult)
        requires
            old(self)@.wf(),
            other@.wf(),
        ensures
            final(self)@.wf(),
            final(self)@.members() == old(self)@.members().union(other@.members()),
    {
        let ghost start = self@.members();
        let mut i: usize = 0;
        while i < other.psubs.len()
            invariant
                i <= other.psubs@.len(),
                self@.wf(),
                self@.members() == start.union(other@.psubs.take(i as int).to_set()),
            decreases other.psubs@.len() - i,
        {
            let ghost seen = other@.psubs.take(i as int);
            self.add(arc_clone(&other.psubs[i]));
            proof {
                let next = other@.psubs.take(i + 1);
                assert(next =~= seen.push(other@.psubs[i as int]));
                lemma_push_to_set(seen, other@.psubs[i as int]);
                assert(self@.members() =~= start.union(next.to_set()));
            }
            i += 1;
        }
        assert(other@.psubs.take(i as int) =~= other@.psubs);
        let ghost direct = start.union(other@.psubs.to_set());
        let mut g: usize = 0;
        while g < other.qsubs.len()
            invariant
                g <= other.qsubs@.len(),
                self@.wf(),
                other@.wf(),
                direct == start.union(other@.psubs.to_set()),
                self@.members() == direct.union(groups_set(other@.qsubs.take(g as int))),
            decreases other.qsubs@.len() - g,
        {
            let ghost done = groups_set(other@.qsubs.take(g as int));
            let mut j: usize = 0;
            assert(other@.qsubs[g as int] == sub_views(other.qsubs@[g as int]@));
            while j < other.qsubs[g].len()
                invariant
                    g < other.qsubs@.len(),
                    j <= other.qsubs@[g as int]@.len(),
                    self@.wf(),
                    other@.qsubs[g as int] == sub_views(other.qsubs@[g as int]@),
                    self@.members() == direct.union(done).union(
                        other@.qsubs[g as int].take(j as int).to_set(),
                    ),
                decreases other.qsubs@[g as int]@.len() - j,
            {
                let ghost group = other@.qsubs[g as int];
                let ghost seen = group.take(j as int);
                self.add(arc_clone(&other.qsubs[g][j]));
                proof {
                    let next = group.take(j + 1);
                    assert(next =~= seen.push(group[j as int]));
                    lemma_push_to_set(seen, group[j as int]);
                    assert(self@.members() =~= direct.union(done).union(next.to_set()));
                }
                j += 1;
            }
            proof {
                let group = other@.qsubs[g as int];
                assert(group.take(j as int) =~= group);
                let upto = other@.qsubs.take(g as int);
                let next = other@.qsubs.take(g + 1);
                assert(next =~= upto.push(group));
                assert forall|x: SubscriptionView| groups_set(next).contains(x) <==> groups_set(
                    upto,
                ).union(group.to_set()).contains(x) by {
                    if groups_set(next).contains(x) {
                        let h = choose|h: int|
                            0 <= h < next.len() && (#[trigger] next[h]).contains(x);
                        if h < g {
                            assert(upto[h].contains(x));
                        }
                    }
                    if groups_set(upto).contains(x) {
                        let h = choose|h: int|
                            0 <= h < upto.len() && (#[trigger] upto[h]).contains(x);
                        assert(next[h].contains(x));
                    }
                    if group.contains(x) {
                        assert(next[g as int].contains(x));
                    }
                }
                assert(self@.members() =~= direct.union(groups_set(next)));
            }
            g += 1;
        }
        proof {
            assert(other@.qsubs.take(g as int) =~= other@.qsubs);
            assert(self@.members() =~= start.union(other@.members()));
        }
    }
}

/// The subscriptions in the groups `groups`.
pub open spec fn groups_set(groups: Seq<Seq<SubscriptionView>>) -> Set<SubscriptionView> {
    Set::new(
        |s: SubscriptionView|
            exists|g: int| 0 <= g < groups.len() && (#[trigger] groups[g]).contains(s),
    )
}

/// The set of a sequence with one more element has that element more.
pub proof fn lemma_push_to_set(v: Seq<SubscriptionView>, s: SubscriptionView)
    ensures
        v.push(s).to_set() == v.to_set().insert(s),
{
    let w = v.push(s);
    assert forall|x: SubscriptionView| w.to_set().contains(x) <==> v.to_set().insert(s).contains(
        x,
    ) by {
        if w.contains(x) {
            let i = choose|i: int| 0 <= i < w.len() && w[i] == x;
            if i < v.len() {
                assert(v[i] == x);
            }
        }
        if v.contains(x) {
            let i = choose|i: int| 0 <= i < v.len() && v[i] == x;
            assert(w[i] == x);
        }
        if x == s {
            assert(w[v.len() as int] == x);
        }
    }
    assert(w.to_set() =~= v.to_set().insert(s));
}

/// A result in order has no subscription just when it has no direct
/// subscriber and no group.
pub proof fn lemma_members_empty(r: SubResultView)
    requires
        r.wf(),
    ensures
        (r.psubs.len() == 0 && r.qsubs.len() == 0) <==> r.members() == Set::<
            SubscriptionView,
        >::empty(),
{
    if r.psubs.len() > 0 {
        assert(r.psubs.contains(r.psubs[0]));
        assert(r.members().contains(r.psubs[0]));
    } else if r.qsubs.len() > 0 {
        assert(r.qsubs[0].contains(r.qsubs[0][0]));
        assert(r.members().contains(r.qsubs[0][0]));
    } else {
        assert(r.members() =~= Set::<SubscriptionView>::empty());
    }
}

/// A new subscription shows in the answers that it belongs in, and only
/// there. Once `s` is put in, the subscribers of a subject that goes to `s`
/// are those from before and `s`; the subscribers of any other subject are
/// those from before.
pub proof fn lemma_insert_shows(
    subs: Set<SubscriptionView>,
    s: SubscriptionView,
    literal: Seq<u8>,
    matches: spec_fn(Seq<u8>, Seq<u8>) -> bool,
)
    ensures
        matches(literal, s.subject) ==> matching(subs.insert(s), literal, matches) == matching(
            subs,
            literal,
            matches,
        ).insert(s),
        !matches(literal, s.subject) ==> matching(subs.insert(s), literal, matches) == matching(
            subs,
            literal,
            matches,
        ),
{
    if matches(literal, s.subject) {
        assert(matching(subs.insert(s), literal, matches) =~= matching(subs, literal, matches).insert(
            s,
        ));
    } else {
        assert(matching(subs.insert(s), literal, matches) =~= matching(subs, literal, matches));
    }
}

/// A subscription that was taken out shows in no answer any more, and the
/// other subscribers stay: the subscribers of a subject are those from
/// before without `s`.
pub proof fn lemma_remove_hides(
    subs: Set<SubscriptionView>,
    s: SubscriptionView,
    literal: Seq<u8>,
    matches: spec_fn(Seq<u8>, Seq<u8>) -> bool,
)
    ensures
        matching(subs.remove(s), literal, matches) == matching(subs, literal, matches).remove(s),
        !matching(subs.remove(s), literal, matches).contains(s),
{
    assert(matching(subs.remove(s), literal, matches) =~= matching(subs, literal, matches).remove(
        s,
    ));
}

/// Putting a subscription in and taking it out again leaves the answers as
/// they were, if it was not there before.
pub proof fn lemma_insert_remove(
    subs: Set<SubscriptionView>,
    s: SubscriptionView,
    literal: Seq<u8>,
    matches: spec_fn(Seq<u8>, Seq<u8>) -> bool,
)
    requires
        !subs.contains(s),
    ensures
        subs.insert(s).remove(s) == subs,
        matching(subs.insert(s).remove(s), literal, matches) == matching(subs, literal, matches),
{
    assert(subs.insert(s).remove(s) =~= subs);
}

/// When a connection ends and its subscriptions are taken out of the
/// index, none of them is a subscriber of any subject any more, and the
/// subscriptions of the other connections are subscribers as before.
pub proof fn lemma_teardown(
    subs: Set<SubscriptionView>,
    owned: Seq<SubscriptionView>,
    literal: Seq<u8>,
    matches: spec_fn(Seq<u8>, Seq<u8>) -> bool,
)
    ensures
        forall|s: SubscriptionView|
            owned.contains(s) ==> !(#[trigger] matching(
                subs.difference(owned.to_set()),
                literal,
                matches,
            ).contains(s)),
        forall|s: SubscriptionView|
            !owned.contains(s) ==> (#[trigger] matching(
                subs.difference(owned.to_set()),
                literal,
                matches,
            ).contains(s) <==> matching(subs, literal, matches).contains(s)),
        subs.subset_of(owned.to_set()) ==> matching(
            subs.difference(owned.to_set()),
            literal,
            matches,
        ) == Set::<SubscriptionView>::empty(),
{
    if subs.subset_of(owned.to_set()) {
        assert(matching(subs.difference(owned.to_set()), literal, matches) =~= Set::<
            SubscriptionView,
        >::empty());
    }
}

} // verus!
