//! The cache in front of the trie: for the subjects that were matched last,
//! the subscribers that were found.
//!
//! The cache is a least-recently-used cache of the crate `lru_cache`. What
//! this module takes on trust of that crate is said in the contracts of the
//! functions named `lru_*`; the rest is proved from them.

use crate::server::simple_sublist::{
    arc_clone, ArcSubResult, ArcSubscription, SubResultView, SubscriptionView,
};
use crate::server::sublist::matched;
use crate::subject::{match_literal, subject_matches, tokens};
use lru_cache::LruCache;
use std::hash::{BuildHasher, Hash};
use std::sync::Arc;
use vstd::prelude::*;

verus! {

/// `lru_cache::LruCache`: a map that holds a limited number of entries and,
/// when it is full, gives up the entry that was used least recently.
#[verifier::external_type_specification]
#[verifier::external_body]
#[verifier::reject_recursive_types(K)]
#[verifier::reject_recursive_types(V)]
#[verifier::reject_recursive_types(S)]
pub struct ExLruCache<K: Eq + Hash, V, S: BuildHasher>(LruCache<K, V, S>);

/// An entry of the cache: a subject and the result that is kept for it.
pub type Entry = (Seq<u8>, ArcSubResult);

/// The entries of a cache, from the one that was used least recently to the
/// one that was used last.
pub uninterp spec fn cache_entries(cache: LruCache<Vec<u8>, ArcSubResult>) -> Seq<Entry>;

/// The number of entries that a cache was made to hold.
pub uninterp spec fn cache_capacity(cache: LruCache<Vec<u8>, ArcSubResult>) -> nat;

/// The entries without those of the subject `key`, in their order.
pub open spec fn lru_without(entries: Seq<Entry>, key: Seq<u8>) -> Seq<Entry>
    decreases entries.len(),
{
    if entries.len() == 0 {
        entries
    } else if entries.last().0 == key {
        lru_without(entries.drop_last(), key)
    } else {
        lru_without(entries.drop_last(), key).push(entries.last())
    }
}

/// The result that the entries keep for the subject `key`.
pub open spec fn lru_find(entries: Seq<Entry>, key: Seq<u8>) -> Option<ArcSubResult>
    decreases entries.len(),
{
    if entries.len() == 0 {
        None
    } else if entries.last().0 == key {
        Some(entries.last().1)
    } else {
        lru_find(entries.drop_last(), key)
    }
}

/// The entries after a look-up of `key`: an entry that was found is now the
/// one used last.
pub open spec fn lru_touched(entries: Seq<Entry>, key: Seq<u8>) -> Seq<Entry> {
    match lru_find(entries, key) {
        Some(value) => lru_without(entries, key).push((key, value)),
        None => entries,
    }
}

/// The entries after `value` was put in for `key`: the entry is the one
/// used last, an older entry for `key` is gone, and where that is more than
/// `capacity` entries the one used least recently is gone.
pub open spec fn lru_inserted(
    entries: Seq<Entry>,
    key: Seq<u8>,
    value: ArcSubResult,
    capacity: nat,
) -> Seq<Entry> {
    let all = lru_without(entries, key).push((key, value));
    if all.len() > capacity {
        all.drop_first()
    } else {
        all
    }
}

/// What a cache keeps: for each subject the result, from the entry that was
/// used least recently to the one that was used last.
pub type Kept = Seq<(Seq<u8>, SubResultView)>;

/// The entries of a cache with their results as mathematical values.
pub open spec fn entry_views(entries: Seq<Entry>) -> Kept {
    Seq::new(entries.len(), |i: int| (entries[i].0, entries[i].1@))
}

/// What is kept without the result for `subject`.
pub open spec fn kept_without(kept: Kept, subject: Seq<u8>) -> Kept
    decreases kept.len(),
{
    if kept.len() == 0 {
        kept
    } else if kept.last().0 == subject {
        kept_without(kept.drop_last(), subject)
    } else {
        kept_without(kept.drop_last(), subject).push(kept.last())
    }
}

/// The result that is kept for `subject`.
pub open spec fn kept_find(kept: Kept, subject: Seq<u8>) -> Option<SubResultView>
    decreases kept.len(),
{
    if kept.len() == 0 {
        None
    } else if kept.last().0 == subject {
        Some(kept.last().1)
    } else {
        kept_find(kept.drop_last(), subject)
    }
}

/// What is kept once `result` is kept for `subject` in a cache that holds
/// up to `capacity` results: the result is the one used last, an older one
/// for the subject is gone, and where that is more than the cache holds
/// the one used least recently is gone.
pub open spec fn kept_put(kept: Kept, subject: Seq<u8>, result: SubResultView, capacity: nat) -> Kept {
    let all = kept_without(kept, subject).push((subject, result));
    if all.len() > capacity {
        all.drop_first()
    } else {
        all
    }
}

/// What a change of the subscription `s` asks of the results that are
/// kept, in their order: each result of a subject that goes to `s` is to be
/// kept anew, with `s` in it if `s` was put into the index and without it
/// if `s` was taken out; `None` stands for a result that is left without
/// subscribers and is to be given up.
pub open spec fn changes(kept: Kept, s: SubscriptionView, adding: bool) -> Seq<
    (Seq<u8>, Option<SubResultView>),
>
    decreases kept.len(),
{
    if kept.len() == 0 {
        Seq::empty()
    } else {
        let before = changes(kept.drop_last(), s, adding);
        let e = kept.last();
        if subject_matches(e.0, s.subject) {
            let r = if adding {
                e.1.added(s)
            } else {
                e.1.removed(s)
            };
            before.push(
                (
                    e.0,
                    if r.psubs.len() == 0 && r.qsubs.len() == 0 {
                        None
                    } else {
                        Some(r)
                    },
                ),
            )
        } else {
            before
        }
    }
}

/// What is kept after the changes `todo` were made, one after the other.
pub open spec fn applied(
    kept: Kept,
    todo: Seq<(Seq<u8>, Option<SubResultView>)>,
    capacity: nat,
) -> Kept
    decreases todo.len(),
{
    if todo.len() == 0 {
        kept
    } else {
        let before = applied(kept, todo.drop_last(), capacity);
        match todo.last().1 {
            Some(r) => kept_put(before, todo.last().0, r, capacity),
            None => kept_without(before, todo.last().0),
        }
    }
}

/// What is kept after the subscription `s` was put into the index, or
/// taken out of it.
pub open spec fn after_change(kept: Kept, s: SubscriptionView, adding: bool, capacity: nat) -> Kept {
    applied(kept, changes(kept, s, adding), capacity)
}

/// Taking a subject out of the entries takes it out of what is kept, and a
/// result is found among the entries just when it is found in what is
/// kept.
pub proof fn lemma_views(entries: Seq<Entry>, key: Seq<u8>)
    ensures
        entry_views(lru_without(entries, key)) == kept_without(entry_views(entries), key),
        match lru_find(entries, key) {
            Some(r) => kept_find(entry_views(entries), key) == Some(r@),
            None => kept_find(entry_views(entries), key) is None,
        },
    decreases entries.len(),
{
    let kept = entry_views(entries);
    if entries.len() > 0 {
        let front = entries.drop_last();
        lemma_views(front, key);
        assert(kept.drop_last() =~= entry_views(front));
        assert(kept.last() == (entries.last().0, entries.last().1@));
        if entries.last().0 == key {
        } else {
            assert(entry_views(lru_without(front, key).push(entries.last())) =~= entry_views(
                lru_without(front, key),
            ).push(kept.last()));
        }
    } else {
        assert(entry_views(lru_without(entries, key)) =~= kept_without(kept, key));
    }
}

/// `LruCache::new`: a cache without entries that holds up to `capacity`.
#[verifier::external_body]
fn lru_new(capacity: usize) -> (cache: LruCache<Vec<u8>, ArcSubResult>)
    ensures
        cache_entries(cache) == Seq::<Entry>::empty(),
        cache_capacity(cache) == capacity,
{
    LruCache::new(capacity)
}

/// `LruCache::len`: the number of entries.
#[verifier::external_body]
fn lru_len(cache: &LruCache<Vec<u8>, ArcSubResult>) -> (n: usize)
    ensures
        n == cache_entries(*cache).len(),
{
    cache.len()
}

/// `LruCache::get_mut`: the value kept for `key`, which thereby becomes the
/// entry used last. The value is handed out as another handle to it.
#[verifier::external_body]
fn lru_get(cache: &mut LruCache<Vec<u8>, ArcSubResult>, key: &[u8]) -> (found: Option<
    ArcSubResult,
>)
    ensures
        found == lru_find(cache_entries(*old(cache)), key@),
        cache_entries(*final(cache)) == lru_touched(cache_entries(*old(cache)), key@),
        cache_capacity(*final(cache)) == cache_capacity(*old(cache)),
{
    cache.get_mut(key).cloned()
}

/// `LruCache::insert`: puts `value` in for `key` as the entry used last, in
/// place of an older entry for `key`, and then, if the cache holds more
/// than its capacity, takes out the entry used least recently.
#[verifier::external_body]
fn lru_insert(cache: &mut LruCache<Vec<u8>, ArcSubResult>, key: Vec<u8>, value: ArcSubResult)
    ensures
        cache_entries(*final(cache)) == lru_inserted(
            cache_entries(*old(cache)),
            key@,
            value,
            cache_capacity(*old(cache)),
        ),
        cache_capacity(*final(cache)) == cache_capacity(*old(cache)),
{
    cache.insert(key, value);
}

/// `LruCache::remove`: takes out the entry for `key`, if there is one.
#[verifier::external_body]
fn lru_remove(cache: &mut LruCache<Vec<u8>, ArcSubResult>, key: &[u8])
    ensures
        cache_entries(*final(cache)) == lru_without(cache_entries(*old(cache)), key@),
        cache_capacity(*final(cache)) == cache_capacity(*old(cache)),
{
    cache.remove(key);
}

/// `LruCache::iter`: the entries from the one used least recently to the
/// one used last, each as a copy of the key and another handle to the
/// value. The walk does not count as a use.
#[verifier::external_body]
fn lru_entries(cache: &LruCache<Vec<u8>, ArcSubResult>) -> (all: Vec<(Vec<u8>, ArcSubResult)>)
    ensures
        all@.len() == cache_entries(*cache).len(),
        forall|k: int|
            0 <= k < all@.len() ==> (#[trigger] all@[k]).0@ == cache_entries(*cache)[k].0
                && all@[k].1 == cache_entries(*cache)[k].1,
{
    cache.iter().map(|(k, v)| (k.clone(), v.clone())).collect()
}

/// What is left without `key` was there before, under another subject.
pub proof fn lemma_without(entries: Seq<Entry>, key: Seq<u8>)
    ensures
        forall|k: int|
            0 <= k < lru_without(entries, key).len() ==> entries.contains(
                #[trigger] lru_without(entries, key)[k],
            ) && lru_without(entries, key)[k].0 != key,
    decreases entries.len(),
{
    let left = lru_without(entries, key);
    if entries.len() > 0 {
        let front = entries.drop_last();
        lemma_without(front, key);
        let rest = lru_without(front, key);
        assert forall|k: int| 0 <= k < left.len() implies entries.contains(#[trigger] left[k])
            && left[k].0 != key by {
            if k < rest.len() {
                assert(left[k] == rest[k]);
                assert(front.contains(rest[k]));
                let j = choose|j: int| 0 <= j < front.len() && front[j] == rest[k];
                assert(entries[j] == rest[k]);
            } else {
                assert(left[k] == entries.last());
                assert(entries[entries.len() - 1] == left[k]);
            }
        }
    }
}

/// Taking the entries of a subject out leaves no more entries, and fewer
/// where a result is found for the subject.
pub proof fn lemma_without_len(entries: Seq<Entry>, key: Seq<u8>)
    ensures
        lru_without(entries, key).len() <= entries.len(),
        lru_find(entries, key) is Some ==> lru_without(entries, key).len() < entries.len(),
    decreases entries.len(),
{
    if entries.len() > 0 {
        lemma_without_len(entries.drop_last(), key);
    }
}

/// A result that is found for `key` is in an entry for `key`.
pub proof fn lemma_find(entries: Seq<Entry>, key: Seq<u8>)
    ensures
        lru_find(entries, key) matches Some(value) ==> entries.contains((key, value)),
    decreases entries.len(),
{
    if entries.len() > 0 {
        if entries.last().0 == key {
            assert(entries[entries.len() - 1] == (key, entries.last().1));
        } else {
            let front = entries.drop_last();
            lemma_find(front, key);
            if lru_find(front, key) is Some {
                let e = (key, lru_find(front, key)->Some_0);
                let j = choose|j: int| 0 <= j < front.len() && front[j] == e;
                assert(entries[j] == e);
            }
        }
    }
}

/// Whether an entry keeps, for its subject, just the subscribers among
/// `subs` that the subject goes to.
pub open spec fn entry_agrees(e: Entry, subs: Set<SubscriptionView>) -> bool {
    e.1@.wf() && e.1@.members() == matched(subs, tokens(e.0))
}

/// Whether each entry agrees with `subs`, or else agrees with `before` and
/// is of a subject that is still in `pending`.
pub open spec fn entries_agree(
    entries: Seq<Entry>,
    subs: Set<SubscriptionView>,
    before: Set<SubscriptionView>,
    pending: Seq<Seq<u8>>,
) -> bool {
    forall|k: int|
        0 <= k < entries.len() ==> entry_agrees(#[trigger] entries[k], subs) || (entry_agrees(
            entries[k],
            before,
        ) && pending.contains(entries[k].0))
}

/// The results of the subjects that were matched last.
pub(crate) struct SubResultCache {
    cache: LruCache<Vec<u8>, ArcSubResult>,
}

/// What is to become of an entry whose subject a changed subscription
/// matches: the new result, or `None` where no subscriber is left.
struct Rebuilt {
    subject: Vec<u8>,
    result: Option<ArcSubResult>,
}

/// The changes that a list of rebuilt entries stands for.
spec fn rebuilt_views(rebuilt: Seq<Rebuilt>) -> Seq<(Seq<u8>, Option<SubResultView>)> {
    Seq::new(
        rebuilt.len(),
        |k: int|
            (
                rebuilt[k].subject@,
                match rebuilt[k].result {
                    Some(r) => Some(r@),
                    None => None,
                },
            ),
    )
}

/// The subjects of the entries that are still to be put back.
spec fn pending_from(rebuilt: Seq<Rebuilt>, from: int) -> Seq<Seq<u8>> {
    Seq::new((rebuilt.len() - from) as nat, |k: int| rebuilt[from + k].subject@)
}

impl SubResultCache {
    /// The entries of the cache.
    pub(crate) closed spec fn entries(&self) -> Seq<Entry> {
        cache_entries(self.cache)
    }

    /// Whether every entry keeps, for its subject, just the subscribers
    /// among `subs` that the subject goes to.
    pub(crate) open spec fn agrees(&self, subs: Set<SubscriptionView>) -> bool {
        entries_agree(self.entries(), subs, subs, Seq::empty())
    }

    /// What the cache keeps.
    pub(crate) closed spec fn kept(&self) -> Kept {
        entry_views(cache_entries(self.cache))
    }

    /// The number of entries that the cache holds at most.
    pub(crate) closed spec fn capacity(&self) -> nat {
        cache_capacity(self.cache)
    }

    /// Whether the cache holds no more entries than it was made for.
    pub(crate) open spec fn bounded(&self) -> bool {
        self.entries().len() <= self.capacity()
    }

    /// A cache without entries that holds up to `cache_size`.
    pub(crate) fn new(cache_size: usize) -> (c: Self)
        ensures
            c.entries().len() == 0,
            c.kept() == Seq::<(Seq<u8>, SubResultView)>::empty(),
            c.capacity() == cache_size,
            forall|subs: Set<SubscriptionView>| c.agrees(subs),
    {
        let c = SubResultCache { cache: lru_new(cache_size) };
        assert(c.kept() =~= Seq::<(Seq<u8>, SubResultView)>::empty());
        c
    }

    /// The number of entries.
    pub(crate) fn len(&self) -> (n: usize)
        ensures
            n == self.entries().len(),
            n == self.kept().len(),
    {
        lru_len(&self.cache)
    }

    /// The subjects that the cache keeps results for, from the one that was
    /// used least recently to the one that was used last.
    pub(crate) fn subjects(&self) -> (keys: Vec<Vec<u8>>)
        ensures
            keys@.len() == self.kept().len(),
            forall|k: int| 0 <= k < keys@.len() ==> (#[trigger] keys@[k])@ == self.kept()[k].0,
    {
        let all = lru_entries(&self.cache);
        let mut keys: Vec<Vec<u8>> = Vec::new();
        let ghost kept = self.kept();
        let mut i: usize = 0;
        while i < all.len()
            invariant
                i <= all@.len(),
                all@.len() == kept.len(),
                kept == self.kept(),
                forall|k: int| 0 <= k < all@.len() ==> (#[trigger] all@[k]).0@ == kept[k].0,
                keys@.len() == i,
                forall|k: int| 0 <= k < i ==> (#[trigger] keys@[k])@ == kept[k].0,
            decreases all@.len() - i,
        {
            keys.push(vstd::slice::slice_to_vec(all[i].0.as_slice()));
            i += 1;
        }
        keys
    }

    /// The result that is kept for `subject`, if there is one.
    pub(crate) fn get(&mut self, subject: &[u8], Ghost(subs): Ghost<Set<SubscriptionView>>) -> (found:
        Option<ArcSubResult>)
        requires
            old(self).agrees(subs),
        ensures
            final(self).agrees(subs),
            final(self).capacity() == old(self).capacity(),
            old(self).bounded() ==> final(self).bounded(),
            found matches Some(r) ==> r@.wf() && r@.members() == matched(subs, tokens(subject@)),
            match found {
                Some(r) => kept_find(old(self).kept(), subject@) == Some(r@),
                None => kept_find(old(self).kept(), subject@) is None,
            },
            old(self).bounded() ==> final(self).kept() == match found {
                Some(r) => kept_put(old(self).kept(), subject@, r@, old(self).capacity()),
                None => old(self).kept(),
            },
    {
        let ghost before = self.entries();
        let found = lru_get(&mut self.cache, subject);
        proof {
            lemma_views(before, subject@);
            if found is Some {
                let left = lru_without(before, subject@);
                assert(entry_views(left.push((subject@, found->Some_0))) =~= entry_views(left).push(
                    (subject@, found->Some_0@),
                ));
            }
            lemma_without_len(before, subject@);
            lemma_find(before, subject@);
            lemma_without(before, subject@);
            if found is Some {
                let e = (subject@, found->Some_0);
                let j = choose|j: int| 0 <= j < before.len() && before[j] == e;
                assert(entry_agrees(before[j], subs));
            }
            let after = self.entries();
            assert forall|k: int| 0 <= k < after.len() implies entry_agrees(
                #[trigger] after[k],
                subs,
            ) by {
                if found is Some {
                    let left = lru_without(before, subject@);
                    if k < left.len() {
                        assert(after[k] == left[k]);
                        let j = choose|j: int| 0 <= j < before.len() && before[j] == left[k];
                        assert(entry_agrees(before[j], subs));
                    }
                } else {
                    assert(entry_agrees(before[k], subs));
                }
            }
        }
        found
    }

    /// Keeps `result` for `subject`.
    pub(crate) fn insert_result(
        &mut self,
        subject: &[u8],
        result: ArcSubResult,
        Ghost(subs): Ghost<Set<SubscriptionView>>,
    )
        requires
            old(self).agrees(subs),
            result@.wf(),
            result@.members() == matched(subs, tokens(subject@)),
        ensures
            final(self).agrees(subs),
            final(self).capacity() == old(self).capacity(),
            old(self).bounded() ==> final(self).bounded(),
            final(self).kept() == kept_put(
                old(self).kept(),
                subject@,
                result@,
                old(self).capacity(),
            ),
    {
        self.put(
            vstd::slice::slice_to_vec(subject),
            Some(result),
            Ghost(subs),
            Ghost(subs),
            Ghost(Seq::empty()),
        );
    }

    /// Puts back one entry: with its new result, or not at all where the
    /// result is `None`.
    fn put(
        &mut self,
        subject: Vec<u8>,
        result: Option<ArcSubResult>,
        Ghost(subs): Ghost<Set<SubscriptionView>>,
        Ghost(before): Ghost<Set<SubscriptionView>>,
        Ghost(pending): Ghost<Seq<Seq<u8>>>,
    )
        requires
            entries_agree(old(self).entries(), subs, before, seq![subject@] + pending),
            result matches Some(r) ==> entry_agrees((subject@, r), subs),
        ensures
            entries_agree(final(self).entries(), subs, before, pending),
            final(self).capacity() == old(self).capacity(),
            old(self).bounded() ==> final(self).bounded(),
            final(self).kept() == match result {
                Some(r) => kept_put(old(self).kept(), subject@, r@, old(self).capacity()),
                None => kept_without(old(self).kept(), subject@),
            },
    {
        let ghost was = self.entries();
        let ghost key = subject@;
        proof {
            lemma_without(was, key);
            lemma_without_len(was, key);
            lemma_views(was, key);
            if result is Some {
                let left = lru_without(was, key);
                let all = left.push((key, result->Some_0));
                assert(entry_views(all) =~= entry_views(left).push((key, result->Some_0@)));
                assert(entry_views(all.drop_first()) =~= entry_views(all).drop_first());
            }
        }
        match result {
            Some(r) => {
                lru_insert(&mut self.cache, subject, r);
            },
            None => {
                lru_remove(&mut self.cache, subject.as_slice());
            },
        }
        proof {
            let now = self.entries();
            let left = lru_without(was, key);
            assert forall|k: int| 0 <= k < now.len() implies entry_agrees(#[trigger] now[k], subs)
                || (entry_agrees(now[k], before) && pending.contains(now[k].0)) by {
                let e = now[k];
                if result is Some && e == (key, result->Some_0) {
                } else {
                    // the entry was there before, under another subject
                    let a = if result is Some && left.push((key, result->Some_0)).len()
                        > cache_capacity(old(self).cache) {
                        k + 1
                    } else {
                        k
                    };
                    assert(a < left.len());
                    assert(e == left[a]);
                    let j = choose|j: int| 0 <= j < was.len() && was[j] == left[a];
                    assert(entry_agrees(was[j], subs) || (entry_agrees(was[j], before) && (seq![
                        key,
                    ] + pending).contains(was[j].0)));
                    if !entry_agrees(e, subs) {
                        let all = seq![key] + pending;
                        let m = choose|m: int| 0 <= m < all.len() && all[m] == e.0;
                        assert(m > 0);
                        assert(pending[m - 1] == e.0);
                    }
                }
            }
        }
    }

    /// Brings the cache up to date with a change of one subscription: `sub`
    /// was put into the index, or taken out of it. Each entry of a subject
    /// that goes to `sub` gets a new result with `sub` in it, or without
    /// it. An entry that is left without subscribers is given up.
    fn rebuild(
        &mut self,
        sub: &ArcSubscription,
        adding: bool,
        Ghost(subs): Ghost<Set<SubscriptionView>>,
    )
        requires
            old(self).agrees(subs),
        ensures
            final(self).agrees(
                if adding {
                    subs.insert(sub@)
                } else {
                    subs.remove(sub@)
                },
            ),
            final(self).capacity() == old(self).capacity(),
            old(self).bounded() ==> final(self).bounded(),
            final(self).kept() == after_change(
                old(self).kept(),
                sub@,
                adding,
                old(self).capacity(),
            ),
    {
        let ghost after = if adding {
            subs.insert(sub@)
        } else {
            subs.remove(sub@)
        };
        let ghost was = self.entries();
        let ghost kept0 = self.kept();
        assert(kept0.take(0) =~= Seq::<(Seq<u8>, SubResultView)>::empty());
        assert(rebuilt_views(Seq::<Rebuilt>::empty()) =~= changes(kept0.take(0), sub@, adding));
        let all = lru_entries(&self.cache);
        let mut rebuilt: Vec<Rebuilt> = Vec::new();
        let mut i: usize = 0;
        while i < all.len()
            invariant
                i <= all@.len(),
                all@.len() == was.len(),
                forall|k: int|
                    0 <= k < all@.len() ==> (#[trigger] all@[k]).0@ == was[k].0 && all@[k].1
                        == was[k].1,
                entries_agree(was, subs, subs, Seq::empty()),
                after == if adding {
                    subs.insert(sub@)
                } else {
                    subs.remove(sub@)
                },
                forall|j: int|
                    0 <= j < rebuilt@.len() ==> ((#[trigger] rebuilt@[j]).result matches Some(r)
                        ==> entry_agrees((rebuilt@[j].subject@, r), after)),
                forall|k: int|
                    0 <= k < i ==> entry_agrees(#[trigger] was[k], after) || pending_from(
                        rebuilt@,
                        0,
                    ).contains(was[k].0),
                kept0 == entry_views(was),
                rebuilt_views(rebuilt@) == changes(kept0.take(i as int), sub@, adding),
            decreases all@.len() - i,
        {
            let ghost e = was[i as int];
            let ghost done = rebuilt@;
            proof {
                let upto = kept0.take(i + 1);
                assert(upto.drop_last() =~= kept0.take(i as int));
                assert(upto.last() == (e.0, e.1@));
            }
            assert(all@[i as int].0@ == e.0 && all@[i as int].1 == e.1);
            assert(entry_agrees(e, subs));
            let hit = match_literal(all[i].0.as_slice(), sub.subject.as_slice());
            proof {
                assert(hit == subject_matches(e.0, sub@.subject));
                if !hit {
                    assert(matched(after, tokens(e.0)) =~= matched(subs, tokens(e.0)));
                }
            }
            if hit {
                let mut r = all[i].1.share();
                if adding {
                    r.add(arc_clone(sub));
                } else {
                    r.remove(sub);
                }
                assert(r@.members() =~= matched(after, tokens(e.0)));
                let ghost rv = r@;
                let result = if r.is_empty() {
                    None
                } else {
                    Some(Arc::new(r))
                };
                let entry = Rebuilt {
                    subject: vstd::slice::slice_to_vec(all[i].0.as_slice()),
                    result,
                };
                rebuilt.push(entry);
                proof {
                    assert(rebuilt_views(rebuilt@) =~= rebuilt_views(done).push(
                        (
                            e.0,
                            if rv.psubs.len() == 0 && rv.qsubs.len() == 0 {
                                None
                            } else {
                                Some(rv)
                            },
                        ),
                    ));
                    let n = done.len() as int;
                    assert(rebuilt@[n].subject@ == e.0);
                    assert(pending_from(rebuilt@, 0)[n] == e.0);
                    assert forall|k: int| 0 <= k < i implies entry_agrees(#[trigger] was[k], after)
                        || pending_from(rebuilt@, 0).contains(was[k].0) by {
                        if !entry_agrees(was[k], after) {
                            let m = choose|m: int|
                                0 <= m < pending_from(done, 0).len() && pending_from(done, 0)[m]
                                    == was[k].0;
                            assert(pending_from(rebuilt@, 0)[m] == was[k].0);
                        }
                    }
                }
            }
            i += 1;
        }
        assert(kept0.take(i as int) =~= kept0);
        let ghost todo = rebuilt_views(rebuilt@);
        assert(todo.take(0) =~= Seq::<(Seq<u8>, Option<SubResultView>)>::empty());
        let mut j: usize = 0;
        while j < rebuilt.len()
            invariant
                j <= rebuilt@.len(),
                self.capacity() == old(self).capacity(),
                old(self).bounded() ==> self.bounded(),
                todo == rebuilt_views(rebuilt@),
                self.kept() == applied(kept0, todo.take(j as int), old(self).capacity()),
                forall|a: int|
                    0 <= a < rebuilt@.len() ==> ((#[trigger] rebuilt@[a]).result matches Some(r)
                        ==> entry_agrees((rebuilt@[a].subject@, r), after)),
                entries_agree(self.entries(), after, subs, pending_from(rebuilt@, j as int)),
            decreases rebuilt@.len() - j,
        {
            let subject = vstd::slice::slice_to_vec(rebuilt[j].subject.as_slice());
            let result = match &rebuilt[j].result {
                Some(r) => Some(arc_clone(r)),
                None => None,
            };
            assert(pending_from(rebuilt@, j as int) =~= seq![subject@] + pending_from(
                rebuilt@,
                j + 1,
            ));
            proof {
                let upto = todo.take(j + 1);
                assert(upto.drop_last() =~= todo.take(j as int));
                assert(upto.last() == todo[j as int]);
            }
            self.put(subject, result, Ghost(after), Ghost(subs), Ghost(pending_from(rebuilt@, j + 1)));
            j += 1;
        }
        proof {
            assert(todo.take(j as int) =~= todo);
            let now = self.entries();
            assert(pending_from(rebuilt@, j as int).len() == 0);
            assert forall|k: int| 0 <= k < now.len() implies entry_agrees(#[trigger] now[k], after)
                || (entry_agrees(now[k], after) && Seq::<Seq<u8>>::empty().contains(now[k].0)) by {
                if !entry_agrees(now[k], after) {
                    assert(pending_from(rebuilt@, j as int).contains(now[k].0));
                }
            }
        }
    }

    /// Brings the cache up to date with `sub`, which was put into the index.
    pub(crate) fn insert(&mut self, sub: &ArcSubscription, Ghost(subs): Ghost<Set<SubscriptionView>>)
        requires
            old(self).agrees(subs),
        ensures
            final(self).agrees(subs.insert(sub@)),
            final(self).capacity() == old(self).capacity(),
            old(self).bounded() ==> final(self).bounded(),
            final(self).kept() == after_change(
                old(self).kept(),
                sub@,
                true,
                old(self).capacity(),
            ),
    {
        self.rebuild(sub, true, Ghost(subs));
    }

    /// Brings the cache up to date with `sub`, which was taken out of the
    /// index.
    pub(crate) fn remove(&mut self, sub: &ArcSubscription, Ghost(subs): Ghost<Set<SubscriptionView>>)
        requires
            old(self).agrees(subs),
        ensures
            final(self).agrees(subs.remove(sub@)),
            final(self).capacity() == old(self).capacity(),
            old(self).bounded() ==> final(self).bounded(),
            final(self).kept() == after_change(
                old(self).kept(),
                sub@,
                false,
                old(self).capacity(),
            ),
    {
        self.rebuild(sub, false, Ghost(subs));
    }
}

} // verus!
