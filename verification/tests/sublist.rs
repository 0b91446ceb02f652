use simple_nats::server::simple_sublist::{
    ArcSubscription, SimpleSubList, SubListTrait, SubResult, Subscription,
};
use simple_nats::server::sublist::{TrieSubList, SL_CACHE_MAX};
use std::sync::atomic::{AtomicU64, Ordering};
use std::sync::Arc;

const TSEP: &str = ".";

static NEXT_ID: AtomicU64 = AtomicU64::new(1);

fn test_new_sub(subject: &str) -> Subscription {
    let id = NEXT_ID.fetch_add(1, Ordering::Relaxed);
    Subscription::new(subject.as_bytes(), None, "1".as_bytes(), 1, id)
}

fn test_new_sub_arc(subject: &str) -> ArcSubscription {
    Arc::new(test_new_sub(subject))
}

fn verify_len<T>(r: &[T], l: usize) {
    assert_eq!(r.len(), l, "results len expect={},got={}", l, r.len());
}

fn verify_qlen(r: &Vec<Vec<Arc<Subscription>>>, l: usize) {
    assert_eq!(r.len(), l, "queue results len expect={},got={}", l, r.len());
}

fn verify_member(r: &[Arc<Subscription>], val: &Subscription) {
    for s in r {
        if s.same(val) {
            return;
        }
    }
    assert!(false, "sub:{:?} not found in results", val);
}

fn new_qsub(subject: &str, queue: &str) -> Subscription {
    let mut s = test_new_sub(subject);
    s.queue = Some(queue.into());
    s
}

#[test]
fn simple_sublist_test() {}

#[test]
fn test_sublist_insert_count() {
    let mut s = TrieSubList::new();
    assert!(s.insert(Arc::new(test_new_sub("foo"))).is_ok());
    assert!(s.insert(Arc::new(test_new_sub("bar"))).is_ok());
    assert!(s.insert(Arc::new(test_new_sub("foo.bar"))).is_ok());
}

#[test]
fn test_sublist_simple() {
    let mut s = TrieSubList::new();
    let subject = "foo";
    let sub = Arc::new(test_new_sub(subject));
    assert!(s.insert(sub.clone()).is_ok());
    let r = s.match_subject(subject.as_bytes());
    verify_len(r.psubs.as_slice(), 1);
    verify_member(r.psubs.as_slice(), sub.as_ref());
}

#[test]
fn test_sublist_simple_multi_tokens() {
    let mut s = TrieSubList::new();
    let subject = "foo.bar.baz";
    let sub = Arc::new(test_new_sub(subject));
    assert!(s.insert(sub.clone()).is_ok());
    let r = s.match_subject(subject.as_bytes());
    verify_len(r.psubs.as_slice(), 1);
    verify_member(r.psubs.as_slice(), sub.as_ref());
}

#[test]
fn test_sublist_partial_wildcard() {
    let mut s = TrieSubList::new();
    let lsub = Arc::new(test_new_sub("a.b.c"));
    let psub = Arc::new(test_new_sub("a.*.c"));

    assert!(s.insert(lsub.clone()).is_ok());
    assert!(s.insert(psub.clone()).is_ok());
    let r = s.match_subject(&lsub.subject);
    verify_len(r.psubs.as_slice(), 2);
    verify_member(r.psubs.as_slice(), lsub.as_ref());
    verify_member(r.psubs.as_slice(), psub.as_ref());
}

#[test]
fn test_sublist_partial_wildcard_at_end() {
    let mut s = TrieSubList::new();
    let lsub = Arc::new(test_new_sub("a.b.c"));
    let psub = Arc::new(test_new_sub("a.b.*"));

    assert!(s.insert(lsub.clone()).is_ok());
    assert!(s.insert(psub.clone()).is_ok());
    let r = s.match_subject(&lsub.subject);
    verify_len(r.psubs.as_slice(), 2);
    verify_member(r.psubs.as_slice(), lsub.as_ref());
    verify_member(r.psubs.as_slice(), psub.as_ref());
}

#[test]
fn test_sublist_partial_full_wildcard() {
    let mut s = TrieSubList::new();
    let lsub = Arc::new(test_new_sub("a.b.c"));
    let psub = Arc::new(test_new_sub("a.>"));

    assert!(s.insert(lsub.clone()).is_ok());
    assert!(s.insert(psub.clone()).is_ok());
    let r = s.match_subject(&lsub.subject);
    verify_len(r.psubs.as_slice(), 2);
    verify_member(r.psubs.as_slice(), lsub.as_ref());
    verify_member(r.psubs.as_slice(), psub.as_ref());
}

#[test]
fn test_sublist_remove() {
    let mut s = TrieSubList::new();
    let sub = Arc::new(test_new_sub("a.b.c.d"));

    assert!(s.insert(sub.clone()).is_ok());
    let r = s.match_subject(&sub.subject);
    verify_len(r.psubs.as_slice(), 1);
    assert!(s.remove(Arc::new(test_new_sub("a.b.c"))).is_err());
    assert!(s.remove(sub.clone()).is_ok());
    let r = s.match_subject(&sub.subject);
    verify_len(r.psubs.as_slice(), 0);
}

#[test]
fn test_sublist_remove_wildcard() {
    let mut s = TrieSubList::new();
    let sub = Arc::new(test_new_sub("a.b.c.d"));
    let psub = Arc::new(test_new_sub("a.b.*.d"));
    let fsub = Arc::new(test_new_sub("a.b.>"));
    let _ = s.insert(sub.clone());
    let _ = s.insert(psub.clone());
    let _ = s.insert(fsub.clone());

    let r = s.match_subject(&sub.subject);
    verify_len(r.psubs.as_slice(), 3);
    assert!(s.remove(sub.clone()).is_ok());
    assert!(s.remove(fsub.clone()).is_ok());
    assert!(s.remove(psub.clone()).is_ok());

    assert!(s.remove(Arc::new(test_new_sub("a.b.c"))).is_err());

    let r = s.match_subject(&sub.subject);
    verify_len(r.psubs.as_slice(), 0);
}

#[test]
fn test_sublist_remove_cleanup() {
    let mut s = TrieSubList::new();
    let literal = "a.b.c.d.e.f";
    let depth = literal.split(TSEP).count();
    assert_eq!(depth, 6);
    let sub = Arc::new(test_new_sub(literal));
    assert!(s.is_empty());
    let _ = s.insert(sub.clone());
    assert!(!s.is_empty());
    let _ = s.remove(sub.clone());
    assert!(s.is_empty());
}

#[test]
fn test_sublist_remove_cleanup_wildcards() {
    let mut s = TrieSubList::new();
    let literal = "a.b.*.d.e.>";
    let depth = literal.split(TSEP).count();
    assert_eq!(depth, 6);
    let sub = Arc::new(test_new_sub(literal));
    assert!(s.is_empty());
    let _ = s.insert(sub.clone());
    assert!(!s.is_empty());
    let _ = s.remove(sub);
    assert!(s.is_empty());
}

#[test]
fn test_sublist_invalid_subjects_insert() {
    let mut s = TrieSubList::new();
    assert!(s.insert(Arc::new(test_new_sub(".foo"))).is_err());
    assert!(s.insert(Arc::new(test_new_sub("foo."))).is_err());
    assert!(s.insert(Arc::new(test_new_sub("foo..bar"))).is_err());
    assert!(s.insert(Arc::new(test_new_sub("foo.bar..baz"))).is_err());
    assert!(s.insert(Arc::new(test_new_sub("foo.>.bar"))).is_err());
}

#[test]
fn test_sublist_cache() {
    let mut s = TrieSubList::new();
    let subject = "a.b.c.d";
    let sub = Arc::new(test_new_sub(subject));
    let psub = Arc::new(test_new_sub("a.b.*.d"));
    let fsub = Arc::new(test_new_sub("a.b.>"));
    let _ = s.insert(sub.clone());
    let _ = s.insert(psub.clone());
    let _ = s.insert(fsub.clone());
    let r = s.match_subject(subject.as_bytes());
    verify_len(r.psubs.as_slice(), 3);
    let _ = s.remove(sub);
    let _ = s.remove(fsub.clone());
    let _ = s.remove(psub.clone());
    assert_eq!(s.cache_count(), 0);
    let r = s.match_subject(subject.as_bytes());
    verify_len(r.psubs.as_slice(), 0);
    for i in 0..2 * SL_CACHE_MAX {
        s.match_subject(format!("foo-#{}", i).as_bytes());
    }
    assert!(s.cache_count() <= SL_CACHE_MAX);
}

#[test]
fn test_sublist_basic_queue_results() {
    let mut s = TrieSubList::new();
    let subject = "foo";
    let _sub = Arc::new(test_new_sub(subject));
    let sub1 = Arc::new(new_qsub(subject, "bar"));
    let sub2 = Arc::new(new_qsub(subject, "baz"));

    let _ = s.insert(sub1.clone());
    let r = s.match_subject(subject.as_bytes());
    verify_len(r.psubs.as_slice(), 0);
    verify_qlen(&r.qsubs, 1);
    verify_len(r.qsubs[0].as_slice(), 1);
    verify_member(r.qsubs[0].as_slice(), sub1.as_ref());

    let _ = s.insert(sub2.clone());
    let r = s.match_subject(subject.as_bytes());
    verify_len(r.psubs.as_slice(), 0);
    println!("qsubs={:?}", r.qsubs);
    verify_qlen(&r.qsubs, 2);
    verify_len(r.qsubs[0].as_slice(), 1);
    verify_len(r.qsubs[1].as_slice(), 1);
    verify_member(r.qsubs[0].as_slice(), sub1.as_ref());
    verify_member(r.qsubs[1].as_slice(), sub2.as_ref());
}

#[test]
fn test_sublist_two_token_pub_match_single_token_sub() {
    let mut s = TrieSubList::new();
    let sub = Arc::new(test_new_sub("foo"));
    let _ = s.insert(sub.clone());
    let r = s.match_subject("foo".as_bytes());
    verify_len(r.psubs.as_slice(), 1);
    let r = s.match_subject("foo.bar".as_bytes());
    verify_len(r.psubs.as_slice(), 0);
}

fn create_subs(pre: &str, subs: &mut Vec<Arc<Subscription>>) {
    let tokens = vec![
        "apcera",
        "continuum",
        "component",
        "router",
        "api",
        "imgr",
        "jmgr",
        "auth",
    ];
    for t in tokens {
        let sub: String;
        if pre.len() > 0 {
            sub = format!("{}.{}", pre, t);
        } else {
            sub = t.into();
        }
        subs.push(test_new_sub_arc(sub.as_str()));
        if sub.split(TSEP).count() < 5 {
            create_subs(sub.as_str(), subs);
        }
    }
}

fn create_test_subs() -> Vec<Arc<Subscription>> {
    let mut subs = Vec::new();
    create_subs("", &mut subs);
    subs
}

#[test]
fn test_subs() {
    let subs = create_test_subs();
    let l = subs.len();
    println!("subs len={}", l);
    subs.iter().take(1000).for_each(|sub| {
        println!("subs={:?}", String::from_utf8_lossy(&sub.subject));
    });
}

fn names(v: &[Arc<Subscription>]) -> Vec<u64> {
    let mut ids: Vec<u64> = v.iter().map(|s| s.id).collect();
    ids.sort();
    ids
}

#[test]
fn cache_follows_inserts_and_removes() {
    let mut s = TrieSubList::new();
    let a = test_new_sub_arc("a.b");
    s.insert(a.clone()).unwrap();
    let r = s.match_subject(b"a.b");
    assert_eq!(names(&r.psubs), vec![a.id]);
    assert_eq!(s.cache_count(), 1);
    let w = test_new_sub_arc("a.*");
    s.insert(w.clone()).unwrap();
    assert_eq!(s.cache_count(), 1);
    let r = s.match_subject(b"a.b");
    let mut want = vec![a.id, w.id];
    want.sort();
    assert_eq!(names(&r.psubs), want);
    let far = test_new_sub_arc("x.y");
    s.insert(far.clone()).unwrap();
    let r = s.match_subject(b"a.b");
    assert_eq!(names(&r.psubs), want);
    s.remove(w.clone()).unwrap();
    let r = s.match_subject(b"a.b");
    assert_eq!(names(&r.psubs), vec![a.id]);
    s.remove(a.clone()).unwrap();
    assert_eq!(s.cache_count(), 0);
    let r = s.match_subject(b"a.b");
    assert!(r.is_empty());
}

#[test]
fn full_wildcard_needs_one_token() {
    let mut s = TrieSubList::new();
    let f = test_new_sub_arc("a.>");
    s.insert(f.clone()).unwrap();
    assert_eq!(s.match_subject(b"a.b").psubs.len(), 1);
    assert_eq!(s.match_subject(b"a.b.c").psubs.len(), 1);
    assert_eq!(s.match_subject(b"a").psubs.len(), 0);
    let p = test_new_sub_arc("a.*.c");
    s.insert(p.clone()).unwrap();
    assert_eq!(names(&s.match_subject(b"a.b.c").psubs).len(), 2);
    assert_eq!(names(&s.match_subject(b"a.b.c.d").psubs), vec![f.id]);
}

#[test]
fn queue_groups_are_by_name() {
    let mut s = TrieSubList::new();
    let q1 = Arc::new(new_qsub("a.*", "workers"));
    let q2 = Arc::new(new_qsub("a.b", "workers"));
    let q3 = Arc::new(new_qsub("a.b", "loggers"));
    for q in [&q1, &q2, &q3] {
        s.insert(q.clone()).unwrap();
    }
    let r = s.match_subject(b"a.b");
    assert_eq!(r.psubs.len(), 0);
    assert_eq!(r.qsubs.len(), 2);
    let mut groups: Vec<Vec<u64>> = r.qsubs.iter().map(|g| names(g)).collect();
    groups.sort();
    let mut workers = vec![q1.id, q2.id];
    workers.sort();
    let mut want = vec![workers, vec![q3.id]];
    want.sort();
    assert_eq!(groups, want);
    s.remove(q3.clone()).unwrap();
    let r = s.match_subject(b"a.b");
    assert_eq!(r.qsubs.len(), 1);
    s.remove(q1.clone()).unwrap();
    s.remove(q2.clone()).unwrap();
    assert!(s.match_subject(b"a.b").is_empty());
    assert!(s.is_empty());
}

#[test]
fn the_same_subscription_is_held_once() {
    let mut s = TrieSubList::new();
    let a = test_new_sub_arc("a");
    s.insert(a.clone()).unwrap();
    s.insert(a.clone()).unwrap();
    assert_eq!(s.match_subject(b"a").psubs.len(), 1);
    s.insert(a.clone()).unwrap();
    assert_eq!(s.match_subject(b"a").psubs.len(), 1);
    let twin = Arc::new(Subscription::new(b"a", None, b"1", 1, a.id + 1_000_000));
    s.insert(twin.clone()).unwrap();
    assert_eq!(s.match_subject(b"a").psubs.len(), 2);
    s.remove(a.clone()).unwrap();
    assert_eq!(names(&s.match_subject(b"a").psubs), vec![twin.id]);
    assert_eq!(s.remove(a.clone()).unwrap_err().err_code, 4);
    assert_eq!(s.remove(test_new_sub_arc("a..b")).unwrap_err().err_code, 3);
}

#[test]
fn simple_list_matches_equal_subjects() {
    let mut s = SimpleSubList::new();
    let a = test_new_sub_arc("a.b");
    let w = test_new_sub_arc("a.*");
    let q = Arc::new(new_qsub("a.b", "q"));
    s.insert(a.clone()).unwrap();
    s.insert(w.clone()).unwrap();
    s.insert(q.clone()).unwrap();
    let r = s.match_subject(b"a.b");
    assert_eq!(names(&r.psubs), vec![a.id]);
    assert_eq!(r.qsubs.len(), 1);
    assert_eq!(names(&r.qsubs[0]), vec![q.id]);
    s.remove(a.clone()).unwrap();
    assert_eq!(s.remove(a.clone()).unwrap_err().err_code, 4);
    assert_eq!(s.match_subject(b"a.b").psubs.len(), 0);
}

#[test]
fn trie_and_simple_list_agree_on_literals() {
    let mut trie = TrieSubList::new();
    let mut flat = SimpleSubList::new();
    let subjects = ["a", "a.b", "a.b.c", "b", "b.c", "a.b"];
    let mut subs = Vec::new();
    for subject in subjects {
        let sub = test_new_sub_arc(subject);
        trie.insert(sub.clone()).unwrap();
        flat.insert(sub.clone()).unwrap();
        subs.push(sub);
    }
    for subject in ["a", "a.b", "a.b.c", "b", "b.c", "c", "a.c"] {
        let x = trie.match_subject(subject.as_bytes());
        let y = flat.match_subject(subject.as_bytes());
        assert_eq!(names(&x.psubs), names(&y.psubs), "{}", subject);
    }
    for sub in subs {
        trie.remove(sub.clone()).unwrap();
        flat.remove(sub).unwrap();
    }
    assert!(trie.is_empty());
}

#[test]
fn results_keep_the_order_of_arrival() {
    let mut r = SubResult::new();
    assert!(r.is_empty());
    let a = test_new_sub_arc("s");
    let b = test_new_sub_arc("s");
    let q1 = Arc::new(new_qsub("s", "q"));
    let q2 = Arc::new(new_qsub("s", "q"));
    let k1 = Arc::new(new_qsub("s", "k"));
    assert!(r.add(a.clone()));
    assert!(r.add(q1.clone()));
    assert!(r.add(b.clone()));
    assert!(r.add(k1.clone()));
    assert!(r.add(q2.clone()));
    assert!(!r.add(a.clone()));
    assert!(!r.add(q2.clone()));
    let ids = |v: &Vec<Arc<Subscription>>| v.iter().map(|s| s.id).collect::<Vec<_>>();
    assert_eq!(ids(&r.psubs), vec![a.id, b.id]);
    assert_eq!(r.qsubs.len(), 2);
    assert_eq!(ids(&r.qsubs[0]), vec![q1.id, q2.id]);
    assert_eq!(ids(&r.qsubs[1]), vec![k1.id]);
    assert!(r.contains(&q1));
    assert_eq!(r.find_group(b"k"), Some(1));
    assert_eq!(r.find_group(b"none"), None);
    let copy = r.share();
    assert!(r.remove(&a));
    assert!(!r.remove(&a));
    assert!(r.remove(&q1));
    assert_eq!(ids(&r.qsubs[0]), vec![q2.id]);
    assert!(r.remove(&q2));
    assert_eq!(r.qsubs.len(), 1);
    assert_eq!(ids(&r.qsubs[0]), vec![k1.id]);
    assert!(r.remove(&k1));
    assert!(r.remove(&b));
    assert!(r.is_empty());
    assert_eq!(ids(&copy.psubs), vec![a.id, b.id]);
    let mut sum = SubResult::new();
    sum.add(k1.clone());
    sum.add_all(&copy);
    assert_eq!(ids(&sum.psubs), vec![a.id, b.id]);
    assert_eq!(ids(&sum.qsubs[0]), vec![k1.id]);
    assert_eq!(ids(&sum.qsubs[1]), vec![q1.id, q2.id]);
}

fn cached(s: &TrieSubList) -> Vec<String> {
    s.cached_subjects().into_iter().map(|k| String::from_utf8(k).unwrap()).collect()
}

#[test]
fn the_cache_keeps_what_was_used_last() {
    let mut s = TrieSubList::new();
    for subject in ["a", "b", "c"] {
        s.match_subject(subject.as_bytes());
    }
    assert_eq!(cached(&s), ["a", "b", "c"]);
    s.match_subject(b"a");
    assert_eq!(cached(&s), ["b", "c", "a"]);
    for i in 0..SL_CACHE_MAX - 3 {
        s.match_subject(format!("n{}", i).as_bytes());
    }
    assert_eq!(s.cache_count(), SL_CACHE_MAX);
    assert_eq!(cached(&s)[0], "b");
    s.match_subject(b"one.more");
    assert_eq!(s.cache_count(), SL_CACHE_MAX);
    let now = cached(&s);
    assert_eq!(now[0], "c");
    assert_eq!(now[1], "a");
    assert_eq!(now[SL_CACHE_MAX - 1], "one.more");
    assert!(!now.contains(&"b".to_string()));
}

#[test]
fn a_change_puts_the_results_it_touches_last() {
    let mut s = TrieSubList::new();
    for subject in ["a.x", "b", "a.y", "c"] {
        s.match_subject(subject.as_bytes());
    }
    let w = test_new_sub_arc("a.*");
    s.insert(w.clone()).unwrap();
    assert_eq!(cached(&s), ["b", "c", "a.x", "a.y"]);
    assert_eq!(s.match_subject(b"a.x").psubs.len(), 1);
    assert_eq!(cached(&s), ["b", "c", "a.y", "a.x"]);
    s.remove(w).unwrap();
    assert_eq!(cached(&s), ["b", "c"]);
    let all = test_new_sub_arc(">");
    s.insert(all.clone()).unwrap();
    assert_eq!(cached(&s), ["b", "c"]);
    assert_eq!(s.match_subject(b"c").psubs.len(), 1);
    assert_eq!(s.match_subject(b"zzz").psubs.len(), 1);
    assert_eq!(cached(&s), ["b", "c", "zzz"]);
    s.remove(all).unwrap();
    assert!(cached(&s).is_empty());
}

#[test]
fn full_wildcard_byte_inside_a_token_is_taken() {
    let mut trie = TrieSubList::new();
    let mut flat = SimpleSubList::new();
    for subject in ["a.>b", "foo.>bar", ">a.b", "a.>>"] {
        let sub = test_new_sub_arc(subject);
        assert!(trie.insert(sub.clone()).is_ok(), "{:?}", subject);
        assert!(flat.insert(sub.clone()).is_ok(), "{:?}", subject);
        let r = trie.match_subject(subject.as_bytes());
        assert_eq!(names(&r.psubs), vec![sub.id]);
        let r = flat.match_subject(subject.as_bytes());
        assert_eq!(names(&r.psubs), vec![sub.id]);
        assert!(trie.match_subject(b"a.x").is_empty());
        assert!(trie.match_subject(b"a.x.y").is_empty());
        assert!(trie.remove(sub.clone()).is_ok());
        assert!(flat.remove(sub).is_ok());
    }
    assert!(trie.is_empty());
    for subject in ["a.>.b", ">.a", ">.>"] {
        assert!(trie.insert(test_new_sub_arc(subject)).is_err(), "{:?}", subject);
    }
    assert!(trie.is_empty());
}
