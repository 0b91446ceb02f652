use simple_nats::subject::{
    is_valid_literal_subject, is_valid_subject, match_literal, split_subject, split_tokens,
};

fn collect(subject: &str) -> Vec<String> {
    let mut split = split_subject(subject.as_bytes());
    let mut out = Vec::new();
    while let Some(t) = split.next() {
        out.push(String::from_utf8(t.to_vec()).unwrap());
    }
    out
}

#[test]
fn test_split() {
    let v = vec!["a", "b", "c"];
    let r: Vec<_> = collect("a.b.c");
    assert_eq!(v, r);
    let v = vec!["a", "b", "", "c"];
    let r: Vec<_> = collect("a.b..c");
    assert_eq!(v, r);
    let v = vec!["", "", "a", "b", "c"];
    let r: Vec<_> = collect("..a.b.c");
    assert_eq!(v, r);
    let v = vec!["a", "b", "c", ""];
    let r: Vec<_> = collect("a.b.c.");
    assert_eq!(v, r);
}

#[test]
fn test_match_literal() {
    assert_eq!(true, match_literal("a.b.c".as_bytes(), "a.*.c".as_bytes()));
    assert_eq!(true, match_literal("a.b.c".as_bytes(), "a.>".as_bytes()));
    assert_eq!(false, match_literal("a.b.c.d".as_bytes(), "a.*.c".as_bytes()));
}

#[test]
fn test_valid_literal_subject() {
    assert_eq!(is_valid_literal_subject("foo".as_bytes()), true);
    assert_eq!(is_valid_literal_subject(".foo".as_bytes()), false);
    assert_eq!(is_valid_literal_subject("foo.".as_bytes()), false);
    assert_eq!(is_valid_literal_subject("foo..bar".as_bytes()), false);
    assert_eq!(is_valid_literal_subject("foo.bar.*".as_bytes()), false);
    assert_eq!(is_valid_literal_subject("foo.bar.>".as_bytes()), false);
    assert_eq!(is_valid_literal_subject("*".as_bytes()), false);
    assert_eq!(is_valid_literal_subject(">".as_bytes()), false);
}

fn ml(literal: &str, subject: &str) -> bool {
    match_literal(literal.as_bytes(), subject.as_bytes())
}

#[test]
fn test_match_literal2() {
    println!("a={}", 3);
    assert_eq!(ml("foo", "foo"), true);
    assert_eq!(ml("foo", "bar"), false);
    assert_eq!(ml("foo", "*"), true);
    assert_eq!(ml("foo", ">"), true);
    assert_eq!(ml("foo.bar", ">"), true);
    assert_eq!(ml("foo.bar", "foo.>"), true);
    assert_eq!(ml("foo.bar", "bar.>"), false);
    assert_eq!(ml("stats.test.22", "stats.>"), true);
    assert_eq!(ml("stats.test.22", "stats.*.*"), true);
    assert_eq!(ml("foo.bar", "foo"), false);
    assert_eq!(ml("stats.test.foos", "stats.test.foos"), true);
    assert_eq!(ml("stats.test.foos", "stats.test.foo"), false);
}

#[test]
fn subscription_subjects() {
    for bad in ["", ".foo", "foo.", "foo..bar", "foo.>.bar", ">.foo", ">.>", "."] {
        assert!(!is_valid_subject(bad.as_bytes()), "{:?}", bad);
    }
    for good in [
        "foo", "foo.*.bar", "foo.>", ">", "*", "*.*", "foo.b>r", "foo.*bar", "foo.>bar", "a.>b",
        ">a.b", "a.>>", "*.>",
    ] {
        assert!(is_valid_subject(good.as_bytes()), "{:?}", good);
    }
}

#[test]
fn only_the_whole_token_is_a_wildcard() {
    for s in ["a.>b", "foo.>bar", ">a", "a>", "a.*b", "*a.b", ">>", "**"] {
        assert!(is_valid_literal_subject(s.as_bytes()), "{:?}", s);
        assert!(is_valid_subject(s.as_bytes()), "{:?}", s);
    }
}

#[test]
fn what_may_be_published_to_may_be_subscribed_to() {
    let parts = ["", "a", ">", "*", ">b", "b>", "*c", "foo"];
    for x in parts {
        for y in parts {
            for z in parts {
                for s in [x.to_string(), format!("{}.{}", x, y), format!("{}.{}.{}", x, y, z)] {
                    if is_valid_literal_subject(s.as_bytes()) {
                        assert!(is_valid_subject(s.as_bytes()), "{:?}", s);
                    }
                    let plain = !s.is_empty()
                        && s.split('.').all(|t| !t.is_empty() && t != "*" && t != ">");
                    assert_eq!(is_valid_literal_subject(s.as_bytes()), plain, "{:?}", s);
                    let n = s.split('.').count();
                    let fine = !s.is_empty()
                        && s.split('.').enumerate().all(|(i, t)| {
                            !t.is_empty() && (t != ">" || i == n - 1)
                        });
                    assert_eq!(is_valid_subject(s.as_bytes()), fine, "{:?}", s);
                }
            }
        }
    }
}

#[test]
fn publish_subjects() {
    for bad in ["", "*", ">", "a.*", "a.>", "*.a", "a.*.b", "a..b", ".a", "a."] {
        assert!(!is_valid_literal_subject(bad.as_bytes()), "{:?}", bad);
    }
    for good in ["a", "a.b", "a.b.c", "orders.new", "a.*b", "a.>b", "a.b*"] {
        assert!(is_valid_literal_subject(good.as_bytes()), "{:?}", good);
    }
}

#[test]
fn matching_boundaries() {
    assert!(ml("a.b.c", "a.*.c"));
    assert!(!ml("a.b.c.d", "a.*.c"));
    assert!(ml("a.b", "a.>"));
    assert!(ml("a.b.c", "a.>"));
    assert!(!ml("a", "a.>"));
    assert!(!ml("a", "a.*"));
    assert!(!ml("a.b", "*"));
    assert!(ml("a.b", "*.*"));
    assert!(!ml("a.b", "a.b.c"));
}

#[test]
fn tokens_as_vectors() {
    let t = split_tokens(b"a.bc..d");
    assert_eq!(t, vec![b"a".to_vec(), b"bc".to_vec(), b"".to_vec(), b"d".to_vec()]);
    assert_eq!(split_tokens(b""), vec![Vec::<u8>::new()]);
}
