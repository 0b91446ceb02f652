use rand::rngs::StdRng;
use rand::{RngCore, SeedableRng};
use simple_nats::error::{ERROR_INVALID_SUBJECT, ERROR_NON_LITERAL_SUBJECT, ERROR_PARSE};
use simple_nats::server::client::{pending_insert, pick, Client};
use simple_nats::server::server::ServerState;
use simple_nats::server::simple_sublist::SubListTrait;
use simple_nats::server::sublist::TrieSubList;

#[test]
fn server_test() {}

#[test]
fn client_test() {}

#[test]
fn test_rng() {
    for _ in 0..10 {
        let mut r = StdRng::from_entropy();
        println!("next={}", r.next_u32());
    }
}

#[test]
fn test_bytes() {
    let mut buf = Vec::with_capacity(100);
    buf.extend_from_slice("hello".as_bytes());
    assert_eq!(buf.len(), 5);
    assert_eq!(buf.capacity(), 100);
    buf.clear();
    assert_eq!(buf.capacity(), 100);
    assert_eq!(buf.len(), 0);
}

fn broker() -> ServerState<TrieSubList> {
    ServerState::new(TrieSubList::new())
}

#[test]
fn subscriber_gets_what_is_published() {
    let mut state = broker();
    let mut rng = StdRng::seed_from_u64(7);
    let a = state.new_client();
    let b = state.new_client();
    assert_eq!((a, b), (1, 2));
    let mut client_a = Client::new(a);
    let mut client_b = Client::new(b);
    let p = client_a.client_read(&mut state, b"SUB orders.* 1\r\n", &mut rng).unwrap();
    assert!(p.is_empty());
    let p = client_b.client_read(&mut state, b"PUB orders.new 5\r\nhello\r\n", &mut rng).unwrap();
    assert_eq!(p, vec![a]);
    assert_eq!(state.send_all(a), b"MSG orders.new 1 5\r\nhello\r\n");
    assert_eq!(state.send_all(a), b"");
    assert_eq!(state.send_all(b), b"");
}

#[test]
fn publishes_of_one_read_arrive_in_order() {
    let mut state = broker();
    let mut rng = StdRng::seed_from_u64(7);
    let a = state.new_client();
    let b = state.new_client();
    let c = state.new_client();
    let mut ca = Client::new(a);
    let mut cb = Client::new(b);
    let mut cc = Client::new(c);
    ca.client_read(&mut state, b"SUB t.> a1\r\n", &mut rng).unwrap();
    cc.client_read(&mut state, b"SUB t.x c1\r\nSUB u c2\r\n", &mut rng).unwrap();
    let p = cb
        .client_read(
            &mut state,
            b"PUB t.x 1\r\nA\r\nPUB t.y 2\r\nBB\r\nPUB t.x 3\r\nCCC\r\nPUB none 1\r\nZ\r\nPU",
            &mut rng,
        )
        .unwrap();
    assert_eq!(p, vec![a, c]);
    assert_eq!(
        state.send_all(a),
        b"MSG t.x a1 1\r\nA\r\nMSG t.y a1 2\r\nBB\r\nMSG t.x a1 3\r\nCCC\r\n"
    );
    assert_eq!(state.send_all(c), b"MSG t.x c1 1\r\nA\r\nMSG t.x c1 3\r\nCCC\r\n");
    let p = cb.client_read(&mut state, b"B u 2\r\nhi\r\n", &mut rng).unwrap();
    assert_eq!(p, vec![c]);
    assert_eq!(state.send_all(c), b"MSG u c2 2\r\nhi\r\n");
}

#[test]
fn the_size_is_passed_on_as_written() {
    let mut state = broker();
    let mut rng = StdRng::seed_from_u64(1);
    let a = state.new_client();
    let mut ca = Client::new(a);
    ca.client_read(&mut state, b"SUB s 9\r\nPUB s +02\r\nok\r\n", &mut rng).unwrap();
    assert_eq!(state.send_all(a), b"MSG s 9 +02\r\nok\r\n");
}

#[test]
fn one_member_of_a_queue_group_gets_each_message() {
    let mut state = broker();
    let mut rng = StdRng::from_entropy();
    let a = state.new_client();
    let b = state.new_client();
    let c = state.new_client();
    let mut ca = Client::new(a);
    let mut cb = Client::new(b);
    let mut cc = Client::new(c);
    ca.client_read(&mut state, b"SUB work q 1\r\n", &mut rng).unwrap();
    cb.client_read(&mut state, b"SUB work q 2\r\n", &mut rng).unwrap();
    let (mut to_a, mut to_b) = (0, 0);
    for _ in 0..200 {
        let p = cc.client_read(&mut state, b"PUB work 1\r\nx\r\n", &mut rng).unwrap();
        assert_eq!(p.len(), 1);
        let got_a = state.send_all(a);
        let got_b = state.send_all(b);
        if got_a.is_empty() {
            assert_eq!(got_b, b"MSG work 2 1\r\nx\r\n");
            assert_eq!(p, vec![b]);
            to_b += 1;
        } else {
            assert_eq!(got_a, b"MSG work 1 1\r\nx\r\n");
            assert!(got_b.is_empty());
            assert_eq!(p, vec![a]);
            to_a += 1;
        }
    }
    assert_eq!(to_a + to_b, 200);
    assert!(to_a > 0 && to_b > 0);
}

#[test]
fn errors_end_the_read() {
    let mut state = broker();
    let mut rng = StdRng::seed_from_u64(3);
    let a = state.new_client();
    let mut ca = Client::new(a);
    let e = ca.client_read(&mut state, b"SUB ok 1\r\nSUB bad..subject 2\r\n", &mut rng);
    assert_eq!(e.unwrap_err().err_code, ERROR_INVALID_SUBJECT);
    assert_eq!(state.sublist.match_subject(b"ok").psubs.len(), 1);
    let mut cb = Client::new(state.new_client());
    let e = cb.client_read(&mut state, b"PUB a.* 1\r\nx\r\n", &mut rng);
    assert_eq!(e.unwrap_err().err_code, ERROR_NON_LITERAL_SUBJECT);
    let mut cc = Client::new(state.new_client());
    let e = cc.client_read(&mut state, b"HELLO\r\n", &mut rng);
    assert_eq!(e.unwrap_err().err_code, ERROR_PARSE);
}

#[test]
fn closing_takes_the_subscriptions_back() {
    let mut state = broker();
    let mut rng = StdRng::seed_from_u64(3);
    let a = state.new_client();
    let b = state.new_client();
    let mut ca = Client::new(a);
    let mut cb = Client::new(b);
    ca.client_read(&mut state, b"SUB a.b 1\r\nSUB a.* 2\r\nSUB x.y.z q 3\r\nSUB > 4\r\n", &mut rng)
        .unwrap();
    assert!(!state.sublist.is_empty());
    cb.client_read(&mut state, b"PUB a.b 1\r\n1\r\n", &mut rng).unwrap();
    assert!(!state.send_all(a).is_empty());
    ca.process_error(&mut state);
    assert!(state.sublist.is_empty());
    for subject in ["a.b", "a.c", "x.y.z", "k"] {
        assert!(state.sublist.match_subject(subject.as_bytes()).is_empty());
    }
    let p = cb.client_read(&mut state, b"PUB a.b 1\r\n2\r\n", &mut rng).unwrap();
    assert!(p.is_empty());
    assert!(state.send_all(a).is_empty());
}

#[test]
fn a_closed_connection_gets_nothing() {
    let mut state = broker();
    let mut rng = StdRng::seed_from_u64(3);
    let a = state.new_client();
    let b = state.new_client();
    let mut ca = Client::new(a);
    let mut cb = Client::new(b);
    ca.client_read(&mut state, b"SUB s 1\r\n", &mut rng).unwrap();
    state.close(a);
    let p = cb.client_read(&mut state, b"PUB s 1\r\nx\r\n", &mut rng).unwrap();
    assert!(p.is_empty());
    assert!(state.send_all(a).is_empty());
}

#[test]
fn picks_and_pendings() {
    assert_eq!(pick(0, 3), 0);
    assert_eq!(pick(7, 3), 1);
    assert_eq!(pick(u32::MAX, 2), 1);
    assert_eq!(pick(12345, 1), 0);
    let mut p = Vec::new();
    for cid in [5u64, 1, 9, 5, 3, 1] {
        pending_insert(&mut p, cid);
    }
    assert_eq!(p, vec![1, 3, 5, 9]);
}

#[test]
fn a_subject_with_a_wildcard_byte_inside_a_token_is_an_ordinary_one() {
    let mut state = broker();
    let mut rng = StdRng::seed_from_u64(11);
    let a = state.new_client();
    let b = state.new_client();
    let mut ca = Client::new(a);
    let mut cb = Client::new(b);
    let p = ca.client_read(&mut state, b"SUB a.>b 1\r\nSUB foo.*bar 2\r\n", &mut rng).unwrap();
    assert!(p.is_empty());
    let p = cb
        .client_read(
            &mut state,
            b"PUB a.>b 2\r\nhi\r\nPUB a.x 1\r\nn\r\nPUB foo.*bar 1\r\ny\r\nPUB foo.xbar 1\r\nn\r\n",
            &mut rng,
        )
        .unwrap();
    assert_eq!(p, vec![a]);
    assert_eq!(state.send_all(a), b"MSG a.>b 1 2\r\nhi\r\nMSG foo.*bar 2 1\r\ny\r\n");
}

#[test]
fn a_full_wildcard_before_the_end_ends_the_read() {
    let mut state = broker();
    let mut rng = StdRng::seed_from_u64(11);
    let a = state.new_client();
    let mut ca = Client::new(a);
    let e = ca.client_read(&mut state, b"SUB a.>.b 1\r\n", &mut rng).unwrap_err();
    assert_eq!(e.err_code, ERROR_INVALID_SUBJECT);
    assert!(state.sublist.is_empty());
}

#[test]
fn a_replaced_subscription_outlives_its_connection() {
    let mut state = broker();
    let mut rng = StdRng::seed_from_u64(5);
    let a = state.new_client();
    let b = state.new_client();
    let mut ca = Client::new(a);
    let mut cb = Client::new(b);
    ca.client_read(&mut state, b"SUB s 1\r\nSUB s 2\r\nSUB t 3\r\n", &mut rng).unwrap();
    let p = cb.client_read(&mut state, b"PUB s 1\r\nx\r\n", &mut rng).unwrap();
    assert_eq!(p, vec![a]);
    assert_eq!(state.send_all(a), b"MSG s 1 1\r\nx\r\nMSG s 2 1\r\nx\r\n");
    ca.process_error(&mut state);
    let left = state.sublist.match_subject(b"s");
    assert_eq!(left.psubs.len(), 1);
    assert_eq!(left.psubs[0].sid, b"1".to_vec());
    assert!(state.sublist.match_subject(b"t").is_empty());
    cb.client_read(&mut state, b"PUB s 1\r\ny\r\n", &mut rng).unwrap();
    assert_eq!(state.send_all(a), b"");
}
