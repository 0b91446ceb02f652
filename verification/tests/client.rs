use simple_nats::client::client::Client;
use simple_nats::client::parser::{ParseResult, Parser};
use simple_nats::error::ERROR_PARSE;
use simple_nats::server::parser::{ParseResult as ServerFrame, Parser as ServerParser};
use simple_nats::wire::{write_msg, write_pub, write_sub};

#[test]
fn test_msg() {
    let mut p = Parser::new();
    assert!(p.parse("aa".as_bytes()).is_err());
    let mut buf = "MSG subject 1 5\r\nhello\r\nMSG subject 1 5\r\nxxxxx\r\n".as_bytes();
    let r = p.parse(buf);
    println!("r={:?}", r);
    assert!(r.is_ok());
    let (r, n) = r.unwrap();
    match r {
        ParseResult::MsgArg(p) => {
            assert_eq!(p.subject, "subject".as_bytes());
            assert_eq!(p.size, 5);
            assert_eq!(p.msg, "hello".as_bytes());
        }
        _ => assert!(false, "must be valid pub arg "),
    }
    p.clear_msg_buf();
    if n < buf.len() {
        buf = &buf[n..];
        let r = p.parse(buf);
        println!("r={:?}", r);
        assert!(r.is_ok());
        let r = r.unwrap();
        match r.0 {
            ParseResult::MsgArg(p) => {
                assert_eq!(p.subject, "subject".as_bytes());
                assert_eq!(p.size, 5);
                assert_eq!(p.msg, "xxxxx".as_bytes());
            }
            _ => assert!(false, "must be valid pub arg "),
        }
    }
}

#[test]
fn frames_are_written_byte_for_byte() {
    assert_eq!(Client::pub_message(b"test", b"hello0"), b"PUB test 6\r\nhello0\r\n");
    let subjects = vec![b"a".to_vec(), b"b.c".to_vec()];
    let msgs = vec![b"1".to_vec(), b"0123456789".to_vec(), b"unused".to_vec()];
    assert_eq!(
        Client::pub_messages(&subjects, &msgs),
        b"PUB a 1\r\n1\r\nPUB b.c 10\r\n0123456789\r\n"
    );
    assert_eq!(Client::pub_messages(&Vec::new(), &msgs), b"");
    let mut c = Client::new();
    assert_eq!(c.sub_message(b"test", None), b"SUB test 1\r\n");
    assert_eq!(c.sub_message(b"jobs.*", Some(b"workers")), b"SUB jobs.* workers 2\r\n");
    for _ in 0..8 {
        c.sub_message(b"x", None);
    }
    assert_eq!(c.sub_message(b"x", None), b"SUB x 11\r\n");
    let mut buf = b"kept".to_vec();
    write_msg(&mut buf, b"orders.new", b"1", b"5", b"hello");
    assert_eq!(buf, b"keptMSG orders.new 1 5\r\nhello\r\n");
    let mut buf = Vec::new();
    write_sub(&mut buf, b"s", Some(b"q"), b"7");
    write_pub(&mut buf, b"s", b"");
    assert_eq!(buf, b"SUB s q 7\r\nPUB s 0\r\n\r\n");
}

#[test]
fn a_published_message_comes_back() {
    for (subject, payload) in [
        (&b"a"[..], vec![0u8]),
        (b"orders.new", b"hello".to_vec()),
        (b"with\ttab", b"\r\n\r\n".to_vec()),
        (b">", vec![b'x'; 513]),
        (b"big", vec![7u8; 1048576]),
    ] {
        let frame = Client::pub_message(subject, &payload);
        let (r, n) = ServerParser::new().parse(&frame).unwrap();
        assert_eq!(n, frame.len());
        match r {
            ServerFrame::Pub(a) => {
                assert_eq!(a.subject, subject);
                assert_eq!(a.msg, payload);
                assert_eq!(a.size, payload.len());
            }
            _ => panic!("expected a PUB"),
        }
    }
}

#[test]
fn a_subscription_request_comes_back() {
    let mut c = Client::new();
    let frame = c.sub_message(b"a.*.c", Some(b"q"));
    let (r, n) = ServerParser::new().parse(&frame).unwrap();
    assert_eq!(n, frame.len());
    match r {
        ServerFrame::Sub(a) => {
            assert_eq!(a.subject, b"a.*.c");
            assert_eq!(a.queue, Some(b"q".to_vec()));
            assert_eq!(a.sid, b"1");
        }
        _ => panic!("expected a SUB"),
    }
}

#[test]
fn messages_are_read_across_reads() {
    let stream = b"MSG a 1 2\r\nhi\r\nMSG b.c 22 3\r\nyou\r\nMSG d 3 1\r\n!\r\n";
    for cut in 0..=stream.len() {
        let mut c = Client::new();
        let (first, r) = c.receive(&stream[..cut]);
        assert!(r.is_ok());
        let (second, r) = c.receive(&stream[cut..]);
        assert!(r.is_ok());
        let all: Vec<_> = first.into_iter().chain(second).collect();
        assert_eq!(all.len(), 3, "cut at {}", cut);
        assert_eq!(all[0].subject, b"a");
        assert_eq!(all[0].sid, b"1");
        assert_eq!(all[0].msg, b"hi");
        assert_eq!(all[1].subject, b"b.c");
        assert_eq!(all[1].sid, b"22");
        assert_eq!(all[1].size, 3);
        assert_eq!(all[1].msg, b"you");
        assert_eq!(all[2].msg, b"!");
    }
}

#[test]
fn a_refused_byte_ends_the_reading() {
    let mut c = Client::new();
    let (msgs, r) = c.receive(b"MSG a 1 2\r\nhi\r\nPUB a 1\r\nx\r\n");
    assert_eq!(msgs.len(), 1);
    assert_eq!(r.unwrap_err().err_code, ERROR_PARSE);
    let mut c = Client::new();
    let (msgs, r) = c.receive(b"MSG a 2\r\nhi\r\n");
    assert!(msgs.is_empty());
    assert_eq!(r.unwrap_err().err_code, ERROR_PARSE);
}
