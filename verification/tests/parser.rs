use simple_nats::error::{NError, ERROR_MESSAGE_SIZE_TOO_LARGE, ERROR_PARSE};
use simple_nats::server::parser::{ParseResult, Parser};
use simple_nats::wire::{get_message_size, process_msg, process_sub, Frame, Op};

#[test]
fn parser_test() {}

#[test]
fn test_get_message_size() {
    let r = get_message_size(Op::Pub, "subject 5".as_bytes());
    assert!(r.is_ok());
    let r = r.unwrap();
    assert!(r == 5);
}

#[test]
fn test_process_sub() {
    let r = process_sub("subject 5".as_bytes());
    assert!(r.is_ok());
    let r = r.unwrap();
    if let Frame::Sub { subject, queue, sid } = r {
        assert_eq!(subject, "subject".as_bytes());
        assert_eq!(sid, "5".as_bytes());
        assert!(queue.is_none());
    } else {
        assert!(false, "unkown error");
    }
    let r = process_sub("subject queue 5".as_bytes());
    assert!(r.is_ok());
    let r = r.unwrap();
    if let Frame::Sub { subject, queue, sid } = r {
        assert_eq!(subject, "subject".as_bytes());
        assert_eq!(sid, "5".as_bytes());
        assert_eq!(queue.as_ref().unwrap(), &"queue".as_bytes());
    } else {
        assert!(false, "unkown error");
    }
}

#[test]
fn test_process_pub() {
    let r = process_msg(Op::Pub, "subject 5".as_bytes(), "hello".as_bytes().to_vec());
    assert!(r.is_ok());
    let r = r.unwrap();
    if let Frame::Pub { subject, size_buf, size, msg } = r {
        assert_eq!(subject, "subject".as_bytes());
        assert_eq!(size_buf, "5".as_bytes());
        assert_eq!(size, 5);
        assert_eq!(msg, "hello".as_bytes());
    } else {
        assert!(false, "unkown error");
    }
    let r = process_msg(Op::Pub, "subject 5".as_bytes(), Vec::from("hello".as_bytes()));
    assert!(r.is_ok());
    let r = r.unwrap();
    if let Frame::Pub { subject, size_buf, size, msg } = r {
        assert_eq!(subject, "subject".as_bytes());
        assert_eq!(size_buf, "5".as_bytes());
        assert_eq!(size, 5);
        assert_eq!(msg, "hello".as_bytes());
    } else {
        assert!(false, "unkown error");
    }
}

#[test]
fn test_pub() {
    let mut p = Parser::new();
    assert!(p.parse("aa".as_bytes()).is_err());
    let buf = "PUB subject 5\r\nhello\r\n".as_bytes();
    let r = p.parse(buf);
    println!("r={:?}", r);
    assert!(r.is_ok());
    let r = r.unwrap();
    assert_eq!(r.1, buf.len());
    match r.0 {
        ParseResult::Pub(p) => {
            assert_eq!(p.subject, "subject".as_bytes());
            assert_eq!(p.size, 5);
            assert_eq!(p.size_buf, "5".as_bytes());
            assert_eq!(p.msg, "hello".as_bytes());
        }
        _ => assert!(false, "must be valid pub arg "),
    }
}

#[test]
fn test_sub() {
    let mut p = Parser::new();
    let buf = "SUB subject 1\r\n".as_bytes();
    let r = p.parse(buf);
    assert!(r.is_ok());
    println!("r={:?}", r);
    let r = r.unwrap();
    assert_eq!(r.1, buf.len());
    if let ParseResult::Sub(sub) = r.0 {
        assert_eq!(sub.subject, "subject".as_bytes());
        assert_eq!(sub.sid, "1".as_bytes());
        assert_eq!(sub.queue, None);
    } else {
        assert!(false, "unkown error");
    }

    let buf = "SUB subject queue 1\r\n".as_bytes();
    let r = p.parse(buf);
    println!("r={:?}", r);
    assert!(r.is_ok());
    let r = r.unwrap();
    assert_eq!(r.1, buf.len());
    if let ParseResult::Sub(sub) = r.0 {
        assert_eq!(sub.subject, "subject".as_bytes());
        assert_eq!(sub.sid, "1".as_bytes());
        assert_eq!(sub.queue, Some("queue".as_bytes().to_vec()));
    } else {
        assert!(false, "unkown error");
    }
}

#[test]
fn test_sub2() {
    let mut p = Parser::new();
    let mut buf = "SUB subject 1\r\nSUB subject2 2\r\n".as_bytes();
    loop {
        let r = p.parse(buf);
        assert!(!r.is_err());
        let r = r.unwrap();
        buf = &buf[r.1..];
        match r.0 {
            ParseResult::Sub(sub) => {
                println!("sub.subect={}", String::from_utf8_lossy(&sub.subject));
            }
            _ => panic!(),
        }
        if buf.len() == 0 {
            break;
        }
    }
}

#[test]
fn test_sub3() {
    let mut p = Parser::new();
    let buf = "SUB subject 1\r\nSUB subject2 2\r\n".as_bytes();
    let mut it = p.iter(buf);
    let mut seen = 0;
    while let Some(r) = it.next() {
        assert!(!r.is_err());
        let r = r.unwrap();
        match r {
            ParseResult::Sub(sub) => {
                println!("sub.subect={}", String::from_utf8_lossy(&sub.subject));
                seen += 1;
            }
            ParseResult::NoMsg => {
                break;
            }
            _ => panic!(),
        }
    }
    assert_eq!(seen, 2);
}

#[test]
fn test_no_msg() {
    let mut p = Parser::new();
    let buf = "SUB subject".as_bytes();
    let r = p.parse(buf);
    assert!(r.is_ok());
    println!("r={:?}", r);
    let r = r.unwrap();
    assert_eq!(r.0, ParseResult::NoMsg);
}

fn code(r: Result<(ParseResult, usize), NError>) -> i32 {
    r.unwrap_err().err_code
}

#[test]
fn pub_split_at_every_byte() {
    let frame = "PUB a.b 11\r\nhello world\r\nSUB x 1\r\n".as_bytes();
    let end = "PUB a.b 11\r\nhello world\r\n".len();
    for cut in 1..end {
        let mut p = Parser::new();
        let (first, n) = p.parse(&frame[..cut]).unwrap();
        assert_eq!(first, ParseResult::NoMsg);
        assert_eq!(n, 0);
        let (second, n) = p.parse(&frame[cut..]).unwrap();
        assert_eq!(n, end - cut);
        match second {
            ParseResult::Pub(a) => {
                assert_eq!(a.subject, b"a.b");
                assert_eq!(a.size_buf, b"11");
                assert_eq!(a.size, 11);
                assert_eq!(a.msg, b"hello world");
            }
            _ => panic!("expected a PUB"),
        }
    }
}

#[test]
fn pub_one_byte_at_a_time() {
    let frame = "PUB  \t subject   3\r\nab\n\r\n".as_bytes();
    let mut p = Parser::new();
    for (i, b) in frame.iter().enumerate() {
        let (r, n) = p.parse(&[*b]).unwrap();
        if i + 1 < frame.len() {
            assert_eq!(r, ParseResult::NoMsg);
            assert_eq!(n, 0);
        } else {
            assert_eq!(n, 1);
            match r {
                ParseResult::Pub(a) => {
                    assert_eq!(a.subject, b"subject");
                    assert_eq!(a.msg, b"ab\n");
                }
                _ => panic!("expected a PUB"),
            }
        }
    }
}

#[test]
fn malformed_bytes_are_parse_errors() {
    assert_eq!(code(Parser::new().parse(b"X")), ERROR_PARSE);
    assert_eq!(code(Parser::new().parse(b"SUX")), ERROR_PARSE);
    assert_eq!(code(Parser::new().parse(b"PUBsubject 5\r\n")), ERROR_PARSE);
    assert_eq!(code(Parser::new().parse(b"MSG a 1 1\r\nx\r\n")), ERROR_PARSE);
    assert_eq!(code(Parser::new().parse(b"SUB a\r\n")), ERROR_PARSE);
    assert_eq!(code(Parser::new().parse(b"SUB a b c d\r\n")), ERROR_PARSE);
    assert_eq!(code(Parser::new().parse(b"PUB a five\r\n")), ERROR_PARSE);
    assert_eq!(code(Parser::new().parse(b"PUB a b 5\r\n")), ERROR_PARSE);
    assert_eq!(code(Parser::new().parse(b"PUB 5\r\n")), ERROR_PARSE);
    assert_eq!(code(Parser::new().parse(b"PUB a 5\r\nhelloX\r\n")), ERROR_PARSE);
    assert_eq!(
        code(Parser::new().parse(b"PUB a 99999999999999999999999999\r\n")),
        ERROR_PARSE
    );
}

#[test]
fn payload_size_limits() {
    assert_eq!(code(Parser::new().parse(b"PUB a 0\r\n")), ERROR_MESSAGE_SIZE_TOO_LARGE);
    assert_eq!(code(Parser::new().parse(b"PUB a 1048577\r\n")), ERROR_MESSAGE_SIZE_TOO_LARGE);
    let mut big = b"PUB a 1048576\r\n".to_vec();
    big.extend(std::iter::repeat(7u8).take(1048576));
    big.extend_from_slice(b"\r\n");
    let (r, n) = Parser::new().parse(&big).unwrap();
    assert_eq!(n, big.len());
    match r {
        ParseResult::Pub(a) => {
            assert_eq!(a.size, 1048576);
            assert_eq!(a.msg.len(), 1048576);
        }
        _ => panic!("expected a PUB"),
    }
}

#[test]
fn argument_line_limit() {
    let mut line = b"SUB ".to_vec();
    line.extend(std::iter::repeat(b'a').take(510));
    line.extend_from_slice(b" 1\r\n");
    let (r, _) = Parser::new().parse(&line).unwrap();
    assert!(matches!(r, ParseResult::Sub(_)));
    let mut line = b"SUB ".to_vec();
    line.extend(std::iter::repeat(b'a').take(511));
    line.extend_from_slice(b" 1\r\n");
    assert_eq!(code(Parser::new().parse(&line)), ERROR_PARSE);
}

#[test]
fn an_error_leaves_the_parser_where_it_was() {
    let mut p = Parser::new();
    assert_eq!(p.parse(b"SU").unwrap().0, ParseResult::NoMsg);
    assert!(p.parse(b"X").is_err());
    let (r, n) = p.parse(b"B s 1\r\n").unwrap();
    assert_eq!(n, 7);
    assert!(matches!(r, ParseResult::Sub(_)));
}

#[test]
fn clear_msg_buf_gives_up_a_payload() {
    let mut p = Parser::new();
    assert_eq!(p.parse(b"PUB a 5\r\nhe").unwrap().0, ParseResult::NoMsg);
    p.clear_msg_buf();
    let (r, _) = p.parse(b"SUB s 1\r\n").unwrap();
    assert!(matches!(r, ParseResult::Sub(_)));
    p.clear_msg_buf();
    let (r, _) = p.parse(b"SUB s 2\r\n").unwrap();
    assert!(matches!(r, ParseResult::Sub(_)));
}

#[test]
fn size_with_plus_and_leading_zeros() {
    let (r, _) = Parser::new().parse(b"PUB a +002\r\nhi\r\n").unwrap();
    match r {
        ParseResult::Pub(a) => {
            assert_eq!(a.size, 2);
            assert_eq!(a.size_buf, b"+002");
        }
        _ => panic!("expected a PUB"),
    }
}

#[test]
fn a_walk_ends_at_an_unfinished_frame() {
    let mut p = Parser::new();
    {
        let mut it = p.iter(b"SUB a 1\r\nSUB b q 2\r\nSUB c");
        assert!(matches!(it.next(), Some(Ok(ParseResult::Sub(_)))));
        assert!(matches!(it.next(), Some(Ok(ParseResult::Sub(_)))));
        assert_eq!(it.next().unwrap().unwrap(), ParseResult::NoMsg);
        assert!(it.next().is_none());
    }
    let (r, n) = p.parse(b" 3\r\n").unwrap();
    assert_eq!(n, 4);
    match r {
        ParseResult::Sub(a) => {
            assert_eq!(a.subject, b"c");
            assert_eq!(a.sid, b"3");
        }
        _ => panic!("expected a SUB"),
    }
}

#[test]
fn a_walk_ends_at_an_error() {
    let mut p = Parser::new();
    let mut it = p.iter(b"SUB a 1\r\nNOPE\r\nSUB b 2\r\n");
    assert!(matches!(it.next(), Some(Ok(ParseResult::Sub(_)))));
    assert_eq!(it.next().unwrap().unwrap_err().err_code, ERROR_PARSE);
    assert!(it.next().is_none());
    let mut p = Parser::new();
    assert!(p.iter(b"").next().is_none());
}
