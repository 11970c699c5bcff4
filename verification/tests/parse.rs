use rcc::db::data_type::SimpleType;
use rcc::parse::frame::{parse, parse_frame, Error, Frame, ParseError};
use rcc::parse::to_bytes::{append_arg, build_cmd, ToVecU8};

fn nested_frame() -> Frame {
    Frame::Array(vec![
        Frame::Array(vec![Frame::Integer(1), Frame::Bulk(b"hello".to_vec()), Frame::Integer(2)]),
        Frame::Simple("abc".to_owned()),
    ])
}

#[test]
fn frame_test() {
    let s = "*2\r\n*3\r\n:1\r\n$5\r\nhello\r\n:2\r\n+abc\r\n";
    let (_, f) = parse(s.as_bytes()).unwrap();
    assert_eq!(nested_frame(), f)
}

#[test]
fn frame_test2() {
    fn f(x: i32) -> i32 {
        x + 1
    }
    let a = 1;
    for _ in 0..10 {
        let a = f(a);
        println!("{}", a);
    }
}

#[test]
fn mod_test() {
    let s = "*2\r\n*3\r\n:1\r\n$5\r\nhello\r\n:2\r\n+abc\r\n";
    let (_, f) = rcc::parse2::parse(s.as_bytes()).unwrap();
    let expected: rcc::parse2::Frame = nested_frame();
    assert_eq!(expected, f)
}

#[test]
fn mod_test2() {
    fn f(x: i32) -> i32 {
        x + 1
    }
    let a = 1;
    for _ in 0..10 {
        let a = f(a);
        println!("{}", a);
    }
}

#[test]
fn to_bytes_test() {
    let s = "123".to_string();
    let _t: bytes::Bytes = s.into();
    assert_eq!(vec![b'1', b'2', b'3'], Vec::from(&b"123"[..]));
}

#[test]
fn parse_leaves_the_rest() {
    let (rest, f) = parse(b"+OK\r\n:7\r\n").unwrap();
    assert_eq!(f, Frame::Simple("OK".to_owned()));
    assert_eq!(rest, b":7\r\n");
    let (rest, f) = parse(rest).unwrap();
    assert_eq!(f, Frame::Integer(7));
    assert!(rest.is_empty());
}

#[test]
fn parse_each_kind() {
    assert_eq!(parse_frame(b"-ERR bad\r\n").unwrap(), (10, Frame::Error("ERR bad".to_owned())));
    assert_eq!(parse_frame(b":-42\r\n").unwrap(), (6, Frame::Integer(-42)));
    assert_eq!(parse_frame(b"$-1\r\n").unwrap(), (5, Frame::Null));
    assert_eq!(parse_frame(b"*-1\r\n").unwrap(), (5, Frame::Null));
    assert_eq!(parse_frame(b"$0\r\n\r\n").unwrap(), (6, Frame::Bulk(vec![])));
    assert_eq!(parse_frame(b"*0\r\n").unwrap(), (4, Frame::Array(vec![])));
    assert_eq!(parse_frame(b"+\r\n").unwrap(), (3, Frame::Simple(String::new())));
}

#[test]
fn parse_refuses_bad_input() {
    assert!(matches!(parse_frame(b""), Err(ParseError::Mismatch)));
    assert!(matches!(parse_frame(b"?x\r\n"), Err(ParseError::Mismatch)));
    assert!(matches!(parse_frame(b"$5\r\nhel"), Err(ParseError::Mismatch)));
    assert!(matches!(parse_frame(b"-\r\n"), Err(ParseError::Mismatch)));
    assert!(matches!(parse_frame(b"+ab"), Err(ParseError::Mismatch)));
    assert!(matches!(parse_frame(b"+\xff\r\n"), Err(ParseError::Malformed)));
}

#[test]
fn command_round_trip() {
    let mut cmd = build_cmd("GET".to_owned(), 1);
    append_arg(&mut cmd, "hello".to_owned());
    assert_eq!(cmd, b"*2\r\n$3\r\nGET\r\n$5\r\nhello\r\n".to_vec());
    let (n, f) = parse_frame(&cmd).unwrap();
    assert_eq!(n, cmd.len());
    assert_eq!(f, Frame::Array(vec![Frame::Bulk(b"GET".to_vec()), Frame::Bulk(b"hello".to_vec())]));
}

#[test]
fn wire_bytes_of_values() {
    assert_eq!((-12i64).into_vec_u8(), b"$3\r\n-12\r\n".to_vec());
    assert_eq!(7u64.into_vec_u8(), b"$1\r\n7\r\n".to_vec());
    assert_eq!(SimpleType::Null.into_vec_u8(), b"$-1".to_vec());
    assert_eq!(SimpleType::Blob(b"ab".to_vec()).into_vec_u8(), b"ab".to_vec());
    assert_eq!(Some(3i64).into_vec_u8(), b"$1\r\n3\r\n".to_vec());
    assert_eq!(None::<i64>.into_vec_u8(), b"".to_vec());
    assert_eq!((1i64, 2i64).into_vec_u8(), b"$1\r\n1\r\n$1\r\n2\r\n".to_vec());
}

#[test]
fn frame_eq_str_and_error_text() {
    assert!(Frame::Simple("OK".to_owned()).eq_str("OK"));
    assert!(Frame::Bulk(b"OK".to_vec()).eq_str("OK"));
    assert!(!Frame::Integer(1).eq_str("1"));
    assert_eq!(Error::Incomplete.message(), "stream ended early");
    assert_eq!(Error::Other("bad".to_owned()).message(), "bad");
    let f: Frame = SimpleType::Integer(3).into();
    assert_eq!(f, Frame::Integer(3));
    let f: Frame = SimpleType::Blob(b"x".to_vec()).into();
    assert_eq!(f, Frame::Bulk(b"x".to_vec()));
}

#[test]
fn frames_as_text() {
    assert_eq!(Frame::Simple("OK".to_owned()).to_string(), "OK");
    assert_eq!(Frame::Error("bad".to_owned()).to_string(), "error: bad");
    assert_eq!(Frame::Integer(-42).to_string(), "-42");
    assert_eq!(Frame::Integer(i64::MIN).to_string(), i64::MIN.to_string());
    assert_eq!(Frame::Bulk("héllo".as_bytes().to_vec()).to_string(), "héllo");
    assert_eq!(Frame::Bulk(vec![0xff, b'a', b'\n', b'"', 0, 7]).to_string(), "b\"\\xffa\\n\\\"\\0\\x07\"");
    assert_eq!(Frame::Null.to_string(), "(nil)");
    let arr = Frame::Array(vec![
        Frame::Simple("GET".to_owned()),
        Frame::Bulk(b"key".to_vec()),
        Frame::Array(vec![Frame::Integer(1), Frame::Integer(2)]),
    ]);
    assert_eq!(arr.to_string(), " key  2");
    assert_eq!(Frame::Array(vec![]).to_string(), "");
}

#[test]
fn values_as_bytes() {
    assert_eq!(SimpleType::Blob(b"ab".to_vec()).into_bytes(), b"ab".to_vec());
    assert_eq!(SimpleType::SimpleString("hé".to_owned()).into_bytes(), "hé".as_bytes().to_vec());
    assert_eq!(SimpleType::Integer(-7).into_bytes(), b"-7".to_vec());
    assert_eq!(SimpleType::Null.into_bytes(), Vec::<u8>::new());
}
