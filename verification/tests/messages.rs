use ivy_rs::ivy_messages::{parse_udp_announce, IvyMsg};
use ivy_rs::ivyerror::IvyError;
use ivy_rs::peer::frame_lines;

fn frame_body(m: &IvyMsg) -> Vec<u8> {
    let mut bytes = m.to_ascii();
    assert_eq!(bytes.pop(), Some(b'\n'));
    bytes
}

#[test]
fn format_ivy_writes_type_ident_params() {
    assert_eq!(IvyMsg::format_ivy(1, 42, b"abc"), b"1 42\x02abc\n".to_vec());
    assert_eq!(IvyMsg::format_ivy(0, 0, b""), b"0 0\x02\n".to_vec());
    assert_eq!(IvyMsg::format_ivy(255, 4294967295, b" x"), b"255 4294967295\x02 x\n".to_vec());
}

#[test]
fn to_ascii_of_each_message() {
    assert_eq!(IvyMsg::Bye.to_ascii(), b"0 0\x02\n".to_vec());
    assert_eq!(IvyMsg::Sub(7, "az (.*)".to_string()).to_ascii(), b"1 7\x02az (.*)\n".to_vec());
    assert_eq!(
        IvyMsg::TextMsg(3, vec!["a".to_string(), "bc".to_string()]).to_ascii(),
        b"2 3\x02a\x03bc\x03\n".to_vec()
    );
    assert_eq!(IvyMsg::TextMsg(3, vec![]).to_ascii(), b"2 3\x02\n".to_vec());
    assert_eq!(IvyMsg::Error("oops".to_string()).to_ascii(), b"3 0\x02oops\n".to_vec());
    assert_eq!(IvyMsg::DelSub(9).to_ascii(), b"4 9\x02\n".to_vec());
    assert_eq!(IvyMsg::EndSub.to_ascii(), b"5 0\x02\n".to_vec());
    assert_eq!(IvyMsg::PeerId(2010, "app".to_string()).to_ascii(), b"6 2010\x02app\n".to_vec());
    assert_eq!(IvyMsg::DirectMsg(42, "yo man".to_string()).to_ascii(), b"7 42\x02yo man\n".to_vec());
    assert_eq!(IvyMsg::Quit.to_ascii(), b"8 0\x02\n".to_vec());
    assert_eq!(IvyMsg::Ping(5).to_ascii(), b"9 5\x02\n".to_vec());
    assert_eq!(IvyMsg::Pong(5).to_ascii(), b"10 5\x02\n".to_vec());
    assert_eq!(IvyMsg::Sub(1, "é".to_string()).to_ascii(), b"1 1\x02\xc3\xa9\n".to_vec());
}

#[test]
fn message_type_numbers() {
    assert_eq!(u8::from(&IvyMsg::Bye), 0);
    assert_eq!(u8::from(&IvyMsg::Sub(0, String::new())), 1);
    assert_eq!(u8::from(&IvyMsg::TextMsg(0, vec![])), 2);
    assert_eq!(u8::from(&IvyMsg::Error(String::new())), 3);
    assert_eq!(u8::from(&IvyMsg::DelSub(0)), 4);
    assert_eq!(u8::from(&IvyMsg::EndSub), 5);
    assert_eq!(u8::from(&IvyMsg::PeerId(0, String::new())), 6);
    assert_eq!(u8::from(&IvyMsg::DirectMsg(0, String::new())), 7);
    assert_eq!(u8::from(&IvyMsg::Quit), 8);
    assert_eq!(u8::from(&IvyMsg::Ping(0)), 9);
    assert_eq!(u8::from(&IvyMsg::Pong(0)), 10);
}

#[test]
fn new_builds_each_type() {
    assert!(matches!(IvyMsg::new(0, 5, b"x"), Some(IvyMsg::Bye)));
    assert!(matches!(IvyMsg::new(1, 5, b"re"), Some(IvyMsg::Sub(5, ref s)) if s == "re"));
    assert!(matches!(IvyMsg::new(2, 5, b"a\x03b"),
        Some(IvyMsg::TextMsg(5, ref ps)) if *ps == vec!["a".to_string(), "b".to_string()]));
    assert!(matches!(IvyMsg::new(2, 5, b""), Some(IvyMsg::TextMsg(5, ref ps)) if *ps == vec![String::new()]));
    assert!(matches!(IvyMsg::new(3, 5, b"bad"), Some(IvyMsg::Error(ref s)) if s == "bad"));
    assert!(matches!(IvyMsg::new(4, 5, b""), Some(IvyMsg::DelSub(5))));
    assert!(matches!(IvyMsg::new(5, 5, b""), Some(IvyMsg::EndSub)));
    assert!(matches!(IvyMsg::new(6, 70000, b"n"), Some(IvyMsg::PeerId(4464, ref s)) if s == "n"));
    assert!(matches!(IvyMsg::new(7, 5, b"t"), Some(IvyMsg::DirectMsg(5, ref s)) if s == "t"));
    assert!(matches!(IvyMsg::new(8, 5, b""), Some(IvyMsg::Quit)));
    assert!(matches!(IvyMsg::new(9, 5, b""), Some(IvyMsg::Ping(5))));
    assert!(matches!(IvyMsg::new(10, 5, b""), Some(IvyMsg::Pong(5))));
    assert!(IvyMsg::new(11, 5, b"").is_none());
}

#[test]
fn parse_inverts_format_ivy() {
    let frame = IvyMsg::format_ivy(7, 12, b"hello there");
    let msg = IvyMsg::parse(&frame[..frame.len() - 1]).unwrap();
    assert!(matches!(msg, IvyMsg::DirectMsg(12, ref t) if t == "hello there"));
    let frame = IvyMsg::format_ivy(42, 1, b"");
    assert!(matches!(IvyMsg::parse(&frame[..frame.len() - 1]), Err(IvyError::ParseFail)));
}

#[test]
fn message_roundtrip() {
    let msgs = vec![
        IvyMsg::Bye,
        IvyMsg::Sub(3, "^az ([0-9]+) (.*)$".to_string()),
        IvyMsg::Error("a b\x02c".to_string()),
        IvyMsg::DelSub(3),
        IvyMsg::EndSub,
        IvyMsg::PeerId(65535, "peer name".to_string()),
        IvyMsg::DirectMsg(4294967295, "ünï".to_string()),
        IvyMsg::Quit,
        IvyMsg::Ping(77),
        IvyMsg::Pong(78),
    ];
    for m in msgs {
        let back = IvyMsg::parse(&frame_body(&m)).unwrap();
        assert_eq!(format!("{:?}", back), format!("{:?}", m));
    }
}

#[test]
fn text_message_roundtrip_gains_empty_argument() {
    let m = IvyMsg::TextMsg(4, vec!["12".to_string(), "hello you".to_string()]);
    let back = IvyMsg::parse(&frame_body(&m)).unwrap();
    assert!(matches!(back, IvyMsg::TextMsg(4, ref ps)
        if *ps == vec!["12".to_string(), "hello you".to_string(), String::new()]));
}

#[test]
fn parse_errors() {
    assert!(matches!(IvyMsg::parse(b"1 2"), Err(IvyError::ParseFail)));
    assert!(matches!(IvyMsg::parse(b""), Err(IvyError::ParseFail)));
    assert!(matches!(IvyMsg::parse(b"x 1\x02"), Err(IvyError::ParseError(_))));
    assert!(matches!(IvyMsg::parse(b"1 y\x02"), Err(IvyError::ParseError(_))));
    assert!(matches!(IvyMsg::parse(b"4294967296 1\x02"), Err(IvyError::ParseError(_))));
    assert!(matches!(IvyMsg::parse(b"-1 1\x02"), Err(IvyError::ParseError(_))));
    assert!(matches!(IvyMsg::parse(b"99 1\x02"), Err(IvyError::ParseFail)));
}

#[test]
fn parse_field_separators() {
    assert!(matches!(IvyMsg::parse(b"+5 1 "), Ok(IvyMsg::EndSub)));
    assert!(matches!(IvyMsg::parse(b"1\x022 abc def"), Ok(IvyMsg::Sub(2, ref s)) if s == "abc def"));
    assert!(matches!(IvyMsg::parse(b"9 3\x02"), Ok(IvyMsg::Ping(3))));
}

#[test]
fn decodable_frames() {
    assert!(IvyMsg::decodable(b"1 2\x02abc"));
    assert!(!IvyMsg::decodable(b"1 2\x02\xff"));
    assert!(!IvyMsg::decodable(b"2 2\x02ok\x03\xc3"));
    assert!(IvyMsg::decodable(b"4 2\x02\xff"));
    assert!(!IvyMsg::decodable(b"1 \xff\x02"));
    assert!(IvyMsg::decodable(b"x \xff\x02"));
    assert!(!IvyMsg::decodable(b"\xff \xff\x02"));
    assert!(IvyMsg::decodable(b"no separators"));
}

#[test]
fn announce_parsing() {
    let (v, port, watcher, name) = parse_udp_announce("3 2010 app_2010 app\n").unwrap();
    assert_eq!((v, port), (3, 2010));
    assert_eq!(watcher, "app_2010");
    assert_eq!(name, "app\n");
    assert!(matches!(parse_udp_announce("3 2010 app"), Err(IvyError::ParseAnnounceError)));
    assert!(matches!(parse_udp_announce("3 2010 a b c"), Err(IvyError::ParseAnnounceError)));
    assert!(matches!(parse_udp_announce("v 2010 a b"), Err(IvyError::ParseError(_))));
    assert!(matches!(parse_udp_announce("3 70000 a b"), Err(IvyError::ParseError(_))));
    assert!(matches!(parse_udp_announce("300 2010 w n"), Err(IvyError::ParseError(_))));
    assert!(matches!(parse_udp_announce("256 2010 w n"), Err(IvyError::ParseError(_))));
    let (v, _, _, _) = parse_udp_announce("255 1 w n").unwrap();
    assert_eq!(v, 255u8);
    let (_, _, w, n) = parse_udp_announce("3 1 ï_1 ü").unwrap();
    assert_eq!((w.as_str(), n.as_str()), ("ï_1", "ü"));
}

#[test]
fn frames_in_a_read() {
    let lines = frame_lines(b"1 2\x02a\n\n3 0\x02\n9 1\x02");
    assert_eq!(lines, vec![b"1 2\x02a".to_vec(), b"3 0\x02".to_vec(), b"9 1\x02".to_vec()]);
    assert!(frame_lines(b"\n\n").is_empty());
    assert!(frame_lines(b"").is_empty());
}

#[test]
fn errors_convert() {
    let io = std::io::Error::new(std::io::ErrorKind::Other, "x");
    assert!(matches!(IvyError::from(io), IvyError::IoError(_)));
    let pe = "z".parse::<u32>().unwrap_err();
    assert!(matches!(IvyError::from(pe), IvyError::ParseError(_)));
}

#[test]
fn written_messages_read_back() {
    let msgs = vec![
        IvyMsg::PeerId(2010, "me".to_string()),
        IvyMsg::Sub(0, "az ([0-9]+) (.*)".to_string()),
        IvyMsg::EndSub,
        IvyMsg::TextMsg(0, vec!["12".to_string(), "x y".to_string()]),
    ];
    let mut stream: Vec<u8> = Vec::new();
    for m in &msgs {
        stream.extend(m.to_ascii());
    }
    let lines = frame_lines(&stream);
    assert_eq!(lines.len(), 4);
    let back: Vec<String> = lines.iter().map(|l| format!("{:?}", IvyMsg::parse(l).unwrap())).collect();
    assert_eq!(back[0], format!("{:?}", msgs[0]));
    assert_eq!(back[1], format!("{:?}", msgs[1]));
    assert_eq!(back[2], format!("{:?}", msgs[2]));
    assert_eq!(back[3], "TextMsg(0, [\"12\", \"x y\", \"\"])");
}
