use rsync_fetcher::envelope::{demultiplex, EnvelopeError, EnvelopeRead, FrameStart};
use rsync_fetcher::filter::{decode_filter_block, encode_filter_block, Rule, RuleKind};
use rsync_fetcher::handshake::{HandshakeConn, Reply};

fn frame(tag: u8, payload: &[u8]) -> Vec<u8> {
    let n = payload.len();
    let mut f = vec![(n & 0xff) as u8, ((n >> 8) & 0xff) as u8, ((n >> 16) & 0xff) as u8, tag];
    f.extend_from_slice(payload);
    f
}

#[test]
fn interleaved_frames_yield_only_data() {
    let d1: Vec<u8> = (0u8..10).collect();
    let info = b"hello".to_vec();
    let d2 = vec![100u8, 101, 102];
    let mut stream = frame(7, &d1);
    stream.extend(frame(9, &info));
    stream.extend(frame(7, &d2));
    let out = demultiplex(&stream).unwrap();
    assert_eq!(out.data.len(), 13);
    let mut expected = d1.clone();
    expected.extend(&d2);
    assert_eq!(out.data, expected);
    assert_eq!(out.messages.len(), 1);
    assert_eq!(out.messages[0].code, 2);
    assert_eq!(out.messages[0].payload, info);
}

#[test]
fn empty_stream_and_long_frame() {
    let out = demultiplex(&[]).unwrap();
    assert!(out.data.is_empty() && out.messages.is_empty());
    let big = vec![5u8; 70_000];
    let out = demultiplex(&frame(7, &big)).unwrap();
    assert_eq!(out.data, big);
}

#[test]
fn fatal_frame_is_a_server_error() {
    let mut stream = frame(7, b"abc");
    stream.extend(frame(10, b"boom"));
    stream.extend(frame(7, b"never"));
    match demultiplex(&stream) {
        Err(EnvelopeError::Server(code, text)) => {
            assert_eq!(code, 3);
            assert_eq!(text, b"boom".to_vec());
        }
        other => panic!("expected a server error, got {:?}", other),
    }
    match demultiplex(&frame(8, b"xfer")) {
        Err(EnvelopeError::Server(1, _)) => {}
        other => panic!("expected a transfer error, got {:?}", other),
    }
}

#[test]
fn bad_tag_and_truncation() {
    assert!(matches!(demultiplex(&frame(6, b"x")), Err(EnvelopeError::BadTag(6))));
    assert!(matches!(demultiplex(&[1, 0]), Err(EnvelopeError::Truncated)));
    assert!(matches!(demultiplex(&[5, 0, 0, 7, 1, 2]), Err(EnvelopeError::Truncated)));
}

#[test]
fn rule_round_trip() {
    for (kind, pattern) in [
        (RuleKind::Include, &b"/src"[..]),
        (RuleKind::Exclude, b"*.tmp"),
        (RuleKind::Exclude, b""),
        (RuleKind::Include, b"/"),
    ] {
        let rule = Rule::new(kind, pattern);
        let back = Rule::decode(&rule.encode()).unwrap();
        assert_eq!(back.kind, rule.kind);
        assert_eq!(back.pattern, rule.pattern);
        assert_eq!(back.anchored, rule.anchored);
    }
}

#[test]
fn rule_anchoring_and_encoding() {
    let anchored = Rule::new(RuleKind::Include, b"/src");
    assert!(anchored.anchored);
    assert_eq!(anchored.pattern, b"src".to_vec());
    assert_eq!(anchored.encode(), b"+ /src".to_vec());
    let floating = Rule::new(RuleKind::Exclude, b"*.tmp");
    assert!(!floating.anchored);
    assert_eq!(floating.encode(), b"- *.tmp".to_vec());
    assert!(Rule::decode(b"x foo").is_none());
    assert!(Rule::decode(b"+").is_none());
    assert!(Rule::decode(b"+foo").is_none());
}

#[test]
fn filter_block_bytes() {
    let rules = vec![Rule::new(RuleKind::Include, b"/src"), Rule::new(RuleKind::Exclude, b"*")];
    let mut expected = vec![6, 0, 0, 0];
    expected.extend(b"+ /src");
    expected.extend([3, 0, 0, 0]);
    expected.extend(b"- *");
    expected.extend([0, 0, 0, 0]);
    assert_eq!(encode_filter_block(&rules), expected);
    assert_eq!(encode_filter_block(&[]), vec![0, 0, 0, 0]);
}

#[test]
fn finalize_carries_seed_and_rules() {
    let mut conn = HandshakeConn::new();
    conn.start_inband_exchange(b"mod", b"dir").unwrap();
    assert!(matches!(conn.receive_line(b"@RSYNCD: 31.0\n"), Ok(Reply::Write(_))));
    assert!(matches!(conn.receive_line(b"@RSYNCD: OK\n"), Ok(Reply::Write(_))));
    let rules = vec![Rule::new(RuleKind::Exclude, b"/tmp")];
    let start = conn.finalize([0xFE, 0xFF, 0xFF, 0xFF], &rules).unwrap();
    assert_eq!(start.seed, -2);
    assert_eq!(start.filter_block, encode_filter_block(&rules));
}

#[test]
fn envelope_reader_steps() {
    let mut env = EnvelopeRead::new();
    assert!(env.needs_header());
    assert_eq!(env.begin_frame([10, 0, 0, 7]), Ok(FrameStart::Data(10)));
    assert!(!env.needs_header());
    assert_eq!(env.take_data(4), 4);
    assert_eq!(env.take_data(100), 6);
    assert!(env.needs_header());
    assert_eq!(env.begin_frame([5, 0, 0, 9]), Ok(FrameStart::Message(2, 5)));
    assert!(env.needs_header());
    assert_eq!(env.begin_frame([0x03, 0x02, 0x01, 10]), Ok(FrameStart::Fatal(3, 0x010203)));
    assert_eq!(env.begin_frame([1, 0, 0, 6]), Err(EnvelopeError::BadTag(6)));
}

#[test]
fn filter_block_round_trip() {
    let rules = vec![
        Rule::new(RuleKind::Include, b"/src/**"),
        Rule::new(RuleKind::Exclude, b"*.o"),
        Rule::new(RuleKind::Exclude, b"/"),
    ];
    let mut block = encode_filter_block(&rules);
    let len = block.len();
    block.extend([1, 2, 3]);
    let (back, used) = decode_filter_block(&block).unwrap();
    assert_eq!(used, len);
    assert_eq!(back.len(), rules.len());
    for (a, b) in back.iter().zip(rules.iter()) {
        assert_eq!(a.kind, b.kind);
        assert_eq!(a.pattern, b.pattern);
        assert_eq!(a.anchored, b.anchored);
    }
}

#[test]
fn filter_block_malformed() {
    assert!(decode_filter_block(&[0, 0, 0]).is_none());
    assert!(decode_filter_block(&[3, 0, 0, 0, b'+', b' ']).is_none());
    assert!(decode_filter_block(&[2, 0, 0, 0, b'x', b' ', 0, 0, 0, 0]).is_none());
    assert!(decode_filter_block(&[2, 0, 0, 0, b'+', b' ']).is_none());
    let (rules, used) = decode_filter_block(&[0, 0, 0, 0]).unwrap();
    assert!(rules.is_empty());
    assert_eq!(used, 4);
}
