use rsync_fetcher::handshake::{ErrorKind, HandshakeConn, Phase, Reply};
use rsync_fetcher::seed::decode_seed;
use rsync_fetcher::version::{parse_version_line, supported_version, Version};

fn write_of(r: Result<Reply, rsync_fetcher::handshake::HandshakeError>) -> Vec<u8> {
    match r {
        Ok(Reply::Write(b)) => b,
        other => panic!("expected bytes to write, got {:?}", other),
    }
}

fn started(module: &str, path: &str) -> (HandshakeConn, Vec<u8>) {
    let mut conn = HandshakeConn::new();
    let hello = conn.start_inband_exchange(module.as_bytes(), path.as_bytes()).unwrap();
    (conn, hello)
}

fn options_for(path: &str) -> Vec<u8> {
    format!("--server\n--sender\n-ltpr\n.\n{path}\n\n").into_bytes()
}

#[test]
fn seed_decoding_is_little_endian() {
    assert_eq!(decode_seed([0x2A, 0x00, 0x00, 0x00]), 42);
    assert_eq!(decode_seed([0xFF, 0xFF, 0xFF, 0xFF]), -1);
    assert_eq!(decode_seed([0x00, 0x00, 0x00, 0x80]), i32::MIN);
    assert_eq!(decode_seed([0xFF, 0xFF, 0xFF, 0x7F]), i32::MAX);
    assert_eq!(decode_seed([0x01, 0x02, 0x03, 0x04]), 0x0403_0201);
}

#[test]
fn supported_version_line() {
    assert_eq!(supported_version().encode(), b"@RSYNCD: 27.0\n".to_vec());
    assert_eq!(Version { major: 31, minor: 14 }.encode(), b"@RSYNCD: 31.14\n".to_vec());
}

#[test]
fn version_line_parsing() {
    assert_eq!(parse_version_line(b"@RSYNCD: 30.0\n"), Some(Version { major: 30, minor: 0 }));
    assert_eq!(
        parse_version_line(b"@RSYNCD: 4294967295.12\n"),
        Some(Version { major: 4294967295, minor: 12 })
    );
    assert_eq!(parse_version_line(b"@RSYNCD: 4294967296.0\n"), None);
    assert_eq!(parse_version_line(b"@RSYNCD: 030.0\n"), None);
    assert_eq!(parse_version_line(b"@RSYNCD: 30\n"), None);
    assert_eq!(parse_version_line(b"@RSYNCD: 30.0"), None);
    assert_eq!(parse_version_line(b"@RSYNC: 30.0\n"), None);
    assert_eq!(parse_version_line(b"@RSYNCD: .0\n"), None);
    assert_eq!(parse_version_line(b""), None);
}

#[test]
fn end_to_end_handshake() {
    let (mut conn, hello) = started("backup", "/data");
    let mut written = hello;
    written.extend(write_of(conn.receive_line(b"@RSYNCD: 30.0\n")));
    assert_eq!(conn.phase, Phase::ReadingMotd);
    match conn.receive_line(b"Welcome\n") {
        Ok(Reply::Show(text)) => assert_eq!(text, b"Welcome".to_vec()),
        other => panic!("expected a motd line, got {:?}", other),
    }
    written.extend(write_of(conn.receive_line(b"@RSYNCD: OK\n")));
    assert_eq!(conn.phase, Phase::AwaitingSeed);
    let mut expected = b"@RSYNCD: 27.0\nbackup\n".to_vec();
    expected.extend(options_for("/data"));
    assert_eq!(written, expected);
    let start = conn.finalize([1, 0, 0, 0], &[]).unwrap();
    assert_eq!(start.seed, 1);
    assert_eq!(start.filter_block, vec![0, 0, 0, 0]);
}

#[test]
fn every_supported_major_reaches_the_seed() {
    for major in [27u32, 28, 29, 30, 31, 100] {
        let (mut conn, _) = started("m", "p");
        let line = format!("@RSYNCD: {major}.0\n");
        assert_eq!(write_of(conn.receive_line(line.as_bytes())), b"m\n".to_vec());
        assert_eq!(write_of(conn.receive_line(b"@RSYNCD: OK\n")), options_for("p"));
        assert_eq!(conn.phase, Phase::AwaitingSeed);
        assert!(conn.finalize([0, 0, 0, 0], &[]).is_ok());
    }
}

#[test]
fn old_version_fails_before_options() {
    for major in [0u32, 10, 26] {
        let (mut conn, _) = started("m", "p");
        let line = format!("@RSYNCD: {major}.9\n");
        let err = conn.receive_line(line.as_bytes()).unwrap_err();
        assert_eq!(err.kind, ErrorKind::VersionTooOld);
        assert!(err.is_protocol_error());
        assert_eq!(conn.phase, Phase::Failed);
        assert_eq!(conn.receive_line(b"@RSYNCD: OK\n").unwrap_err().kind, ErrorKind::OutOfOrder);
    }
}

#[test]
fn malformed_version_and_eof() {
    let (mut conn, _) = started("m", "p");
    assert_eq!(conn.receive_line(b"HELLO\n").unwrap_err().kind, ErrorKind::MalformedVersion);
    let (mut conn, _) = started("m", "p");
    assert_eq!(conn.receive_line(b"").unwrap_err().kind, ErrorKind::UnexpectedEof);
    let (mut conn, _) = started("m", "p");
    write_of(conn.receive_line(b"@RSYNCD: 30.0\n"));
    assert_eq!(conn.receive_line(b"").unwrap_err().kind, ErrorKind::UnexpectedEof);
}

#[test]
fn motd_lines_in_order_then_ok() {
    let (mut conn, _) = started("m", "p");
    write_of(conn.receive_line(b"@RSYNCD: 29.0\n"));
    let mut shown = Vec::new();
    for line in [&b"first\n"[..], b"second  \r\n", b"\n", b"@RSYNCD: NOTOK\n"] {
        match conn.receive_line(line) {
            Ok(Reply::Show(text)) => shown.push(text),
            other => panic!("expected a motd line, got {:?}", other),
        }
    }
    assert_eq!(
        shown,
        vec![b"first".to_vec(), b"second".to_vec(), Vec::new(), b"@RSYNCD: NOTOK".to_vec()]
    );
    assert_eq!(write_of(conn.receive_line(b"@RSYNCD: OK\n")), options_for("p"));
    assert_eq!(conn.receive_line(b"more\n").unwrap_err().kind, ErrorKind::OutOfOrder);
}

#[test]
fn server_error_line_fails() {
    let (mut conn, _) = started("m", "p");
    write_of(conn.receive_line(b"@RSYNCD: 30.0\n"));
    let err = conn.receive_line(b"@ERROR foo\n").unwrap_err();
    assert_eq!(err.kind, ErrorKind::Server);
    assert_eq!(err.detail, b"@ERROR foo\n".to_vec());
    assert!(!err.is_protocol_error());
    assert_eq!(conn.phase, Phase::Failed);
    assert_eq!(conn.finalize([0, 0, 0, 0], &[]).unwrap_err().kind, ErrorKind::OutOfOrder);
}

#[test]
fn auth_required_fails() {
    let (mut conn, _) = started("m", "p");
    write_of(conn.receive_line(b"@RSYNCD: 30.0\n"));
    let err = conn.receive_line(b"@RSYNCD: AUTHREQD x\n").unwrap_err();
    assert_eq!(err.kind, ErrorKind::AuthRequired);
    assert!(!err.is_protocol_error());
    assert_eq!(conn.phase, Phase::Failed);
}

#[test]
fn steps_out_of_order() {
    let mut conn = HandshakeConn::new();
    assert_eq!(conn.receive_line(b"@RSYNCD: 30.0\n").unwrap_err().kind, ErrorKind::OutOfOrder);
    let (mut conn, _) = started("m", "p");
    assert_eq!(
        conn.start_inband_exchange(b"m", b"p").unwrap_err().kind,
        ErrorKind::OutOfOrder
    );
    assert_eq!(conn.phase, Phase::Failed);
    let (conn, _) = started("m", "p");
    assert_eq!(conn.finalize([1, 0, 0, 0], &[]).unwrap_err().kind, ErrorKind::OutOfOrder);
}
