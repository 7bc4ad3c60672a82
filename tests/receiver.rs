use rsync_fetcher::receiver::{decode_token, read_instructions, rebuild_file, Instruction, RebuildError, Token};

#[test]
fn token_decoding() {
    assert_eq!(decode_token([0, 0, 0, 0]), Token::End);
    assert_eq!(decode_token([5, 0, 0, 0]), Token::Literal(5));
    assert_eq!(decode_token([0xFF, 0xFF, 0xFF, 0xFF]), Token::Match(0));
    assert_eq!(decode_token([0xFD, 0xFF, 0xFF, 0xFF]), Token::Match(2));
    assert_eq!(decode_token([0x00, 0x00, 0x00, 0x80]), Token::Match(0x7FFF_FFFF));
}

#[test]
fn rebuild_from_literals_and_blocks() {
    let basis = b"abcdefghij".to_vec();
    let ins = vec![
        Instruction::Match(1),
        Instruction::Literal(b"XY".to_vec()),
        Instruction::Match(0),
        Instruction::Match(3),
    ];
    assert_eq!(rebuild_file(&basis, 3, &ins), Ok(b"defXYabcj".to_vec()));
}

#[test]
fn rebuild_whole_file_without_basis() {
    let ins = vec![Instruction::Literal(b"hello ".to_vec()), Instruction::Literal(b"world".to_vec())];
    assert_eq!(rebuild_file(&[], 700, &ins), Ok(b"hello world".to_vec()));
    assert_eq!(rebuild_file(&[], 700, &[]), Ok(Vec::new()));
}

#[test]
fn rebuild_rejects_missing_block() {
    let basis = b"abcdefghij".to_vec();
    let ins = vec![Instruction::Literal(b"ok".to_vec()), Instruction::Match(4)];
    assert_eq!(rebuild_file(&basis, 3, &ins), Err(RebuildError::BlockOutOfRange(4)));
    assert_eq!(
        rebuild_file(&[], 1, &[Instruction::Match(0)]),
        Err(RebuildError::BlockOutOfRange(0))
    );
}

fn views(ins: &[Instruction]) -> Vec<(bool, Vec<u8>, u32)> {
    ins.iter()
        .map(|i| match i {
            Instruction::Literal(b) => (true, b.clone(), 0),
            Instruction::Match(k) => (false, Vec::new(), *k),
        })
        .collect()
}

#[test]
fn token_stream_to_instructions() {
    let mut s = vec![3, 0, 0, 0, b'a', b'b', b'c'];
    s.extend([0xFE, 0xFF, 0xFF, 0xFF]);
    s.extend([0, 0, 0, 0]);
    s.extend([9, 9]);
    let (ins, used) = read_instructions(&s).unwrap();
    assert_eq!(used, 15);
    assert_eq!(views(&ins), vec![(true, b"abc".to_vec(), 0), (false, Vec::new(), 1)]);
    let basis = b"0123456789".to_vec();
    assert_eq!(rebuild_file(&basis, 4, &ins), Ok(b"abc4567".to_vec()));
}

#[test]
fn token_stream_cut_short() {
    assert!(read_instructions(&[]).is_none());
    assert!(read_instructions(&[3, 0, 0, 0, b'a']).is_none());
    assert!(read_instructions(&[0xFF, 0xFF, 0xFF, 0xFF]).is_none());
    let (ins, used) = read_instructions(&[0, 0, 0, 0]).unwrap();
    assert!(ins.is_empty());
    assert_eq!(used, 4);
}
