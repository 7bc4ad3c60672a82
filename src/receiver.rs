use vstd::prelude::*;

use crate::bytes::{append_bytes, copy_range};
use crate::seed::{decode_seed, le_i32};

verus! {

/// One token of a file's delta stream, as sent ahead of its data.
#[derive(Clone, Copy, Debug, PartialEq, Eq, Structural)]
pub enum Token {
    /// The file is complete.
    End,
    /// This many literal bytes follow.
    Literal(u32),
    /// Copy the block of this index from the existing file.
    Match(u32),
}

/// The token that a signed 32-bit value stands for: zero ends the file, a
/// positive value announces literal bytes, and `-(i + 1)` names block `i`.
pub open spec fn token_of(t: int) -> Token {
    if t == 0 {
        Token::End
    } else if t > 0 {
        Token::Literal(t as u32)
    } else {
        Token::Match((-(t + 1)) as u32)
    }
}

/// Decodes a token from its four little-endian bytes.
pub fn decode_token(b: [u8; 4]) -> (r: Token)
    ensures
        r == token_of(le_i32(b@)),
{
    let t = decode_seed(b);
    if t == 0 {
        Token::End
    } else if t > 0 {
        Token::Literal(t as u32)
    } else {
        Token::Match((-(t + 1)) as u32)
    }
}

/// An instruction for rebuilding a file.
#[derive(Clone, Debug)]
pub enum Instruction {
    /// Bytes sent by the server.
    Literal(Vec<u8>),
    /// A block of the existing file, by index.
    Match(u32),
}

/// An instruction as a value of the model.
pub enum InstructionView {
    Literal(Seq<u8>),
    Match(u32),
}

impl View for Instruction {
    type V = InstructionView;

    open spec fn view(&self) -> InstructionView {
        match self {
            Instruction::Literal(b) => InstructionView::Literal(b@),
            Instruction::Match(i) => InstructionView::Match(*i),
        }
    }
}

pub open spec fn instructions_view(ins: Seq<Instruction>) -> Seq<InstructionView> {
    ins.map_values(|x: Instruction| x@)
}

/// Puts instructions and a count of bytes in front of what the rest of a
/// token stream yields.
pub open spec fn prepend_parsed(ins: Seq<InstructionView>, used: nat, rest: Option<(Seq<InstructionView>, nat)>) -> Option<(Seq<InstructionView>, nat)> {
    match rest {
        Some((more, n)) => Some((ins + more, used + n)),
        None => None,
    }
}

/// The instructions of one file's token stream at the start of `s`, and the
/// number of bytes up to and including its end token; `None` when `s` ends first.
pub open spec fn parse_tokens(s: Seq<u8>) -> Option<(Seq<InstructionView>, nat)>
    decreases s.len(),
{
    if s.len() < 4 {
        None
    } else {
        match token_of(le_i32(s.subrange(0, 4))) {
            Token::End => Some((Seq::empty(), 4)),
            Token::Literal(n) => {
                if s.len() < 4 + n {
                    None
                } else {
                    prepend_parsed(
                        seq![InstructionView::Literal(s.subrange(4, 4 + n))],
                        (4 + n) as nat,
                        parse_tokens(s.skip(4 + n)),
                    )
                }
            },
            Token::Match(i) => prepend_parsed(seq![InstructionView::Match(i)], 4, parse_tokens(s.skip(4))),
        }
    }
}

proof fn lemma_prepend_parsed_assoc(a: Seq<InstructionView>, n: nat, b: Seq<InstructionView>, m: nat, r: Option<(Seq<InstructionView>, nat)>)
    ensures
        prepend_parsed(a, n, prepend_parsed(b, m, r)) == prepend_parsed(a + b, n + m, r),
{
    if let Some((c, k)) = r {
        assert(a + (b + c) =~= (a + b) + c);
    }
}


/// Reads one file's token stream from the start of `s`: the instructions,
/// and how many bytes they took, end token included. `None` when the
/// stream stops before its end token.
pub fn read_instructions(s: &[u8]) -> (r: Option<(Vec<Instruction>, usize)>)
    ensures
        match r {
            Some((ins, used)) => parse_tokens(s@) == Some((instructions_view(ins@), used as nat)),
            None => parse_tokens(s@) is None,
        },
{
    let mut ins: Vec<Instruction> = Vec::new();
    let mut pos: usize = 0;
    assert(s@.skip(0) =~= s@);
    assert(instructions_view(ins@) =~= Seq::<InstructionView>::empty());
    loop
        invariant
            pos <= s@.len(),
            parse_tokens(s@) == prepend_parsed(instructions_view(ins@), pos as nat, parse_tokens(s@.skip(pos as int))),
        decreases s@.len() - pos,
    {
        let ghost rest = s@.skip(pos as int);
        if s.len() - pos < 4 {
            return None;
        }
        let b: [u8; 4] = [s[pos], s[pos + 1], s[pos + 2], s[pos + 3]];
        assert(b@ =~= rest.subrange(0, 4));
        let ghost before = instructions_view(ins@);
        match decode_token(b) {
            Token::End => {
                proof {
                    assert(before + Seq::<InstructionView>::empty() =~= before);
                }
                return Some((ins, pos + 4));
            },
            Token::Literal(n) => {
                if s.len() - pos - 4 < n as usize {
                    return None;
                }
                let end = pos + 4 + n as usize;
                let lit = copy_range(s, pos + 4, end);
                assert(lit@ =~= rest.subrange(4, 4 + n));
                assert(rest.skip(4 + n) =~= s@.skip(end as int));
                ins.push(Instruction::Literal(lit));
                proof {
                    assert(instructions_view(ins@) =~= before + seq![InstructionView::Literal(lit@)]);
                    lemma_prepend_parsed_assoc(before, pos as nat, seq![InstructionView::Literal(lit@)], (4 + n) as nat, parse_tokens(s@.skip(end as int)));
                }
                pos = end;
            },
            Token::Match(i) => {
                assert(rest.skip(4) =~= s@.skip(pos + 4));
                ins.push(Instruction::Match(i));
                proof {
                    assert(instructions_view(ins@) =~= before + seq![InstructionView::Match(i)]);
                    lemma_prepend_parsed_assoc(before, pos as nat, seq![InstructionView::Match(i)], 4, parse_tokens(s@.skip(pos + 4)));
                }
                pos = pos + 4;
            },
        }
    }
}

/// Block `i` of `basis` cut in blocks of `block_len` bytes; the last block may be shorter.
pub open spec fn block(basis: Seq<u8>, block_len: nat, i: nat) -> Seq<u8> {
    let start = i * block_len;
    let end = if start + block_len <= basis.len() { start + block_len } else { basis.len() };
    basis.subrange(start as int, end as int)
}

/// The file that `ins` rebuild from `basis`: literal runs and copied blocks
/// in order, or nothing when an instruction names a block past the end.
pub open spec fn rebuild(basis: Seq<u8>, block_len: nat, ins: Seq<InstructionView>) -> Option<Seq<u8>>
    decreases ins.len(),
{
    if ins.len() == 0 {
        Some(Seq::empty())
    } else {
        match rebuild(basis, block_len, ins.drop_last()) {
            None => None,
            Some(prefix) => match ins.last() {
                InstructionView::Literal(b) => Some(prefix + b),
                InstructionView::Match(i) => {
                    if i * block_len < basis.len() {
                        Some(prefix + block(basis, block_len, i as nat))
                    } else {
                        None
                    }
                },
            },
        }
    }
}

/// Why a file could not be rebuilt.
#[derive(Clone, Copy, Debug, PartialEq, Eq, Structural)]
pub enum RebuildError {
    /// An instruction names a block that the existing file does not have.
    BlockOutOfRange(u32),
}

/// Rebuilds a file from the existing data `basis`, cut in blocks of
/// `block_len` bytes, and the server's instructions.
pub fn rebuild_file(basis: &[u8], block_len: u32, ins: &[Instruction]) -> (r: Result<Vec<u8>, RebuildError>)
    requires
        block_len > 0,
    ensures
        match r {
            Ok(out) => rebuild(basis@, block_len as nat, instructions_view(ins@)) == Some(out@),
            Err(_) => rebuild(basis@, block_len as nat, instructions_view(ins@)) is None,
        },
{
    let mut out: Vec<u8> = Vec::new();
    let mut k: usize = 0;
    let ghost vs = instructions_view(ins@);
    assert(vs.subrange(0, 0) =~= Seq::<InstructionView>::empty());
    while k < ins.len()
        invariant
            k <= ins@.len(),
            block_len > 0,
            vs == instructions_view(ins@),
            rebuild(basis@, block_len as nat, vs.subrange(0, k as int)) == Some(out@),
        decreases ins@.len() - k,
    {
        let ghost before = out@;
        assert(vs.subrange(0, k + 1).drop_last() =~= vs.subrange(0, k as int));
        assert(vs.subrange(0, k + 1).last() == ins@[k as int]@);
        match &ins[k] {
            Instruction::Literal(b) => {
                append_bytes(&mut out, b.as_slice());
            },
            Instruction::Match(i) => {
                assert((*i as u64) * (block_len as u64) <= u32::MAX as u64 * u32::MAX as u64) by (nonlinear_arith);
                let start: u64 = *i as u64 * block_len as u64;
                if start >= basis.len() as u64 {
                    proof {
                        lemma_rebuild_none_extends(basis@, block_len as nat, vs, k as int + 1);
                    }
                    return Err(RebuildError::BlockOutOfRange(*i));
                }
                let start = start as usize;
                let end: usize = if basis.len() - start >= block_len as usize {
                    start + block_len as usize
                } else {
                    basis.len()
                };
                let mut j: usize = start;
                while j < end
                    invariant
                        start <= j <= end <= basis@.len(),
                        out@ == before + basis@.subrange(start as int, j as int),
                    decreases end - j,
                {
                    out.push(basis[j]);
                    assert(basis@.subrange(start as int, j + 1) =~= basis@.subrange(start as int, j as int).push(basis@[j as int]));
                    j = j + 1;
                }
            },
        }
        k = k + 1;
    }
    assert(vs.subrange(0, ins@.len() as int) =~= vs);
    Ok(out)
}

proof fn lemma_rebuild_none_extends(basis: Seq<u8>, block_len: nat, vs: Seq<InstructionView>, k: int)
    requires
        0 < k <= vs.len(),
        rebuild(basis, block_len, vs.subrange(0, k)) is None,
    ensures
        rebuild(basis, block_len, vs) is None,
    decreases vs.len() - k,
{
    if k < vs.len() {
        assert(vs.subrange(0, k + 1).drop_last() =~= vs.subrange(0, k));
        lemma_rebuild_none_extends(basis, block_len, vs, k + 1);
    } else {
        assert(vs.subrange(0, k) =~= vs);
    }
}

} // verus!
