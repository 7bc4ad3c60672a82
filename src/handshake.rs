use vstd::prelude::*;

use crate::bytes::{append_bytes, copy_all, copy_range, has_prefix, starts_with};
use crate::filter::{encode_filter_block, entry_fits, filter_block, rules_view, Rule};
use crate::seed::{decode_seed, le_i32};
use crate::version::{
    lemma_version_line_injective, parse_version_line, supported_version, version_line, Version,
    MIN_REMOTE_MAJOR, SUPPORTED_MAJOR,
};

verus! {

/// Where a connection stands in the unmultiplexed phase.
#[derive(Clone, Copy, Debug, PartialEq, Eq, Structural)]
pub enum Phase {
    /// Nothing has been sent yet.
    Fresh,
    /// The local version line has been sent; the remote one is awaited.
    AwaitingVersion,
    /// The module name has been sent; message-of-the-day lines are being read.
    ReadingMotd,
    /// The option block has been sent; the four seed bytes come next.
    AwaitingSeed,
    /// The exchange has failed and the connection is unusable.
    Failed,
}

/// Why a handshake failed.
#[derive(Clone, Copy, Debug, PartialEq, Eq, Structural)]
pub enum ErrorKind {
    /// The remote version line is not of the form `@RSYNCD: <major>.<minor>`.
    MalformedVersion,
    /// The remote major version is older than the oldest one supported.
    VersionTooOld,
    /// The stream ended where a line was expected.
    UnexpectedEof,
    /// A step was taken in a phase that does not allow it.
    OutOfOrder,
    /// The server sent an `@ERROR` line.
    Server,
    /// The server asked for authentication, which is not supported.
    AuthRequired,
}

/// A failed handshake: its kind, and for a server error the line the server sent.
#[derive(Clone, Debug)]
pub struct HandshakeError {
    pub kind: ErrorKind,
    pub detail: Vec<u8>,
}

impl HandshakeError {
    /// Whether this failure is a protocol violation (as opposed to a refusal by the server).
    pub fn is_protocol_error(&self) -> (r: bool)
        ensures
            r == (self.kind != ErrorKind::Server && self.kind != ErrorKind::AuthRequired),
    {
        match self.kind {
            ErrorKind::Server | ErrorKind::AuthRequired => false,
            _ => true,
        }
    }
}

/// What the caller must do after a line has been handed in.
#[derive(Clone, Debug)]
pub enum Reply {
    /// Write these bytes to the connection, then read the next line (or the seed).
    Write(Vec<u8>),
    /// Show this message-of-the-day text, then read the next line.
    Show(Vec<u8>),
}

/// The effect of one step, as a value of the model.
pub enum Outcome {
    Write(Seq<u8>),
    Show(Seq<u8>),
    Fail(ErrorKind),
}

/// What a call of `receive_line` returned, as a value of the model.
pub open spec fn outcome_of(r: Result<Reply, HandshakeError>) -> Outcome {
    match r {
        Ok(Reply::Write(b)) => Outcome::Write(b@),
        Ok(Reply::Show(b)) => Outcome::Show(b@),
        Err(e) => Outcome::Fail(e.kind),
    }
}

/// `@ERROR`
pub open spec fn error_prefix() -> Seq<u8> {
    seq![64u8, 69u8, 82u8, 82u8, 79u8, 82u8]
}

/// `@RSYNCD: AUTHREQD `
pub open spec fn auth_prefix() -> Seq<u8> {
    seq![64u8, 82u8, 83u8, 89u8, 78u8, 67u8, 68u8, 58u8, 32u8, 65u8, 85u8, 84u8, 72u8, 82u8, 69u8, 81u8, 68u8, 32u8]
}

/// `@RSYNCD: OK`
pub open spec fn ok_prefix() -> Seq<u8> {
    seq![64u8, 82u8, 83u8, 89u8, 78u8, 67u8, 68u8, 58u8, 32u8, 79u8, 75u8]
}

/// A message-of-the-day line: one that is not empty and carries none of the three recognised prefixes.
pub open spec fn is_plain_motd(line: Seq<u8>) -> bool {
    &&& line.len() > 0
    &&& !has_prefix(line, error_prefix())
    &&& !has_prefix(line, auth_prefix())
    &&& !has_prefix(line, ok_prefix())
}

/// `--server`, `--sender`, `-ltpr` and `.`, each on its own line.
pub open spec fn fixed_options() -> Seq<u8> {
    seq![
        45u8, 45u8, 115u8, 101u8, 114u8, 118u8, 101u8, 114u8, 10u8,
        45u8, 45u8, 115u8, 101u8, 110u8, 100u8, 101u8, 114u8, 10u8,
        45u8, 108u8, 116u8, 112u8, 114u8, 10u8,
        46u8, 10u8
    ]
}

/// The option block: the fixed options, the path on its own line, and a blank line.
pub open spec fn options_block(path: Seq<u8>) -> Seq<u8> {
    fixed_options() + path + seq![10u8, 10u8]
}

/// The module line: the module name and a newline.
pub open spec fn module_line(module: Seq<u8>) -> Seq<u8> {
    module.push(10u8)
}

pub open spec fn is_space(c: u8) -> bool {
    c == 32 || (9 <= c <= 13)
}

/// `s` without its trailing whitespace.
pub open spec fn trim_end(s: Seq<u8>) -> Seq<u8>
    decreases s.len(),
{
    if s.len() > 0 && is_space(s.last()) {
        trim_end(s.drop_last())
    } else {
        s
    }
}

/// A remote version line that names a supported version.
pub open spec fn accepted_version_line(line: Seq<u8>) -> bool {
    exists|v: Version| line == version_line(v) && v.major >= MIN_REMOTE_MAJOR
}

/// A remote version line that is well formed.
pub open spec fn any_version_line(line: Seq<u8>) -> bool {
    exists|v: Version| line == version_line(v)
}

/// One step of the handshake: the phase that follows and what is to be done,
/// when `line` is read in `phase` of a connection for `module` and `path`.
/// An empty line is the end of the stream.
pub open spec fn step(phase: Phase, module: Seq<u8>, path: Seq<u8>, line: Seq<u8>) -> (Phase, Outcome) {
    match phase {
        Phase::AwaitingVersion => {
            if line.len() == 0 {
                (Phase::Failed, Outcome::Fail(ErrorKind::UnexpectedEof))
            } else if accepted_version_line(line) {
                (Phase::ReadingMotd, Outcome::Write(module_line(module)))
            } else if any_version_line(line) {
                (Phase::Failed, Outcome::Fail(ErrorKind::VersionTooOld))
            } else {
                (Phase::Failed, Outcome::Fail(ErrorKind::MalformedVersion))
            }
        },
        Phase::ReadingMotd => {
            if line.len() == 0 {
                (Phase::Failed, Outcome::Fail(ErrorKind::UnexpectedEof))
            } else if has_prefix(line, error_prefix()) {
                (Phase::Failed, Outcome::Fail(ErrorKind::Server))
            } else if has_prefix(line, auth_prefix()) {
                (Phase::Failed, Outcome::Fail(ErrorKind::AuthRequired))
            } else if has_prefix(line, ok_prefix()) {
                (Phase::AwaitingSeed, Outcome::Write(options_block(path)))
            } else {
                (Phase::ReadingMotd, Outcome::Show(trim_end(line)))
            }
        },
        _ => (Phase::Failed, Outcome::Fail(ErrorKind::OutOfOrder)),
    }
}

/// What a sequence of lines does to a connection: the phase it ends in, the
/// bytes written, the lines shown, and the failure that stopped it, if any.
/// Nothing is read after a failure.
pub struct Trace {
    pub phase: Phase,
    pub written: Seq<u8>,
    pub shown: Seq<Seq<u8>>,
    pub error: Option<ErrorKind>,
}

/// Hands `lines` to a connection in `phase`, one `step` each, until one fails.
pub open spec fn run(phase: Phase, module: Seq<u8>, path: Seq<u8>, lines: Seq<Seq<u8>>) -> Trace
    decreases lines.len(),
{
    if lines.len() == 0 {
        Trace { phase, written: Seq::empty(), shown: Seq::empty(), error: None }
    } else {
        let (next, out) = step(phase, module, path, lines[0]);
        match out {
            Outcome::Fail(k) => Trace { phase: next, written: Seq::empty(), shown: Seq::empty(), error: Some(k) },
            Outcome::Write(b) => {
                let t = run(next, module, path, lines.skip(1));
                Trace { phase: t.phase, written: b + t.written, shown: t.shown, error: t.error }
            },
            Outcome::Show(b) => {
                let t = run(next, module, path, lines.skip(1));
                Trace { phase: t.phase, written: t.written, shown: seq![b] + t.shown, error: t.error }
            },
        }
    }
}

/// A trace from its parts.
pub open spec fn trace(phase: Phase, written: Seq<u8>, shown: Seq<Seq<u8>>, error: Option<ErrorKind>) -> Trace {
    Trace { phase, written, shown, error }
}

/// The trace `t` with the lines `shown` displayed before it.
pub open spec fn shown_before(shown: Seq<Seq<u8>>, t: Trace) -> Trace {
    Trace { phase: t.phase, written: t.written, shown: shown + t.shown, error: t.error }
}

/// The text shown for a sequence of message-of-the-day lines.
pub open spec fn motd_shown(motd: Seq<Seq<u8>>) -> Seq<Seq<u8>> {
    motd.map_values(|l: Seq<u8>| trim_end(l))
}

proof fn lemma_prefixes_distinct(line: Seq<u8>)
    ensures
        has_prefix(line, ok_prefix()) ==> line.len() > 0 && !has_prefix(line, error_prefix())
            && !has_prefix(line, auth_prefix()),
        has_prefix(line, auth_prefix()) ==> line.len() > 0 && !has_prefix(line, error_prefix()),
        has_prefix(line, error_prefix()) ==> line.len() > 0,
{
    if has_prefix(line, ok_prefix()) {
        assert(line[1] == line.subrange(0, 11)[1]);
        assert(line[9] == line.subrange(0, 11)[9]);
        if line.len() >= 18 {
            assert(line[9] == line.subrange(0, 18)[9]);
        }
        assert(line[1] == line.subrange(0, 6)[1]);
    }
    if has_prefix(line, auth_prefix()) {
        assert(line[1] == line.subrange(0, 18)[1]);
        assert(line[1] == line.subrange(0, 6)[1]);
    }
}

/// Message-of-the-day lines are shown in order and change nothing else:
/// what follows them runs as if they had not been there.
pub proof fn lemma_motd_lines(module: Seq<u8>, path: Seq<u8>, motd: Seq<Seq<u8>>, tail: Seq<Seq<u8>>)
    requires
        forall|i: int| 0 <= i < motd.len() ==> is_plain_motd(#[trigger] motd[i]),
    ensures
        run(Phase::ReadingMotd, module, path, motd + tail) == shown_before(
            motd_shown(motd),
            run(Phase::ReadingMotd, module, path, tail),
        ),
    decreases motd.len(),
{
    let t = run(Phase::ReadingMotd, module, path, tail);
    if motd.len() == 0 {
        assert(motd + tail =~= tail);
        assert(motd_shown(motd) + t.shown =~= t.shown);
    } else {
        let rest = motd.skip(1);
        assert forall|i: int| 0 <= i < rest.len() implies is_plain_motd(#[trigger] rest[i]) by {
            assert(rest[i] == motd[i + 1]);
        }
        lemma_motd_lines(module, path, rest, tail);
        assert((motd + tail)[0] == motd[0]);
        assert((motd + tail).skip(1) =~= rest + tail);
        assert(is_plain_motd(motd[0]));
        assert(motd_shown(motd) =~= seq![trim_end(motd[0])] + motd_shown(rest));
        assert(seq![trim_end(motd[0])] + (motd_shown(rest) + t.shown) =~= motd_shown(motd) + t.shown);
    }
}

/// A supported remote version starts the message of the day, and after any
/// message-of-the-day lines an `@RSYNCD: OK` line leads to the seed: the module
/// line and the option block have been written, the lines shown in order.
pub proof fn lemma_supported_version(module: Seq<u8>, path: Seq<u8>, v: Version, motd: Seq<Seq<u8>>, ok: Seq<u8>)
    requires
        v.major >= MIN_REMOTE_MAJOR,
        forall|i: int| 0 <= i < motd.len() ==> is_plain_motd(#[trigger] motd[i]),
        has_prefix(ok, ok_prefix()),
    ensures
        run(Phase::AwaitingVersion, module, path, seq![version_line(v)] + motd.push(ok)) == trace(Phase::AwaitingSeed, module_line(module) + options_block(path), motd_shown(motd), None),
{
    lemma_ok_after_motd(module, path, motd, ok);
    let lines = seq![version_line(v)] + motd.push(ok);
    assert(lines[0] == version_line(v));
    assert(lines.skip(1) =~= motd.push(ok));
    assert(version_line(v).len() > 0);
    assert(accepted_version_line(version_line(v)));
}

/// After message-of-the-day lines, an `@RSYNCD: OK` line ends the reading of
/// lines: the option block is written and the seed is awaited.
pub proof fn lemma_ok_after_motd(module: Seq<u8>, path: Seq<u8>, motd: Seq<Seq<u8>>, ok: Seq<u8>)
    requires
        forall|i: int| 0 <= i < motd.len() ==> is_plain_motd(#[trigger] motd[i]),
        has_prefix(ok, ok_prefix()),
    ensures
        run(Phase::ReadingMotd, module, path, motd.push(ok)) == trace(Phase::AwaitingSeed, options_block(path), motd_shown(motd), None),
{
    lemma_motd_lines(module, path, motd, seq![ok]);
    assert(motd.push(ok) =~= motd + seq![ok]);
    lemma_prefixes_distinct(ok);
    assert(seq![ok].skip(1) =~= Seq::<Seq<u8>>::empty());
    let t0 = run(Phase::AwaitingSeed, module, path, Seq::<Seq<u8>>::empty());
    assert(t0 == trace(Phase::AwaitingSeed, Seq::empty(), Seq::empty(), None));
    assert(step(Phase::ReadingMotd, module, path, ok) == (Phase::AwaitingSeed, Outcome::Write(options_block(path))));
    assert(options_block(path) + Seq::<u8>::empty() =~= options_block(path));
    assert(run(Phase::ReadingMotd, module, path, seq![ok]) == trace(Phase::AwaitingSeed, options_block(path), Seq::empty(), None));
    assert(motd_shown(motd) + Seq::<Seq<u8>>::empty() =~= motd_shown(motd));
}

/// A remote version older than the oldest supported one fails the handshake
/// at once: nothing is written, so no option is sent.
pub proof fn lemma_version_too_old(module: Seq<u8>, path: Seq<u8>, v: Version, rest: Seq<Seq<u8>>)
    requires
        v.major < MIN_REMOTE_MAJOR,
    ensures
        run(Phase::AwaitingVersion, module, path, seq![version_line(v)] + rest) == trace(Phase::Failed, Seq::empty(), Seq::empty(), Some(ErrorKind::VersionTooOld)),
{
    let lines = seq![version_line(v)] + rest;
    assert(lines[0] == version_line(v));
    assert forall|w: Version| !(version_line(v) == version_line(w) && w.major >= MIN_REMOTE_MAJOR) by {
        if version_line(v) == version_line(w) {
            lemma_version_line_injective(v, w);
        }
    }
    assert(version_line(v).len() > 0);
    assert(any_version_line(version_line(v)));
}

/// An `@ERROR` line after message-of-the-day lines fails the handshake with a
/// server error; no option line is ever written.
pub proof fn lemma_server_error(module: Seq<u8>, path: Seq<u8>, motd: Seq<Seq<u8>>, line: Seq<u8>, rest: Seq<Seq<u8>>)
    requires
        forall|i: int| 0 <= i < motd.len() ==> is_plain_motd(#[trigger] motd[i]),
        has_prefix(line, error_prefix()),
    ensures
        run(Phase::ReadingMotd, module, path, motd + (seq![line] + rest)) == trace(Phase::Failed, Seq::empty(), motd_shown(motd), Some(ErrorKind::Server)),
{
    lemma_motd_lines(module, path, motd, seq![line] + rest);
    lemma_prefixes_distinct(line);
    assert((seq![line] + rest)[0] == line);
    assert(motd_shown(motd) + Seq::<Seq<u8>>::empty() =~= motd_shown(motd));
}

/// An `@RSYNCD: AUTHREQD ` line after message-of-the-day lines fails the
/// handshake as needing authentication; nothing more is written.
pub proof fn lemma_auth_required(module: Seq<u8>, path: Seq<u8>, motd: Seq<Seq<u8>>, line: Seq<u8>, rest: Seq<Seq<u8>>)
    requires
        forall|i: int| 0 <= i < motd.len() ==> is_plain_motd(#[trigger] motd[i]),
        has_prefix(line, auth_prefix()),
    ensures
        run(Phase::ReadingMotd, module, path, motd + (seq![line] + rest)) == trace(Phase::Failed, Seq::empty(), motd_shown(motd), Some(ErrorKind::AuthRequired)),
{
    lemma_motd_lines(module, path, motd, seq![line] + rest);
    lemma_prefixes_distinct(line);
    assert((seq![line] + rest)[0] == line);
    assert(motd_shown(motd) + Seq::<Seq<u8>>::empty() =~= motd_shown(motd));
}

/// Removes trailing whitespace from a line.
pub fn trim_line_end(s: &[u8]) -> (r: Vec<u8>)
    ensures
        r@ == trim_end(s@),
{
    let mut n: usize = s.len();
    assert(s@.subrange(0, n as int) =~= s@);
    while n > 0 && (s[n - 1] == 32 || (s[n - 1] >= 9 && s[n - 1] <= 13))
        invariant
            n <= s@.len(),
            trim_end(s@) == trim_end(s@.subrange(0, n as int)),
        decreases n,
    {
        let ghost t = s@.subrange(0, n as int);
        assert(t.drop_last() =~= s@.subrange(0, n - 1));
        n = n - 1;
    }
    copy_range(s, 0, n)
}

fn build_options_block(path: &[u8]) -> (r: Vec<u8>)
    ensures
        r@ == options_block(path@),
{
    let mut out: Vec<u8> = vec![
        45u8, 45u8, 115u8, 101u8, 114u8, 118u8, 101u8, 114u8, 10u8,
        45u8, 45u8, 115u8, 101u8, 110u8, 100u8, 101u8, 114u8, 10u8,
        45u8, 108u8, 116u8, 112u8, 114u8, 10u8,
        46u8, 10u8
    ];
    assert(out@ =~= fixed_options());
    append_bytes(&mut out, path);
    out.push(10u8);
    out.push(10u8);
    assert(out@ =~= options_block(path@));
    out
}


/// The values that the multiplexed phase starts from.
#[derive(Clone, Debug)]
pub struct TransferStart {
    /// The checksum seed shared by the generator and the receiver.
    pub seed: i32,
    /// The filter-rule block, to be written before multiplexing begins.
    pub filter_block: Vec<u8>,
}

/// A connection in the handshake phase, before any multiplexing.
///
/// It decides; the caller moves the bytes. After `start_inband_exchange`,
/// the caller reads one line at a time and hands it to `receive_line`, until
/// the phase is `AwaitingSeed`; then it reads four bytes and calls `finalize`.
#[derive(Clone, Debug)]
pub struct HandshakeConn {
    pub phase: Phase,
    pub module: Vec<u8>,
    pub path: Vec<u8>,
}

impl HandshakeConn {
    /// A connection on which nothing has been exchanged.
    pub fn new() -> (r: HandshakeConn)
        ensures
            r.phase == Phase::Fresh,
            r.module@.len() == 0,
            r.path@.len() == 0,
    {
        HandshakeConn { phase: Phase::Fresh, module: Vec::new(), path: Vec::new() }
    }

    /// Opens the exchange for `module` and `path`: returns the local version
    /// line, to be written before the remote one is read.
    pub fn start_inband_exchange(&mut self, module: &[u8], path: &[u8]) -> (r: Result<Vec<u8>, HandshakeError>)
        ensures
            old(self).phase == Phase::Fresh ==> {
                &&& r matches Ok(b) && b@ == version_line(Version { major: SUPPORTED_MAJOR, minor: 0 })
                &&& final(self).phase == Phase::AwaitingVersion
                &&& final(self).module@ == module@
                &&& final(self).path@ == path@
            },
            old(self).phase != Phase::Fresh ==> {
                &&& r matches Err(e) && e.kind == ErrorKind::OutOfOrder
                &&& final(self).phase == Phase::Failed
                &&& final(self).module@ == old(self).module@
                &&& final(self).path@ == old(self).path@
            },
    {
        if self.phase != Phase::Fresh {
            self.phase = Phase::Failed;
            return Err(HandshakeError { kind: ErrorKind::OutOfOrder, detail: Vec::new() });
        }
        self.module = copy_all(module);
        self.path = copy_all(path);
        self.phase = Phase::AwaitingVersion;
        Ok(supported_version().encode())
    }

    /// Takes one line read from the connection (empty at the end of the
    /// stream) and says what to do next; see `step`.
    pub fn receive_line(&mut self, line: &[u8]) -> (r: Result<Reply, HandshakeError>)
        ensures
            (final(self).phase, outcome_of(r)) == step(old(self).phase, old(self).module@, old(self).path@, line@),
            final(self).module@ == old(self).module@,
            final(self).path@ == old(self).path@,
            match r {
                Err(e) => e.kind == ErrorKind::Server ==> e.detail@ == line@,
                Ok(_) => true,
            },
    {
        match self.phase {
            Phase::AwaitingVersion => {
                if line.len() == 0 {
                    self.phase = Phase::Failed;
                    return Err(HandshakeError { kind: ErrorKind::UnexpectedEof, detail: Vec::new() });
                }
                match parse_version_line(line) {
                    None => {
                        self.phase = Phase::Failed;
                        Err(HandshakeError { kind: ErrorKind::MalformedVersion, detail: Vec::new() })
                    },
                    Some(v) => {
                        if v.major < MIN_REMOTE_MAJOR {
                            proof {
                                assert forall|w: Version| !(line@ == version_line(w) && w.major >= MIN_REMOTE_MAJOR) by {
                                    if line@ == version_line(w) {
                                        lemma_version_line_injective(v, w);
                                    }
                                }
                            }
                            self.phase = Phase::Failed;
                            Err(HandshakeError { kind: ErrorKind::VersionTooOld, detail: Vec::new() })
                        } else {
                            let mut out = copy_all(self.module.as_slice());
                            out.push(10u8);
                            self.phase = Phase::ReadingMotd;
                            Ok(Reply::Write(out))
                        }
                    },
                }
            },
            Phase::ReadingMotd => {
                if line.len() == 0 {
                    self.phase = Phase::Failed;
                    return Err(HandshakeError { kind: ErrorKind::UnexpectedEof, detail: Vec::new() });
                }
                let error_p: [u8; 6] = [64u8, 69u8, 82u8, 82u8, 79u8, 82u8];
                let auth_p: [u8; 18] = [64u8, 82u8, 83u8, 89u8, 78u8, 67u8, 68u8, 58u8, 32u8, 65u8, 85u8, 84u8, 72u8, 82u8, 69u8, 81u8, 68u8, 32u8];
                let ok_p: [u8; 11] = [64u8, 82u8, 83u8, 89u8, 78u8, 67u8, 68u8, 58u8, 32u8, 79u8, 75u8];
                assert(error_p@ =~= error_prefix());
                assert(auth_p@ =~= auth_prefix());
                assert(ok_p@ =~= ok_prefix());
                if starts_with(line, error_p.as_slice()) {
                    self.phase = Phase::Failed;
                    Err(HandshakeError { kind: ErrorKind::Server, detail: copy_all(line) })
                } else if starts_with(line, auth_p.as_slice()) {
                    self.phase = Phase::Failed;
                    Err(HandshakeError { kind: ErrorKind::AuthRequired, detail: Vec::new() })
                } else if starts_with(line, ok_p.as_slice()) {
                    self.phase = Phase::AwaitingSeed;
                    Ok(Reply::Write(build_options_block(self.path.as_slice())))
                } else {
                    Ok(Reply::Show(trim_line_end(line)))
                }
            },
            _ => {
                self.phase = Phase::Failed;
                Err(HandshakeError { kind: ErrorKind::OutOfOrder, detail: Vec::new() })
            },
        }
    }

    /// Ends the handshake on the four seed bytes: decodes the seed and
    /// encodes the filter-rule block that follows the option block.
    pub fn finalize(self, seed: [u8; 4], rules: &[Rule]) -> (r: Result<TransferStart, HandshakeError>)
        requires
            forall|i: int| 0 <= i < rules@.len() ==> entry_fits(#[trigger] rules@[i]@),
        ensures
            self.phase == Phase::AwaitingSeed ==> (r matches Ok(t) && t.seed as int == le_i32(seed@)
                && t.filter_block@ == filter_block(rules_view(rules@))),
            self.phase != Phase::AwaitingSeed ==> (r matches Err(e) && e.kind == ErrorKind::OutOfOrder),
    {
        if self.phase != Phase::AwaitingSeed {
            return Err(HandshakeError { kind: ErrorKind::OutOfOrder, detail: Vec::new() });
        }
        let s = decode_seed(seed);
        let block = encode_filter_block(rules);
        Ok(TransferStart { seed: s, filter_block: block })
    }
}

} // verus!
