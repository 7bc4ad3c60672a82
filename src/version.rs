use vstd::prelude::*;

use crate::bytes::bytes_equal;

verus! {

/// A protocol version as exchanged in the greeting line.
#[derive(Clone, Copy, Debug, PartialEq, Eq, Structural)]
pub struct Version {
    pub major: u32,
    pub minor: u32,
}

/// The major version this client advertises.
pub const SUPPORTED_MAJOR: u32 = 27;

/// The oldest remote major version whose envelope and delta formats are understood.
pub const MIN_REMOTE_MAJOR: u32 = 27;

/// The marker that opens a version line: `@RSYNCD: `.
pub open spec fn version_marker() -> Seq<u8> {
    seq![64u8, 82u8, 83u8, 89u8, 78u8, 67u8, 68u8, 58u8, 32u8]
}

pub open spec fn is_digit(c: u8) -> bool {
    48 <= c <= 57
}

pub open spec fn all_digits(s: Seq<u8>) -> bool {
    forall|i: int| 0 <= i < s.len() ==> is_digit(#[trigger] s[i])
}

pub open spec fn digit_value(c: u8) -> nat {
    if c >= 48 { (c - 48) as nat } else { 0 }
}

/// The number that the decimal digits `s` spell, most significant first.
pub open spec fn digits_value(s: Seq<u8>) -> nat
    decreases s.len(),
{
    if s.len() == 0 {
        0
    } else {
        digits_value(s.drop_last()) * 10 + digit_value(s.last())
    }
}

/// The shortest decimal spelling of `n`.
pub open spec fn decimal(n: nat) -> Seq<u8>
    decreases n,
{
    if n < 10 {
        seq![(48 + n) as u8]
    } else {
        decimal(n / 10).push((48 + n % 10) as u8)
    }
}

/// The wire form of a version: `@RSYNCD: <major>.<minor>` and a newline.
pub open spec fn version_line(v: Version) -> Seq<u8> {
    version_marker() + decimal(v.major as nat) + seq![46u8] + decimal(v.minor as nat) + seq![10u8]
}

pub proof fn lemma_decimal(n: nat)
    ensures
        decimal(n).len() >= 1,
        all_digits(decimal(n)),
        digits_value(decimal(n)) == n,
    decreases n,
{
    if n >= 10 {
        lemma_decimal(n / 10);
        let d = decimal(n);
        assert(d.drop_last() =~= decimal(n / 10));
        assert(digit_value(d.last()) == n % 10);
        assert((n / 10) * 10 + n % 10 == n);
        assert(digits_value(d) == digits_value(decimal(n / 10)) * 10 + n % 10);
    } else {
        let d = decimal(n);
        assert(d.drop_last() =~= Seq::<u8>::empty());
        assert(digits_value(d.drop_last()) == 0);
        assert(digit_value(d.last()) == n);
    }
}

proof fn lemma_value_prefix(t: Seq<u8>, j: int)
    requires
        0 <= j <= t.len(),
    ensures
        digits_value(t.subrange(0, j)) <= digits_value(t),
    decreases t.len(),
{
    if j == t.len() {
        assert(t.subrange(0, j) =~= t);
    } else {
        let dl = t.drop_last();
        lemma_value_prefix(dl, j);
        assert(dl.subrange(0, j) =~= t.subrange(0, j));
        let v = digits_value(dl);
        assert(v * 10 >= v) by (nonlinear_arith);
    }
}

/// Distinct versions have distinct wire forms.
pub proof fn lemma_version_line_injective(a: Version, b: Version)
    requires
        version_line(a) == version_line(b),
    ensures
        a == b,
{
    let da = decimal(a.major as nat);
    let db = decimal(b.major as nat);
    let ma = decimal(a.minor as nat);
    let mb = decimal(b.minor as nat);
    lemma_decimal(a.major as nat);
    lemma_decimal(b.major as nat);
    lemma_decimal(a.minor as nat);
    lemma_decimal(b.minor as nat);
    let la = version_line(a);
    let lb = version_line(b);
    let na = da.len() as int;
    let nb = db.len() as int;
    if na < nb {
        assert(la[9 + na] == 46u8);
        assert(lb[9 + na] == db[na]);
    }
    if nb < na {
        assert(lb[9 + nb] == 46u8);
        assert(la[9 + nb] == da[nb]);
    }
    assert(na == nb);
    assert(la.subrange(9, 9 + na) =~= da);
    assert(lb.subrange(9, 9 + nb) =~= db);
    assert(la.len() == lb.len());
    assert(la.subrange(10 + na, la.len() - 1) =~= ma);
    assert(lb.subrange(10 + nb, lb.len() - 1) =~= mb);
}

/// `s[start..end]` is a maximal, non-empty run of decimal digits.
pub open spec fn digit_run(s: Seq<u8>, start: int, end: int) -> bool {
    &&& 0 <= start < end <= s.len()
    &&& all_digits(s.subrange(start, end))
    &&& (end == s.len() || !is_digit(s[end]))
}

proof fn lemma_digit_run_unique(s: Seq<u8>, start: int, e1: int, e2: int)
    requires
        digit_run(s, start, e1),
        digit_run(s, start, e2),
    ensures
        e1 == e2,
{
    if e1 < e2 {
        assert(s.subrange(start, e2)[e1 - start] == s[e1]);
    }
    if e2 < e1 {
        assert(s.subrange(start, e1)[e2 - start] == s[e2]);
    }
}

proof fn lemma_version_line_shape(w: Version)
    ensures
        ({
            let l = version_line(w);
            let nd = decimal(w.major as nat).len() as int;
            let nm = decimal(w.minor as nat).len() as int;
            &&& l.len() == 11 + nd + nm
            &&& l.subrange(9, 9 + nd) == decimal(w.major as nat)
            &&& l[9 + nd] == 46u8
            &&& l.subrange(10 + nd, 10 + nd + nm) == decimal(w.minor as nat)
            &&& l[10 + nd + nm] == 10u8
            &&& digit_run(l, 9, 9 + nd)
            &&& digit_run(l, 10 + nd, 10 + nd + nm)
        }),
{
    lemma_decimal(w.major as nat);
    lemma_decimal(w.minor as nat);
    let l = version_line(w);
    let nd = decimal(w.major as nat).len() as int;
    let nm = decimal(w.minor as nat).len() as int;
    assert(l.subrange(9, 9 + nd) =~= decimal(w.major as nat));
    assert(l.subrange(10 + nd, 10 + nd + nm) =~= decimal(w.minor as nat));
}

/// Reads the maximal run of decimal digits that starts at `start`, when it is
/// not empty and its value fits in 32 bits.
fn parse_decimal(s: &[u8], start: usize) -> (r: Option<(u32, usize)>)
    requires
        start <= s@.len(),
    ensures
        match r {
            Some((v, end)) => digit_run(s@, start as int, end as int)
                && digits_value(s@.subrange(start as int, end as int)) == v,
            None => forall|e: int| #[trigger] digit_run(s@, start as int, e)
                ==> digits_value(s@.subrange(start as int, e)) > u32::MAX,
        },
{
    let mut i: usize = start;
    let mut acc: u64 = 0;
    while i < s.len() && s[i] >= 48 && s[i] <= 57
        invariant
            start <= i <= s@.len(),
            all_digits(s@.subrange(start as int, i as int)),
            acc == digits_value(s@.subrange(start as int, i as int)),
            acc <= u32::MAX,
        decreases s@.len() - i,
    {
        acc = acc * 10 + (s[i] - 48) as u64;
        let ghost next = s@.subrange(start as int, i + 1);
        assert(next.drop_last() =~= s@.subrange(start as int, i as int));
        assert(all_digits(next)) by {
            assert forall|k: int| 0 <= k < next.len() implies is_digit(#[trigger] next[k]) by {
                if k < next.len() - 1 {
                    assert(next[k] == s@.subrange(start as int, i as int)[k]);
                }
            }
        }
        if acc > u32::MAX as u64 {
            proof {
                assert forall|e: int| #[trigger] digit_run(s@, start as int, e)
                    implies digits_value(s@.subrange(start as int, e)) > u32::MAX by {
                    if e <= i {
                        if e < i {
                            assert(s@.subrange(start as int, i as int)[e - start] == s@[e]);
                        }
                    }
                    assert(e > i);
                    let run = s@.subrange(start as int, e);
                    lemma_value_prefix(run, i + 1 - start);
                    assert(run.subrange(0, i + 1 - start) =~= next);
                }
            }
            return None;
        }
        i = i + 1;
    }
    if i == start {
        proof {
            assert forall|e: int| #[trigger] digit_run(s@, start as int, e)
                implies digits_value(s@.subrange(start as int, e)) > u32::MAX by {
                assert(s@.subrange(start as int, e)[0] == s@[start as int]);
            }
        }
        return None;
    }
    Some((acc as u32, i))
}

/// Decodes a version line. It succeeds exactly on the wire form of a version.
pub fn parse_version_line(line: &[u8]) -> (r: Option<Version>)
    ensures
        match r {
            Some(v) => line@ == version_line(v),
            None => forall|w: Version| line@ != #[trigger] version_line(w),
        },
{
    if line.len() < 9 {
        proof {
            assert forall|w: Version| line@ != #[trigger] version_line(w) by {
                lemma_version_line_shape(w);
            }
        }
        return None;
    }
    let major = parse_decimal(line, 9);
    match major {
        None => {
            proof {
                assert forall|w: Version| line@ != #[trigger] version_line(w) by {
                    lemma_version_line_shape(w);
                    if line@ == version_line(w) {
                        let nd = decimal(w.major as nat).len() as int;
                        assert(digit_run(line@, 9, 9 + nd));
                        lemma_decimal(w.major as nat);
                    }
                }
            }
            None
        },
        Some((maj, dot)) => {
            if dot >= line.len() || line[dot] != 46 {
                proof {
                    assert forall|w: Version| line@ != #[trigger] version_line(w) by {
                        lemma_version_line_shape(w);
                        if line@ == version_line(w) {
                            let nd = decimal(w.major as nat).len() as int;
                            lemma_digit_run_unique(line@, 9, dot as int, 9 + nd);
                        }
                    }
                }
                return None;
            }
            let minor = parse_decimal(line, dot + 1);
            match minor {
                None => {
                    proof {
                        assert forall|w: Version| line@ != #[trigger] version_line(w) by {
                            lemma_version_line_shape(w);
                            if line@ == version_line(w) {
                                let nd = decimal(w.major as nat).len() as int;
                                let nm = decimal(w.minor as nat).len() as int;
                                lemma_digit_run_unique(line@, 9, dot as int, 9 + nd);
                                assert(digit_run(line@, 10 + nd, 10 + nd + nm));
                                lemma_decimal(w.minor as nat);
                            }
                        }
                    }
                    None
                },
                Some((min, end)) => {
                    let v = Version { major: maj, minor: min };
                    let enc = v.encode();
                    if bytes_equal(enc.as_slice(), line) {
                        Some(v)
                    } else {
                        proof {
                            assert forall|w: Version| line@ != #[trigger] version_line(w) by {
                                lemma_version_line_shape(w);
                                if line@ == version_line(w) {
                                    let nd = decimal(w.major as nat).len() as int;
                                    let nm = decimal(w.minor as nat).len() as int;
                                    lemma_decimal(w.major as nat);
                                    lemma_decimal(w.minor as nat);
                                    lemma_digit_run_unique(line@, 9, dot as int, 9 + nd);
                                    lemma_digit_run_unique(line@, dot + 1, end as int, 10 + nd + nm);
                                    assert(v == w);
                                }
                            }
                        }
                        None
                    }
                },
            }
        },
    }
}

fn push_decimal(out: &mut Vec<u8>, n: u32)
    ensures
        final(out)@ == old(out)@ + decimal(n as nat),
    decreases n,
{
    if n < 10 {
        out.push(n as u8 + 48);
        assert(seq![(48 + n) as u8] == seq![(n as u8 + 48) as u8]);
    } else {
        push_decimal(out, n / 10);
        out.push((n % 10) as u8 + 48);
        assert(decimal(n as nat) == decimal((n / 10) as nat).push((48 + n % 10) as u8));
    }
}

impl Version {
    /// Encodes this version as its wire line.
    pub fn encode(&self) -> (r: Vec<u8>)
        ensures
            r@ == version_line(*self),
    {
        let mut out: Vec<u8> = vec![64u8, 82u8, 83u8, 89u8, 78u8, 67u8, 68u8, 58u8, 32u8];
        assert(out@ =~= version_marker());
        push_decimal(&mut out, self.major);
        out.push(46u8);
        push_decimal(&mut out, self.minor);
        out.push(10u8);
        out
    }
}

/// The version this client advertises.
pub fn supported_version() -> (v: Version)
    ensures
        v.major == SUPPORTED_MAJOR,
        v.minor == 0,
{
    Version { major: SUPPORTED_MAJOR, minor: 0 }
}

} // verus!
