use vstd::prelude::*;

use crate::bytes::{append_bytes, copy_range};

verus! {

/// Whether a matching path is taken or left out.
#[derive(Clone, Copy, Debug, PartialEq, Eq, Structural)]
pub enum RuleKind {
    Include,
    Exclude,
}

/// An include or exclude pattern. Rules are kept in order: the first that
/// matches a path decides. An anchored rule matches from the transfer root
/// only; its pattern is kept without the leading `/`.
#[derive(Clone, Debug)]
pub struct Rule {
    pub kind: RuleKind,
    pub pattern: Vec<u8>,
    pub anchored: bool,
}

/// A rule as a value of the model.
pub struct RuleView {
    pub kind: RuleKind,
    pub pattern: Seq<u8>,
    pub anchored: bool,
}

impl View for Rule {
    type V = RuleView;

    open spec fn view(&self) -> RuleView {
        RuleView { kind: self.kind, pattern: self.pattern@, anchored: self.anchored }
    }
}

/// A rule is well formed when its pattern does not itself begin with `/`:
/// anchoring is carried by the flag alone.
pub open spec fn rule_wf(r: RuleView) -> bool {
    !(r.pattern.len() > 0 && r.pattern[0] == 47u8)
}

/// The text of one rule on the wire: `+ ` or `- `, a `/` when anchored, the pattern.
pub open spec fn rule_entry(r: RuleView) -> Seq<u8> {
    let head = match r.kind {
        RuleKind::Include => seq![43u8, 32u8],
        RuleKind::Exclude => seq![45u8, 32u8],
    };
    if r.anchored {
        head + seq![47u8] + r.pattern
    } else {
        head + r.pattern
    }
}

/// The rule that a wire entry stands for, if it is one.
pub open spec fn decode_entry(e: Seq<u8>) -> Option<RuleView> {
    if e.len() < 2 || e[1] != 32u8 || (e[0] != 43u8 && e[0] != 45u8) {
        None
    } else {
        let kind = if e[0] == 43u8 { RuleKind::Include } else { RuleKind::Exclude };
        let rest = e.skip(2);
        if rest.len() > 0 && rest[0] == 47u8 {
            Some(RuleView { kind, pattern: rest.skip(1), anchored: true })
        } else {
            Some(RuleView { kind, pattern: rest, anchored: false })
        }
    }
}

/// The length of a rule's entry fits the signed 32-bit length that precedes it.
pub open spec fn entry_fits(r: RuleView) -> bool {
    r.pattern.len() + 3 <= 0x7fff_ffff
}

/// Four bytes, least significant first.
pub open spec fn le32_bytes(n: nat) -> Seq<u8> {
    seq![(n % 0x100) as u8, (n / 0x100 % 0x100) as u8, (n / 0x1_0000 % 0x100) as u8, (n / 0x100_0000 % 0x100) as u8]
}

/// One rule framed for the wire: its entry's length, then the entry.
pub open spec fn rule_frame(r: RuleView) -> Seq<u8> {
    le32_bytes(rule_entry(r).len()) + rule_entry(r)
}

/// The frames of all rules, in order.
pub open spec fn filter_entries(rules: Seq<RuleView>) -> Seq<u8>
    decreases rules.len(),
{
    if rules.len() == 0 {
        Seq::empty()
    } else {
        filter_entries(rules.drop_last()) + rule_frame(rules.last())
    }
}

/// The filter-rule block: the frames of all rules, then a zero length that ends it.
pub open spec fn filter_block(rules: Seq<RuleView>) -> Seq<u8> {
    filter_entries(rules) + le32_bytes(0)
}

pub open spec fn rules_view(rules: Seq<Rule>) -> Seq<RuleView> {
    rules.map_values(|r: Rule| r@)
}

/// Decoding the wire entry of a well-formed rule gives the rule back.
pub proof fn lemma_rule_round_trip(r: RuleView)
    requires
        rule_wf(r),
    ensures
        decode_entry(rule_entry(r)) == Some(r),
{
    let e = rule_entry(r);
    let rest = e.skip(2);
    if r.anchored {
        assert(rest =~= seq![47u8] + r.pattern);
        assert(rest.skip(1) =~= r.pattern);
    } else {
        assert(rest =~= r.pattern);
    }
}

fn push_le32(out: &mut Vec<u8>, n: u32)
    ensures
        final(out)@ == old(out)@ + le32_bytes(n as nat),
{
    out.push((n % 0x100) as u8);
    out.push((n / 0x100 % 0x100) as u8);
    out.push((n / 0x1_0000 % 0x100) as u8);
    out.push((n / 0x100_0000 % 0x100) as u8);
    assert(final(out)@ =~= old(out)@ + le32_bytes(n as nat));
}


impl Rule {
    /// A rule of `kind` for `pattern`; a leading `/` anchors it and is not
    /// kept in the pattern.
    pub fn new(kind: RuleKind, pattern: &[u8]) -> (r: Rule)
        ensures
            r.kind == kind,
            pattern@.len() > 0 && pattern@[0] == 47u8 ==> r.anchored && r.pattern@ == pattern@.skip(1),
            !(pattern@.len() > 0 && pattern@[0] == 47u8) ==> !r.anchored && r.pattern@ == pattern@,
    {
        if pattern.len() > 0 && pattern[0] == 47u8 {
            let p = copy_range(pattern, 1, pattern.len());
            assert(pattern@.subrange(1, pattern@.len() as int) =~= pattern@.skip(1));
            Rule { kind, pattern: p, anchored: true }
        } else {
            let p = copy_range(pattern, 0, pattern.len());
            assert(pattern@.subrange(0, pattern@.len() as int) =~= pattern@);
            Rule { kind, pattern: p, anchored: false }
        }
    }

    /// Encodes this rule's wire entry (without its length).
    pub fn encode(&self) -> (r: Vec<u8>)
        ensures
            r@ == rule_entry(self@),
    {
        let mut out: Vec<u8> = match self.kind {
            RuleKind::Include => vec![43u8, 32u8],
            RuleKind::Exclude => vec![45u8, 32u8],
        };
        if self.anchored {
            out.push(47u8);
        }
        append_bytes(&mut out, self.pattern.as_slice());
        assert(out@ =~= rule_entry(self@));
        out
    }

    /// Decodes one wire entry into a rule.
    pub fn decode(e: &[u8]) -> (r: Option<Rule>)
        ensures
            match r {
                Some(x) => decode_entry(e@) == Some(x@),
                None => decode_entry(e@) is None,
            },
    {
        if e.len() < 2 || e[1] != 32u8 || (e[0] != 43u8 && e[0] != 45u8) {
            return None;
        }
        let kind = if e[0] == 43u8 { RuleKind::Include } else { RuleKind::Exclude };
        if e.len() > 2 && e[2] == 47u8 {
            let p = copy_range(e, 3, e.len());
            assert(e@.skip(2).skip(1) =~= e@.subrange(3, e@.len() as int));
            Some(Rule { kind, pattern: p, anchored: true })
        } else {
            let p = copy_range(e, 2, e.len());
            assert(e@.skip(2) =~= e@.subrange(2, e@.len() as int));
            Some(Rule { kind, pattern: p, anchored: false })
        }
    }
}

/// Encodes the filter-rule block for `rules`, in order.
pub fn encode_filter_block(rules: &[Rule]) -> (r: Vec<u8>)
    requires
        forall|i: int| 0 <= i < rules@.len() ==> entry_fits(#[trigger] rules@[i]@),
    ensures
        r@ == filter_block(rules_view(rules@)),
{
    let mut out: Vec<u8> = Vec::new();
    let mut i: usize = 0;
    while i < rules.len()
        invariant
            i <= rules@.len(),
            forall|k: int| 0 <= k < rules@.len() ==> entry_fits(#[trigger] rules@[k]@),
            out@ == filter_entries(rules_view(rules@).subrange(0, i as int)),
        decreases rules@.len() - i,
    {
        let entry = rules[i].encode();
        assert(entry_fits(rules@[i as int]@));
        push_le32(&mut out, entry.len() as u32);
        append_bytes(&mut out, entry.as_slice());
        let ghost vs = rules_view(rules@);
        assert(vs.subrange(0, i + 1).drop_last() =~= vs.subrange(0, i as int));
        assert(vs.subrange(0, i + 1).last() == rules@[i as int]@);
        i = i + 1;
    }
    let ghost vs = rules_view(rules@);
    assert(vs.subrange(0, rules@.len() as int) =~= vs);
    push_le32(&mut out, 0);
    out
}

/// The value of four bytes read least significant first.
pub open spec fn le32_value(b: Seq<u8>) -> nat {
    (b[0] as nat + b[1] as nat * 0x100 + b[2] as nat * 0x1_0000 + b[3] as nat * 0x100_0000) as nat
}

pub open spec fn prepend_rules(rs: Seq<RuleView>, used: nat, rest: Option<(Seq<RuleView>, nat)>) -> Option<(Seq<RuleView>, nat)> {
    match rest {
        Some((more, n)) => Some((rs + more, used + n)),
        None => None,
    }
}

/// The rules of a filter-rule block at the start of `s`, and the number of
/// bytes up to and including its end marker; `None` when `s` is not one.
pub open spec fn parse_block(s: Seq<u8>) -> Option<(Seq<RuleView>, nat)>
    decreases s.len(),
{
    if s.len() < 4 {
        None
    } else {
        let n = le32_value(s.subrange(0, 4));
        if n == 0 {
            Some((Seq::empty(), 4))
        } else if s.len() < 4 + n {
            None
        } else {
            match decode_entry(s.subrange(4, 4 + n as int)) {
                None => None,
                Some(r) => prepend_rules(seq![r], 4 + n, parse_block(s.skip(4 + n as int))),
            }
        }
    }
}

proof fn lemma_le32(n: nat)
    requires
        n < 0x1_0000_0000,
    ensures
        le32_value(le32_bytes(n)) == n,
{
    assert(n % 0x100 + (n / 0x100 % 0x100) * 0x100 + (n / 0x1_0000 % 0x100) * 0x1_0000
        + (n / 0x100_0000 % 0x100) * 0x100_0000 == n) by (nonlinear_arith)
        requires
            n < 0x1_0000_0000,
    ;
}

proof fn lemma_entries_front(rules: Seq<RuleView>)
    requires
        rules.len() > 0,
    ensures
        filter_entries(rules) == rule_frame(rules[0]) + filter_entries(rules.skip(1)),
    decreases rules.len(),
{
    if rules.len() == 1 {
        assert(rules.drop_last() =~= Seq::<RuleView>::empty());
        assert(rules.skip(1) =~= Seq::<RuleView>::empty());
        assert(filter_entries(Seq::<RuleView>::empty()) == Seq::<u8>::empty());
        assert(Seq::<u8>::empty() + rule_frame(rules[0]) =~= rule_frame(rules[0]) + Seq::<u8>::empty());
    } else {
        let dl = rules.drop_last();
        lemma_entries_front(dl);
        assert(rules.skip(1).drop_last() =~= dl.skip(1));
        assert(rules.skip(1).last() == rules.last());
        assert(dl[0] == rules[0]);
        assert(filter_entries(rules.skip(1)) == filter_entries(dl.skip(1)) + rule_frame(rules.last()));
        assert((rule_frame(rules[0]) + filter_entries(dl.skip(1))) + rule_frame(rules.last())
            =~= rule_frame(rules[0]) + (filter_entries(dl.skip(1)) + rule_frame(rules.last())));
    }
}

proof fn lemma_parse_frame(r: RuleView, tail: Seq<u8>)
    requires
        rule_wf(r),
        entry_fits(r),
    ensures
        parse_block(rule_frame(r) + tail) == prepend_rules(
            seq![r],
            4 + rule_entry(r).len(),
            parse_block(tail),
        ),
{
    let e = rule_entry(r);
    let l = e.len();
    let s = rule_frame(r) + tail;
    lemma_le32(l);
    lemma_rule_round_trip(r);
    assert(s.subrange(0, 4) =~= le32_bytes(l));
    assert(s.subrange(4, 4 + l as int) =~= e);
    assert(s.skip(4 + l as int) =~= tail);
}

/// Decoding the block encoded for well-formed rules gives back the rules, in
/// order, and consumes the whole block.
pub proof fn lemma_filter_block_round_trip(rules: Seq<RuleView>)
    requires
        forall|i: int| 0 <= i < rules.len() ==> rule_wf(#[trigger] rules[i]) && entry_fits(rules[i]),
    ensures
        parse_block(filter_block(rules)) == Some((rules, filter_block(rules).len())),
    decreases rules.len(),
{
    let s = filter_block(rules);
    lemma_le32(0);
    if rules.len() == 0 {
        assert(s =~= le32_bytes(0));
        assert(s.subrange(0, 4) =~= le32_bytes(0));
        assert(rules =~= Seq::<RuleView>::empty());
    } else {
        let r0 = rules[0];
        let rest = rules.skip(1);
        assert forall|i: int| 0 <= i < rest.len() implies rule_wf(#[trigger] rest[i]) && entry_fits(rest[i]) by {
            assert(rest[i] == rules[i + 1]);
        }
        lemma_filter_block_round_trip(rest);
        lemma_entries_front(rules);
        lemma_parse_frame(r0, filter_block(rest));
        assert(s =~= rule_frame(r0) + filter_block(rest));
        assert(seq![r0] + rest =~= rules);
    }
}

/// Decodes a filter-rule block from the start of `s`: the rules, and how many
/// bytes the block took, end marker included.
pub fn decode_filter_block(s: &[u8]) -> (r: Option<(Vec<Rule>, usize)>)
    ensures
        match r {
            Some((rules, used)) => parse_block(s@) == Some((rules_view(rules@), used as nat)),
            None => parse_block(s@) is None,
        },
{
    let mut rules: Vec<Rule> = Vec::new();
    let mut pos: usize = 0;
    assert(s@.skip(0) =~= s@);
    assert(rules_view(rules@) =~= Seq::<RuleView>::empty());
    loop
        invariant
            pos <= s@.len(),
            parse_block(s@) == prepend_rules(rules_view(rules@), pos as nat, parse_block(s@.skip(pos as int))),
        decreases s@.len() - pos,
    {
        let ghost rest = s@.skip(pos as int);
        if s.len() - pos < 4 {
            return None;
        }
        let n: usize = s[pos] as usize + s[pos + 1] as usize * 0x100 + s[pos + 2] as usize * 0x1_0000
            + s[pos + 3] as usize * 0x100_0000;
        assert(n == le32_value(rest.subrange(0, 4)));
        let ghost before = rules_view(rules@);
        if n == 0 {
            proof {
                assert(before + Seq::<RuleView>::empty() =~= before);
            }
            return Some((rules, pos + 4));
        }
        if s.len() - pos - 4 < n {
            return None;
        }
        let end = pos + 4 + n;
        let entry = copy_range(s, pos + 4, end);
        assert(entry@ =~= rest.subrange(4, 4 + n as int));
        assert(rest.skip(4 + n as int) =~= s@.skip(end as int));
        match Rule::decode(entry.as_slice()) {
            None => {
                return None;
            },
            Some(rule) => {
                let ghost rv = rule@;
                rules.push(rule);
                proof {
                    assert(rules_view(rules@) =~= before + seq![rv]);
                    lemma_prepend_rules_assoc(before, pos as nat, seq![rv], (4 + n) as nat, parse_block(s@.skip(end as int)));
                }
                pos = end;
            },
        }
    }
}

proof fn lemma_prepend_rules_assoc(a: Seq<RuleView>, n: nat, b: Seq<RuleView>, m: nat, r: Option<(Seq<RuleView>, nat)>)
    ensures
        prepend_rules(a, n, prepend_rules(b, m, r)) == prepend_rules(a + b, n + m, r),
{
    if let Some((c, k)) = r {
        assert(a + (b + c) =~= (a + b) + c);
    }
}


} // verus!
