//! The `stats` report: one `STAT <name> <value>` line per metric reading,
//! in byte-wise lexicographic order, then `END`.

use vstd::prelude::*;
use vstd::relations::{sorted_by, total_ordering};
use crate::codec::{push_slice, crlf_bytes};

verus! {

broadcast use vstd::seq_lib::group_to_multiset_ensures;

/// One metric reading: a name and its current value.
pub struct Stat {
    pub name: Vec<u8>,
    pub value: i128,
}

/// The decimal digits of `n`.
pub open spec fn decimal(n: nat) -> Seq<u8>
    decreases n,
{
    if n < 10 {
        seq![(48u8 + n) as u8]
    } else {
        decimal(n / 10).push((48u8 + n % 10) as u8)
    }
}

/// The decimal text of a signed value.
pub open spec fn signed_decimal(v: int) -> Seq<u8> {
    if v < 0 {
        seq![45u8] + decimal((-v) as nat)
    } else {
        decimal(v as nat)
    }
}

/// `STAT <name> <value>\r\n`.
pub open spec fn stat_line(s: Stat) -> Seq<u8> {
    seq![83u8, 84u8, 65u8, 84u8, 32u8] + s.name@ + seq![32u8] + signed_decimal(s.value as int)
        + crlf_bytes()
}

pub open spec fn stat_lines(stats: Seq<Stat>) -> Seq<Seq<u8>> {
    stats.map_values(|s: Stat| stat_line(s))
}

/// Byte-wise lexicographic order; a prefix comes first.
pub open spec fn lex_le(a: Seq<u8>, b: Seq<u8>) -> bool
    decreases a.len(),
{
    if a.len() == 0 {
        true
    } else if b.len() == 0 {
        false
    } else if a[0] != b[0] {
        a[0] < b[0]
    } else {
        lex_le(a.drop_first(), b.drop_first())
    }
}

pub open spec fn lex_order() -> spec_fn(Seq<u8>, Seq<u8>) -> bool {
    |a: Seq<u8>, b: Seq<u8>| lex_le(a, b)
}

pub open spec fn end_bytes() -> Seq<u8> {
    seq![69u8, 78u8, 68u8, 13u8, 10u8]
}

/// The whole report for `stats`: their lines sorted, then `END\r\n`.
pub open spec fn stats_text(stats: Seq<Stat>) -> Seq<u8> {
    stat_lines(stats).sort_by(lex_order()).flatten() + end_bytes()
}

proof fn lemma_lex_reflexive(a: Seq<u8>)
    ensures
        lex_le(a, a),
    decreases a.len(),
{
    if a.len() > 0 {
        lemma_lex_reflexive(a.drop_first());
    }
}

proof fn lemma_lex_antisymmetric(a: Seq<u8>, b: Seq<u8>)
    requires
        lex_le(a, b),
        lex_le(b, a),
    ensures
        a == b,
    decreases a.len(),
{
    if a.len() > 0 && b.len() > 0 {
        lemma_lex_antisymmetric(a.drop_first(), b.drop_first());
        assert(a =~= seq![a[0]] + a.drop_first());
        assert(b =~= seq![b[0]] + b.drop_first());
    }
}

proof fn lemma_lex_transitive(a: Seq<u8>, b: Seq<u8>, c: Seq<u8>)
    requires
        lex_le(a, b),
        lex_le(b, c),
    ensures
        lex_le(a, c),
    decreases a.len(),
{
    if a.len() > 0 && b.len() > 0 && c.len() > 0 && a[0] == b[0] && b[0] == c[0] {
        lemma_lex_transitive(a.drop_first(), b.drop_first(), c.drop_first());
    }
}

proof fn lemma_lex_total(a: Seq<u8>, b: Seq<u8>)
    ensures
        lex_le(a, b) || lex_le(b, a),
    decreases a.len(),
{
    if a.len() > 0 && b.len() > 0 && a[0] == b[0] {
        lemma_lex_total(a.drop_first(), b.drop_first());
    }
}

/// The lexicographic order on byte strings is a total order.
pub proof fn lemma_lex_total_ordering()
    ensures
        total_ordering(lex_order()),
{
    assert forall|a: Seq<u8>| #[trigger] lex_order()(a, a) by {
        lemma_lex_reflexive(a);
    }
    assert forall|a: Seq<u8>, b: Seq<u8>|
        #[trigger] lex_order()(a, b) && #[trigger] lex_order()(b, a) implies a == b by {
        lemma_lex_antisymmetric(a, b);
    }
    assert forall|a: Seq<u8>, b: Seq<u8>, c: Seq<u8>|
        #[trigger] lex_order()(a, b) && #[trigger] lex_order()(b, c) implies lex_order()(a, c) by {
        lemma_lex_transitive(a, b, c);
    }
    assert forall|a: Seq<u8>, b: Seq<u8>|
        #[trigger] lex_order()(a, b) || #[trigger] lex_order()(b, a) by {
        lemma_lex_total(a, b);
    }
}

fn lex_le_exec(a: &Vec<u8>, b: &Vec<u8>) -> (r: bool)
    ensures
        r == lex_le(a@, b@),
{
    let mut i: usize = 0;
    assert(a@.subrange(0, a@.len() as int) =~= a@);
    assert(b@.subrange(0, b@.len() as int) =~= b@);
    while i < a.len() && i < b.len() && a[i] == b[i]
        invariant
            i <= a@.len(),
            i <= b@.len(),
            lex_le(a@, b@) == lex_le(
                a@.subrange(i as int, a@.len() as int),
                b@.subrange(i as int, b@.len() as int),
            ),
        decreases a@.len() - i,
    {
        assert(a@.subrange(i as int, a@.len() as int).drop_first() =~= a@.subrange(
            i + 1,
            a@.len() as int,
        ));
        assert(b@.subrange(i as int, b@.len() as int).drop_first() =~= b@.subrange(
            i + 1,
            b@.len() as int,
        ));
        i = i + 1;
    }
    if i == a.len() {
        true
    } else if i == b.len() {
        false
    } else {
        a[i] < b[i]
    }
}

pub(crate) fn push_decimal(n: u128, out: &mut Vec<u8>)
    ensures
        final(out)@ == old(out)@ + decimal(n as nat),
    decreases n,
{
    if n >= 10 {
        push_decimal(n / 10, out);
    }
    out.push(48u8 + (n % 10) as u8);
    assert(final(out)@ =~= old(out)@ + decimal(n as nat));
}

fn stat_line_exec(s: &Stat) -> (r: Vec<u8>)
    ensures
        r@ == stat_line(*s),
{
    let mut line: Vec<u8> = Vec::new();
    push_slice(&mut line, &[83u8, 84, 65, 84, 32]);
    push_slice(&mut line, s.name.as_slice());
    line.push(32u8);
    if s.value < 0 {
        line.push(45u8);
        let m: u128 = (-(s.value + 1)) as u128 + 1;
        push_decimal(m, &mut line);
    } else {
        push_decimal(s.value as u128, &mut line);
    }
    push_slice(&mut line, &[13u8, 10]);
    assert(line@ =~= stat_line(*s));
    line
}

/// Renders the `stats` report for the given readings.
pub fn memcache_stats(stats: &Vec<Stat>) -> (r: Vec<u8>)
    ensures
        r@ == stats_text(stats@),
{
    proof {
        lemma_lex_total_ordering();
    }
    let mut sorted: Vec<Vec<u8>> = Vec::new();
    let ghost mut gs: Seq<Seq<u8>> = Seq::empty();
    let mut i: usize = 0;
    while i < stats.len()
        invariant
            i <= stats@.len(),
            total_ordering(lex_order()),
            gs.len() == sorted@.len(),
            forall|k: int| 0 <= k < gs.len() ==> #[trigger] sorted@[k]@ == gs[k],
            sorted_by(gs, lex_order()),
            gs.to_multiset() == stat_lines(stats@.subrange(0, i as int)).to_multiset(),
        decreases stats@.len() - i,
    {
        let line = stat_line_exec(&stats[i]);
        let mut pos: usize = 0;
        while pos < sorted.len() && lex_le_exec(&sorted[pos], &line)
            invariant
                pos <= sorted@.len(),
                gs.len() == sorted@.len(),
                forall|k: int| 0 <= k < gs.len() ==> #[trigger] sorted@[k]@ == gs[k],
                forall|k: int| 0 <= k < pos ==> lex_le(#[trigger] gs[k], line@),
            decreases sorted@.len() - pos,
        {
            pos = pos + 1;
        }
        proof {
            if pos < gs.len() {
                lemma_lex_total(gs[pos as int], line@);
                assert forall|k: int| pos <= k < gs.len() implies lex_le(line@, #[trigger] gs[k]) by {
                    if k > pos {
                        assert(lex_order()(gs[pos as int], gs[k]));
                        lemma_lex_transitive(line@, gs[pos as int], gs[k]);
                    }
                }
            }
            assert(stats@.subrange(0, i + 1) =~= stats@.subrange(0, i as int).push(stats@[i as int]));
            assert(stat_lines(stats@.subrange(0, i + 1)) =~= stat_lines(stats@.subrange(0, i as int)).push(line@));
        }
        let ghost old_gs = gs;
        let ghost old_sorted = sorted@;
        sorted.insert(pos, line);
        proof {
            gs = gs.insert(pos as int, line@);
            assert forall|a: int, b: int| 0 <= a < b < gs.len() implies #[trigger] lex_order()(gs[a], gs[b]) by {
                if b < pos {
                    assert(lex_order()(old_gs[a], old_gs[b]));
                } else if a > pos {
                    assert(lex_order()(old_gs[a - 1], old_gs[b - 1]));
                } else if a == pos {
                } else if b == pos {
                } else {
                    assert(lex_order()(old_gs[a], old_gs[b - 1]));
                }
            }
            assert forall|k: int| 0 <= k < gs.len() implies #[trigger] sorted@[k]@ == gs[k] by {
                if k < pos {
                    assert(sorted@[k] == old_sorted[k]);
                }
            }
        }
        i = i + 1;
    }
    proof {
        assert(stats@.subrange(0, stats@.len() as int) =~= stats@);
        stat_lines(stats@).lemma_sort_by_ensures(lex_order());
        vstd::seq_lib::lemma_sorted_unique(gs, stat_lines(stats@).sort_by(lex_order()), lex_order());
    }
    let mut out: Vec<u8> = Vec::new();
    let mut j: usize = 0;
    while j < sorted.len()
        invariant
            j <= sorted@.len(),
            gs.len() == sorted@.len(),
            forall|k: int| 0 <= k < gs.len() ==> #[trigger] sorted@[k]@ == gs[k],
            out@ == gs.subrange(0, j as int).flatten(),
        decreases sorted@.len() - j,
    {
        push_slice(&mut out, sorted[j].as_slice());
        proof {
            assert(gs.subrange(0, j + 1) =~= gs.subrange(0, j as int).push(gs[j as int]));
            gs.subrange(0, j as int).lemma_flatten_push(gs[j as int]);
        }
        j = j + 1;
    }
    assert(gs.subrange(0, gs.len() as int) =~= gs);
    push_slice(&mut out, &[69u8, 78, 68, 13, 10]);
    assert(out@ =~= stats_text(stats@));
    out
}

} // verus!
