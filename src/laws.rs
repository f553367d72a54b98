//! Properties of the outputs and of class sampling, proved once for all inputs.
use crate::sample::{range_width, total_width, value_at_offset};
use crate::tree::{
    count_allowed, in_ranges, produces, produces_times, quantifier_min, ranges_wf, Node,
    Quantifier,
};
use vstd::prelude::*;
use vstd::utf8::{encode_scalar, encode_utf8};

verus! {

/// The quantifier has no explicit maximum.
pub open spec fn unbounded(q: Quantifier) -> bool {
    match q {
        Quantifier::ZeroOrMore => true,
        Quantifier::OneOrMore => true,
        Quantifier::Range(_, None) => true,
        _ => false,
    }
}

/// Every output of `c` is a single byte.
pub open spec fn one_byte_outputs(c: Node, m: u32) -> bool {
    forall|s: Seq<u8>| #[trigger] produces(c, s, m) ==> s.len() == 1
}

/// A one-byte literal, and a literal of one ASCII character, output a single byte.
pub proof fn single_byte_literal_outputs(c: Node, m: u32)
    requires
        (c matches Node::Bytes(bs) && bs@.len() == 1) || (c matches Node::Text(cs) && cs@.len() == 1
            && (cs@[0] as u32) < 0x80),
    ensures
        one_byte_outputs(c, m),
{
    if let Node::Text(cs) = c {
        assert(cs@.drop_first() =~= Seq::<char>::empty());
        assert(encode_utf8(cs@.drop_first()) =~= Seq::<u8>::empty());
        assert(encode_scalar(cs@[0] as u32).len() == 1);
        assert(encode_utf8(cs@).len() == 1);
    }
}

proof fn lemma_times_of_one_byte(c: Node, k: nat, out: Seq<u8>, m: u32)
    requires
        one_byte_outputs(c, m),
        produces_times(c, k, out, m),
    ensures
        out.len() == k,
    decreases k,
{
    if k > 0 {
        let j = choose|j: int|
            0 <= j <= out.len() && produces_times(c, (k - 1) as nat, #[trigger] out.subrange(0, j), m)
                && produces(c, out.subrange(j, out.len() as int), m);
        lemma_times_of_one_byte(c, (k - 1) as nat, out.subrange(0, j), m);
    }
}

/// A greedy repetition without a maximum, over a sub-pattern whose outputs are
/// single bytes, yields between the quantifier's minimum and the repetition
/// bound `m` bytes, and exactly the minimum when the minimum exceeds `m`; so
/// under a bound of zero it yields exactly the minimum, no bytes for `*`.
pub proof fn unbounded_repetition_respects_bound(n: Node, out: Seq<u8>, m: u32)
    requires
        n matches Node::Repetition(c, q, true) && unbounded(q) && one_byte_outputs(*c, m),
        produces(n, out, m),
    ensures
        n matches Node::Repetition(_, q, _) && quantifier_min(q) <= out.len() && out.len() <= if m
            < quantifier_min(q) {
            quantifier_min(q) as int
        } else {
            m as int
        },
        n matches Node::Repetition(_, q, _) && (m == 0 ==> out.len() == quantifier_min(q)),
{
    if let Node::Repetition(c, q, g) = n {
        let k = choose|k: nat| #[trigger] count_allowed(q, g, m, k) && produces_times(*c, k, out, m);
        lemma_times_of_one_byte(*c, k, out, m);
    }
}

/// A lazy repetition always yields exactly the quantifier's minimum number of
/// outputs of its child.
pub proof fn lazy_repetition_takes_minimum(n: Node, out: Seq<u8>, m: u32)
    requires
        n matches Node::Repetition(_, _, false),
    ensures
        n matches Node::Repetition(c, q, _) && (produces(n, out, m) <==> produces_times(
            *c,
            quantifier_min(q) as nat,
            out,
            m,
        )),
{
    if let Node::Repetition(c, q, g) = n {
        if produces_times(*c, quantifier_min(q) as nat, out, m) {
            assert(count_allowed(q, g, m, quantifier_min(q) as nat));
        }
    }
}

/// Every branch of an alternation can be taken: an output of any branch is an
/// output of the alternation.
pub proof fn alternation_reaches_every_branch(n: Node, i: int, out: Seq<u8>, m: u32)
    requires
        n matches Node::Alternation(cs) && 0 <= i < cs@.len() && produces(cs@[i], out, m),
    ensures
        produces(n, out, m),
{
}

proof fn lemma_total_nonneg(rs: Seq<(u32, u32)>)
    requires
        forall|i: int| 0 <= i < rs.len() ==> #[trigger] rs[i].0 <= rs[i].1,
    ensures
        total_width(rs) >= 0,
    decreases rs.len(),
{
    if rs.len() > 0 {
        let rest = rs.drop_first();
        assert forall|i: int| 0 <= i < rest.len() implies #[trigger] rest[i].0 <= rest[i].1 by {
            assert(rest[i] == rs[i + 1]);
        }
        lemma_total_nonneg(rest);
        assert(rs[0].0 <= rs[0].1);
    }
}

proof fn lemma_offsets_from_first(rs: Seq<(u32, u32)>, k: int)
    requires
        ranges_wf(rs, u32::MAX),
        0 <= k < total_width(rs),
    ensures
        rs[0].0 <= value_at_offset(rs, k),
        k >= range_width(rs[0]) ==> rs.len() > 1 && rs[1].0 <= value_at_offset(rs, k),
    decreases rs.len(),
{
    if k >= range_width(rs[0]) {
        let rest = rs.drop_first();
        if rest.len() == 0 {
            assert(total_width(rest) == 0);
        }
        lemma_rest_wf(rs);
        lemma_offsets_from_first(rest, k - range_width(rs[0]));
        assert(rs[0].1 < rs[1].0);
        assert(rest[0] == rs[1]);
    }
}

proof fn lemma_rest_wf(rs: Seq<(u32, u32)>)
    requires
        ranges_wf(rs, u32::MAX),
        rs.len() > 1,
    ensures
        ranges_wf(rs.drop_first(), u32::MAX),
{
    let rest = rs.drop_first();
    assert forall|i: int, j: int| 0 <= i < j < rest.len() implies #[trigger] rest[i].1
        < #[trigger] rest[j].0 by {
        assert(rs[i + 1].1 < rs[j + 1].0);
    }
    assert forall|i: int| 0 <= i < rest.len() implies #[trigger] rest[i].0 <= rest[i].1
        && rest[i].1 <= u32::MAX by {
        assert(rs[i + 1].0 <= rs[i + 1].1);
    }
}

proof fn lemma_offsets_increase(rs: Seq<(u32, u32)>, k1: int, k2: int)
    requires
        ranges_wf(rs, u32::MAX),
        0 <= k1 < k2 < total_width(rs),
    ensures
        value_at_offset(rs, k1) < value_at_offset(rs, k2),
    decreases rs.len(),
{
    let w = range_width(rs[0]);
    if k2 < w {
    } else if k1 < w {
        lemma_offsets_from_first(rs, k2);
        assert(rs[0].1 < rs[1].0);
    } else {
        lemma_offsets_from_first(rs, k1);
        lemma_rest_wf(rs);
        lemma_offsets_increase(rs.drop_first(), k1 - w, k2 - w);
    }
}

proof fn lemma_offset_of_value(rs: Seq<(u32, u32)>, v: u32) -> (k: int)
    requires
        ranges_wf(rs, u32::MAX),
        in_ranges(rs, v),
    ensures
        0 <= k < total_width(rs),
        value_at_offset(rs, k) == v,
    decreases rs.len(),
{
    let i = choose|i: int| 0 <= i < rs.len() && #[trigger] rs[i].0 <= v && v <= rs[i].1;
    lemma_total_nonneg(rs.drop_first());
    if i == 0 {
        v - rs[0].0
    } else {
        let rest = rs.drop_first();
        lemma_rest_wf(rs);
        assert(rest[i - 1] == rs[i]);
        let k = lemma_offset_of_value(rest, v);
        k + range_width(rs[0])
    }
}

/// Laying sorted, disjoint ranges end to end gives each member exactly one
/// offset below the total width; an offset drawn uniformly from that width
/// therefore selects every member with the same chance.
pub proof fn each_value_has_one_offset(rs: Seq<(u32, u32)>, v: u32)
    requires
        ranges_wf(rs, u32::MAX),
        in_ranges(rs, v),
    ensures
        exists|k: int|
            0 <= k < total_width(rs) && #[trigger] value_at_offset(rs, k) == v && forall|l: int|
                0 <= l < total_width(rs) && #[trigger] value_at_offset(rs, l) == v ==> l == k,
{
    let k = lemma_offset_of_value(rs, v);
    assert forall|l: int| 0 <= l < total_width(rs) && #[trigger] value_at_offset(rs, l) == v implies l
        == k by {
        if l < k {
            lemma_offsets_increase(rs, l, k);
        } else if k < l {
            lemma_offsets_increase(rs, k, l);
        }
    }
}

} // verus!
