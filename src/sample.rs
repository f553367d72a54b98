//! Drawing repetition counts and class members at random.
use crate::tree::{count_interval, in_ranges, quantifier_wf, ranges_wf, Quantifier};
use rand::rngs::StdRng;
use rand::seq::SliceRandom;
use rand::Rng;
use vstd::prelude::*;

verus! {

/// Classes with at most this many ranges are sampled without bias.
pub const UNBIASED_LIMIT: usize = 2;

/// `rand::rngs::StdRng`, the random number generator, carried opaquely.
#[verifier::external_type_specification]
#[verifier::external_body]
pub struct ExStdRng(StdRng);

/// Relies on `rand::Rng::gen_range` over `lo..=hi`: the value lies in that
/// range; the call panics when the range is empty.
#[verifier::external_body]
pub(crate) fn draw_between(rng: &mut StdRng, lo: u32, hi: u32) -> (r: u32)
    requires
        lo <= hi,
    ensures
        lo <= r <= hi,
{
    rng.gen_range(lo..=hi)
}

/// Relies on `rand::seq::SliceRandom::choose`: a reference to one element of
/// the slice, or `None` when the slice is empty.
#[verifier::external_body]
pub(crate) fn choose_from<'a, T>(rng: &mut StdRng, items: &'a [T]) -> (r: Option<&'a T>)
    ensures
        r is None <==> items@.len() == 0,
        r matches Some(x) ==> items@.contains(*x),
{
    items.choose(rng)
}

/// Number of values in a range.
pub open spec fn range_width(r: (u32, u32)) -> int {
    r.1 - r.0 + 1
}

/// Number of values in all the ranges together.
pub open spec fn total_width(rs: Seq<(u32, u32)>) -> int
    decreases rs.len(),
{
    if rs.len() == 0 {
        0
    } else {
        range_width(rs[0]) + total_width(rs.drop_first())
    }
}

/// The value at position `k` when the ranges are laid end to end.
pub open spec fn value_at_offset(rs: Seq<(u32, u32)>, k: int) -> int
    decreases rs.len(),
{
    if rs.len() == 0 {
        0
    } else if k < range_width(rs[0]) {
        rs[0].0 + k
    } else {
        value_at_offset(rs.drop_first(), k - range_width(rs[0]))
    }
}

pub open spec fn ranges_ordered(rs: Seq<(u32, u32)>) -> bool {
    forall|i: int| 0 <= i < rs.len() ==> #[trigger] rs[i].0 <= rs[i].1
}

proof fn lemma_value_in_ranges(rs: Seq<(u32, u32)>, k: int)
    requires
        ranges_ordered(rs),
        0 <= k < total_width(rs),
    ensures
        0 <= value_at_offset(rs, k) <= u32::MAX,
        in_ranges(rs, value_at_offset(rs, k) as u32),
    decreases rs.len(),
{
    assert(rs[0].0 <= rs[0].1);
    if k >= range_width(rs[0]) {
        let rest = rs.drop_first();
        assert forall|i: int| 0 <= i < rest.len() implies #[trigger] rest[i].0 <= rest[i].1 by {
            assert(rest[i] == rs[i + 1]);
        }
        lemma_value_in_ranges(rest, k - range_width(rs[0]));
        let v = value_at_offset(rest, k - range_width(rs[0])) as u32;
        let i = choose|i: int| 0 <= i < rest.len() && #[trigger] rest[i].0 <= v && v <= rest[i].1;
        assert(rs[i + 1] == rest[i]);
    } else {
        assert(rs[0].0 <= value_at_offset(rs, k) as u32 <= rs[0].1);
    }
}

/// Maps an offset over the ranges laid end to end back to its value.
pub fn value_at(ranges: &[(u32, u32)], index: u64) -> (r: u32)
    requires
        ranges_ordered(ranges@),
        index < total_width(ranges@),
    ensures
        r == value_at_offset(ranges@, index as int),
        in_ranges(ranges@, r),
{
    proof {
        lemma_value_in_ranges(ranges@, index as int);
    }
    let mut i: usize = 0;
    let mut rest: u64 = index;
    assert(ranges@.subrange(0, ranges@.len() as int) =~= ranges@);
    loop
        invariant
            ranges_ordered(ranges@),
            i < ranges@.len(),
            rest < total_width(ranges@.subrange(i as int, ranges@.len() as int)),
            value_at_offset(ranges@, index as int) == value_at_offset(
                ranges@.subrange(i as int, ranges@.len() as int),
                rest as int,
            ),
        decreases ranges@.len() - i,
    {
        let ghost tail = ranges@.subrange(i as int, ranges@.len() as int);
        assert(tail[0] == ranges@[i as int]);
        let (lo, hi) = ranges[i];
        let width: u64 = (hi - lo) as u64 + 1;
        if rest < width {
            return lo + rest as u32;
        }
        assert(tail.drop_first() =~= ranges@.subrange(i + 1, ranges@.len() as int));
        assert(total_width(tail) == range_width(tail[0]) + total_width(tail.drop_first()));
        rest = rest - width;
        i = i + 1;
        if i == ranges.len() {
            assert(ranges@.subrange(i as int, ranges@.len() as int).len() == 0);
            assert(false);
        }
    }
}

proof fn lemma_small_total(rs: Seq<(u32, u32)>)
    requires
        ranges_wf(rs, u32::MAX),
        rs.len() <= 2,
    ensures
        total_width(rs) == range_width(rs[0]) + if rs.len() == 2 {
            range_width(rs[1])
        } else {
            0
        },
        total_width(rs) <= u32::MAX as int + 1,
{
    let rest = rs.drop_first();
    if rs.len() == 2 {
        assert(rest.drop_first().len() == 0);
        assert(rest[0] == rs[1]);
        assert(total_width(rest.drop_first()) == 0);
        assert(rs[0].1 < rs[1].0);
    }
    if rs.len() == 1 {
        assert(rest.len() == 0);
    }
    assert(total_width(rest) == if rs.len() == 2 {
        range_width(rs[1])
    } else {
        0
    });
}

/// Draws one member of the ranges. With at most `UNBIASED_LIMIT` ranges every
/// member is equally likely; with more, a range is picked first and then a
/// member of it.
pub(crate) fn sample_ranges(rng: &mut StdRng, ranges: &Vec<(u32, u32)>) -> (r: u32)
    requires
        ranges_wf(ranges@, u32::MAX),
    ensures
        in_ranges(ranges@, r),
{
    if ranges.len() <= UNBIASED_LIMIT {
        proof {
            lemma_small_total(ranges@);
        }
        let first = ranges[0];
        let mut total: u64 = (first.1 - first.0) as u64 + 1;
        if ranges.len() == 2 {
            let second = ranges[1];
            total = total + (second.1 - second.0) as u64 + 1;
        }
        let index = draw_between(rng, 0, (total - 1) as u32);
        value_at(ranges.as_slice(), index as u64)
    } else {
        match choose_from(rng, ranges.as_slice()) {
            Some(range) => {
                let v = draw_between(rng, range.0, range.1);
                let ghost i = choose|i: int| 0 <= i < ranges@.len() && ranges@[i] == *range;
                assert(ranges@[i].0 <= v && v <= ranges@[i].1);
                v
            },
            None => {
                assert(false);
                0
            },
        }
    }
}

/// The inclusive interval of repetition counts for a quantifier under the
/// repetition bound `max_repeat`.
pub fn repeat_bounds(q: Quantifier, greedy: bool, max_repeat: u32) -> (r: (u32, u32))
    ensures
        r == count_interval(q, greedy, max_repeat),
{
    let lo: u32 = match q {
        Quantifier::ZeroOrOne => 0,
        Quantifier::ZeroOrMore => 0,
        Quantifier::OneOrMore => 1,
        Quantifier::Range(min, _) => min,
    };
    if !greedy {
        return (lo, lo);
    }
    match q {
        Quantifier::ZeroOrOne => (0, 1),
        Quantifier::ZeroOrMore => (0, max_repeat),
        Quantifier::Range(_, Some(max)) => (lo, max),
        _ => (lo, if max_repeat < lo { lo } else { max_repeat }),
    }
}

/// Draws a repetition count: uniformly over the interval when greedy, its
/// minimum when lazy.
pub(crate) fn resolve_count(rng: &mut StdRng, q: Quantifier, greedy: bool, max_repeat: u32) -> (r:
    u32)
    requires
        quantifier_wf(q),
    ensures
        count_interval(q, greedy, max_repeat).0 <= r <= count_interval(q, greedy, max_repeat).1,
        !greedy ==> r == count_interval(q, greedy, max_repeat).0 && *final(rng) == *old(rng),
{
    let (lo, hi) = repeat_bounds(q, greedy, max_repeat);
    if greedy {
        draw_between(rng, lo, hi)
    } else {
        lo
    }
}

} // verus!
