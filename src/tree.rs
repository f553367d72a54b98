//! The pattern tree the generator walks, and what each node may produce.
use vstd::prelude::*;
use vstd::utf8::{encode_scalar, encode_utf8, is_scalar};

verus! {

/// Largest Unicode scalar value.
pub const MAX_SCALAR: u32 = 0x10FFFF;

/// Largest byte value, as an ordinal.
pub const MAX_BYTE: u32 = 0xFF;

/// Zero-width assertions; only `EndLine` produces output (a newline).
#[derive(Clone, Copy, Debug, PartialEq, Eq, Structural)]
pub enum AnchorKind {
    StartText,
    EndText,
    StartLine,
    EndLine,
    WordBoundary,
    NotWordBoundary,
}

/// How many times a repeated sub-pattern may occur.
#[derive(Clone, Copy, Debug, PartialEq, Eq, Structural)]
pub enum Quantifier {
    ZeroOrOne,
    ZeroOrMore,
    OneOrMore,
    /// At least `min`, at most `max` when present, else unbounded.
    Range(u32, Option<u32>),
}

/// A parsed pattern.
///
/// Class ranges are inclusive pairs of ordinals: Unicode scalar values for
/// `UnicodeClass`, byte values for `ByteClass`.
#[derive(Debug)]
pub enum Node {
    Empty,
    Anchor(AnchorKind),
    Text(Vec<char>),
    Bytes(Vec<u8>),
    UnicodeClass(Vec<(u32, u32)>),
    ByteClass(Vec<(u32, u32)>),
    Group(Box<Node>),
    Concat(Vec<Node>),
    Alternation(Vec<Node>),
    /// The child, the quantifier, and whether it is greedy.
    Repetition(Box<Node>, Quantifier, bool),
}

/// `v` lies in one of the inclusive ranges.
pub open spec fn in_ranges(rs: Seq<(u32, u32)>, v: u32) -> bool {
    exists|i: int| 0 <= i < rs.len() && #[trigger] rs[i].0 <= v && v <= rs[i].1
}

/// Non-empty, each range ordered and under `top`, ranges sorted and disjoint.
pub open spec fn ranges_wf(rs: Seq<(u32, u32)>, top: u32) -> bool {
    &&& rs.len() > 0
    &&& forall|i: int| 0 <= i < rs.len() ==> #[trigger] rs[i].0 <= rs[i].1 && rs[i].1 <= top
    &&& forall|i: int, j: int| 0 <= i < j < rs.len() ==> #[trigger] rs[i].1 < #[trigger] rs[j].0
}

/// Both ends of the range are scalar values.
pub open spec fn scalar_ends(r: (u32, u32)) -> bool {
    is_scalar(r.0) && is_scalar(r.1)
}

/// A Unicode class additionally has scalar values at both ends of each range.
pub open spec fn scalar_ranges_wf(rs: Seq<(u32, u32)>) -> bool {
    &&& ranges_wf(rs, MAX_SCALAR)
    &&& forall|i: int| 0 <= i < rs.len() ==> #[trigger] scalar_ends(rs[i])
}

pub open spec fn quantifier_wf(q: Quantifier) -> bool {
    match q {
        Quantifier::Range(min, Some(max)) => min <= max,
        _ => true,
    }
}

/// The invariants of a pattern tree, at every node.
pub open spec fn wf(n: Node) -> bool
    decreases n,
{
    match n {
        Node::UnicodeClass(rs) => scalar_ranges_wf(rs@),
        Node::ByteClass(rs) => ranges_wf(rs@, MAX_BYTE),
        Node::Group(c) => wf(*c),
        Node::Concat(cs) => forall|i: int| 0 <= i < cs@.len() ==> wf(#[trigger] cs@[i]),
        Node::Alternation(cs) => cs@.len() > 0 && forall|i: int|
            0 <= i < cs@.len() ==> wf(#[trigger] cs@[i]),
        Node::Repetition(c, q, _) => quantifier_wf(q) && wf(*c),
        _ => true,
    }
}

/// The least repetition count of a quantifier.
pub open spec fn quantifier_min(q: Quantifier) -> u32 {
    match q {
        Quantifier::ZeroOrOne => 0,
        Quantifier::ZeroOrMore => 0,
        Quantifier::OneOrMore => 1,
        Quantifier::Range(min, _) => min,
    }
}

/// The inclusive interval a repetition count is drawn from, under the
/// repetition bound `m`. Lazy quantifiers take their minimum; the bound
/// replaces a missing maximum but never goes below the minimum.
pub open spec fn count_interval(q: Quantifier, greedy: bool, m: u32) -> (u32, u32) {
    let lo = quantifier_min(q);
    if !greedy {
        (lo, lo)
    } else {
        match q {
            Quantifier::ZeroOrOne => (0, 1),
            Quantifier::ZeroOrMore => (0, m),
            Quantifier::Range(_, Some(max)) => (lo, max),
            _ => (lo, if m < lo { lo } else { m }),
        }
    }
}

/// Generating `n` takes no random draw: it holds no class, no alternation and
/// no greedy repetition.
pub open spec fn draws_nothing(n: Node) -> bool
    decreases n,
{
    match n {
        Node::UnicodeClass(_) => false,
        Node::ByteClass(_) => false,
        Node::Alternation(_) => false,
        Node::Group(c) => draws_nothing(*c),
        Node::Concat(cs) => forall|i: int| 0 <= i < cs@.len() ==> draws_nothing(#[trigger] cs@[i]),
        Node::Repetition(c, _, greedy) => !greedy && draws_nothing(*c),
        _ => true,
    }
}

/// `k` lies in the interval of repetition counts.
pub open spec fn count_allowed(q: Quantifier, greedy: bool, m: u32, k: nat) -> bool {
    count_interval(q, greedy, m).0 <= k <= count_interval(q, greedy, m).1
}

/// `out` is one output of `n` under the repetition bound `m`.
pub open spec fn produces(n: Node, out: Seq<u8>, m: u32) -> bool
    decreases n, 0nat,
{
    match n {
        Node::Empty => out == Seq::<u8>::empty(),
        Node::Anchor(k) => if k == AnchorKind::EndLine {
            out == seq![10u8]
        } else {
            out == Seq::<u8>::empty()
        },
        Node::Text(cs) => out == encode_utf8(cs@),
        Node::Bytes(bs) => out == bs@,
        Node::UnicodeClass(rs) => exists|v: u32|
            #[trigger] in_ranges(rs@, v) && is_scalar(v) && out == encode_scalar(v),
        Node::ByteClass(rs) => exists|v: u32| #[trigger] in_ranges(rs@, v) && out == seq![v as u8],
        Node::Group(c) => produces(*c, out, m),
        Node::Concat(cs) => produces_each(cs@, out, m),
        Node::Alternation(cs) => exists|i: int|
            0 <= i < cs@.len() && produces(#[trigger] cs@[i], out, m),
        Node::Repetition(c, q, g) => exists|k: nat|
            #[trigger] count_allowed(q, g, m, k) && produces_times(*c, k, out, m),
    }
}

/// `out` is the outputs of `cs`, one each, in order.
pub open spec fn produces_each(cs: Seq<Node>, out: Seq<u8>, m: u32) -> bool
    decreases cs, 0nat,
{
    if cs.len() == 0 {
        out == Seq::<u8>::empty()
    } else {
        exists|j: int|
            0 <= j <= out.len() && produces_each(cs.drop_last(), #[trigger] out.subrange(0, j), m)
                && produces(cs.last(), out.subrange(j, out.len() as int), m)
    }
}

/// `out` is `k` outputs of `c`, one after the other.
pub open spec fn produces_times(c: Node, k: nat, out: Seq<u8>, m: u32) -> bool
    decreases c, k + 1,
{
    if k == 0 {
        out == Seq::<u8>::empty()
    } else {
        exists|j: int|
            0 <= j <= out.len() && produces_times(c, (k - 1) as nat, #[trigger] out.subrange(0, j), m)
                && produces(c, out.subrange(j, out.len() as int), m)
    }
}

/// `a` and `b` have the same shape and contents, vectors compared by their views.
pub open spec fn same_tree(a: Node, b: Node) -> bool
    decreases a,
{
    match a {
        Node::Empty => b is Empty,
        Node::Anchor(k) => b == Node::Anchor(k),
        Node::Text(x) => b matches Node::Text(y) && x@ == y@,
        Node::Bytes(x) => b matches Node::Bytes(y) && x@ == y@,
        Node::UnicodeClass(x) => b matches Node::UnicodeClass(y) && x@ == y@,
        Node::ByteClass(x) => b matches Node::ByteClass(y) && x@ == y@,
        Node::Group(c) => b matches Node::Group(d) && same_tree(*c, *d),
        Node::Concat(cs) => b matches Node::Concat(ds) && cs@.len() == ds@.len() && forall|i: int|
            0 <= i < cs@.len() ==> same_tree(#[trigger] cs@[i], ds@[i]),
        Node::Alternation(cs) => b matches Node::Alternation(ds) && cs@.len() == ds@.len()
            && forall|i: int| 0 <= i < cs@.len() ==> same_tree(#[trigger] cs@[i], ds@[i]),
        Node::Repetition(c, q, g) => b matches Node::Repetition(d, q2, g2) && q == q2 && g == g2
            && same_tree(*c, *d),
    }
}

/// `n` is nested at most `d` levels deep, counting each node on the way down.
pub open spec fn nested_within(n: Node, d: nat) -> bool
    decreases n,
{
    d > 0 && match n {
        Node::Group(c) => nested_within(*c, (d - 1) as nat),
        Node::Repetition(c, _, _) => nested_within(*c, (d - 1) as nat),
        Node::Concat(cs) => forall|i: int|
            0 <= i < cs@.len() ==> nested_within(#[trigger] cs@[i], (d - 1) as nat),
        Node::Alternation(cs) => forall|i: int|
            0 <= i < cs@.len() ==> nested_within(#[trigger] cs@[i], (d - 1) as nat),
        _ => true,
    }
}

/// Trees of the same shape and contents satisfy the invariants alike.
pub proof fn lemma_same_tree_wf(a: Node, b: Node)
    requires
        same_tree(a, b),
    ensures
        wf(a) == wf(b),
    decreases a, 1nat,
{
    match a {
        Node::Group(c) => {
            if let Node::Group(d) = b {
                lemma_same_tree_wf(*c, *d);
            }
        },
        Node::Repetition(c, _, _) => {
            if let Node::Repetition(d, _, _) = b {
                lemma_same_tree_wf(*c, *d);
            }
        },
        Node::Concat(cs) => {
            if let Node::Concat(ds) = b {
                lemma_same_children_wf(cs@, ds@);
            }
        },
        Node::Alternation(cs) => {
            if let Node::Alternation(ds) = b {
                lemma_same_children_wf(cs@, ds@);
            }
        },
        _ => {},
    }
}

/// Children that are pairwise the same trees satisfy the invariants alike.
proof fn lemma_same_children_wf(cs: Seq<Node>, ds: Seq<Node>)
    requires
        cs.len() == ds.len(),
        forall|i: int| 0 <= i < cs.len() ==> same_tree(#[trigger] cs[i], ds[i]),
    ensures
        (forall|i: int| 0 <= i < cs.len() ==> wf(#[trigger] cs[i])) == (forall|i: int|
            0 <= i < ds.len() ==> wf(#[trigger] ds[i])),
    decreases cs, 0nat,
{
    assert forall|i: int| 0 <= i < cs.len() implies wf(#[trigger] cs[i]) == wf(ds[i]) by {
        lemma_same_tree_wf(cs[i], ds[i]);
    }
    if forall|i: int| 0 <= i < ds.len() ==> wf(#[trigger] ds[i]) {
        assert forall|i: int| 0 <= i < cs.len() implies wf(#[trigger] cs[i]) by {
            assert(wf(ds[i]));
        }
    }
    if forall|i: int| 0 <= i < cs.len() ==> wf(#[trigger] cs[i]) {
        assert forall|i: int| 0 <= i < ds.len() implies wf(#[trigger] ds[i]) by {
            assert(wf(cs[i]));
        }
    }
}

/// Whether `v` is a Unicode scalar value.
pub fn scalar_value(v: u32) -> (r: bool)
    ensures
        r == is_scalar(v),
{
    v <= MAX_SCALAR && !(0xD800 <= v && v <= 0xDFFF)
}

/// Whether the ranges are non-empty, ordered, at most `top`, sorted and
/// disjoint; with `scalars`, whether every range end is a scalar value too.
pub fn check_ranges(rs: &Vec<(u32, u32)>, top: u32, scalars: bool) -> (r: bool)
    ensures
        r == (ranges_wf(rs@, top) && (scalars ==> forall|i: int|
            0 <= i < rs@.len() ==> #[trigger] scalar_ends(rs@[i]))),
{
    if rs.len() == 0 {
        return false;
    }
    let mut i: usize = 0;
    while i < rs.len()
        invariant
            0 < rs@.len(),
            i <= rs@.len(),
            forall|k: int| 0 <= k < i ==> #[trigger] rs@[k].0 <= rs@[k].1 && rs@[k].1 <= top,
            forall|k: int, l: int| 0 <= k < l < i ==> #[trigger] rs@[k].1 < #[trigger] rs@[l].0,
            scalars ==> forall|k: int| 0 <= k < i ==> #[trigger] scalar_ends(rs@[k]),
        decreases rs@.len() - i,
    {
        let (lo, hi) = rs[i];
        if lo > hi || hi > top {
            return false;
        }
        if scalars && !(scalar_value(lo) && scalar_value(hi)) {
            assert(!scalar_ends(rs@[i as int]));
            return false;
        }
        assert(scalars ==> scalar_ends(rs@[i as int]));

        if i > 0 && rs[i - 1].1 >= lo {
            assert(!ranges_wf(rs@, top) || rs@[i - 1].1 < rs@[i as int].0);
            return false;
        }
        assert forall|k: int, l: int| 0 <= k < l < i + 1 implies #[trigger] rs@[k].1
            < #[trigger] rs@[l].0 by {
            if l == i && k < i - 1 {
                assert(rs@[k].1 < rs@[i - 1].0);
            }
        }
        i = i + 1;
    }
    true
}

/// Whether the tree satisfies its invariants at every node.
pub fn check_tree(n: &Node) -> (r: bool)
    ensures
        r == wf(*n),
    decreases n,
{
    match n {
        Node::UnicodeClass(rs) => check_ranges(rs, MAX_SCALAR, true),
        Node::ByteClass(rs) => check_ranges(rs, MAX_BYTE, false),
        Node::Group(c) => check_tree(c),
        Node::Concat(cs) => check_all(cs),
        Node::Alternation(cs) => cs.len() > 0 && check_all(cs),
        Node::Repetition(c, q, _) => {
            let ok = match q {
                Quantifier::Range(min, Some(max)) => *min <= *max,
                _ => true,
            };
            ok && check_tree(c)
        },
        _ => true,
    }
}

fn check_all(cs: &Vec<Node>) -> (r: bool)
    ensures
        r == forall|i: int| 0 <= i < cs@.len() ==> wf(#[trigger] cs@[i]),
    decreases cs, 0nat,
{
    let mut i: usize = 0;
    while i < cs.len()
        invariant
            i <= cs@.len(),
            forall|k: int| 0 <= k < i ==> wf(#[trigger] cs@[k]),
        decreases cs@.len() - i,
    {
        if !check_tree(&cs[i]) {
            return false;
        }
        i = i + 1;
    }
    true
}

} // verus!
