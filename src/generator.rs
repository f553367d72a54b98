//! The generator: a pattern tree, a random number generator and a repetition bound.
use crate::encode::{push_chars, push_scalar};
use crate::hir::{parse_tree, parsed_tree, parser_accepts};
use crate::sample::{choose_from, resolve_count, sample_ranges};
use crate::tree::{
    check_tree, count_allowed, count_interval, draws_nothing, in_ranges, lemma_same_tree_wf,
    produces, produces_each, produces_times, ranges_wf, same_tree, scalar_ends,
    scalar_ranges_wf, scalar_value, wf, AnchorKind, Node, MAX_SCALAR,
};
use rand::rngs::StdRng;
use vstd::prelude::*;
use vstd::utf8::{encode_scalar, encode_utf8, is_scalar};

verus! {

/// The repetition bound used by `Generator::parse`.
pub const DEFAULT_MAX_REPEAT: u32 = 100;

/// How many draws from a Unicode class may land on a surrogate before the
/// generator draws from the class with the surrogates cut out.
pub const SCALAR_ATTEMPTS: u32 = 256;

/// Why a generator could not be built.
#[derive(Debug, PartialEq, Eq)]
pub enum PatternError {
    /// The pattern text is not valid syntax; the parser's message.
    Syntax(String),
    /// A tree given to `Generator::from_tree` breaks an invariant: an empty or
    /// unordered class, an empty alternation, or a repetition range whose
    /// minimum exceeds its maximum.
    Malformed,
}

/// `after` is `before` followed by one output of `n` under the bound `m`.
pub open spec fn appends_output(before: Seq<u8>, after: Seq<u8>, n: Node, m: u32) -> bool {
    &&& before.len() <= after.len()
    &&& after.subrange(0, before.len() as int) == before
    &&& produces(n, after.subrange(before.len() as int, after.len() as int), m)
}

/// The range has no surrogate and ends at most at the largest scalar value.
pub open spec fn surrogate_free(r: (u32, u32)) -> bool {
    r.0 <= r.1 && r.1 <= MAX_SCALAR && (r.1 < 0xD800 || 0xDFFF < r.0)
}

/// The ranges of a Unicode class with the surrogates cut out of them.
fn scalar_pieces(rs: &Vec<(u32, u32)>) -> (r: Vec<(u32, u32)>)
    requires
        scalar_ranges_wf(rs@),
    ensures
        ranges_wf(r@, MAX_SCALAR),
        forall|k: int| 0 <= k < r@.len() ==> #[trigger] surrogate_free(r@[k]),
        forall|v: u32| #[trigger] in_ranges(r@, v) ==> in_ranges(rs@, v),
{
    let mut out: Vec<(u32, u32)> = Vec::new();
    let mut i: usize = 0;
    while i < rs.len()
        invariant
            scalar_ranges_wf(rs@),
            i <= rs@.len(),
            i > 0 ==> out@.len() > 0,
            forall|k: int| 0 <= k < out@.len() ==> #[trigger] surrogate_free(out@[k]),
            forall|k: int, l: int| 0 <= k < l < out@.len() ==> #[trigger] out@[k].1 < #[trigger] out@[l].0,
            i < rs@.len() ==> forall|k: int| 0 <= k < out@.len() ==> #[trigger] out@[k].1 < rs@[i as int].0,
            forall|v: u32| #[trigger] in_ranges(out@, v) ==> in_ranges(rs@, v),
        decreases rs@.len() - i,
    {
        let (lo, hi) = rs[i];
        let ghost before = out@;
        assert(scalar_ends(rs@[i as int]));
        if hi < 0xD800 || lo > 0xDFFF {
            out.push((lo, hi));
        } else {
            out.push((lo, 0xD7FF));
            out.push((0xE000, hi));
        }
        assert forall|v: u32| #[trigger] in_ranges(out@, v) implies in_ranges(rs@, v) by {
            let k = choose|k: int| 0 <= k < out@.len() && #[trigger] out@[k].0 <= v && v <= out@[k].1;
            if k < before.len() {
                assert(before[k] == out@[k]);
                assert(in_ranges(before, v));
            } else {
                assert(rs@[i as int].0 <= v && v <= rs@[i as int].1);
            }
        }
        if i + 1 < rs.len() {
            assert(rs@[i as int].1 < rs@[i + 1].0);
            assert forall|k: int| 0 <= k < out@.len() implies #[trigger] out@[k].1 < rs@[i + 1].0 by {
                if k < before.len() {
                    assert(before[k] == out@[k]);
                }
            }
        }
        i = i + 1;
    }
    assert forall|k: int| 0 <= k < out@.len() implies #[trigger] out@[k].0 <= out@[k].1 && out@[k].1
        <= MAX_SCALAR by {
        assert(surrogate_free(out@[k]));
    }
    out
}

/// Draws a scalar value from a Unicode class, drawing again when a draw lands
/// on a surrogate.
fn sample_scalar(rng: &mut StdRng, ranges: &Vec<(u32, u32)>) -> (r: u32)
    requires
        scalar_ranges_wf(ranges@),
    ensures
        in_ranges(ranges@, r),
        is_scalar(r),
{
    let mut attempts: u32 = 0;
    loop
        invariant
            scalar_ranges_wf(ranges@),
            attempts < SCALAR_ATTEMPTS,
        decreases SCALAR_ATTEMPTS - attempts,
    {
        let v = sample_ranges(rng, ranges);
        if scalar_value(v) {
            return v;
        }
        attempts = attempts + 1;
        if attempts == SCALAR_ATTEMPTS {
            let pieces = scalar_pieces(ranges);
            let w = sample_ranges(rng, &pieces);
            proof {
                let k = choose|k: int|
                    0 <= k < pieces@.len() && #[trigger] pieces@[k].0 <= w && w <= pieces@[k].1;
                assert(surrogate_free(pieces@[k]));
            }
            return w;
        }
    }
}

/// Appends one output of `node` to `out`.
fn emit(node: &Node, rng: &mut StdRng, m: u32, out: &mut Vec<u8>)
    requires
        wf(*node),
    ensures
        appends_output(old(out)@, final(out)@, *node, m),
        draws_nothing(*node) ==> *final(rng) == *old(rng),
    decreases node, 0nat,
{
    let ghost before = out@;
    assert(out@.subrange(0, before.len() as int) =~= before);
    assert(out@.subrange(before.len() as int, out@.len() as int) =~= Seq::<u8>::empty());
    match node {
        Node::Empty => {},
        Node::Anchor(k) => {
            if *k == AnchorKind::EndLine {
                out.push(10u8);
                assert(out@.subrange(0, before.len() as int) =~= before);
                assert(out@.subrange(before.len() as int, out@.len() as int) =~= seq![10u8]);
            }
        },
        Node::Text(cs) => {
            push_chars(out, cs);
            assert(out@.subrange(0, before.len() as int) =~= before);
            assert(out@.subrange(before.len() as int, out@.len() as int) =~= encode_utf8(cs@));
        },
        Node::Bytes(bs) => {
            let mut i: usize = 0;
            while i < bs.len()
                invariant
                    i <= bs@.len(),
                    out@ == before + bs@.subrange(0, i as int),
                decreases bs@.len() - i,
            {
                out.push(bs[i]);
                i = i + 1;
                assert(out@ =~= before + bs@.subrange(0, i as int));
            }
            assert(bs@.subrange(0, i as int) =~= bs@);
            assert(out@.subrange(0, before.len() as int) =~= before);
            assert(out@.subrange(before.len() as int, out@.len() as int) =~= bs@);
        },
        Node::UnicodeClass(rs) => {
            let v = sample_scalar(rng, rs);
            push_scalar(out, v);
            assert(out@.subrange(0, before.len() as int) =~= before);
            assert(out@.subrange(before.len() as int, out@.len() as int) =~= encode_scalar(v));
        },
        Node::ByteClass(rs) => {
            let v = sample_ranges(rng, rs);
            out.push(v as u8);
            assert(out@.subrange(0, before.len() as int) =~= before);
            assert(out@.subrange(before.len() as int, out@.len() as int) =~= seq![v as u8]);
        },
        Node::Group(c) => {
            emit(c, rng, m, out);
        },
        Node::Concat(cs) => {
            emit_each(cs, rng, m, out);
        },
        Node::Alternation(cs) => {
            match choose_from(rng, cs.as_slice()) {
                Some(c) => {
                    let ghost i = choose|i: int| 0 <= i < cs@.len() && cs@[i] == *c;
                    assert(wf(cs@[i]));
                    emit(c, rng, m, out);
                    assert(produces(cs@[i], out@.subrange(before.len() as int, out@.len() as int), m));
                },
                None => {
                    assert(false);
                },
            }
        },
        Node::Repetition(c, q, g) => {
            let count = resolve_count(rng, *q, *g, m);
            emit_times(c, count, rng, m, out);
            assert(count_allowed(*q, *g, m, count as nat));
        },
    }
}

/// Appends one output of each of `cs`, in order.
fn emit_each(cs: &Vec<Node>, rng: &mut StdRng, m: u32, out: &mut Vec<u8>)
    requires
        forall|k: int| 0 <= k < cs@.len() ==> wf(#[trigger] cs@[k]),
    ensures
        old(out)@.len() <= final(out)@.len(),
        final(out)@.subrange(0, old(out)@.len() as int) == old(out)@,
        produces_each(cs@, final(out)@.subrange(old(out)@.len() as int, final(out)@.len() as int), m),
        (forall|k: int| 0 <= k < cs@.len() ==> draws_nothing(#[trigger] cs@[k])) ==> *final(rng)
            == *old(rng),
    decreases cs, 0nat,
{
    let ghost before = out@;
    let ghost rng0 = *rng;
    let mut i: usize = 0;
    assert(out@.subrange(0, before.len() as int) =~= before);
    assert(out@.subrange(before.len() as int, out@.len() as int) =~= Seq::<u8>::empty());
    assert(cs@.subrange(0, 0) =~= Seq::<Node>::empty());
    while i < cs.len()
        invariant
            forall|k: int| 0 <= k < cs@.len() ==> wf(#[trigger] cs@[k]),
            i <= cs@.len(),
            before.len() <= out@.len(),
            out@.subrange(0, before.len() as int) == before,
            produces_each(cs@.subrange(0, i as int), out@.subrange(before.len() as int, out@.len() as int), m),
            (forall|k: int| 0 <= k < cs@.len() ==> draws_nothing(#[trigger] cs@[k])) ==> *rng == rng0,
        decreases cs@.len() - i,
    {
        let ghost mid = out@;
        emit(&cs[i], rng, m, out);
        proof {
            let seg = out@.subrange(before.len() as int, out@.len() as int);
            let j = mid.len() - before.len();
            let prefix = cs@.subrange(0, i + 1);
            assert(prefix.drop_last() =~= cs@.subrange(0, i as int));
            assert(prefix.last() == cs@[i as int]);
            assert(seg.subrange(0, j) =~= mid.subrange(before.len() as int, mid.len() as int));
            assert(seg.subrange(j, seg.len() as int) =~= out@.subrange(mid.len() as int, out@.len() as int));
            assert(out@.subrange(0, before.len() as int) =~= mid.subrange(0, before.len() as int));
            assert(produces_each(prefix.drop_last(), seg.subrange(0, j), m));
            assert(produces(prefix.last(), seg.subrange(j, seg.len() as int), m));
            assert(produces_each(prefix, seg, m));
        }
        i = i + 1;
    }
    assert(cs@.subrange(0, i as int) =~= cs@);
}

/// Appends `count` outputs of `c`, one after the other.
fn emit_times(c: &Node, count: u32, rng: &mut StdRng, m: u32, out: &mut Vec<u8>)
    requires
        wf(*c),
    ensures
        old(out)@.len() <= final(out)@.len(),
        final(out)@.subrange(0, old(out)@.len() as int) == old(out)@,
        produces_times(*c, count as nat, final(out)@.subrange(old(out)@.len() as int, final(out)@.len() as int), m),
        draws_nothing(*c) ==> *final(rng) == *old(rng),
    decreases c, 1nat,
{
    let ghost before = out@;
    let ghost rng0 = *rng;
    let mut n: u32 = 0;
    assert(out@.subrange(0, before.len() as int) =~= before);
    assert(out@.subrange(before.len() as int, out@.len() as int) =~= Seq::<u8>::empty());
    while n < count
        invariant
            wf(*c),
            n <= count,
            before.len() <= out@.len(),
            out@.subrange(0, before.len() as int) == before,
            produces_times(*c, n as nat, out@.subrange(before.len() as int, out@.len() as int), m),
            draws_nothing(*c) ==> *rng == rng0,
        decreases count - n,
    {
        let ghost mid = out@;
        emit(c, rng, m, out);
        proof {
            let seg = out@.subrange(before.len() as int, out@.len() as int);
            let j = mid.len() - before.len();
            assert(seg.subrange(0, j) =~= mid.subrange(before.len() as int, mid.len() as int));
            assert(seg.subrange(j, seg.len() as int) =~= out@.subrange(mid.len() as int, out@.len() as int));
            assert(out@.subrange(0, before.len() as int) =~= mid.subrange(0, before.len() as int));
            assert(produces_times(*c, n as nat, seg.subrange(0, j), m));
            assert(produces(*c, seg.subrange(j, seg.len() as int), m));
            assert(produces_times(*c, (n + 1) as nat, seg, m));
        }
        n = n + 1;
    }
}

/// A pattern tree known to satisfy its invariants.
struct CheckedTree {
    node: Node,
}

impl CheckedTree {
    #[verifier::type_invariant]
    spec fn inv(&self) -> bool {
        wf(self.node)
    }
}

/// Generates random byte strings that match a pattern.
pub struct Generator {
    tree: CheckedTree,
    rng: StdRng,
    max_repeat: u32,
}

impl Generator {
    /// The pattern tree outputs are drawn from.
    pub closed spec fn pattern(&self) -> Node {
        self.tree.node
    }

    /// The repetition bound that stands in for a missing maximum.
    pub closed spec fn repeat_bound(&self) -> u32 {
        self.max_repeat
    }

    /// The state of the random number generator.
    pub closed spec fn random_state(&self) -> StdRng {
        self.rng
    }

    /// A generator over a pattern tree, refused with `PatternError::Malformed` when
    /// the tree breaks an invariant.
    pub fn from_tree(tree: Node, rng: StdRng, max_repeat: u32) -> (r: Result<Generator, PatternError>)
        ensures
            r is Ok <==> wf(tree),
            r matches Ok(g) ==> g.pattern() == tree && g.repeat_bound() == max_repeat
                && g.random_state() == rng,
            r matches Err(e) ==> e == PatternError::Malformed,
    {
        if check_tree(&tree) {
            Ok(Generator { tree: CheckedTree { node: tree }, rng, max_repeat })
        } else {
            Err(PatternError::Malformed)
        }
    }

    /// A generator over the pattern text `s`, with the repetition bound
    /// `max_repeat`. It holds the parser's tree for the text, and fails only
    /// with the parser's syntax error.
    pub fn new(s: &str, rng: StdRng, max_repeat: u32) -> (r: Result<Generator, PatternError>)
        ensures
            r is Ok <==> parser_accepts(s@),
            r matches Ok(g) ==> same_tree(g.pattern(), parsed_tree(s@)) && wf(g.pattern())
                && g.repeat_bound() == max_repeat && g.random_state() == rng,
            r matches Err(e) ==> e is Syntax,
    {
        match parse_tree(s) {
            Ok(tree) => {
                proof {
                    lemma_same_tree_wf(tree, parsed_tree(s@));
                }
                Self::from_tree(tree, rng, max_repeat)
            },
            Err(e) => Err(e),
        }
    }

    /// A generator over the pattern text `s`, with the default repetition bound.
    pub fn parse(s: &str, rng: StdRng) -> (r: Result<Generator, PatternError>)
        ensures
            r is Ok <==> parser_accepts(s@),
            r matches Ok(g) ==> same_tree(g.pattern(), parsed_tree(s@)) && wf(g.pattern())
                && g.repeat_bound() == DEFAULT_MAX_REPEAT && g.random_state() == rng,
            r matches Err(e) ==> e is Syntax,
    {
        Self::new(s, rng, DEFAULT_MAX_REPEAT)
    }

    /// Appends one randomly chosen output of the pattern to `buffer`.
    pub fn generate(&mut self, buffer: &mut Vec<u8>)
        ensures
            final(self).pattern() == old(self).pattern(),
            final(self).repeat_bound() == old(self).repeat_bound(),
            appends_output(old(buffer)@, final(buffer)@, old(self).pattern(), old(self).repeat_bound()),
            draws_nothing(old(self).pattern()) ==> final(self).random_state() == old(self).random_state(),
    {
        proof {
            use_type_invariant(&self.tree);
        }
        emit(&self.tree.node, &mut self.rng, self.max_repeat, buffer);
    }
}

} // verus!
