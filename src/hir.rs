//! Turning the parser's syntax tree into a pattern tree.
use crate::generator::PatternError;
use crate::tree::{nested_within, same_tree, wf, AnchorKind, Node, Quantifier};
use regex_syntax::hir::{
    Anchor, Class, Hir, HirKind, Literal, Repetition, RepetitionKind, RepetitionRange,
    WordBoundary,
};
use regex_syntax::Parser;
use vstd::prelude::*;

verus! {

/// Deepest nesting of the parser's tree that is followed.
pub const MAX_DEPTH: usize = 1024;

/// `regex_syntax::hir::Hir`, a parsed expression, read only through the functions below.
#[verifier::external_type_specification]
#[verifier::external_body]
pub struct ExHir(Hir);

/// `regex_syntax::Error`, the parser's error, read only for its message.
#[verifier::external_type_specification]
#[verifier::external_body]
pub struct ExSyntaxError(regex_syntax::Error);

/// `regex_syntax::hir::Literal`, carried opaquely.
#[verifier::external_type_specification]
#[verifier::external_body]
pub struct ExLiteral(Literal);

/// `regex_syntax::hir::Class`, carried opaquely.
#[verifier::external_type_specification]
#[verifier::external_body]
pub struct ExClass(Class);

/// `regex_syntax::hir::Anchor`, carried opaquely.
#[verifier::external_type_specification]
#[verifier::external_body]
pub struct ExAnchor(Anchor);

/// `regex_syntax::hir::WordBoundary`, carried opaquely.
#[verifier::external_type_specification]
#[verifier::external_body]
pub struct ExWordBoundary(WordBoundary);

/// `regex_syntax::hir::Repetition`, carried opaquely.
#[verifier::external_type_specification]
#[verifier::external_body]
pub struct ExRepetition(Repetition);

/// The top level of a parsed expression, its parts still the parser's.
pub enum HirLevel<'a> {
    Empty,
    Literal(&'a Literal),
    Class(&'a Class),
    Anchor(&'a Anchor),
    WordBoundary(&'a WordBoundary),
    /// The repetition and the repeated expression.
    Repetition(&'a Repetition, &'a Hir),
    /// The grouped expression.
    Group(&'a Hir),
    Concat(&'a Vec<Hir>),
    Alternation(&'a Vec<Hir>),
}

/// Whether `regex_syntax::Parser`, with its default settings, accepts the text.
pub uninterp spec fn parser_accepts(s: Seq<char>) -> bool;

/// The pattern tree of the expression `regex_syntax::Parser`, with its
/// default settings, makes of the text.
pub uninterp spec fn parsed_tree(s: Seq<char>) -> Node;

/// The pattern tree of a parsed expression.
pub uninterp spec fn hir_form(h: Hir) -> Node;

/// The pattern tree of a parsed literal.
pub uninterp spec fn literal_form(l: Literal) -> Node;

/// The pattern tree of a parsed class.
pub uninterp spec fn class_form(c: Class) -> Node;

/// The assertion a parsed anchor makes.
pub uninterp spec fn anchor_form(a: Anchor) -> AnchorKind;

/// The assertion a parsed word boundary makes.
pub uninterp spec fn boundary_form(w: WordBoundary) -> AnchorKind;

/// The quantifier and greediness of a parsed repetition.
pub uninterp spec fn repetition_form(r: Repetition) -> (Quantifier, bool);

/// `cs` are the pattern trees of `hs`, one for one.
pub open spec fn forms_of(cs: Seq<Node>, hs: Seq<Hir>) -> bool {
    cs.len() == hs.len() && forall|i: int| 0 <= i < cs.len() ==> same_tree(#[trigger] cs[i], hir_form(hs[i]))
}

/// The pattern tree of `h` is made from its top level `l` as the kinds correspond.
pub open spec fn level_agrees(h: Hir, l: HirLevel<'_>) -> bool {
    match l {
        HirLevel::Empty => hir_form(h) == Node::Empty,
        HirLevel::Literal(x) => hir_form(h) == literal_form(*x),
        HirLevel::Class(x) => hir_form(h) == class_form(*x),
        HirLevel::Anchor(x) => hir_form(h) == Node::Anchor(anchor_form(*x)),
        HirLevel::WordBoundary(x) => hir_form(h) == Node::Anchor(boundary_form(*x)),
        HirLevel::Repetition(x, sub) => hir_form(h) matches Node::Repetition(c, q, g) && *c
            == hir_form(*sub) && (q, g) == repetition_form(*x),
        HirLevel::Group(sub) => hir_form(h) matches Node::Group(c) && *c == hir_form(*sub),
        HirLevel::Concat(hs) => hir_form(h) matches Node::Concat(cs) && cs@.len() == hs@.len()
            && forall|i: int| 0 <= i < cs@.len() ==> #[trigger] cs@[i] == hir_form(hs@[i]),
        HirLevel::Alternation(hs) => hir_form(h) matches Node::Alternation(cs) && cs@.len()
            == hs@.len() && forall|i: int| 0 <= i < cs@.len() ==> #[trigger] cs@[i] == hir_form(hs@[i]),
    }
}

/// Relies on `regex_syntax::Parser::parse`, with the default settings, to
/// turn pattern text into its syntax tree or a syntax error; which, and the
/// tree, depend on the text alone. The tree it returns keeps the invariants:
/// the translator refuses empty classes, class ranges are kept sorted and
/// apart, a repetition's minimum never exceeds its maximum, an alternation has
/// at least two branches, and the default nest limit of 250 keeps the tree
/// far shallower than `MAX_DEPTH`.
#[verifier::external_body]
fn parse_pattern(s: &str) -> (r: Result<Hir, regex_syntax::Error>)
    ensures
        r is Ok <==> parser_accepts(s@),
        r matches Ok(h) ==> hir_form(h) == parsed_tree(s@),
        r matches Ok(h) ==> wf(hir_form(h)) && nested_within(hir_form(h), MAX_DEPTH as nat),
{
    Parser::new().parse(s)
}

/// Relies on the `Display` of `regex_syntax::Error`: its message.
#[verifier::external_body]
fn syntax_message(e: &regex_syntax::Error) -> (r: String) {
    e.to_string()
}

/// Relies on `regex_syntax::hir::Hir::kind`: the kind of the expression's top
/// level, with its parts.
#[verifier::external_body]
fn level_of(h: &Hir) -> (r: HirLevel<'_>)
    ensures
        level_agrees(*h, r),
{
    match h.kind() {
        HirKind::Empty => HirLevel::Empty,
        HirKind::Literal(x) => HirLevel::Literal(x),
        HirKind::Class(x) => HirLevel::Class(x),
        HirKind::Anchor(x) => HirLevel::Anchor(x),
        HirKind::WordBoundary(x) => HirLevel::WordBoundary(x),
        HirKind::Repetition(x) => HirLevel::Repetition(x, &x.hir),
        HirKind::Group(x) => HirLevel::Group(&x.hir),
        HirKind::Concat(x) => HirLevel::Concat(x),
        HirKind::Alternation(x) => HirLevel::Alternation(x),
    }
}

/// Relies on `regex_syntax::hir::Literal`: one character or one byte.
#[verifier::external_body]
fn literal_node(l: &Literal) -> (r: Node)
    ensures
        r is Text || r is Bytes,
        same_tree(r, literal_form(*l)),
{
    match l {
        Literal::Unicode(c) => Node::Text(vec![*c]),
        Literal::Byte(b) => Node::Bytes(vec![*b]),
    }
}

/// Relies on `ClassUnicode::ranges` and `ClassBytes::ranges` of
/// `regex_syntax::hir`: the class's ranges with their inclusive ends.
#[verifier::external_body]
fn class_node(c: &Class) -> (r: Node)
    ensures
        r is UnicodeClass || r is ByteClass,
        same_tree(r, class_form(*c)),
{
    match c {
        Class::Unicode(u) => Node::UnicodeClass(
            u.ranges().iter().map(|x| (x.start() as u32, x.end() as u32)).collect(),
        ),
        Class::Bytes(b) => Node::ByteClass(
            b.ranges().iter().map(|x| (x.start() as u32, x.end() as u32)).collect(),
        ),
    }
}

/// Relies on `regex_syntax::hir::Anchor`: which line or text edge it asserts.
#[verifier::external_body]
fn anchor_kind(a: &Anchor) -> (r: AnchorKind)
    ensures
        r == anchor_form(*a),
{
    match a {
        Anchor::StartLine => AnchorKind::StartLine,
        Anchor::EndLine => AnchorKind::EndLine,
        Anchor::StartText => AnchorKind::StartText,
        Anchor::EndText => AnchorKind::EndText,
    }
}

/// Relies on `regex_syntax::hir::WordBoundary`: whether it asserts a word
/// boundary or its absence.
#[verifier::external_body]
fn boundary_kind(w: &WordBoundary) -> (r: AnchorKind)
    ensures
        r == boundary_form(*w),
{
    match w {
        WordBoundary::Unicode => AnchorKind::WordBoundary,
        WordBoundary::Ascii => AnchorKind::WordBoundary,
        WordBoundary::UnicodeNegate => AnchorKind::NotWordBoundary,
        WordBoundary::AsciiNegate => AnchorKind::NotWordBoundary,
    }
}

/// Relies on `regex_syntax::hir::Repetition`: its kind and its greediness.
#[verifier::external_body]
fn repetition_parts(r: &Repetition) -> (parts: (Quantifier, bool))
    ensures
        parts == repetition_form(*r),
{
    let q = match r.kind {
        RepetitionKind::ZeroOrOne => Quantifier::ZeroOrOne,
        RepetitionKind::ZeroOrMore => Quantifier::ZeroOrMore,
        RepetitionKind::OneOrMore => Quantifier::OneOrMore,
        RepetitionKind::Range(RepetitionRange::Exactly(n)) => Quantifier::Range(n, Some(n)),
        RepetitionKind::Range(RepetitionRange::AtLeast(n)) => Quantifier::Range(n, None),
        RepetitionKind::Range(RepetitionRange::Bounded(m, n)) => Quantifier::Range(m, Some(n)),
    };
    (q, r.greedy)
}

proof fn lemma_children_nested(cs: Seq<Node>, hs: Seq<Hir>, d: nat)
    requires
        cs.len() == hs.len(),
        forall|i: int| 0 <= i < cs.len() ==> #[trigger] cs[i] == hir_form(hs[i]),
    ensures
        (forall|i: int| 0 <= i < cs.len() ==> nested_within(#[trigger] cs[i], d)) == (forall|i: int|
            0 <= i < hs.len() ==> nested_within(hir_form(#[trigger] hs[i]), d)),
{
    assert forall|i: int| 0 <= i < hs.len() implies #[trigger] nested_within(hir_form(hs[i]), d)
        == nested_within(cs[i], d) by {
        assert(cs[i] == hir_form(hs[i]));
    }
}

/// The pattern tree of a parsed expression, or `None` when it is nested
/// deeper than `depth`.
fn node_of(h: &Hir, depth: usize) -> (r: Option<Node>)
    ensures
        r is Some <==> nested_within(hir_form(*h), depth as nat),
        r matches Some(t) ==> same_tree(t, hir_form(*h)),
    decreases depth, 1nat,
{
    if depth == 0 {
        return None;
    }
    let level = level_of(h);
    match level {
        HirLevel::Empty => Some(Node::Empty),
        HirLevel::Literal(l) => Some(literal_node(l)),
        HirLevel::Class(c) => Some(class_node(c)),
        HirLevel::Anchor(a) => Some(Node::Anchor(anchor_kind(a))),
        HirLevel::WordBoundary(w) => Some(Node::Anchor(boundary_kind(w))),
        HirLevel::Repetition(rep, sub) => {
            let (q, greedy) = repetition_parts(rep);
            match node_of(sub, depth - 1) {
                Some(child) => Some(Node::Repetition(Box::new(child), q, greedy)),
                None => None,
            }
        },
        HirLevel::Group(sub) => match node_of(sub, depth - 1) {
            Some(child) => Some(Node::Group(Box::new(child))),
            None => None,
        },
        HirLevel::Concat(hs) => {
            proof {
                if let Node::Concat(cs) = hir_form(*h) {
                    lemma_children_nested(cs@, hs@, (depth - 1) as nat);
                }
            }
            match nodes_of(hs, depth) {
                Some(children) => Some(Node::Concat(children)),
                None => None,
            }
        },
        HirLevel::Alternation(hs) => {
            proof {
                if let Node::Alternation(cs) = hir_form(*h) {
                    lemma_children_nested(cs@, hs@, (depth - 1) as nat);
                }
            }
            match nodes_of(hs, depth) {
                Some(children) => Some(Node::Alternation(children)),
                None => None,
            }
        },
    }
}

/// The pattern trees of the expressions `hs`, one level down.
fn nodes_of(hs: &Vec<Hir>, depth: usize) -> (r: Option<Vec<Node>>)
    requires
        depth > 0,
    ensures
        r is Some <==> forall|i: int|
            0 <= i < hs@.len() ==> nested_within(hir_form(#[trigger] hs@[i]), (depth - 1) as nat),
        r matches Some(v) ==> forms_of(v@, hs@),
    decreases depth, 0nat,
{
    let mut out: Vec<Node> = Vec::new();
    let mut i: usize = 0;
    while i < hs.len()
        invariant
            depth > 0,
            i <= hs@.len(),
            forms_of(out@, hs@.subrange(0, i as int)),
            forall|k: int| 0 <= k < i ==> nested_within(hir_form(#[trigger] hs@[k]), (depth - 1) as nat),
        decreases hs@.len() - i,
    {
        match node_of(&hs[i], depth - 1) {
            Some(n) => {
                out.push(n);
                assert forall|k: int| 0 <= k < out@.len() implies same_tree(
                    #[trigger] out@[k],
                    hir_form(hs@.subrange(0, i + 1)[k]),
                ) by {
                    if k < i {
                        assert(hs@.subrange(0, i + 1)[k] == hs@.subrange(0, i as int)[k]);
                    }
                }
            },
            None => return None,
        }
        i = i + 1;
    }
    assert(hs@.subrange(0, i as int) =~= hs@);
    Some(out)
}

/// Parses pattern text into the parser's pattern tree, or the parser's
/// syntax error.
pub fn parse_tree(s: &str) -> (r: Result<Node, PatternError>)
    ensures
        r is Ok <==> parser_accepts(s@),
        r matches Ok(t) ==> same_tree(t, parsed_tree(s@)) && wf(parsed_tree(s@)),
        r matches Err(e) ==> e is Syntax,
{
    match parse_pattern(s) {
        Ok(h) => match node_of(&h, MAX_DEPTH) {
            Some(tree) => Ok(tree),
            None => {
                assert(false);
                Err(PatternError::Syntax(String::new()))
            },
        },
        Err(e) => Err(PatternError::Syntax(syntax_message(&e))),
    }
}

} // verus!
