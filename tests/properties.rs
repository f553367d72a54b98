use rand::rngs::StdRng;
use rand::SeedableRng;
use regex_generate::sample::{repeat_bounds, value_at};
use regex_generate::{AnchorKind, Generator, Node, PatternError, Quantifier, DEFAULT_MAX_REPEAT};

fn rng(seed: u64) -> StdRng {
    StdRng::seed_from_u64(seed)
}

fn one(gen: &mut Generator) -> Vec<u8> {
    let mut buffer = vec![];
    gen.generate(&mut buffer);
    buffer
}

fn samples(pattern: &str, max_repeat: u32, n: usize) -> Vec<Vec<u8>> {
    let mut gen = Generator::new(pattern, rng(7), max_repeat).unwrap();
    (0..n).map(|_| one(&mut gen)).collect()
}

#[test]
fn empty_pattern_gives_empty_output() {
    for out in samples("", DEFAULT_MAX_REPEAT, 1000) {
        assert!(out.is_empty());
    }
}

#[test]
fn literal_is_copied_verbatim() {
    for out in samples("aBcDe", DEFAULT_MAX_REPEAT, 1000) {
        assert_eq!(out, b"aBcDe".to_vec());
    }
}

#[test]
fn bounded_range_gives_three_to_eight() {
    let mut seen = vec![false; 9];
    for out in samples("a{3,8}", DEFAULT_MAX_REPEAT, 5000) {
        assert!(out.len() >= 3 && out.len() <= 8);
        assert!(out.iter().all(|b| *b == b'a'));
        seen[out.len()] = true;
    }
    assert!(seen[3..].iter().all(|s| *s));
}

#[test]
fn nested_alternation_gives_one_letter() {
    let mut seen = vec![false; 4];
    for out in samples("(a|b)|(c|d)", DEFAULT_MAX_REPEAT, 5000) {
        assert_eq!(out.len(), 1);
        assert!(out[0] >= b'a' && out[0] <= b'd');
        seen[(out[0] - b'a') as usize] = true;
    }
    assert!(seen.iter().all(|s| *s));
}

#[test]
fn end_line_anchor_emits_newline_in_place() {
    for out in samples("(?m)ab$cd", DEFAULT_MAX_REPEAT, 100) {
        assert_eq!(out, b"ab\ncd".to_vec());
    }
}

#[test]
fn other_anchors_emit_nothing() {
    for out in samples(r"^\Aa\b\z$", DEFAULT_MAX_REPEAT, 100) {
        assert_eq!(out, b"a".to_vec());
    }
    for out in samples(r"a\Bb", DEFAULT_MAX_REPEAT, 100) {
        assert_eq!(out, b"ab".to_vec());
    }
}

#[test]
fn unbounded_star_respects_bound() {
    for out in samples("a*", 5, 5000) {
        assert!(out.len() <= 5);
    }
    for out in samples("a+", 3, 5000) {
        assert!(out.len() >= 1 && out.len() <= 3);
    }
    for out in samples("a{2,}", 4, 5000) {
        assert!(out.len() >= 2 && out.len() <= 4);
    }
}

#[test]
fn zero_bound_gives_empty_star() {
    for out in samples("a*", 0, 1000) {
        assert!(out.is_empty());
    }
    for out in samples("a+", 0, 1000) {
        assert_eq!(out, b"a".to_vec());
    }
}

#[test]
fn bound_reached_by_star() {
    let outs = samples("a*", 4, 5000);
    assert!(outs.iter().any(|o| o.len() == 4));
    assert!(outs.iter().any(|o| o.is_empty()));
}

#[test]
fn lazy_quantifiers_take_minimum() {
    for out in samples("a*?", DEFAULT_MAX_REPEAT, 500) {
        assert!(out.is_empty());
    }
    for out in samples("a+?", DEFAULT_MAX_REPEAT, 500) {
        assert_eq!(out, b"a".to_vec());
    }
    for out in samples("a??", DEFAULT_MAX_REPEAT, 500) {
        assert!(out.is_empty());
    }
    for out in samples("a{3,8}?", DEFAULT_MAX_REPEAT, 500) {
        assert_eq!(out, b"aaa".to_vec());
    }
    for out in samples("a{3,}?", DEFAULT_MAX_REPEAT, 500) {
        assert_eq!(out, b"aaa".to_vec());
    }
}

#[test]
fn alternation_covers_every_branch() {
    let letters = ["a", "b", "c", "d", "e", "f"];
    for n in 2..=6 {
        let pattern = letters[..n].join("|");
        let mut seen = vec![false; n];
        for out in samples(&pattern, DEFAULT_MAX_REPEAT, 10000) {
            seen[(out[0] - b'a') as usize] = true;
        }
        assert!(seen.iter().all(|s| *s), "a branch of {} never taken", pattern);
    }
}

#[test]
fn two_range_class_is_unbiased() {
    // One value against a million: a per-range draw would give 'a' half the time.
    let draws = 200_000;
    let mut hits = 0;
    let mut gen = Generator::new(r"[a\x{E000}-\x{FC23F}]", rng(11), DEFAULT_MAX_REPEAT).unwrap();
    for _ in 0..draws {
        let out = one(&mut gen);
        if out == b"a".to_vec() {
            hits += 1;
        } else {
            let s = String::from_utf8(out).unwrap();
            let c = s.chars().next().unwrap() as u32;
            assert!(c >= 0xE000 && c <= 0xFC23F);
        }
    }
    assert!(hits <= 10, "{} hits of the single value", hits);
}

#[test]
fn many_range_class_stays_inside() {
    let mut gen = Generator::new("[ace-gx-z]", rng(3), DEFAULT_MAX_REPEAT).unwrap();
    for _ in 0..2000 {
        let out = one(&mut gen);
        assert_eq!(out.len(), 1);
        assert!(b"acefgxyz".contains(&out[0]));
    }
}

#[test]
fn non_ascii_literal_is_utf8() {
    for out in samples("é€😀", DEFAULT_MAX_REPEAT, 10) {
        assert_eq!(out, "é€😀".as_bytes().to_vec());
    }
}

#[test]
fn non_ascii_class_is_utf8() {
    for out in samples("[é]", DEFAULT_MAX_REPEAT, 10) {
        assert_eq!(out, vec![0xC3, 0xA9]);
    }
}

#[test]
fn surrogate_gap_is_skipped() {
    let tree = Node::UnicodeClass(vec![(0xD7FF, 0xE000)]);
    let mut gen = Generator::from_tree(tree, rng(5), DEFAULT_MAX_REPEAT).unwrap();
    let mut seen = [false, false];
    for _ in 0..200 {
        let out = one(&mut gen);
        let s = String::from_utf8(out).unwrap();
        let c = s.chars().next().unwrap() as u32;
        assert!(c == 0xD7FF || c == 0xE000);
        seen[(c == 0xE000) as usize] = true;
    }
    assert!(seen[0] && seen[1]);
}

#[test]
fn group_and_exact_repeat() {
    for out in samples("(ab){3}", DEFAULT_MAX_REPEAT, 10) {
        assert_eq!(out, b"ababab".to_vec());
    }
}

#[test]
fn byte_literal_and_class() {
    let tree = Node::Concat(vec![Node::Bytes(vec![0xFF]), Node::ByteClass(vec![(0x80, 0x81)])]);
    let mut gen = Generator::from_tree(tree, rng(2), DEFAULT_MAX_REPEAT).unwrap();
    for _ in 0..200 {
        let out = one(&mut gen);
        assert_eq!(out.len(), 2);
        assert_eq!(out[0], 0xFF);
        assert!(out[1] == 0x80 || out[1] == 0x81);
    }
}

#[test]
fn full_byte_range_class() {
    let tree = Node::ByteClass(vec![(0, 255)]);
    let mut gen = Generator::from_tree(tree, rng(4), DEFAULT_MAX_REPEAT).unwrap();
    let mut seen = vec![false; 256];
    for _ in 0..20000 {
        let out = one(&mut gen);
        assert_eq!(out.len(), 1);
        seen[out[0] as usize] = true;
    }
    assert!(seen.iter().all(|s| *s));
}

#[test]
fn output_is_appended() {
    let mut gen = Generator::parse("xyz", rng(1)).unwrap();
    let mut buffer = b"ab".to_vec();
    gen.generate(&mut buffer);
    gen.generate(&mut buffer);
    assert_eq!(buffer, b"abxyzxyz".to_vec());
}

#[test]
fn syntax_error_is_reported() {
    match Generator::new("a(", rng(1), DEFAULT_MAX_REPEAT) {
        Err(PatternError::Syntax(msg)) => assert!(!msg.is_empty()),
        _ => panic!("expected a syntax error"),
    }
}

#[test]
fn empty_class_is_refused_by_parser() {
    let r = Generator::new(r"[^\x00-\x{10FFFF}]", rng(1), DEFAULT_MAX_REPEAT);
    assert!(matches!(r, Err(PatternError::Syntax(_))));
}

#[test]
fn hand_built_tree_generates() {
    let tree = Node::Concat(vec![
        Node::Anchor(AnchorKind::StartText),
        Node::Bytes(vec![b'x']),
        Node::Repetition(Box::new(Node::ByteClass(vec![(0x30, 0x31)])), Quantifier::Range(2, Some(2)), true),
        Node::Anchor(AnchorKind::EndLine),
        Node::Alternation(vec![Node::Text(vec!['q']), Node::Group(Box::new(Node::Empty))]),
    ]);
    let mut gen = Generator::from_tree(tree, rng(9), DEFAULT_MAX_REPEAT).unwrap();
    for _ in 0..200 {
        let out = one(&mut gen);
        assert_eq!(out[0], b'x');
        assert!(out[1] == b'0' || out[1] == b'1');
        assert!(out[2] == b'0' || out[2] == b'1');
        assert_eq!(out[3], b'\n');
        assert!(out.len() == 4 || (out.len() == 5 && out[4] == b'q'));
    }
}

#[test]
fn malformed_trees_are_refused() {
    let bad = vec![
        Node::UnicodeClass(vec![]),
        Node::ByteClass(vec![(5, 4)]),
        Node::ByteClass(vec![(0, 300)]),
        Node::ByteClass(vec![(10, 20), (15, 30)]),
        Node::UnicodeClass(vec![(0xD800, 0xD900)]),
        Node::Alternation(vec![]),
        Node::Repetition(Box::new(Node::Empty), Quantifier::Range(5, Some(2)), true),
        Node::Concat(vec![Node::Empty, Node::Group(Box::new(Node::ByteClass(vec![])))]),
    ];
    for tree in bad {
        let r = Generator::from_tree(tree, rng(1), DEFAULT_MAX_REPEAT);
        assert!(matches!(r, Err(PatternError::Malformed)));
    }
}

#[test]
fn quantifier_intervals() {
    let m = 100;
    assert_eq!(repeat_bounds(Quantifier::ZeroOrOne, true, m), (0, 1));
    assert_eq!(repeat_bounds(Quantifier::ZeroOrMore, true, m), (0, 100));
    assert_eq!(repeat_bounds(Quantifier::OneOrMore, true, m), (1, 100));
    assert_eq!(repeat_bounds(Quantifier::Range(3, None), true, m), (3, 100));
    assert_eq!(repeat_bounds(Quantifier::Range(3, Some(8)), true, m), (3, 8));
    assert_eq!(repeat_bounds(Quantifier::ZeroOrOne, false, m), (0, 0));
    assert_eq!(repeat_bounds(Quantifier::ZeroOrMore, false, m), (0, 0));
    assert_eq!(repeat_bounds(Quantifier::OneOrMore, false, m), (1, 1));
    assert_eq!(repeat_bounds(Quantifier::Range(3, None), false, m), (3, 3));
    assert_eq!(repeat_bounds(Quantifier::Range(3, Some(8)), false, m), (3, 3));
    assert_eq!(repeat_bounds(Quantifier::Range(150, None), true, m), (150, 150));
    assert_eq!(repeat_bounds(Quantifier::OneOrMore, true, 0), (1, 1));
    assert_eq!(repeat_bounds(Quantifier::ZeroOrMore, true, 0), (0, 0));
}

#[test]
fn offsets_map_to_values() {
    let ranges = [(10u32, 12u32), (100u32, 100u32), (200u32, 201u32)];
    let expected = [10, 11, 12, 100, 200, 201];
    for (i, v) in expected.iter().enumerate() {
        assert_eq!(value_at(&ranges, i as u64), *v);
    }
}
