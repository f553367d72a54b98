use rand::rngs::StdRng;
use rand::SeedableRng;
use regex::Regex;
use regex_generate::{Generator, DEFAULT_MAX_REPEAT};

const TEST_N: u64 = 10000;

fn test_regex(raw: &str) {
    let mut gen = Generator::new(raw, StdRng::seed_from_u64(0x5eed), DEFAULT_MAX_REPEAT).unwrap();
    let rx = Regex::new(raw).unwrap();
    let mut buffer = vec![];

    for _ in 0..TEST_N {
        gen.generate(&mut buffer);
        let b = buffer.clone();
        match String::from_utf8(b) {
            Ok(s) => assert!(rx.is_match(&s), "Unexpected: {:?} on {:?}", s, raw),
            Err(err) => panic!("Error: {:?} {:?}", err, raw),
        }
        buffer.clear();
    }
}

#[test]
fn gen_empty() {
    test_regex(r"");
}

#[test]
fn gen_start_end_text() {
    test_regex(r"^a$");
}

#[test]
fn gen_start_end_text_empty() {
    test_regex(r"^$");
}

#[test]
fn gen_start_end_text_always() {
    test_regex(r"\Aa\z");
}

#[test]
fn gen_start_end_line() {
    test_regex(r"(?m)^a$");
}

#[test]
fn gen_word_boundary() {
    test_regex(r"\ba\b b");
}

#[test]
fn gen_not_word_boundary() {
    test_regex(r"a\Bb");
}

#[test]
fn gen_any() {
    test_regex(r"(?s).");
}

#[test]
fn gen_any_no_newline() {
    test_regex(r".");
}

#[test]
fn gen_literal() {
    test_regex(r"aBcDe");
}

#[test]
fn gen_class() {
    test_regex(r"[a-zA-Z0-9]");
}

#[test]
fn gen_repeat_zero_or_one() {
    test_regex(r"a?");
}

#[test]
fn gen_repeat_zero_or_more() {
    test_regex(r"a*");
}

#[test]
fn gen_repeat_one_or_more() {
    test_regex(r"a+");
}

#[test]
fn gen_repeat_range() {
    test_regex(r"a{3,8}");
}

#[test]
fn gen_repeat_range_exact() {
    test_regex(r"a{3}");
}

#[test]
fn gen_repeat_range_open() {
    test_regex(r"a{3,}");
}

#[test]
fn gen_repeat_zero_or_one_lazy() {
    test_regex(r"a??");
}

#[test]
fn gen_repeat_zero_or_more_lazy() {
    test_regex(r"a*?");
}

#[test]
fn gen_repeat_one_or_more_lazy() {
    test_regex(r"a+?");
}

#[test]
fn gen_repeat_range_lazy() {
    test_regex(r"a{3,8}?");
}

#[test]
fn gen_repeat_range_exact_lazy() {
    test_regex(r"a{3}?");
}

#[test]
fn gen_repeat_range_open_lazy() {
    test_regex(r"a{3,}?");
}

#[test]
fn gen_group() {
    test_regex(r"(abcde)");
}

#[test]
fn gen_concat() {
    test_regex(r"a?b?");
}

#[test]
fn gen_alternate() {
    test_regex(r"a|b");
}

#[test]
fn gen_ascii_classes() {
    test_regex(r"[[:alnum:]]");
    test_regex(r"[[:alpha:]]");
    test_regex(r"[[:ascii:]]");
    test_regex(r"[[:cntrl:]]");
    test_regex(r"[[:digit:]]");
    test_regex(r"[[:lower:]]");
    test_regex(r"[[:print:]]");
    test_regex(r"[[:punct:]]");
    test_regex(r"[[:space:]]");
    test_regex(r"[[:upper:]]");
    test_regex(r"[[:word:]]");
    test_regex(r"[[:xdigit:]]");
}

#[test]
fn gen_perl_classes() {
    test_regex(r"\d+");
    test_regex(r"\D+");
    test_regex(r"\s+");
    test_regex(r"\S+");
    test_regex(r"\w+");
    test_regex(r"\W+");
}

#[test]
fn gen_unicode_classes() {
    test_regex(r"\p{L}");
    test_regex(r"\P{L}");
    test_regex(r"\p{M}");
    test_regex(r"\P{M}");
    test_regex(r"\p{N}");
    test_regex(r"\P{N}");
    test_regex(r"\p{P}");
    test_regex(r"\P{P}");
    test_regex(r"\p{S}");
    test_regex(r"\P{S}");
    test_regex(r"\p{Z}");
    test_regex(r"\P{Z}");
    test_regex(r"\p{C}");
    test_regex(r"\P{C}");
}

#[test]
fn gen_unicode_script_classes() {
    test_regex(r"\p{Latin}");
    test_regex(r"\p{Greek}");
    test_regex(r"\p{Cyrillic}");
    test_regex(r"\p{Armenian}");
    test_regex(r"\p{Hebrew}");
    test_regex(r"\p{Arabic}");
    test_regex(r"\p{Syriac}");
    test_regex(r"\p{Thaana}");
    test_regex(r"\p{Devanagari}");
    test_regex(r"\p{Bengali}");
    test_regex(r"\p{Gurmukhi}");
    test_regex(r"\p{Gujarati}");
    test_regex(r"\p{Oriya}");
    test_regex(r"\p{Tamil}");
    test_regex(r"\p{Hangul}");
    test_regex(r"\p{Hiragana}");
    test_regex(r"\p{Katakana}");
    test_regex(r"\p{Han}");
    test_regex(r"\p{Tagalog}");
    test_regex(r"\p{Linear_B}");
    test_regex(r"\p{Inherited}");
}

#[test]
fn gen_complex() {
    test_regex(r"^(\p{Greek}\P{Greek})(?:\d{3,6})$");
}
