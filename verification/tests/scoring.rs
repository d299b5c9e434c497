use raiden_search::analyzer::analyzer::Analyzer;
use raiden_search::analyzer::char_filter::BasicCharFilter;
use raiden_search::analyzer::token_filter::BasicTokenFilter;
use raiden_search::analyzer::tokenizer::Tokenizer;
use raiden_search::query::score::{calc_norm, calc_tf};

struct Spaces;

impl Tokenizer for Spaces {
    fn tokenize<'a>(&self, text: &'a str) -> Vec<&'a str> {
        text.split_whitespace().collect()
    }
}

#[test]
fn tf_is_eight_times_the_square_root() {
    assert_eq!(calc_tf(0), 0);
    assert_eq!(calc_tf(1), 8);
    assert_eq!(calc_tf(2), 11);
    assert_eq!(calc_tf(4), 16);
    assert_eq!(calc_tf(1016), 254);
    assert_eq!(calc_tf(1017), 255);
    assert_eq!(calc_tf(65535), 255);
}

#[test]
fn tf_agrees_with_the_floating_point_formula() {
    for freq in 0..=u16::MAX {
        let expected = ((freq as f64).sqrt() * 8f64) as u8;
        assert_eq!(calc_tf(freq), expected, "freq {}", freq);
    }
}

#[test]
fn norm_agrees_with_the_floating_point_formula() {
    for len in 1..100_000usize {
        let expected = (1f64 / (len as f64).sqrt() * 255f64) as u8;
        assert_eq!(calc_norm(len), expected, "len {}", len);
    }
}

#[test]
fn analyzer_keeps_tokens_in_order() {
    let analyzer = Analyzer::new(BasicCharFilter::new(), BasicTokenFilter::new(true), Spaces);
    let terms = analyzer.analyze("a cat 的 sat").unwrap();
    assert_eq!(terms, vec!["a", "cat", "sat"]);
}
