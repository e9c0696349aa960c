//! Scenarios for the tree dump rendering and the output path templating.

use libshft::grammar::{Grammar, GrammarDef};
use libshft::output::{OutputPattern, PatternError};
use libshft::parse::slurp;

#[test]
fn test_dump_tokens_line_per_token() {
    let grammar = Grammar::new(
        vec![GrammarDef::Delim(b"<<".to_vec(), b">>".to_vec())],
        vec![b" ".to_vec()],
    );
    let parsed = slurp(&grammar, b"1 2 3");
    let dumped = parsed.dump();
    assert_eq!(dumped, b"\"1\"\n\" \"\n\"2\"\n\" \"\n\"3\"\n".to_vec());
}

#[test]
fn test_dump_delim_block() {
    let grammar = Grammar::new(
        vec![GrammarDef::Delim(b"<<".to_vec(), b">>".to_vec())],
        vec![],
    );
    let parsed = slurp(&grammar, b"1<<2>>3");
    let dumped = parsed.dump();
    assert_eq!(
        dumped,
        b"\"1\"\n\"<<\" {\n    \"2\"\n} \">>\"\n\"3\"\n".to_vec()
    );
}

#[test]
fn test_dump_unmatched_close_is_a_token() {
    let grammar = Grammar::new(
        vec![GrammarDef::Delim(b"<<".to_vec(), b">>".to_vec())],
        vec![],
    );
    let parsed = slurp(&grammar, b"1>>2");
    let dumped = parsed.dump();
    assert_eq!(dumped, b"\"1\"\n\">>\"\n\"2\"\n".to_vec());
}

#[test]
fn test_dump_escapes() {
    let grammar = Grammar::new(vec![], vec![]);
    let parsed = slurp(&grammar, b"\x00\t\r\n\x7f");
    let dumped = parsed.dump();
    assert_eq!(dumped, b"\"\\x00\\t\\r\\n\\x7f\"\n".to_vec());
}

#[test]
fn test_output_pattern() {
    assert!(OutputPattern::from_path(b"out/name.ext").is_err());
    let pattern = OutputPattern::from_path(b"out/{}.ext").unwrap();
    assert!(pattern.with(0) == b"out/0.ext".to_vec());
}

#[test]
fn test_output_pattern_with_number() {
    let pattern = OutputPattern::from_path(b"out/{}.ext").unwrap();
    assert_eq!(pattern.with(7), b"out/7.ext".to_vec());
    assert_eq!(pattern.with(1234567890), b"out/1234567890.ext".to_vec());
}

#[test]
fn test_output_pattern_errors() {
    assert!(matches!(
        OutputPattern::from_path(b"out/name.ext"),
        Err(PatternError::MissingMarker)
    ));
    assert!(matches!(
        OutputPattern::from_path(b"out/"),
        Err(PatternError::MissingComponents)
    ));
    assert!(matches!(
        OutputPattern::from_path(b""),
        Err(PatternError::MissingComponents)
    ));
}

#[test]
fn test_output_pattern_without_directory() {
    let pattern = OutputPattern::from_path(b"{}.bin").unwrap();
    assert_eq!(pattern.with(3), b"3.bin".to_vec());
}

#[test]
fn test_grammar_delims_in_rule_order() {
    let grammar = Grammar::new(
        vec![
            GrammarDef::Delim(b"<<".to_vec(), b">>".to_vec()),
            GrammarDef::Breaker(b";".to_vec()),
            GrammarDef::Delim(b"(".to_vec(), b")".to_vec()),
        ],
        vec![],
    );
    let delims = grammar.delims();
    assert_eq!(delims.len(), 2);
    assert_eq!(delims[0].start_pattern, b"<<".to_vec());
    assert_eq!(delims[0].end_pattern, b">>".to_vec());
    assert_eq!(delims[1].start_pattern, b"(".to_vec());
    assert_eq!(delims[1].end_pattern, b")".to_vec());
}
