//! Mutator scenarios: each structural rewrite observed through the
//! serialization of a small tree.

use libshft::fuzz::{default_mutations, fuzz_one, FuzzConfig, FuzzFile, Mutation, SerializeInto};
use libshft::grammar::{Grammar, GrammarDef};
use libshft::parse::slurp;
use libshft::rng::Prng;

fn angle_grammar() -> Grammar {
    Grammar::new(
        vec![GrammarDef::Delim(b"<<".to_vec(), b">>".to_vec())],
        vec![],
    )
}

fn serialized(ff: &FuzzFile) -> Vec<u8> {
    let mut out: Vec<u8> = Vec::new();
    ff.serialize(&mut out);
    out
}

#[test]
fn test_swap_delim_transposes_patterns() {
    let grammar = angle_grammar();
    let parsed = slurp(&grammar, b"1<<2>>3");
    let mut ff = FuzzFile::new(&parsed);
    let mut rng = Prng::from_seed(7);
    assert!(ff.swap_delim(&mut rng));
    assert_eq!(serialized(&ff), b"1>>2<<3".to_vec());
}

#[test]
fn test_remove_delim_drops_patterns() {
    let grammar = angle_grammar();
    let parsed = slurp(&grammar, b"1<<2>>3");
    let mut ff = FuzzFile::new(&parsed);
    let mut rng = Prng::from_seed(7);
    assert!(ff.remove_delim(&mut rng));
    assert_eq!(serialized(&ff), b"123".to_vec());
}

#[test]
fn test_nest_delim_doubles_patterns() {
    let grammar = angle_grammar();
    let parsed = slurp(&grammar, b"1<<2>>3");
    let mut ff = FuzzFile::new(&parsed);
    let mut rng = Prng::from_seed(7);
    assert!(ff.nest_delim(&mut rng));
    assert_eq!(serialized(&ff), b"1<<<<2>>>>3".to_vec());
}

#[test]
fn test_empty_delim_cuts_children_loose() {
    let grammar = angle_grammar();
    let parsed = slurp(&grammar, b"1<<2>>3");
    let mut ff = FuzzFile::new(&parsed);
    let mut rng = Prng::from_seed(7);
    assert!(ff.empty_delim(&mut rng));
    assert_eq!(serialized(&ff), b"1<<>>3".to_vec());
}

#[test]
fn test_delim_mutators_need_a_delim() {
    let grammar = angle_grammar();
    let parsed = slurp(&grammar, b"plain");
    let mut ff = FuzzFile::new(&parsed);
    let mut rng = Prng::from_seed(7);
    assert!(!ff.swap_delim(&mut rng));
    assert!(!ff.remove_delim(&mut rng));
    assert!(!ff.nest_delim(&mut rng));
    assert!(!ff.empty_delim(&mut rng));
    assert!(!ff.rand_delim(&mut rng, &grammar.delims()));
    assert_eq!(serialized(&ff), b"plain".to_vec());
}

#[test]
fn test_swap_ranges_with_two_ranges() {
    let grammar = angle_grammar();
    let parsed = slurp(&grammar, b"a<<b>>c<<d>>e");
    let mut ff = FuzzFile::new(&parsed);
    let mut rng = Prng::from_seed(7);
    // Exactly two ranges exist, and the drawn indices are distinct, so the
    // swap is forced.
    assert!(ff.swap_ranges(&mut rng));
    assert_eq!(serialized(&ff), b"a<<d>>c<<b>>e".to_vec());
}

#[test]
fn test_swap_ranges_needs_two_ranges() {
    let grammar = angle_grammar();
    let parsed = slurp(&grammar, b"1<<2>>3");
    let mut ff = FuzzFile::new(&parsed);
    let mut rng = Prng::from_seed(7);
    assert!(!ff.swap_ranges(&mut rng));
    assert_eq!(serialized(&ff), b"1<<2>>3".to_vec());
}

#[test]
fn test_shuffle_range_keeps_children() {
    let grammar = Grammar::new(
        vec![GrammarDef::Delim(b"(".to_vec(), b")".to_vec())],
        vec![b" ".to_vec()],
    );
    let parsed = slurp(&grammar, b"(a b c)");
    let mut ff = FuzzFile::new(&parsed);
    let mut rng = Prng::from_seed(3);
    assert!(ff.shuffle_range(&mut rng));
    let mut out = serialized(&ff);
    assert_eq!(out.len(), 7);
    assert_eq!(out[0], b'(');
    assert_eq!(out[6], b')');
    let mut inner: Vec<u8> = out.drain(1..6).collect();
    inner.sort();
    assert_eq!(inner, b"  abc".to_vec());
}

#[test]
fn test_shuffle_range_needs_a_range() {
    let grammar = angle_grammar();
    let parsed = slurp(&grammar, b"plain");
    let mut ff = FuzzFile::new(&parsed);
    let mut rng = Prng::from_seed(3);
    assert!(!ff.shuffle_range(&mut rng));
}

#[test]
fn test_duplicate_range_repeats_children() {
    let grammar = angle_grammar();
    let parsed = slurp(&grammar, b"1<<2>>3");
    let mut ff = FuzzFile::new(&parsed);
    let mut rng = Prng::from_seed(5);
    assert!(ff.duplicate_range(&mut rng, 5));
    let out = serialized(&ff);
    // The only range holds the token `2`; it now repeats between 2 and 5
    // times.
    assert!(out.len() > b"1<<2>>3".len());
    assert_eq!(&out[..3], b"1<<");
    assert_eq!(&out[out.len() - 3..], b">>3");
    let inner = &out[3..out.len() - 3];
    assert!(inner.len() >= 2 && inner.len() <= 5);
    assert!(inner.iter().all(|b| *b == b'2'));
}

#[test]
fn test_duplicate_range_rejects_low_bound() {
    let grammar = angle_grammar();
    let parsed = slurp(&grammar, b"1<<2>>3");
    let mut ff = FuzzFile::new(&parsed);
    let mut rng = Prng::from_seed(5);
    assert!(!ff.duplicate_range(&mut rng, 1));
    assert!(!ff.duplicate_range(&mut rng, 0));
    assert_eq!(serialized(&ff), b"1<<2>>3".to_vec());
}

#[test]
fn test_duplicate_root_node_keeps_wellformedness() {
    let grammar = angle_grammar();
    let parsed = slurp(&grammar, b"1<<2>>3");
    let mut ff = FuzzFile::new(&parsed);
    let mut rng = Prng::from_seed(11);
    assert!(ff.duplicate_root_node(&mut rng));
    // The tree stays serializable; the duplicated node appears through a
    // fresh shared range.
    let out = serialized(&ff);
    assert!(!out.is_empty());
}

#[test]
fn test_rand_delim_swaps_pair_or_reports_nothing() {
    let grammar = Grammar::new(
        vec![
            GrammarDef::Delim(b"<<".to_vec(), b">>".to_vec()),
            GrammarDef::Delim(b"[".to_vec(), b"]".to_vec()),
        ],
        vec![],
    );
    let parsed = slurp(&grammar, b"1<<2>>3");
    let mut ff = FuzzFile::new(&parsed);
    let mut rng = Prng::from_seed(2);
    let changed = ff.rand_delim(&mut rng, &grammar.delims());
    let out = serialized(&ff);
    if changed {
        assert_eq!(out, b"1[2]3".to_vec());
    } else {
        assert_eq!(out, b"1<<2>>3".to_vec());
    }
}

#[test]
fn test_rand_delim_needs_candidates() {
    let grammar = angle_grammar();
    let parsed = slurp(&grammar, b"1<<2>>3");
    let mut ff = FuzzFile::new(&parsed);
    let mut rng = Prng::from_seed(2);
    assert!(!ff.rand_delim(&mut rng, &Vec::new()));
    assert_eq!(serialized(&ff), b"1<<2>>3".to_vec());
}

#[test]
fn test_default_mutations_lists_whole_catalogue() {
    assert_eq!(default_mutations().len(), 9);
}

#[test]
fn test_fuzz_one_without_budget_yields_nothing() {
    let grammar = angle_grammar();
    let parsed = slurp(&grammar, b"1<<2>>3");
    let mut rng = Prng::from_seed(1);
    let config = FuzzConfig {
        max_mutations: 0,
        max_duplications: 5,
        valid_actions: default_mutations(),
        all_delims: grammar.delims(),
    };
    assert!(fuzz_one(&parsed, &mut rng, &config).is_none());
}

#[test]
fn test_fuzz_one_without_actions_yields_nothing() {
    let grammar = angle_grammar();
    let parsed = slurp(&grammar, b"1<<2>>3");
    let mut rng = Prng::from_seed(1);
    let config = FuzzConfig {
        max_mutations: 5,
        max_duplications: 5,
        valid_actions: vec![],
        all_delims: grammar.delims(),
    };
    assert!(fuzz_one(&parsed, &mut rng, &config).is_none());
}

#[test]
fn test_fuzz_one_owes_a_variant_for_sure_mutations() {
    let grammar = angle_grammar();
    let parsed = slurp(&grammar, b"a<<b>>c<<d>>e");
    let config = FuzzConfig {
        max_mutations: 3,
        max_duplications: 5,
        valid_actions: vec![Mutation::SwapRanges, Mutation::ShuffleRanges],
        all_delims: grammar.delims(),
    };
    for seed in 0..10u64 {
        let mut rng = Prng::from_seed(seed);
        assert!(fuzz_one(&parsed, &mut rng, &config).is_some());
    }
}

#[test]
fn test_fuzz_one_is_deterministic_for_a_seed() {
    let grammar = angle_grammar();
    let parsed = slurp(&grammar, b"a<<b>>c<<d>>e");
    let config = FuzzConfig {
        max_mutations: 5,
        max_duplications: 5,
        valid_actions: default_mutations(),
        all_delims: grammar.delims(),
    };
    let mut rng1 = Prng::from_seed(42);
    let mut rng2 = Prng::from_seed(42);
    let out1 = fuzz_one(&parsed, &mut rng1, &config).map(|ff| serialized(&ff));
    let out2 = fuzz_one(&parsed, &mut rng2, &config).map(|ff| serialized(&ff));
    assert_eq!(out1, out2);
}

#[test]
fn test_fuzz_one_variants_stay_serializable() {
    let grammar = angle_grammar();
    let parsed = slurp(&grammar, b"a<<b<<c>>d>>e<<f>>g");
    let config = FuzzConfig {
        max_mutations: 8,
        max_duplications: 4,
        valid_actions: default_mutations(),
        all_delims: grammar.delims(),
    };
    for seed in 0..20u64 {
        let mut rng = Prng::from_seed(seed);
        if let Some(ff) = fuzz_one(&parsed, &mut rng, &config) {
            // Any variant flattens without panicking or looping.
            let _ = serialized(&ff);
        }
    }
}
