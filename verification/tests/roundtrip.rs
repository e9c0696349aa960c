//! Round-trip scenarios: parsing followed by serialization reproduces the
//! input byte for byte, through both sinks.

use libshft::fuzz::{FuzzFile, SerializeInto, SliceSerializer};
use libshft::grammar::{Grammar, GrammarDef};
use libshft::parse::{slurp, Node};

fn roundtrip(grammar: &Grammar, buf: &[u8]) {
    let parsed_file = slurp(grammar, buf);
    let ff = FuzzFile::new(&parsed_file);
    {
        let mut serialized: Vec<u8> = Vec::new();
        ff.serialize(&mut serialized);
        assert!(serialized == buf);
    }

    {
        let mut serializer = SliceSerializer::new(128);
        ff.serialize(&mut serializer);
        let num_bytes = serializer.bytes_written();
        let serialized = serializer.into_bytes();
        assert!(&serialized[..num_bytes] == buf);
    }
}

#[test]
fn test_whitespace() {
    let grammar = Grammar::new(vec![], vec![b" ".to_vec()]);
    let buf = b"1 2 3";
    roundtrip(&grammar, buf)
}

#[test]
fn test_two_whitespaces() {
    let grammar = Grammar::new(vec![], vec![b" ".to_vec(), b"\r\n".to_vec()]);
    let buf = b"1 2\r\n3 \r\n4";
    roundtrip(&grammar, buf)
}

#[test]
fn test_delim() {
    let grammar = Grammar::new(
        vec![GrammarDef::Delim(vec![b'<', b'<'], vec![b'>', b'>'])],
        vec![],
    );
    roundtrip(&grammar, b"1<<2<<3>>4>>5");
    roundtrip(&grammar, b"1<<2<<3>>4");
    roundtrip(&grammar, b"1<<2>>3>>4");
    roundtrip(&grammar, b"1<<2");
    roundtrip(&grammar, b"1>>2")
}

#[test]
fn test_breaker_roundtrip() {
    let grammar = Grammar::new(vec![GrammarDef::Breaker(b";".to_vec())], vec![]);
    roundtrip(&grammar, b"a;b;;c;");
    roundtrip(&grammar, b";");
    roundtrip(&grammar, b";;;")
}

#[test]
fn test_empty_input_yields_empty_root() {
    let grammar = Grammar::new(vec![], vec![b" ".to_vec()]);
    let parsed = slurp(&grammar, b"");
    let ff = FuzzFile::new(&parsed);
    let mut serialized: Vec<u8> = Vec::new();
    ff.serialize(&mut serialized);
    assert!(serialized.is_empty());
}

#[test]
fn test_mixed_grammar_roundtrip() {
    let grammar = Grammar::new(
        vec![
            GrammarDef::Delim(b"(".to_vec(), b")".to_vec()),
            GrammarDef::Breaker(b",".to_vec()),
        ],
        vec![b" ".to_vec()],
    );
    roundtrip(&grammar, b"f(a, b), g(c)");
    roundtrip(&grammar, b"((()))");
    roundtrip(&grammar, b")(");
}

#[test]
fn test_parsed_tree_structure() {
    let grammar = Grammar::new(
        vec![GrammarDef::Delim(b"<<".to_vec(), b">>".to_vec())],
        vec![],
    );
    let parsed = slurp(&grammar, b"1<<2>>3");
    // Nodes are appended as the scan proceeds: the leading token, the
    // delimiter's child, the delimiter itself once its close is seen, and
    // the trailing token.
    assert_eq!(parsed.nodes.len(), 4);
    assert!(matches!(&parsed.nodes[0], Node::Token(t) if t == &b"1".to_vec()));
    assert!(matches!(&parsed.nodes[1], Node::Token(t) if t == &b"2".to_vec()));
    assert!(matches!(
        &parsed.nodes[2],
        Node::Delim(o, 0, c) if o == &b"<<".to_vec() && c == &b">>".to_vec()
    ));
    assert!(matches!(&parsed.nodes[3], Node::Token(t) if t == &b"3".to_vec()));
    assert_eq!(parsed.ranges, vec![vec![1]]);
    assert_eq!(parsed.root, vec![0, 2, 3]);
}

#[test]
fn test_unmatched_open_flushes_as_token() {
    let grammar = Grammar::new(
        vec![GrammarDef::Delim(b"<<".to_vec(), b">>".to_vec())],
        vec![],
    );
    let parsed = slurp(&grammar, b"1<<2");
    // The unmatched open is kept as a literal token, followed by the
    // children it had collected.
    assert_eq!(parsed.ranges.len(), 0);
    assert!(matches!(&parsed.nodes[0], Node::Token(t) if t == &b"1".to_vec()));
    assert!(matches!(&parsed.nodes[1], Node::Token(t) if t == &b"2".to_vec()));
    assert!(matches!(&parsed.nodes[2], Node::Token(t) if t == &b"<<".to_vec()));
    assert_eq!(parsed.root, vec![0, 2, 1]);
}

#[test]
fn test_slice_serializer_truncates() {
    let grammar = Grammar::new(vec![], vec![b" ".to_vec()]);
    let parsed = slurp(&grammar, b"1 2 3");
    let ff = FuzzFile::new(&parsed);

    let mut full: Vec<u8> = Vec::new();
    ff.serialize(&mut full);

    let mut sink = SliceSerializer::new(3);
    ff.serialize(&mut sink);
    assert_eq!(sink.bytes_written(), 3);
    let kept = sink.into_bytes();
    assert_eq!(&kept[..], &full[..3]);
    assert_eq!(&kept[..], b"1 2");
}

#[test]
fn test_slice_serializer_zero_capacity() {
    let grammar = Grammar::new(vec![], vec![]);
    let parsed = slurp(&grammar, b"abc");
    let ff = FuzzFile::new(&parsed);
    let mut sink = SliceSerializer::new(0);
    ff.serialize(&mut sink);
    assert_eq!(sink.bytes_written(), 0);
    assert!(sink.into_bytes().is_empty());
}
