use mecab_grammar::csv_parser::{grammar_from_items, parse_examples_str, pattern_failures, GrammarItem};
use mecab_grammar::grammar::{decompress_text, segment_bunsetsu_nodes, GrammarMatcher};
use mecab_grammar::node::MecabNode;
use mecab_grammar::pack::{build_mcbd_payload, dict_file_names, pack_mcbd, parse_mcbd, parse_mcbd_payload, McbdFile};
use mecab_grammar::parser::parse_grammar;
use mecab_grammar::syntax::{Grammar, PatternExpr};

fn make_node(surface: &str, feature: &str) -> MecabNode {
    MecabNode::new(surface.to_string(), feature.to_string())
}

fn item(rule_name: &str, levels: &str, name: &str, description: &str, connection: &str, pattern: &str, examples: &str) -> GrammarItem {
    GrammarItem {
        rule_name: rule_name.to_string(),
        levels: levels.to_string(),
        name: name.to_string(),
        description: description.to_string(),
        connection: connection.to_string(),
        pattern: pattern.to_string(),
        examples: examples.to_string(),
    }
}

fn sentence_nodes() -> Vec<MecabNode> {
    vec![
        make_node("食べ", "動詞,自立,*,*,一段,連用形,食べる,タベ,タベ"),
        make_node("て", "助詞,接続助詞,*,*,*,*,て,テ,テ"),
        make_node("いる", "動詞,非自立,*,*,一段,基本形,いる,イル,イル"),
        make_node("。", "記号,句点,*,*,*,*,。,。,。"),
        make_node("私", "名詞,代名詞,一般,*,*,*,私,ワタシ,ワタシ"),
        make_node("は", "助詞,係助詞,*,*,*,*,は,ハ,ワ"),
    ]
}

#[test]
fn examples_string_is_split_into_sentences_and_translations() {
    let ex = parse_examples_str("ja:食べる;zh:吃;en:eat|ja:飲む");
    assert_eq!(ex.len(), 2);
    assert_eq!(ex[0].sentence, "食べる");
    assert_eq!(ex[0].translations, vec![("zh".to_string(), "吃".to_string()), ("en".to_string(), "eat".to_string())]);
    assert_eq!(ex[1].sentence, "飲む");
    assert!(ex[1].translations.is_empty());
    assert!(parse_examples_str("").is_empty());
    let plain = parse_examples_str("そのまま;ja:次;ko:다음");
    assert_eq!(plain[0].sentence, "そのまま");
    assert_eq!(plain[0].translations, vec![("ja".to_string(), "次".to_string()), ("ko".to_string(), "다음".to_string())]);
}

#[test]
fn csv_rows_become_rules() {
    let g = grammar_from_items(vec![
        item("te_form", "N5  N4", "て形", "接続", "動詞て形", "動詞 助詞.接続助詞\"て\"", "ja:食べて"),
        item("", "N1", "skipped", "", "", "名詞", ""),
        item("only_name", "", "名前", "", "", "   ", ""),
        item("broken", "", "", "", "", "名詞 (", ""),
    ]);
    assert_eq!(g.rules.len(), 3);
    let r0 = &g.rules[0];
    assert_eq!(r0.name, "te_form");
    let m0 = r0.metadata.as_ref().unwrap();
    assert_eq!(m0.levels, vec!["N5", "N4"]);
    assert_eq!(m0.description.as_deref(), Some("て形：接続"));
    assert_eq!(m0.connection.as_deref(), Some("動詞て形"));
    assert_eq!(m0.examples.len(), 1);
    assert!(matches!(&r0.pattern, PatternExpr::Sequence(items) if items.len() == 2));
    let m1 = g.rules[1].metadata.as_ref().unwrap();
    assert_eq!(m1.description.as_deref(), Some("名前"));
    assert_eq!(m1.connection, None);
    assert!(m1.levels.is_empty());
    assert!(matches!(&g.rules[1].pattern, PatternExpr::Sequence(items) if items.is_empty()));
    assert!(matches!(&g.rules[2].pattern, PatternExpr::Sequence(items) if items.is_empty()));
    assert_eq!(g.rules[2].metadata.as_ref().unwrap().description, None);
}

#[test]
fn mcbd_payload_round_trip() {
    let files = vec![
        McbdFile { name: "dicrc".to_string(), data: vec![1, 2, 3] },
        McbdFile { name: "辞書.bin".to_string(), data: Vec::new() },
    ];
    let payload = build_mcbd_payload(&files);
    assert_eq!(&payload[0..4], b"MCBD");
    assert_eq!(&payload[4..8], &[1, 0, 0, 0]);
    assert_eq!(&payload[8..12], &[2, 0, 0, 0]);
    assert_eq!(&payload[12..16], &[5, 0, 0, 0]);
    let back = parse_mcbd_payload(&payload).unwrap();
    assert_eq!(back.len(), 2);
    assert_eq!(back[0].name, "dicrc");
    assert_eq!(back[0].data, vec![1, 2, 3]);
    assert_eq!(back[1].name, "辞書.bin");
    assert!(back[1].data.is_empty());
    let packed = pack_mcbd(&files).unwrap();
    let unpacked = parse_mcbd(&packed).unwrap();
    assert_eq!(unpacked.len(), 2);
    assert_eq!(unpacked[1].name, "辞書.bin");
    assert_eq!(unpacked[0].data, vec![1, 2, 3]);
}

#[test]
fn mcbd_errors() {
    assert_eq!(parse_mcbd_payload(b"MCB").err().unwrap(), "Invalid MCBD magic");
    assert_eq!(parse_mcbd_payload(b"XCBD\x01\x00\x00\x00").err().unwrap(), "Invalid MCBD magic");
    assert_eq!(parse_mcbd_payload(b"MCBD\x01\x00").err().unwrap(), "Unexpected end of MCBD data");
    assert_eq!(parse_mcbd_payload(b"MCBD\x07\x01\x00\x00").err().unwrap(), "Unsupported MCBD version: 263");
    assert_eq!(parse_mcbd_payload(b"MCBD\x01\x00\x00\x00\x01\x00\x00\x00").err().unwrap(), "Unexpected end of MCBD data");
    assert_eq!(
        parse_mcbd_payload(b"MCBD\x01\x00\x00\x00\x01\x00\x00\x00\x05\x00\x00\x00ab").err().unwrap(),
        "Unexpected end of MCBD data (name)"
    );
    assert_eq!(
        parse_mcbd_payload(b"MCBD\x01\x00\x00\x00\x01\x00\x00\x00\x01\x00\x00\x00a\x09\x00\x00\x00xy").err().unwrap(),
        "Unexpected end of MCBD data (file data)"
    );
    assert!(parse_mcbd_payload(b"MCBD\x01\x00\x00\x00\x01\x00\x00\x00\x01\x00\x00\x00\xff\x00\x00\x00\x00")
        .err()
        .unwrap()
        .starts_with("Invalid UTF-8 in file name: "));
    assert!(parse_mcbd(b"not gzip").err().unwrap().starts_with("Failed to decompress gzip: "));
    assert!(parse_mcbd_payload(b"MCBD\x01\x00\x00\x00\x00\x00\x00\x00").unwrap().is_empty());
}

#[test]
fn dictionary_file_list() {
    assert_eq!(dict_file_names(), vec!["char.bin", "dicrc", "matrix.bin", "sys.dic", "unk.dic"]);
}

#[test]
fn matcher_reports_bunsetsu_positions() {
    let m = GrammarMatcher::new(r#"te_iru = 動詞 助詞"て" 動詞 ; wa = 名詞 助詞 ;"#.to_string()).unwrap();
    let found = m.find("te_iru".to_string(), sentence_nodes());
    assert_eq!(found.len(), 1);
    let f = &found[0];
    assert_eq!((f.start, f.end), (0, 3));
    assert_eq!(f.nodes.len(), 3);
    assert_eq!(f.nodes[1].surface, "て");
    assert_eq!(f.fixed_indices, vec![0, 1, 2]);
    assert_eq!((f.bunsetsu_start, f.bunsetsu_end, f.bunsetsu_span), (0, 0, 1));
    let all = m.find_all(sentence_nodes());
    assert_eq!(all.len(), 2);
    assert_eq!(all[1].rule, "wa");
    assert_eq!((all[1].bunsetsu_start, all[1].bunsetsu_end, all[1].bunsetsu_span), (1, 1, 1));
    assert!(m.test("wa".to_string(), sentence_nodes()));
    assert!(!m.test("missing".to_string(), sentence_nodes()));
    assert_eq!(m.rule_names(), vec!["te_iru", "wa"]);
}

#[test]
fn bunsetsu_limit_suppresses_wide_matches() {
    let mut m = GrammarMatcher::new(r#"wide = 動詞 _* 助詞.係助詞 ;"#.to_string()).unwrap();
    assert_eq!(m.find("wide".to_string(), sentence_nodes()).len(), 1);
    assert_eq!(m.find("wide".to_string(), sentence_nodes())[0].bunsetsu_span, 2);
    m.set_max_bunsetsu("wide".to_string(), 1).unwrap();
    assert!(m.find("wide".to_string(), sentence_nodes()).is_empty());
    assert!(m.find_all(sentence_nodes()).is_empty());
    assert!(!m.test("wide".to_string(), sentence_nodes()));
    m.set_max_bunsetsu("wide".to_string(), 0).unwrap();
    assert_eq!(m.find("wide".to_string(), sentence_nodes()).len(), 1);
    assert_eq!(m.set_max_bunsetsu("nope".to_string(), 1).err().unwrap(), "Rule not found: nope");
}

#[test]
fn merge_skips_existing_names() {
    let mut m = GrammarMatcher::new(r#"a = 名詞 ; b = 動詞 ;"#.to_string()).unwrap();
    m.merge(r#"b = 助詞 ; c = 助詞 ; c = 動詞 ;"#.to_string()).unwrap();
    assert_eq!(m.rule_names(), vec!["a", "b", "c"]);
    let copy = m.clone_matcher();
    assert_eq!(copy.rule_names(), vec!["a", "b", "c"]);
    let err = m.merge("x = ;".to_string()).err().unwrap();
    assert_eq!(err, "Grammar parse error: Expected at least one pattern in sequence");
    assert_eq!(m.rule_names(), vec!["a", "b", "c"]);
    assert!(GrammarMatcher::new("= ;".to_string()).is_err());
}

#[test]
fn grammar_operations() {
    let mut g = parse_grammar(r#"base = 動詞$1 動詞@=$1 ; user = base 名詞 ; plain = 名詞 ; cyc = cyc2 ; cyc2 = cyc ;"#).unwrap();
    assert!(g.rule_uses_captures("base"));
    assert!(g.rule_uses_captures("user"));
    assert!(!g.rule_uses_captures("plain"));
    assert!(!g.rule_uses_captures("cyc"));
    assert!(!g.rule_uses_captures("missing"));
    assert!(g.find_rule("plain").is_some());
    assert!(g.find_rule("absent").is_none());
    let other = parse_grammar(r#"plain = 動詞 ; extra = 助詞 ;"#).unwrap();
    g.merge(other);
    assert_eq!(g.rule_names(), vec!["base", "user", "plain", "cyc", "cyc2", "extra"]);
    let empty = Grammar::new();
    assert!(empty.rules.is_empty());
    let d = g.duplicate();
    assert_eq!(d.rule_names(), g.rule_names());
}

#[test]
fn bunsetsu_chunks_with_surfaces() {
    let chunks = segment_bunsetsu_nodes(sentence_nodes());
    assert_eq!(chunks.len(), 2);
    assert_eq!((chunks[0].start, chunks[0].end, chunks[0].head), (0, 3, 0));
    assert_eq!(chunks[0].surface, "食べている");
    assert_eq!(chunks[1].surface, "私は");
}

#[test]
fn compressed_text_is_decompressed() {
    let files = vec![McbdFile { name: "dicrc".to_string(), data: b"cost-factor = 800".to_vec() }];
    let packed = pack_mcbd(&files).unwrap();
    let text = decompress_text(&packed).unwrap();
    assert_eq!(text.as_bytes(), build_mcbd_payload(&files).as_slice());
    assert!(decompress_text(b"plain text").err().unwrap().starts_with("Failed to decompress gz data: "));
}

#[test]
fn unparsable_csv_patterns_are_listed() {
    let items = vec![
        item("good", "", "", "", "", "名詞", ""),
        item("broken", "", "", "", "", "名詞 (", ""),
        item("", "", "", "", "", "名詞 (", ""),
        item("blank", "", "", "", "", "  ", ""),
    ];
    let failures = pattern_failures(&items);
    assert_eq!(failures.len(), 1);
    assert_eq!(failures[0].0, "broken");
    assert_eq!(failures[0].1, "Expected at least one pattern in sequence");
}
