use mecab_grammar::matcher::{depth_limit, find_all_matches, find_matches, match_at, trace_fixed};
use mecab_grammar::prefer::preferred_ends;
use mecab_grammar::node::MecabNode;
use mecab_grammar::parser::parse_grammar;

fn make_node(surface: &str, feature: &str) -> MecabNode {
    MecabNode::new(surface.to_string(), feature.to_string())
}

#[test]
fn test_simple_pos_match() {
    let grammar = parse_grammar(r#"verbs = 動詞 ;"#).unwrap();
    let nodes = vec![
        make_node("食べ", "動詞,自立,*,*,一段,連用形,食べる,タベ,タベ"),
        make_node("た", "助動詞,*,*,*,特殊・タ,基本形,た,タ,タ"),
    ];
    let matches = find_matches(&grammar, "verbs", &nodes);
    assert_eq!(matches.len(), 1);
    assert_eq!(matches[0].start, 0);
    assert_eq!(matches[0].end, 1);
}

#[test]
fn test_sequence_match() {
    let grammar = parse_grammar(r#"te_form = 動詞 助詞.接続助詞"て" ;"#).unwrap();
    let nodes = vec![
        make_node("食べ", "動詞,自立,*,*,一段,連用形,食べる,タベ,タベ"),
        make_node("て", "助詞,接続助詞,*,*,*,*,て,テ,テ"),
        make_node("いる", "動詞,非自立,*,*,一段,基本形,いる,イル,イル"),
    ];
    let matches = find_matches(&grammar, "te_form", &nodes);
    assert_eq!(matches.len(), 1);
    assert_eq!(matches[0].start, 0);
    assert_eq!(matches[0].end, 2);
}

#[test]
fn test_wildcard_non_greedy() {
    let grammar = parse_grammar(r#"pattern = "いくら" _* 助詞.係助詞"も" ;"#).unwrap();
    let nodes = vec![
        make_node("いくら", "副詞,一般,*,*,*,*,いくら,イクラ,イクラ"),
        make_node("騒い", "動詞,自立,*,*,五段・ガ行,連用タ接続,騒ぐ,サワイ,サワイ"),
        make_node("で", "助詞,接続助詞,*,*,*,*,で,デ,デ"),
        make_node("も", "助詞,係助詞,*,*,*,*,も,モ,モ"),
    ];
    let matches = find_matches(&grammar, "pattern", &nodes);
    assert_eq!(matches.len(), 1);
    assert_eq!(matches[0].start, 0);
    assert_eq!(matches[0].end, 4);
    // Only いくら(0) and も(3) are fixed; 騒い(1) and で(2) are wildcard
    assert!(matches[0].fixed_indices.contains(&0)); // いくら
    assert!(matches[0].fixed_indices.contains(&3)); // も
    assert!(!matches[0].fixed_indices.contains(&1)); // 騒い = wildcard
    assert!(!matches[0].fixed_indices.contains(&2)); // で = wildcard
}

#[test]
fn test_fixed_indices_sequence() {
    let grammar = parse_grammar(r#"te_form = 動詞 助詞.接続助詞"て" ;"#).unwrap();
    let nodes = vec![
        make_node("食べ", "動詞,自立,*,*,一段,連用形,食べる,タベ,タベ"),
        make_node("て", "助詞,接続助詞,*,*,*,*,て,テ,テ"),
    ];
    let matches = find_matches(&grammar, "te_form", &nodes);
    assert_eq!(matches.len(), 1);
    // All nodes are fixed (no wildcards)
    assert_eq!(matches[0].fixed_indices, vec![0, 1]);
}

#[test]
fn test_no_match() {
    let grammar = parse_grammar(r#"adj = 形容詞 ;"#).unwrap();
    let nodes = vec![make_node("食べ", "動詞,自立,*,*,一段,連用形,食べる,タベ,タベ")];
    let matches = find_matches(&grammar, "adj", &nodes);
    assert!(matches.is_empty());
}

#[test]
fn test_base_form_match() {
    let grammar = parse_grammar(r#"suru = 動詞@"する" ;"#).unwrap();
    let nodes = vec![
        make_node("し", "動詞,自立,*,*,サ変・スル,連用形,する,シ,シ"),
        make_node("食べ", "動詞,自立,*,*,一段,連用形,食べる,タベ,タベ"),
    ];
    let matches = find_matches(&grammar, "suru", &nodes);
    assert_eq!(matches.len(), 1);
    assert_eq!(matches[0].start, 0);
}

#[test]
fn test_one_or_more() {
    let grammar = parse_grammar(r#"compound = 名詞+ ;"#).unwrap();
    let nodes = vec![
        make_node("東京", "名詞,固有名詞,地域,一般,*,*,東京,トウキョウ,トーキョー"),
        make_node("大学", "名詞,一般,*,*,*,*,大学,ダイガク,ダイガク"),
        make_node("の", "助詞,連体化,*,*,*,*,の,ノ,ノ"),
    ];
    let matches = find_matches(&grammar, "compound", &nodes);
    assert_eq!(matches.len(), 1);
    assert_eq!(matches[0].start, 0);
    assert_eq!(matches[0].end, 2);
}

#[test]
fn test_metadata_in_match() {
    let grammar = parse_grammar(
        r#"
            [N5 N4, "concession"]
            concession = "いくら" _* 助詞.係助詞"も" ;
        "#,
    )
    .unwrap();
    let nodes = vec![
        make_node("いくら", "副詞,一般,*,*,*,*,いくら,イクラ,イクラ"),
        make_node("も", "助詞,係助詞,*,*,*,*,も,モ,モ"),
    ];
    let matches = find_matches(&grammar, "concession", &nodes);
    assert_eq!(matches.len(), 1);
    assert_eq!(matches[0].levels, vec!["N5", "N4"]);
    assert_eq!(matches[0].description.as_deref(), Some("concession"));
}

#[test]
fn test_conjugation_form_match() {
    let grammar = parse_grammar(r#"nominalization = 形容詞[ガル接続] "さ" ;"#).unwrap();
    let nodes = vec![
        make_node("大き", "形容詞,自立,*,*,形容詞・イ段,ガル接続,大きい,オオキ,オーキ"),
        make_node("さ", "名詞,接尾,特殊,*,*,*,さ,サ,サ"),
    ];
    let matches = find_matches(&grammar, "nominalization", &nodes);
    assert_eq!(matches.len(), 1);
    assert_eq!(matches[0].fixed_indices, vec![0, 1]);
}

#[test]
fn test_conjugation_form_no_match() {
    // Wrong conjugation form should not match
    let grammar = parse_grammar(r#"nominalization = 形容詞[ガル接続] "さ" ;"#).unwrap();
    let nodes = vec![
        make_node("大き", "形容詞,自立,*,*,形容詞・イ段,連用テ接続,大きい,オオキ,オーキ"),
        make_node("さ", "名詞,接尾,特殊,*,*,*,さ,サ,サ"),
    ];
    let matches = find_matches(&grammar, "nominalization", &nodes);
    assert!(matches.is_empty());
}

#[test]
fn test_sugiru_hiragana() {
    // すぎる in hiragana should match via base_form 過ぎる
    let grammar = parse_grammar(r#"sugiru = 動詞 動詞@"過ぎる" ;"#).unwrap();
    let nodes = vec![
        make_node("食べ", "動詞,自立,*,*,一段,連用形,食べる,タベ,タベ"),
        make_node("すぎる", "動詞,自立,*,*,上一段,基本形,過ぎる,スギル,スギル"),
    ];
    let matches = find_matches(&grammar, "sugiru", &nodes);
    assert_eq!(matches.len(), 1);
}

#[test]
fn test_sugiru_kanji() {
    // 過ぎる in kanji should also match via base_form
    let grammar = parse_grammar(r#"sugiru = 動詞 動詞@"過ぎる" ;"#).unwrap();
    let nodes = vec![
        make_node("食べ", "動詞,自立,*,*,一段,連用形,食べる,タベ,タベ"),
        make_node("過ぎる", "動詞,自立,*,*,上一段,基本形,過ぎる,スギル,スギル"),
    ];
    let matches = find_matches(&grammar, "sugiru", &nodes);
    assert_eq!(matches.len(), 1);
}

#[test]
fn test_find_all_matches() {
    let grammar = parse_grammar(
        r#"
            nouns = 名詞+ ;
            particles = 助詞 ;
        "#,
    )
    .unwrap();
    let nodes = vec![
        make_node("東京", "名詞,固有名詞,地域,一般,*,*,東京,トウキョウ,トーキョー"),
        make_node("の", "助詞,連体化,*,*,*,*,の,ノ,ノ"),
        make_node("大学", "名詞,一般,*,*,*,*,大学,ダイガク,ダイガク"),
    ];
    let matches = find_all_matches(&grammar, &nodes);
    assert!(matches.len() >= 2);
}

#[test]
fn find_all_orders_by_start_then_longer_span() {
    let grammar = parse_grammar(
        r#"
            particles = 助詞 ;
            nouns = 名詞+ ;
            phrase = 名詞 助詞 名詞 ;
        "#,
    )
    .unwrap();
    let nodes = vec![
        make_node("東京", "名詞,固有名詞,地域,一般,*,*,東京,トウキョウ,トーキョー"),
        make_node("の", "助詞,連体化,*,*,*,*,の,ノ,ノ"),
        make_node("大学", "名詞,一般,*,*,*,*,大学,ダイガク,ダイガク"),
    ];
    let matches = find_all_matches(&grammar, &nodes);
    let spans: Vec<(String, usize, usize)> =
        matches.iter().map(|m| (m.rule_name.clone(), m.start, m.end)).collect();
    assert_eq!(
        spans,
        vec![
            ("phrase".to_string(), 0, 3),
            ("nouns".to_string(), 0, 1),
            ("particles".to_string(), 1, 2),
            ("nouns".to_string(), 2, 3),
        ]
    );
}

#[test]
fn matches_do_not_overlap() {
    let grammar = parse_grammar(r#"pair = 名詞 名詞 ;"#).unwrap();
    let nodes = vec![
        make_node("東京", "名詞,固有名詞,地域,一般,*,*,東京,トウキョウ,トーキョー"),
        make_node("大学", "名詞,一般,*,*,*,*,大学,ダイガク,ダイガク"),
        make_node("病院", "名詞,一般,*,*,*,*,病院,ビョウイン,ビョーイン"),
    ];
    let matches = find_matches(&grammar, "pair", &nodes);
    assert_eq!(matches.len(), 1);
    assert_eq!((matches[0].start, matches[0].end), (0, 2));
}

#[test]
fn rule_references_and_alternatives() {
    let grammar = parse_grammar(
        r#"
            noun_part = 名詞+ ;
            sentence = noun_part (助詞 | 助動詞) ;
            unknown_ref = missing_rule ;
        "#,
    )
    .unwrap();
    let nodes = vec![
        make_node("学生", "名詞,一般,*,*,*,*,学生,ガクセイ,ガクセイ"),
        make_node("です", "助動詞,*,*,*,特殊・デス,基本形,です,デス,デス"),
    ];
    let matches = find_matches(&grammar, "sentence", &nodes);
    assert_eq!(matches.len(), 1);
    assert_eq!((matches[0].start, matches[0].end), (0, 2));
    assert_eq!(matches[0].fixed_indices, vec![0, 1]);
    assert!(find_matches(&grammar, "unknown_ref", &nodes).is_empty());
    assert!(find_matches(&grammar, "no_such_rule", &nodes).is_empty());
}

#[test]
fn left_recursive_rule_terminates() {
    let grammar = parse_grammar(r#"loop_rule = loop_rule 名詞 | 名詞 ;"#).unwrap();
    let nodes = vec![
        make_node("東京", "名詞,固有名詞,地域,一般,*,*,東京,トウキョウ,トーキョー"),
        make_node("大学", "名詞,一般,*,*,*,*,大学,ダイガク,ダイガク"),
    ];
    let matches = find_matches(&grammar, "loop_rule", &nodes);
    assert_eq!(matches.len(), 1);
    assert_eq!((matches[0].start, matches[0].end), (0, 2));
}

#[test]
fn suffix_and_regex_matchers() {
    let grammar = parse_grammar(
        r#"
            ends_ru = 動詞@~"る" ;
            starts_tabe = /^食べ/ ;
        "#,
    )
    .unwrap();
    let nodes = vec![
        make_node("食べ", "動詞,自立,*,*,一段,連用形,食べる,タベ,タベ"),
        make_node("し", "動詞,自立,*,*,サ変・スル,連用形,する,シ,シ"),
    ];
    let a = find_matches(&grammar, "ends_ru", &nodes);
    assert_eq!(a.len(), 2);
    let b = find_matches(&grammar, "starts_tabe", &nodes);
    assert_eq!(b.len(), 1);
    assert_eq!(b[0].start, 0);
}

#[test]
fn wildcard_stops_at_first_closing_token() {
    let grammar = parse_grammar(r#"p = "いくら" _* "も" ;"#).unwrap();
    let nodes = vec![
        make_node("いくら", "副詞,一般,*,*,*,*,いくら,イクラ,イクラ"),
        make_node("で", "助詞,接続助詞,*,*,*,*,で,デ,デ"),
        make_node("も", "助詞,係助詞,*,*,*,*,も,モ,モ"),
        make_node("で", "助詞,接続助詞,*,*,*,*,で,デ,デ"),
        make_node("も", "助詞,係助詞,*,*,*,*,も,モ,モ"),
    ];
    let matches = find_matches(&grammar, "p", &nodes);
    assert_eq!(matches.len(), 1);
    assert_eq!(matches[0].start, 0);
    assert_eq!(matches[0].end, 3);
    assert_eq!(matches[0].fixed_indices, vec![0, 2]);
}

#[test]
fn noun_repetition_stays_greedy() {
    let grammar = parse_grammar(r#"p = 名詞* "が" ;"#).unwrap();
    let nodes = vec![
        make_node("東京", "名詞,固有名詞,地域,一般,*,*,東京,トウキョウ,トーキョー"),
        make_node("大学", "名詞,一般,*,*,*,*,大学,ダイガク,ダイガク"),
        make_node("が", "助詞,格助詞,一般,*,*,*,が,ガ,ガ"),
    ];
    let matches = find_matches(&grammar, "p", &nodes);
    assert_eq!(matches.len(), 1);
    assert_eq!(matches[0].start, 0);
    assert_eq!(matches[0].end, 3);
}

#[test]
fn equal_spans_keep_rule_order() {
    let grammar = parse_grammar(
        r#"
        first = 名詞 ;
        second = 名詞 ;
        "#,
    )
    .unwrap();
    let nodes = vec![make_node("本", "名詞,一般,*,*,*,*,本,ホン,ホン")];
    let matches = find_all_matches(&grammar, &nodes);
    assert_eq!(matches.len(), 2);
    assert_eq!(matches[0].rule_name, "first");
    assert_eq!(matches[1].rule_name, "second");
}

#[test]
fn tokens_outside_matches_start_no_match() {
    let grammar = parse_grammar(r#"p = 名詞 助詞 ;"#).unwrap();
    let nodes = vec![
        make_node("東京", "名詞,固有名詞,地域,一般,*,*,東京,トウキョウ,トーキョー"),
        make_node("大学", "名詞,一般,*,*,*,*,大学,ダイガク,ダイガク"),
        make_node("が", "助詞,格助詞,一般,*,*,*,が,ガ,ガ"),
    ];
    let matches = find_matches(&grammar, "p", &nodes);
    assert_eq!(matches.len(), 1);
    assert_eq!(matches[0].start, 1);
    assert_eq!(matches[0].end, 3);
    let from_first = find_matches(&grammar, "p", &nodes[..1]);
    assert!(from_first.is_empty());
}

#[test]
fn preferred_ends_order_the_ends_of_match_at() {
    let grammar = parse_grammar(
        r#"
        nouns = 名詞+ ;
        any = _* ;
        "#,
    )
    .unwrap();
    let nodes = vec![
        make_node("東京", "名詞,固有名詞,地域,一般,*,*,東京,トウキョウ,トーキョー"),
        make_node("大学", "名詞,一般,*,*,*,*,大学,ダイガク,ダイガク"),
    ];
    let fuel = depth_limit(nodes.len(), grammar.rules.len());
    let nouns = &grammar.rules[0].pattern;
    let any = &grammar.rules[1].pattern;
    assert_eq!(match_at(&grammar, nouns, &nodes, 0, fuel), vec![1, 2]);
    assert_eq!(preferred_ends(&grammar, nouns, &nodes, 0, fuel), vec![2, 1]);
    assert_eq!(match_at(&grammar, any, &nodes, 0, fuel), vec![0, 1, 2]);
    assert_eq!(preferred_ends(&grammar, any, &nodes, 0, fuel), vec![0, 1, 2]);
}

#[test]
fn fixed_positions_exist_exactly_at_ends() {
    let grammar = parse_grammar(r#"te_form = 動詞 助詞.接続助詞"て"? ;"#).unwrap();
    let nodes = vec![
        make_node("食べ", "動詞,自立,*,*,一段,連用形,食べる,タベ,タベ"),
        make_node("て", "助詞,接続助詞,*,*,*,*,て,テ,テ"),
        make_node("いる", "動詞,非自立,*,*,一段,基本形,いる,イル,イル"),
    ];
    let fuel = depth_limit(nodes.len(), grammar.rules.len());
    let pattern = &grammar.rules[0].pattern;
    assert_eq!(match_at(&grammar, pattern, &nodes, 0, fuel), vec![1, 2]);
    assert_eq!(trace_fixed(&grammar, pattern, &nodes, 0, 1, fuel), Some(vec![0]));
    assert_eq!(trace_fixed(&grammar, pattern, &nodes, 0, 2, fuel), Some(vec![0, 1]));
    assert_eq!(trace_fixed(&grammar, pattern, &nodes, 0, 3, fuel), None);
    assert_eq!(trace_fixed(&grammar, pattern, &nodes, 0, 0, fuel), None);
}

#[test]
fn repeated_optional_part_is_traced_when_it_consumes() {
    let grammar = parse_grammar(r#"p = (名詞?)+ ;"#).unwrap();
    let nodes = vec![make_node("本", "名詞,一般,*,*,*,*,本,ホン,ホン")];
    let fuel = depth_limit(nodes.len(), grammar.rules.len());
    let pattern = &grammar.rules[0].pattern;
    assert!(match_at(&grammar, pattern, &nodes, 0, fuel).contains(&1));
    assert_eq!(trace_fixed(&grammar, pattern, &nodes, 0, 1, fuel), Some(vec![0]));
}

#[test]
fn empty_repeat_of_plus_is_not_traced() {
    let grammar = parse_grammar(r#"x = (名詞?)+ 助詞 ;"#).unwrap();
    let nodes = vec![make_node("が", "助詞,格助詞,一般,*,*,*,が,ガ,ガ")];
    let fuel = depth_limit(nodes.len(), grammar.rules.len());
    let pattern = &grammar.rules[0].pattern;
    assert_eq!(match_at(&grammar, pattern, &nodes, 0, fuel), vec![1]);
    assert_eq!(trace_fixed(&grammar, pattern, &nodes, 0, 1, fuel), None);
}

#[test]
fn alternatives_take_the_longest_end() {
    let grammar = parse_grammar(r#"p = 名詞 | 名詞 名詞 ;"#).unwrap();
    let nodes = vec![
        make_node("東京", "名詞,固有名詞,地域,一般,*,*,東京,トウキョウ,トーキョー"),
        make_node("大学", "名詞,一般,*,*,*,*,大学,ダイガク,ダイガク"),
    ];
    let matches = find_matches(&grammar, "p", &nodes);
    assert_eq!(matches.len(), 1);
    assert_eq!(matches[0].start, 0);
    assert_eq!(matches[0].end, 2);
}
