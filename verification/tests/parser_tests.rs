use mecab_grammar::parser::parse_grammar;
use mecab_grammar::syntax::{PatternExpr, StringMatcher};

#[test]
fn test_simple_rule() {
    let grammar = parse_grammar(r#"te_form = 動詞 助詞.接続助詞"て" ;"#).unwrap();
    assert_eq!(grammar.rules.len(), 1);
    assert_eq!(grammar.rules[0].name, "te_form");
}

#[test]
fn test_metadata() {
    let grammar = parse_grammar(
        r#"
            [N5 N4, "concession"]
            concession = "いくら" _* 動詞 ;
        "#,
    )
    .unwrap();
    assert_eq!(grammar.rules.len(), 1);
    let meta = grammar.rules[0].metadata.as_ref().unwrap();
    assert_eq!(meta.levels, vec!["N5", "N4"]);
    assert_eq!(meta.description.as_deref(), Some("concession"));
}

#[test]
fn test_alternatives() {
    let grammar = parse_grammar(r#"pos = 名詞 | 動詞 | 形容詞 ;"#).unwrap();
    match &grammar.rules[0].pattern {
        PatternExpr::Alternative(alts) => assert_eq!(alts.len(), 3),
        _ => panic!("Expected Alternative"),
    }
}

#[test]
fn test_quantifiers() {
    let grammar = parse_grammar(r#"rep = 名詞+ 助詞? _* ;"#).unwrap();
    match &grammar.rules[0].pattern {
        PatternExpr::Sequence(items) => {
            assert!(matches!(items[0], PatternExpr::OneOrMore(_)));
            assert!(matches!(items[1], PatternExpr::Optional(_)));
            assert!(matches!(items[2], PatternExpr::ZeroOrMore(_)));
        },
        _ => panic!("Expected Sequence"),
    }
}

#[test]
fn test_grouping() {
    let grammar = parse_grammar(r#"chain = 動詞 (助詞.接続助詞"て" 動詞)+ ;"#).unwrap();
    match &grammar.rules[0].pattern {
        PatternExpr::Sequence(items) => {
            assert!(matches!(items[0], PatternExpr::Token(_)));
            assert!(matches!(items[1], PatternExpr::OneOrMore(_)));
        },
        _ => panic!("Expected Sequence"),
    }
}

#[test]
fn test_comments() {
    let grammar = parse_grammar(
        r#"
            // This is a comment
            rule1 = 名詞 ; // inline comment
            rule2 = 動詞 ;
        "#,
    )
    .unwrap();
    assert_eq!(grammar.rules.len(), 2);
}

#[test]
fn test_base_form() {
    let grammar = parse_grammar(r#"suru = 動詞@"する" ;"#).unwrap();
    match &grammar.rules[0].pattern {
        PatternExpr::Token(pred) => {
            assert_eq!(pred.pos, vec!["動詞"]);
            assert!(matches!(&pred.base_form, Some(StringMatcher::Exact(s)) if s == "する"));
        },
        _ => panic!("Expected Token"),
    }
}

#[test]
fn test_surface_only() {
    let grammar = parse_grammar(r#"ikura = "いくら" ;"#).unwrap();
    match &grammar.rules[0].pattern {
        PatternExpr::Token(pred) => {
            assert!(pred.pos.is_empty());
            assert!(matches!(&pred.surface, Some(StringMatcher::Exact(s)) if s == "いくら"));
        },
        _ => panic!("Expected Token"),
    }
}

#[test]
fn test_rule_ref() {
    let grammar = parse_grammar(
        r#"
            noun_part = 名詞+ ;
            sentence = noun_part 動詞 ;
        "#,
    )
    .unwrap();
    assert_eq!(grammar.rules.len(), 2);
    match &grammar.rules[1].pattern {
        PatternExpr::Sequence(items) => {
            assert!(matches!(&items[0], PatternExpr::RuleRef(name) if name == "noun_part"));
        },
        _ => panic!("Expected Sequence"),
    }
}

#[test]
fn test_multiple_rules_with_metadata() {
    let grammar = parse_grammar(
        r#"
            [N5, "te-form"]
            te_form = 動詞 助詞.接続助詞"て" ;

            [N3 N2, "causative passive"]
            causative_passive = 動詞 助動詞 ;
        "#,
    )
    .unwrap();
    assert_eq!(grammar.rules.len(), 2);
    let m0 = grammar.rules[0].metadata.as_ref().unwrap();
    assert_eq!(m0.levels, vec!["N5"]);
    let m1 = grammar.rules[1].metadata.as_ref().unwrap();
    assert_eq!(m1.levels, vec!["N3", "N2"]);
}

#[test]
fn test_suffix_surface() {
    let grammar = parse_grammar(r#"rule = 動詞~"る" ;"#).unwrap();
    match &grammar.rules[0].pattern {
        PatternExpr::Token(pred) => {
            assert_eq!(pred.pos, vec!["動詞"]);
            assert!(matches!(&pred.surface, Some(StringMatcher::Suffix(s)) if s == "る"));
        },
        _ => panic!("Expected Token"),
    }
}

#[test]
fn test_suffix_base_form() {
    let grammar = parse_grammar(r#"rule = 動詞@~"上がる" ;"#).unwrap();
    match &grammar.rules[0].pattern {
        PatternExpr::Token(pred) => {
            assert_eq!(pred.pos, vec!["動詞"]);
            assert!(matches!(&pred.base_form, Some(StringMatcher::Suffix(s)) if s == "上がる"));
        },
        _ => panic!("Expected Token"),
    }
}

#[test]
fn test_regex_base_form() {
    let grammar = parse_grammar(r#"rule = 動詞@/す[るれ]/ ;"#).unwrap();
    match &grammar.rules[0].pattern {
        PatternExpr::Token(pred) => {
            assert_eq!(pred.pos, vec!["動詞"]);
            assert!(matches!(&pred.base_form, Some(StringMatcher::Regex(_))));
        },
        _ => panic!("Expected Token"),
    }
}

#[test]
fn test_conjugation_form_with_base_form() {
    // Conjugation form + base form on the same atom should work
    let grammar = parse_grammar(r#"rule = 形容詞[連用テ接続]@"ない" ;"#).unwrap();
    match &grammar.rules[0].pattern {
        PatternExpr::Token(pred) => {
            assert_eq!(pred.pos, vec!["形容詞"]);
            assert!(matches!(&pred.conjugation_form, Some(StringMatcher::Exact(s)) if s == "連用テ接続"));
            assert!(matches!(&pred.base_form, Some(StringMatcher::Exact(s)) if s == "ない"));
        },
        _ => panic!("Expected Token"),
    }
}

#[test]
fn test_suffix_conjugation_form() {
    let grammar = parse_grammar(r#"rule = 動詞[~"接続"] ;"#).unwrap();
    match &grammar.rules[0].pattern {
        PatternExpr::Token(pred) => {
            assert!(matches!(&pred.conjugation_form, Some(StringMatcher::Suffix(s)) if s == "接続"));
        },
        _ => panic!("Expected Token"),
    }
}

#[test]
fn test_regex_surface() {
    let grammar = parse_grammar(r#"rule = /^食べ/ ;"#).unwrap();
    match &grammar.rules[0].pattern {
        PatternExpr::Token(pred) => {
            assert!(pred.pos.is_empty());
            assert!(matches!(&pred.surface, Some(StringMatcher::Regex(_))));
        },
        _ => panic!("Expected Token"),
    }
}

#[test]
fn parse_errors_name_the_offending_token() {
    assert_eq!(parse_grammar("rule = ;").unwrap_err(), "Expected at least one pattern in sequence");
    assert_eq!(parse_grammar("rule 名詞 ;").unwrap_err(), "Expected Equals, got Ident(\"名詞\")");
    assert_eq!(parse_grammar("rule = 名詞").unwrap_err(), "Expected Semicolon, got end of input");
    assert_eq!(parse_grammar("= 名詞 ;").unwrap_err(), "Expected rule name, got Some(Equals)");
    assert_eq!(parse_grammar("rule = 名詞[] ;").unwrap_err(), "Expected conjugation form, got Some(RBracket)");
    assert_eq!(parse_grammar("rule = ~ ;").unwrap_err(), "Expected string after '~', got Some(Semicolon)");
    assert!(parse_grammar("rule = /(/ ;").unwrap_err().starts_with("Invalid regex '(': "));
}

#[test]
fn lexer_errors_are_reported() {
    assert_eq!(parse_grammar("rule = \"abc").unwrap_err(), "Unterminated string literal");
    assert_eq!(parse_grammar("rule = 名詞$x ;").unwrap_err(), "Expected digit after '$', got Some('x')");
}

#[test]
fn captures_and_back_references() {
    let grammar = parse_grammar(r#"rep = 動詞$1 _ 動詞@=$1 | _$2 _@=$2 ;"#).unwrap();
    assert!(grammar.rules[0].uses_captures);
    match &grammar.rules[0].pattern {
        PatternExpr::Alternative(alts) => {
            match &alts[0] {
                PatternExpr::Sequence(items) => {
                    assert!(matches!(&items[0], PatternExpr::Token(p) if p.capture == Some(1)));
                    assert!(matches!(&items[1], PatternExpr::Wildcard));
                    assert!(matches!(&items[2], PatternExpr::Token(p) if p.base_form_ref == Some(1)));
                },
                _ => panic!("Expected Sequence"),
            }
            match &alts[1] {
                PatternExpr::Sequence(items) => {
                    assert!(matches!(&items[0], PatternExpr::WildcardCapture(2)));
                    assert!(matches!(&items[1], PatternExpr::Token(p) if p.base_form_ref == Some(2)));
                },
                _ => panic!("Expected Sequence"),
            }
        },
        _ => panic!("Expected Alternative"),
    }
    let plain = parse_grammar(r#"plain = 名詞 ;"#).unwrap();
    assert!(!plain.rules[0].uses_captures);
}
