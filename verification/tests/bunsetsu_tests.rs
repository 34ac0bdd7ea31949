use mecab_grammar::bunsetsu::{bunsetsu_of, same_bunsetsu, segment_bunsetsu, Bunsetsu};
use mecab_grammar::node::MecabNode;

fn make_node(surface: &str, feature: &str) -> MecabNode {
    MecabNode::new(surface.to_string(), feature.to_string())
}

#[test]
fn test_basic_bunsetsu() {
    // 私は学生です。
    let nodes = vec![
        make_node("私", "名詞,代名詞,一般,*,*,*,私,ワタシ,ワタシ"),
        make_node("は", "助詞,係助詞,*,*,*,*,は,ハ,ワ"),
        make_node("学生", "名詞,一般,*,*,*,*,学生,ガクセイ,ガクセイ"),
        make_node("です", "助動詞,*,*,*,特殊・デス,基本形,です,デス,デス"),
        make_node("。", "記号,句点,*,*,*,*,。,。,。"),
    ];
    let chunks = segment_bunsetsu(&nodes);
    assert_eq!(chunks.len(), 2); // 私は | 学生です
    assert_eq!(chunks[0].start, 0);
    assert_eq!(chunks[0].end, 2);
    assert_eq!(chunks[1].start, 2);
    assert_eq!(chunks[1].end, 4);
}

#[test]
fn test_same_bunsetsu() {
    let nodes = vec![
        make_node("食べ", "動詞,自立,*,*,一段,連用形,食べる,タベ,タベ"),
        make_node("て", "助詞,接続助詞,*,*,*,*,て,テ,テ"),
        make_node("いる", "動詞,非自立,*,*,一段,基本形,いる,イル,イル"),
    ];
    let chunks = segment_bunsetsu(&nodes);
    // 食べている is one bunsetsu (非自立 doesn't start a new one)
    assert_eq!(chunks.len(), 1);
    assert!(same_bunsetsu(&chunks, 0, 2));
}

#[test]
fn punctuation_belongs_to_no_bunsetsu() {
    let nodes = vec![
        make_node("私", "名詞,代名詞,一般,*,*,*,私,ワタシ,ワタシ"),
        make_node("、", "記号,読点,*,*,*,*,、,、,、"),
        make_node("は", "助詞,係助詞,*,*,*,*,は,ハ,ワ"),
    ];
    let chunks = segment_bunsetsu(&nodes);
    // the particle after punctuation opens a bunsetsu of its own
    assert_eq!(chunks.len(), 2);
    assert_eq!((chunks[0].start, chunks[0].end, chunks[0].head), (0, 1, 0));
    assert_eq!((chunks[1].start, chunks[1].end, chunks[1].head), (2, 3, 2));
    assert_eq!(bunsetsu_of(&chunks, 1), None);
    assert_eq!(bunsetsu_of(&chunks, 2), Some(1));
    assert_eq!(bunsetsu_of(&chunks, 7), None);
    assert!(!same_bunsetsu(&chunks, 0, 2));
    assert!(!same_bunsetsu(&chunks, 1, 1));
}

#[test]
fn content_words_start_bunsetsu() {
    let nodes = vec![
        make_node("とても", "副詞,助詞類接続,*,*,*,*,とても,トテモ,トテモ"),
        make_node("大きい", "形容詞,自立,*,*,形容詞・イ段,基本形,大きい,オオキイ,オーキイ"),
        make_node("家", "名詞,一般,*,*,*,*,家,イエ,イエ"),
        make_node("さん", "名詞,接尾,人名,*,*,*,さん,サン,サン"),
    ];
    let chunks = segment_bunsetsu(&nodes);
    assert_eq!(chunks.len(), 3);
    assert_eq!((chunks[2].start, chunks[2].end), (2, 4));
}

#[test]
fn empty_stream_has_no_bunsetsu() {
    let nodes: Vec<MecabNode> = Vec::new();
    let chunks = segment_bunsetsu(&nodes);
    assert!(chunks.is_empty());
    let manual = vec![Bunsetsu { start: 0, end: 2, head: 0 }, Bunsetsu { start: 2, end: 3, head: 2 }];
    assert!(same_bunsetsu(&manual, 0, 1));
    assert!(!same_bunsetsu(&manual, 1, 2));
}
