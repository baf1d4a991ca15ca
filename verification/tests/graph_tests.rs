use heshun::pinyin::PinyinDict;
use heshun::segmentation::{SpellingType, SyllableGraph};
use heshun::user_dict::UserDict;
use heshun::word_graph::{build_word_graph, build_word_graph_with_user};

fn dict() -> PinyinDict {
    PinyinDict::from_entries(vec![
        ("zhong".into(), "中".into(), 100),
        ("guo".into(), "国".into(), 90),
        ("zhong guo".into(), "中国".into(), 95),
    ])
}

#[test]
fn graph_contains_short_and_long_paths() {
    let graph = SyllableGraph::build("zhongguo", &dict());
    assert!(graph.edges.iter().any(|e| e.code == "zhong" && e.end == 5));
    assert!(graph.edges.iter().any(|e| e.code == "zhongguo" && e.end == 8));
    assert_eq!(graph.interpreted_length, 8);
}

#[test]
fn graph_normalizes_delimiters_without_crossing_invalid_bytes() {
    let graph = SyllableGraph::build("zhong'guo", &dict());
    assert_eq!(graph.input, "zhongguo");
    assert!(graph.edges.iter().any(|e| e.code == "zhong"));
    assert!(!graph.edges.iter().any(|e| e.code == "zhongguo"));
}

#[test]
fn graph_records_original_ranges_and_only_reachable_paths() {
    let graph = SyllableGraph::build("zhong'guo", &dict());
    let zhong = graph.edges.iter().find(|e| e.code == "zhong").unwrap();
    assert_eq!(graph.original_input, "zhong'guo");
    assert_eq!(zhong.properties.original_start, 0);
    assert_eq!(zhong.properties.original_end, 5);

    let unreachable = SyllableGraph::build("xzhongguo", &dict());
    assert_eq!(unreachable.interpreted_length, 0);
}

#[test]
fn graph_can_add_abbreviation_edges() {
    let graph = SyllableGraph::build_with_options("zg", &dict(), true);
    assert!(graph
        .edges
        .iter()
        .any(|edge| edge.code == "zhongguo" && edge.properties.spelling_type == SpellingType::Abbreviation));
}

#[test]
fn graph_can_add_completion_edges() {
    let graph = SyllableGraph::build("zhon", &dict());
    assert!(graph
        .edges
        .iter()
        .any(|edge| edge.code == "zhong" && edge.properties.spelling_type == SpellingType::Completion));
}

#[test]
fn graph_completes_tail_after_multiple_syllables() {
    let dict = PinyinDict::from_entries(vec![
        ("wo".into(), "我".into(), 100),
        ("ai".into(), "爱".into(), 100),
        ("ni".into(), "你".into(), 100),
        ("zhong".into(), "中".into(), 100),
    ]);
    let graph = SyllableGraph::build("woainizhon", &dict);
    assert_eq!(graph.interpreted_length, "woainizhon".len());
    assert!(graph.edges.iter().any(|edge| {
        edge.start == 6
            && edge.end == 10
            && edge.code == "zhong"
            && edge.properties.spelling_type == SpellingType::Completion
    }));
}

#[test]
fn graph_edges_are_sorted_and_unique() {
    let graph = SyllableGraph::build("zhongguo", &dict());
    let keys: Vec<(usize, usize, String)> = graph.edges.iter().map(|e| (e.start, e.end, e.code.clone())).collect();
    let mut sorted = keys.clone();
    sorted.sort();
    sorted.dedup();
    assert_eq!(keys, sorted);
    assert_eq!(
        keys,
        vec![(0, 5, "zhong".to_string()), (0, 8, "zhongguo".to_string()), (5, 8, "guo".to_string())]
    );
    assert_eq!(graph.edges_from(5).len(), 1);
    assert_eq!(graph.edges_from(5)[0].code, "guo");
}

#[test]
fn learned_phrase_is_added_as_a_graph_edge() {
    let dict = PinyinDict::from_entries(vec![("zhong".into(), "中".into(), 100)]);
    let mut user = UserDict::new();
    user.learn("zhong", "钟");
    let edges = build_word_graph_with_user("zhong", &dict, Some(&user), 8);
    assert!(edges.iter().any(|edge| edge.word == "钟"));
}

#[test]
fn word_graph_lays_words_over_syllable_edges() {
    let edges = build_word_graph("zhongguo", &dict(), 8);
    let words: Vec<(usize, usize, &str, u32)> =
        edges.iter().map(|e| (e.start, e.end, e.word.as_str(), e.weight)).collect();
    assert_eq!(words, vec![(0, 5, "中", 100), (0, 8, "中国", 95), (5, 8, "国", 90)]);
}

#[test]
fn learned_word_already_on_the_span_is_not_repeated() {
    let dict = PinyinDict::from_entries(vec![("zhong".into(), "中".into(), 100)]);
    let mut user = UserDict::new();
    user.learn("zhong", "中");
    let edges = build_word_graph_with_user("zhong", &dict, Some(&user), 8);
    assert_eq!(edges.len(), 1);
    let plain = build_word_graph_with_user("zhong", &dict, None, 8);
    assert_eq!(plain.len(), 1);
}

#[test]
fn every_edge_starts_at_zero_or_where_another_ends() {
    for input in ["zhongguo", "zhong'guo", "zhonggu", "guozhong"] {
        let graph = SyllableGraph::build(input, &dict());
        for e in &graph.edges {
            assert!(e.start == 0 || graph.edges.iter().any(|h| h.end == e.start), "{input}: {}", e.code);
        }
        for w in graph.edges.windows(2) {
            assert!((w[0].start, w[0].end, &w[0].code) < (w[1].start, w[1].end, &w[1].code));
        }
    }
}
