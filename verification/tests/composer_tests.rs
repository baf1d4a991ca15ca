use heshun::composer::compose;
use heshun::pinyin::PinyinDict;

fn sample_dict() -> PinyinDict {
    PinyinDict::from_entries(vec![
        ("zhong".into(), "中".into(), 100),
        ("zhong".into(), "钟".into(), 80),
        ("zhong".into(), "忠".into(), 60),
        ("zhong guo".into(), "中国".into(), 95),
        ("zhong guo ren".into(), "中国人".into(), 90),
        ("guo".into(), "国".into(), 90),
        ("guo".into(), "过".into(), 70),
        ("guo jia".into(), "国家".into(), 85),
        ("ren".into(), "人".into(), 100),
        ("ren".into(), "仁".into(), 50),
        ("wo".into(), "我".into(), 100),
    ])
}

#[test]
fn compose_single_syllable() {
    let d = sample_dict();
    let result = compose("wo", &d, 5);
    assert!(!result.is_empty());
    assert_eq!(result[0].words, vec!["我"]);
}

#[test]
fn compose_multi_syllable() {
    let d = sample_dict();
    let result = compose("zhongguo", &d, 9);
    assert!(!result.is_empty());
    assert_eq!(result[0].words, vec!["中", "国"]);
    assert!(result[0].score >= 190);
    let has_china = result.iter().any(|c| c.words == vec!["中国"]);
    assert!(has_china, "应包含 '中国' 候选");
}

#[test]
fn compose_three_syllables() {
    let d = sample_dict();
    let result = compose("zhongguoren", &d, 20);
    assert!(!result.is_empty());
    assert_eq!(result[0].words, vec!["中", "国", "人"]);
    assert!(result.iter().any(|c| c.words == vec!["中国人"]));
}

#[test]
fn compose_empty() {
    let d = sample_dict();
    assert!(compose("", &d, 5).is_empty());
    assert!(compose("xx", &d, 5).is_empty());
}

#[test]
fn compose_long_input_is_bounded() {
    let d = sample_dict();
    let input = "a".repeat(65);
    assert!(compose(&input, &d, 9).is_empty());
}

#[test]
fn compose_scores_sum_weights_and_sort_descending() {
    let d = sample_dict();
    let result = compose("zhongguo", &d, 9);
    assert_eq!(result[0].score, 190);
    for pair in result.windows(2) {
        assert!(pair[0].score >= pair[1].score);
    }
    assert!(result.len() <= 9);
}

#[test]
fn compose_respects_result_limit() {
    let d = sample_dict();
    let result = compose("zhongguo", &d, 1);
    assert_eq!(result.len(), 1);
    assert_eq!(result[0].words, vec!["中", "国"]);
}

#[test]
fn compose_lists_every_cut_when_the_limit_is_not_reached() {
    let d = sample_dict();
    let result = compose("zhongguo", &d, 20);
    assert_eq!(result.len(), 7);
    let sentences: Vec<String> = result.iter().map(|c| c.words.join("+")).collect();
    for s in ["中+国", "中+过", "钟+国", "钟+过", "忠+国", "忠+过", "中国"] {
        assert!(sentences.contains(&s.to_string()), "missing {s}");
    }
    assert_eq!(result[0].score, 190);
    let two = compose("zhongguo", &d, 2);
    assert_eq!(two.len(), 2);
    assert_eq!(two[0].words, vec!["中", "国"]);
    assert_eq!(two[1].score, 170);
}
