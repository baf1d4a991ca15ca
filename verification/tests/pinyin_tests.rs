use heshun::pinyin::{normalize_pinyin, PinyinDict};

fn sample() -> PinyinDict {
    PinyinDict::from_entries(vec![
        ("zhong".into(), "中".into(), 100),
        ("zhong".into(), "钟".into(), 80),
        ("zhong".into(), "忠".into(), 60),
        ("zhong guo".into(), "中国".into(), 95),
        ("guo".into(), "国".into(), 90),
        ("guo".into(), "过".into(), 70),
        ("wo".into(), "我".into(), 100),
    ])
}

#[test]
fn normalize() {
    assert_eq!(normalize_pinyin("zhong guo"), "zhongguo");
    assert_eq!(normalize_pinyin("zhong'guo"), "zhongguo");
}

#[test]
fn exact_lookup_sorted_by_weight() {
    let d = sample();
    let c = d.exact("zhong");
    assert_eq!(c.len(), 3);
    assert_eq!(c[0].word, "中");
    assert_eq!(c[1].word, "钟");
    assert_eq!(c[0].weight, 100);
    let china = d.exact("zhong guo");
    assert_eq!(china.len(), 1);
    assert_eq!(china[0].word, "中国");
}

#[test]
fn exact_missing() {
    let d = sample();
    assert!(d.exact("xx").is_empty());
}

#[test]
fn prefix_lookup() {
    let d = sample();
    let p = d.prefix("zhong");
    assert!(!p.is_empty());
    assert!(p.iter().any(|c| c.word == "中"));
}

#[test]
fn prefix_lookup_stops_at_next_code() {
    let d = PinyinDict::from_entries(vec![
        ("ni".into(), "你".into(), 100),
        ("nihao".into(), "你好".into(), 100),
        ("nian".into(), "年".into(), 100),
        ("nj".into(), "错误边界".into(), 100),
    ]);
    let words: Vec<_> = d.prefix("ni").into_iter().map(|c| c.word).collect();
    assert_eq!(words, vec!["你", "年", "你好"]);
    assert!(!words.iter().any(|w| *w == "错误边界"));
}

#[test]
fn matches_prefix_for_composition() {
    let d = sample();
    let m = d.matches_prefix("zhongguo");
    assert!(m.iter().any(|(len, c)| *len == 5 && c.word == "中"));
    assert!(m.iter().any(|(len, c)| *len == 8 && c.word == "中国"));
}

#[test]
fn pinyin_save_load_roundtrip() {
    let d = sample();
    let mut buf = Vec::new();
    d.save(&mut buf).unwrap();
    let d2 = PinyinDict::load(&buf).unwrap();
    assert_eq!(d2.entry_count(), 7);
    let c = d2.exact("guo");
    assert_eq!(c[0].word, "国");
    assert_eq!(c[0].weight, 90);
    let china = d2.exact("zhong guo");
    assert_eq!(china[0].word, "中国");
}

#[test]
fn exact_limited_keeps_heaviest() {
    let d = sample();
    let c = d.exact_limited("zhong", 2);
    assert_eq!(c.len(), 2);
    assert_eq!(c[0].word, "中");
    assert_eq!(c[1].word, "钟");
    assert_eq!(d.exact_limited("zhong", 0).len(), 3);
}

#[test]
fn matches_prefix_is_sorted_by_weight() {
    let d = sample();
    let m = d.matches_prefix("zhongguo");
    let weights: Vec<u32> = m.iter().map(|(_, c)| c.weight).collect();
    assert_eq!(weights, vec![100, 95, 80, 60]);
}

#[test]
fn has_code_and_completion_codes() {
    let d = sample();
    assert!(d.has_code("zhong"));
    assert!(d.has_code("zhong guo"));
    assert!(!d.has_code("zhon"));
    let codes: Vec<String> = d.completion_codes("zh").into_iter().map(|v| v.into_iter().collect()).collect();
    assert_eq!(codes, vec!["zhong".to_string(), "zhongguo".to_string()]);
}

#[test]
fn abbreviation_codes_expand_initials() {
    let d = sample();
    let codes: Vec<String> = d.abbreviation_codes("zg").into_iter().map(|v| v.into_iter().collect()).collect();
    assert_eq!(codes, vec!["zhongguo".to_string()]);
}

#[test]
fn load_rejects_garbage() {
    assert!(PinyinDict::load(b"nope").is_err());
    let d = sample();
    let mut buf = Vec::new();
    d.save(&mut buf).unwrap();
    assert!(PinyinDict::load(&buf[..buf.len() - 3]).is_err());
}

#[test]
fn save_load_roundtrip_keeps_double_pinyin_map() {
    let alg = heshun::algebra::Algebra::natural_code();
    let d = sample().with_zrm(heshun::zrm::ZrmMap::build(&["zhong".to_string(), "guo".to_string()], &alg));
    let mut buf = Vec::new();
    d.save(&mut buf).unwrap();
    let d2 = PinyinDict::load(&buf).unwrap();
    assert_eq!(d2.entry_count(), 7);
    assert_eq!(d2.zrm().unwrap().lookup("vs"), Some("zhong"));
    assert_eq!(d2.exact("wo")[0].word, "我");
}

#[test]
fn matches_prefix_lengths_count_bytes() {
    let d = PinyinDict::from_entries(vec![
        ("lü".into(), "绿".into(), 50),
        ("l".into(), "了".into(), 10),
    ]);
    let m = d.matches_prefix("lüse");
    assert_eq!(m.len(), 2);
    assert_eq!(m[0].0, 3);
    assert_eq!(m[0].1.word, "绿");
    assert_eq!(m[1].0, 1);
}

#[test]
fn pinyin_load_sorts_records_written_out_of_order() {
    let d = sample();
    let mut buf = Vec::new();
    d.save(&mut buf).unwrap();
    let mut swapped = buf.clone();
    for k in 0..16 {
        swapped[16 + k] = buf[16 + 6 * 16 + k];
        swapped[16 + 6 * 16 + k] = buf[16 + k];
    }
    let d2 = PinyinDict::load(&swapped).unwrap();
    assert_eq!(d2.entry_count(), 7);
    assert_eq!(d2.exact("guo")[0].word, "国");
    assert_eq!(d2.exact("zhong guo")[0].word, "中国");
    assert_eq!(d2.exact("zhong")[0].word, "中");
}
