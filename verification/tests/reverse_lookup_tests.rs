use heshun::pinyin::PinyinDict;
use heshun::reverse_lookup::ReverseLookup;

#[test]
fn basic() {
    let d = PinyinDict::from_entries(vec![
        ("zhong".into(), "中".into(), 100),
        ("zhong".into(), "钟".into(), 80),
    ]);
    let rl = ReverseLookup::new(d, '`');
    assert_eq!(rl.prefix(), '`');
    assert_eq!(rl.dict().exact("zhong").len(), 2);
}
