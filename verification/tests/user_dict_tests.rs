use heshun::engine::Candidate;
use heshun::runtime::CandidateSource;
use heshun::user_dict::UserDict;

fn cand(word: &str) -> Candidate {
    Candidate { word: word.into(), code: "zhong".into(), source: CandidateSource::ScriptExact }
}

#[test]
fn learn_and_count() {
    let mut ud = UserDict::new();
    ud.learn("jivv", "中");
    ud.learn("jivv", "中");
    ud.learn("jivv", "虽");
    assert_eq!(ud.count("jivv", "中"), 2);
    assert_eq!(ud.count("jivv", "虽"), 1);
    assert_eq!(ud.count("zzzz", "断"), 0);
}

#[test]
fn words_for_sorted() {
    let mut ud = UserDict::new();
    ud.learn("zhong", "中");
    ud.learn("zhong", "钟");
    ud.learn("zhong", "钟");
    let w = ud.words_for("zhong");
    assert_eq!(w[0], ("钟".to_string(), 2));
    assert_eq!(w[1], ("中".to_string(), 1));
}

#[test]
fn reorder_candidates_promotes_learned_word() {
    let mut ud = UserDict::new();
    ud.learn("zhong", "钟");
    ud.learn("zhong", "钟");
    let mut candidates = vec![cand("中"), cand("钟")];
    ud.reorder_candidates("zhong", &mut candidates);
    assert_eq!(candidates[0].word, "钟");
}

#[test]
fn user_dict_counts_roundtrip_through_entries() {
    let mut ud = UserDict::new();
    ud.learn("aa", "一下");
    ud.learn("aa", "一下");
    let items: Vec<(String, String, u32)> =
        ud.entries().iter().map(|e| (e.code.clone(), e.word.clone(), e.count)).collect();
    let ud2 = UserDict::from_counts(items);
    assert_eq!(ud2.count("aa", "一下"), 2);
}

#[test]
fn forget_removes_a_word() {
    let mut ud = UserDict::new();
    ud.learn("zhong", "钟");
    assert!(ud.forget("zhong", "钟"));
    assert!(!ud.forget("zhong", "钟"));
    assert_eq!(ud.count("zhong", "钟"), 0);
    assert!(!ud.has_code("zhong"));
    assert!(ud.is_empty());
}

#[test]
fn rollback_restores_the_state_at_begin() {
    let mut ud = UserDict::new();
    ud.learn("zhong", "中");
    ud.begin_transaction();
    ud.learn("zhong", "钟");
    ud.rollback_transaction();
    assert_eq!(ud.count("zhong", "钟"), 0);
    assert_eq!(ud.count("zhong", "中"), 1);
}

#[test]
fn failed_commit_rolls_back_once() {
    let mut ud = UserDict::new();
    ud.fail_next_commit_once();
    ud.begin_transaction();
    ud.learn("zhong", "钟");
    assert!(!ud.commit_transaction());
    ud.rollback_transaction();
    assert_eq!(ud.count("zhong", "钟"), 0);
    ud.begin_transaction();
    ud.learn("zhong", "钟");
    assert!(ud.commit_transaction());
    assert_eq!(ud.count("zhong", "钟"), 1);
}

#[test]
fn composition_words_match_words_for() {
    let mut ud = UserDict::new();
    ud.learn("zhong", "中");
    ud.learn("zhong", "钟");
    ud.learn("zhong", "钟");
    assert_eq!(ud.composition_words("zhong"), ud.words_for("zhong"));
}

#[test]
fn forget_after_learn_restores_counts() {
    let mut ud = UserDict::new();
    ud.learn("zhong", "中");
    ud.learn("zhong", "钟");
    ud.learn("zhong", "钟");
    assert!(ud.forget("zhong", "钟"));
    assert_eq!(ud.count("zhong", "钟"), 1);
    assert_eq!(ud.count("zhong", "中"), 1);
}

#[test]
fn from_counts_adds_up_repeated_pairs_and_drops_zero_counts() {
    let items: Vec<(String, String, u32)> = vec![
        ("aa".into(), "一".into(), 2),
        ("bb".into(), "二".into(), 0),
        ("aa".into(), "一".into(), 3),
        ("aa".into(), "丁".into(), u32::MAX),
        ("aa".into(), "丁".into(), 5),
    ];
    let ud = UserDict::from_counts(items);
    assert_eq!(ud.count("aa", "一"), 5);
    assert_eq!(ud.count("bb", "二"), 0);
    assert!(!ud.has_code("bb"));
    assert_eq!(ud.count("aa", "丁"), u32::MAX);
}
