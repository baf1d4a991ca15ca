use heshun::dict::{encode_code, Dict};
use heshun::engine::{Engine, FeedResult, SchemaKind};
use heshun::pinyin::PinyinDict;
use heshun::punctuator::Punctuator;
use heshun::reverse_lookup::ReverseLookup;
use heshun::user_dict::UserDict;

fn table_engine() -> Engine {
    Engine::new(SchemaKind::Table {
        dict: Dict::from_entries(vec![
            (encode_code("j").unwrap(), "中".into()),
            (encode_code("ji").unwrap(), "虫".into()),
            (encode_code("jiv").unwrap(), "虽".into()),
            (encode_code("jivv").unwrap(), "中".into()),
            (encode_code("aa").unwrap(), "一下".into()),
        ]),
        max_code_len: 4,
        auto_select: true,
        auto_select_pattern: None,
    })
}

#[test]
fn table_auto_commit_unique_4code() {
    let e = table_engine();
    let mut s = e.session();
    assert_eq!(s.feed('j'), FeedResult::Waiting);
    assert_eq!(s.feed('i'), FeedResult::Waiting);
    assert_eq!(s.feed('v'), FeedResult::Waiting);
    assert_eq!(s.feed('v'), FeedResult::Committed("中".into()));
}

#[test]
fn table_invalid_4th_key_rejected() {
    let e = table_engine();
    let mut s = e.session();
    for c in ['j', 'i', 'v'] {
        s.feed(c);
    }
    assert_eq!(s.feed('z'), FeedResult::Rejected);
    assert_eq!(s.pending(), "jiv");
}

#[test]
fn table_select_and_space() {
    let e = table_engine();
    let mut s = e.session();
    s.feed('j');
    assert_eq!(s.candidates(0).len(), 4);
    assert_eq!(s.select(2), Some("虫".into()));
    assert!(s.pending().is_empty());
}

fn script_engine() -> Engine {
    Engine::new(SchemaKind::Script {
        dict: PinyinDict::from_entries(vec![
            ("wo".into(), "我".into(), 100),
            ("zhong".into(), "中".into(), 100),
            ("zhong".into(), "钟".into(), 80),
            ("zhong guo".into(), "中国".into(), 95),
            ("guo".into(), "国".into(), 90),
            ("guo".into(), "过".into(), 70),
        ]),
    })
}

#[test]
fn script_basic_input() {
    let e = script_engine();
    let mut s = e.session();
    assert_eq!(s.feed('w'), FeedResult::Waiting);
    assert_eq!(s.feed('o'), FeedResult::Waiting);
    let cands = s.candidates(5);
    assert!(!cands.is_empty(), "应有候选");
    assert!(cands.iter().any(|c| c.word == "我"));
    let w = s.select_first();
    assert_eq!(w, Some("我".into()));
    assert!(s.pending().is_empty());
}

#[test]
fn script_composition() {
    let e = script_engine();
    let mut s = e.session();
    for c in "zhonggu".chars() {
        s.feed(c);
    }
    let cands = s.candidates(5);
    assert!(!cands.is_empty());
    s.clear();
    assert!(s.pending().is_empty());
}

#[test]
fn script_invalid_key_rejected() {
    let e = script_engine();
    let mut s = e.session();
    s.feed('w');
    assert_eq!(s.pending(), "w");
    assert_eq!(s.feed('x'), FeedResult::Rejected);
    assert_eq!(s.pending(), "w");
}

#[test]
fn backspace_and_clear_unified() {
    let e = script_engine();
    let mut s = e.session();
    s.feed('w');
    s.feed('o');
    assert!(s.backspace());
    assert_eq!(s.pending(), "w");
    s.clear();
    assert_eq!(s.pending(), "");
}

#[test]
fn table_non_letter_is_rejected_and_flush_commits_pending() {
    let e = table_engine();
    let mut s = e.session();
    assert_eq!(s.feed('1'), FeedResult::Rejected);
    s.feed('a');
    assert_eq!(s.flush(), Some("a".to_string()));
    assert_eq!(s.pending(), "");
    assert_eq!(s.flush(), None);
}

#[test]
fn ascii_mode_passes_keys_through() {
    let e = table_engine();
    let mut s = e.session();
    s.set_ascii_mode(true);
    assert_eq!(s.feed('j'), FeedResult::Committed("j".into()));
    assert_eq!(s.pending(), "");
}

#[test]
fn punctuation_commits_full_width_mark() {
    let e = table_engine().with_punctuator(Punctuator::new());
    let mut s = e.session();
    assert_eq!(s.feed(','), FeedResult::Committed("，".into()));
}

#[test]
fn selection_is_learned_into_user_dict() {
    let mut e = script_engine().with_user_dict(UserDict::new());
    let learned = {
        let mut s = e.session();
        s.feed('z');
        s.feed('h');
        s.feed('o');
        s.feed('n');
        s.feed('g');
        assert_eq!(s.select_word("钟"), Some("钟".into()));
        s.take_learned()
    };
    e.learn_all(&learned);
    assert_eq!(e.user_dict.as_ref().unwrap().count("zhong", "钟"), 1);
    let mut s = e.session();
    for c in "zhong".chars() {
        s.feed(c);
    }
    assert_eq!(s.candidates(5)[0].word, "钟");
}

#[test]
fn reverse_lookup_shows_pinyin_candidates() {
    let rl = ReverseLookup::new(
        PinyinDict::from_entries(vec![("zhong".into(), "中".into(), 100)]),
        '`',
    );
    let e = table_engine().with_reverse_lookup(rl);
    let mut s = e.session();
    s.feed('`');
    assert!(s.in_reverse_mode());
    for c in "zhong".chars() {
        s.feed(c);
    }
    let cands = s.candidates(5);
    assert!(cands.iter().any(|c| c.word == "中"));
}

#[test]
fn user_dict_path_is_kept() {
    let e = table_engine().with_user_dict_path("a/b.json".to_string());
    assert_eq!(e.user_dict_path(), Some("a/b.json"));
    assert!(e.is_table());
}

#[test]
fn learn_all_adds_each_selection_in_order() {
    let mut e = script_engine().with_user_dict(UserDict::new());
    let learned: Vec<(String, String)> = vec![
        ("zhong".into(), "钟".into()),
        ("zhong".into(), "中".into()),
        ("zhong".into(), "钟".into()),
    ];
    e.learn_all(&learned);
    let ud = e.user_dict.as_ref().unwrap();
    assert_eq!(ud.count("zhong", "钟"), 2);
    assert_eq!(ud.count("zhong", "中"), 1);
    let mut plain = script_engine();
    plain.learn_all(&learned);
    assert!(plain.user_dict.is_none());
}

#[test]
fn backspace_removes_the_last_character_wherever_the_caret_is() {
    let e = script_engine();
    let mut s = e.session();
    s.restore_state_at("wo".to_string(), Vec::new(), 0);
    assert!(s.backspace());
    assert_eq!(s.pending(), "w");
    assert!(s.backspace());
    assert!(!s.backspace());
    assert_eq!(s.pending(), "");
}

#[test]
fn select_numbers_candidates_as_listed() {
    let e = script_engine();
    let mut s = e.session();
    for c in "zhong".chars() {
        s.feed(c);
    }
    let listed: Vec<String> = s.candidates(0).into_iter().map(|c| c.word).collect();
    assert!(listed.len() >= 3);
    let third = listed[2].clone();
    assert_eq!(s.select(3), Some(third));
    assert_eq!(s.pending(), "");
}

#[test]
fn feed_with_the_caret_past_the_buffer_clamps_it() {
    let e = script_engine();
    let mut s = e.session();
    s.restore_state_at("w".to_string(), Vec::new(), 1);
    *s.buf_mut() = String::new();
    assert_eq!(s.feed('w'), FeedResult::Waiting);
    assert_eq!(s.pending(), "w");
    assert_eq!(s.cursor(), 1);
}
