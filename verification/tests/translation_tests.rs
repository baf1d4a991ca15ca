use heshun::engine::Candidate;
use heshun::runtime::CandidateSource;
use heshun::translation::{distinct, FifoTranslation, Translation};

fn candidate(word: &str, source: CandidateSource) -> Candidate {
    Candidate { word: word.into(), code: "a".into(), source }
}

#[test]
fn distinct_removes_duplicates_across_sources() {
    let items = distinct(
        vec![
            candidate("中", CandidateSource::ScriptExact),
            candidate("中", CandidateSource::ScriptSentence),
            candidate("国", CandidateSource::ScriptExact),
        ],
        0,
    );
    assert_eq!(items.iter().map(|c| c.word.as_str()).collect::<Vec<_>>(), vec!["中", "国"]);
}

#[test]
fn distinct_keeps_first_source_and_limit() {
    let items = distinct(
        vec![
            candidate("中", CandidateSource::ScriptSentence),
            candidate("中", CandidateSource::ScriptExact),
            candidate("国", CandidateSource::ScriptExact),
            candidate("人", CandidateSource::ScriptExact),
        ],
        2,
    );
    assert_eq!(items.len(), 2);
    assert_eq!(items[0].source, CandidateSource::ScriptSentence);
    assert_eq!(items[1].word, "国");
}

#[test]
fn fifo_translation_yields_in_order() {
    let mut t = FifoTranslation::new(vec![candidate("中", CandidateSource::Table), candidate("国", CandidateSource::Table)]);
    assert!(!t.exhausted());
    assert_eq!(t.peek().unwrap().word, "中");
    assert!(t.next());
    assert_eq!(t.peek().unwrap().word, "国");
    assert!(!t.next());
    assert!(t.peek().is_none());
    assert!(!t.next());
    assert!(t.exhausted());
}
