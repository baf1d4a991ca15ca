use heshun::history::{CommitHistory, CommitRecord};

#[test]
fn history_is_bounded_and_reversible() {
    let mut history = CommitHistory::new(2);
    for text in ["一", "二", "三"] {
        history.push(CommitRecord { text: text.into(), code: "a".into(), learned: true });
    }
    assert_eq!(history.len(), 2);
    assert_eq!(history.last().unwrap().text, "三");
    assert_eq!(history.pop().unwrap().text, "三");
}

#[test]
fn history_pop_restores_previous_last() {
    let mut history = CommitHistory::new(3);
    assert!(history.is_empty());
    assert!(history.pop().is_none());
    history.push(CommitRecord { text: "一".into(), code: "a".into(), learned: false });
    history.push(CommitRecord { text: "二".into(), code: "b".into(), learned: true });
    assert_eq!(history.pop().unwrap().text, "二");
    assert_eq!(history.last().unwrap().text, "一");
    assert_eq!(history.len(), 1);
}

#[test]
fn history_limit_zero_keeps_one() {
    let mut history = CommitHistory::new(0);
    history.push(CommitRecord { text: "一".into(), code: "a".into(), learned: false });
    history.push(CommitRecord { text: "二".into(), code: "a".into(), learned: false });
    assert_eq!(history.len(), 1);
    assert_eq!(history.last().unwrap().text, "二");
}
