use heshun::dict::{encode_code, Dict};
use heshun::engine::{Engine, SchemaKind};
use heshun::pinyin::PinyinDict;
use heshun::runtime::{
    CandidateKey, CandidateSource, CoreError, CoreRuntime, EngineStore, EventDisposition, InputEvent, Segment,
    MAX_SNAPSHOT_CANDIDATES,
};
use heshun::user_dict::UserDict;

fn store() -> EngineStore {
    let mut store = EngineStore::new();
    store.insert(
        "table",
        Engine::new(SchemaKind::Table {
            dict: Dict::from_entries(vec![
                (encode_code("a").unwrap(), "一".into()),
                (encode_code("ab").unwrap(), "丁".into()),
            ]),
            max_code_len: 4,
            auto_select: false,
            auto_select_pattern: None,
        }),
    );
    store.insert(
        "script",
        Engine::new(SchemaKind::Script {
            dict: PinyinDict::from_entries(vec![
                ("wo".into(), "我".into(), 100),
                ("zhong".into(), "中".into(), 100),
            ]),
        })
        .with_user_dict(UserDict::new()),
    );
    store
}

fn segment(input: &str, text: Option<&str>, confirmed: bool, cursor: usize, page_index: usize) -> Segment {
    Segment { input: input.into(), text: text.map(|t| t.to_string()), confirmed, cursor, page_index, selected: None }
}

#[test]
fn owned_runtime_switches_schema_without_borrowed_state() {
    let mut runtime = CoreRuntime::new(store(), "table").unwrap();
    runtime.set_preceding_text("前文");
    assert_eq!(runtime.preceding_text(), "前文");
    runtime.dispatch(InputEvent::Text('a'));
    assert_eq!(runtime.snapshot().status.schema, "table");
    let result = runtime.dispatch(InputEvent::SetSchema("script".into()));
    assert_eq!(result.error, None);
    assert_eq!(result.snapshot.status.schema, "script");
    assert!(result.snapshot.pending.is_empty());
}

#[test]
fn candidate_key_selects_the_displayed_candidate() {
    let mut runtime = CoreRuntime::new(store(), "script").unwrap();
    runtime.dispatch(InputEvent::Text('w'));
    runtime.dispatch(InputEvent::Text('o'));
    let page = runtime.snapshot().candidates;
    let first = page.items[0].clone();
    let result = runtime.dispatch(InputEvent::Select(first.key));
    assert_eq!(result.committed, Some(first.word));
    assert_eq!(runtime.commit_history().len(), 1);
    assert_eq!(runtime.commit_history().last().unwrap().text, "我");
    assert_eq!(runtime.confirmed_text(), "我");
}

#[test]
fn confirm_segment_keeps_confirmed_text_and_revert_restores_pending() {
    let mut runtime = CoreRuntime::new(store(), "script").unwrap();
    runtime.dispatch(InputEvent::Text('w'));
    runtime.dispatch(InputEvent::Text('o'));
    let result = runtime.dispatch(InputEvent::ConfirmSegment);
    assert_eq!(result.committed, None);
    assert_eq!(runtime.confirmed_text(), "我");
    assert!(runtime.state().pending.is_empty());
    assert!(runtime.dispatch(InputEvent::ReopenPreviousSegment).snapshot.pending == "wo");
    assert_eq!(runtime.confirmed_text(), "");
}

#[test]
fn script_snapshot_preserves_candidate_origins() {
    let mut store = EngineStore::new();
    store.insert(
        "script",
        Engine::new(SchemaKind::Script {
            dict: PinyinDict::from_entries(vec![
                ("zhong".into(), "中".into(), 100),
                ("guo".into(), "国".into(), 90),
            ]),
        }),
    );
    let mut runtime = CoreRuntime::new(store, "script").unwrap();
    for ch in "zhongguo".chars() {
        runtime.dispatch(InputEvent::Text(ch));
    }
    let page = runtime.snapshot().candidates;
    assert!(
        page.items.iter().any(|item| item.key.source == CandidateSource::ScriptSentence),
        "组句候选必须保留 ScriptSentence 来源"
    );
}

#[test]
fn unmatched_full_pinyin_remains_editable_without_old_candidates() {
    let mut runtime = CoreRuntime::new(store(), "script").unwrap();
    for ch in "wox".chars() {
        runtime.dispatch(InputEvent::Text(ch));
    }
    let snapshot = runtime.snapshot();
    assert_eq!(snapshot.pending, "wox");
    assert!(snapshot.candidates.items.is_empty());
    assert!(snapshot.status.composing);
}

#[test]
fn script_candidate_snapshot_has_a_bounded_total() {
    let mut store = EngineStore::new();
    let entries = (0..80u32).map(|i| ("a".to_string(), format!("候选{i}"), 80 - i)).collect();
    store.insert("script", Engine::new(SchemaKind::Script { dict: PinyinDict::from_entries(entries) }));
    let mut runtime = CoreRuntime::new(store, "script").unwrap();
    runtime.dispatch(InputEvent::Text('a'));
    let snapshot = runtime.snapshot();
    assert!(snapshot.candidates.total <= MAX_SNAPSHOT_CANDIDATES);
}

#[test]
fn long_full_pinyin_stays_editable_while_candidates_are_suppressed() {
    let mut runtime = CoreRuntime::new(store(), "script").unwrap();
    let input = "a".repeat(65);
    for ch in input.chars() {
        runtime.dispatch(InputEvent::Text(ch));
    }
    let snapshot = runtime.snapshot();
    assert_eq!(snapshot.pending, input);
    assert!(snapshot.candidates.items.is_empty());
    assert_eq!(snapshot.candidates.total, 0);
    assert!(snapshot.status.composing);
}

#[test]
fn invalid_candidate_key_preserves_composition() {
    let mut runtime = CoreRuntime::new(store(), "script").unwrap();
    for ch in "wo".chars() {
        runtime.dispatch(InputEvent::Text(ch));
    }
    let before = runtime.snapshot();
    let invalid = CandidateKey { source: CandidateSource::Table, ordinal: 999 };
    let result = runtime.dispatch(InputEvent::Select(invalid));
    assert_eq!(result.committed, None);
    assert_eq!(result.error, Some(CoreError::InvalidCandidate(invalid)));
    assert_eq!(result.snapshot.pending, before.pending);
    assert!(result.snapshot.status.composing);
}

#[test]
fn paged_candidate_key_selects_from_full_candidate_set() {
    let mut store = EngineStore::new();
    let entries = (0..20).map(|i| (encode_code("a").unwrap(), format!("字{i}"))).collect();
    store.insert(
        "table",
        Engine::new(SchemaKind::Table {
            dict: Dict::from_entries(entries),
            max_code_len: 4,
            auto_select: false,
            auto_select_pattern: None,
        }),
    );
    let mut runtime = CoreRuntime::new(store, "table").unwrap();
    runtime.dispatch(InputEvent::Text('a'));
    runtime.dispatch(InputEvent::Page(1));
    let page = runtime.snapshot().candidates;
    let target = page.items[0].clone();
    let result = runtime.dispatch(InputEvent::Select(target.key));
    assert_eq!(result.committed, Some(target.word));
}

#[test]
fn cursor_moves_and_inserts_at_middle() {
    let mut runtime = CoreRuntime::new(store(), "script").unwrap();
    for ch in "wox".chars() {
        runtime.dispatch(InputEvent::Text(ch));
    }
    assert_eq!(runtime.snapshot().cursor, 3);
    runtime.dispatch(InputEvent::MoveCursor(-2));
    assert_eq!(runtime.snapshot().cursor, 1);
    runtime.dispatch(InputEvent::Text('a'));
    assert_eq!(runtime.snapshot().pending, "waox");
    assert_eq!(runtime.snapshot().cursor, 2);
}

#[test]
fn cursor_backspace_deletes_before_cursor() {
    let mut runtime = CoreRuntime::new(store(), "script").unwrap();
    for ch in "wox".chars() {
        runtime.dispatch(InputEvent::Text(ch));
    }
    runtime.dispatch(InputEvent::MoveCursor(-1));
    runtime.dispatch(InputEvent::Backspace);
    assert_eq!(runtime.snapshot().pending, "wx");
    assert_eq!(runtime.snapshot().cursor, 1);
}

#[test]
fn cursor_backspace_at_middle_updates_segment_state() {
    let mut runtime = CoreRuntime::new(store(), "script").unwrap();
    for ch in "wox".chars() {
        runtime.dispatch(InputEvent::Text(ch));
    }
    runtime.dispatch(InputEvent::MoveCursor(-1));
    runtime.dispatch(InputEvent::Backspace);
    assert_eq!(runtime.snapshot().segments.last().unwrap().input, "wx");
}

#[test]
fn current_segment_can_move_and_delete() {
    let mut runtime = CoreRuntime::new(store(), "script").unwrap();
    for ch in "wo".chars() {
        runtime.dispatch(InputEvent::Text(ch));
    }
    runtime.dispatch(InputEvent::ConfirmSegment);
    for ch in "zhong".chars() {
        runtime.dispatch(InputEvent::Text(ch));
    }
    runtime.dispatch(InputEvent::ConfirmSegment);
    assert_eq!(runtime.current_segment_index(), 1);
    assert!(runtime.move_segment(-1));
    assert_eq!(runtime.current_segment_index(), 0);
    assert_eq!(runtime.current_segment().unwrap().input, "wo");
    assert!(runtime.delete_segment(0));
    assert_eq!(runtime.current_segment_index(), 0);
    assert_eq!(runtime.current_segment().unwrap().input, "zhong");
}

#[test]
fn current_segment_focuses_and_keeps_cursor() {
    let mut runtime = CoreRuntime::new(store(), "script").unwrap();
    for ch in "wox".chars() {
        runtime.dispatch(InputEvent::Text(ch));
    }
    runtime.dispatch(InputEvent::MoveCursor(-1));
    assert!(runtime.focus_segment(0));
    assert_eq!(runtime.snapshot().cursor, 2);
}

#[test]
fn current_segment_rejects_out_of_range_focus() {
    let mut runtime = CoreRuntime::new(store(), "script").unwrap();
    assert!(!runtime.focus_segment(1));
}

#[test]
fn current_segment_move_handles_empty_state() {
    let mut runtime = CoreRuntime::new(store(), "script").unwrap();
    assert!(!runtime.move_segment(1));
}

#[test]
fn commit_failure_rolls_back_user_dict_learning() {
    let mut store = store();
    {
        let mut engine = store.take("script").unwrap();
        engine.user_dict.as_mut().unwrap().fail_next_commit_once();
        store.insert("script", engine);
    }
    let mut runtime = CoreRuntime::new(store, "script").unwrap();
    for ch in "wo".chars() {
        runtime.dispatch(InputEvent::Text(ch));
    }
    let first = runtime.snapshot().candidates.items[0].clone();
    assert_eq!(runtime.dispatch(InputEvent::Select(first.key)).committed, Some(first.word));
    let engine = runtime.store().get("script").unwrap();
    assert_eq!(engine.user_dict.as_ref().unwrap().count("wo", "我"), 0);
}

#[test]
fn cursor_clamps_at_pending_boundaries() {
    let mut runtime = CoreRuntime::new(store(), "script").unwrap();
    runtime.dispatch(InputEvent::MoveCursor(-1));
    assert_eq!(runtime.snapshot().cursor, 0);
    for ch in "wo".chars() {
        runtime.dispatch(InputEvent::Text(ch));
    }
    runtime.dispatch(InputEvent::MoveCursor(99));
    assert_eq!(runtime.snapshot().cursor, 2);
}

#[test]
fn empty_candidate_command_preserves_pending() {
    let mut runtime = CoreRuntime::new(store(), "script").unwrap();
    for ch in "wox".chars() {
        runtime.dispatch(InputEvent::Text(ch));
    }
    let result = runtime.dispatch(InputEvent::Space);
    assert_eq!(result.committed, None);
    assert_eq!(result.disposition, EventDisposition::Consumed);
    assert_eq!(result.snapshot.pending, "wox");
    assert!(result.snapshot.status.composing);
}

#[test]
fn deleting_middle_segment_rebuilds_confirmed_text() {
    let mut runtime = CoreRuntime::new(store(), "script").unwrap();
    runtime.state.segments = vec![
        segment("a", Some("甲"), true, 0, 0),
        segment("b", Some("乙"), true, 0, 0),
        segment("c", Some("丙"), true, 0, 0),
    ];
    runtime.state.current_segment = 1;
    runtime.state.rebuild_confirmed_text();
    assert!(runtime.delete_segment(1));
    assert_eq!(runtime.confirmed_text(), "甲丙");
    assert_eq!(runtime.snapshot().segments.len(), 2);
}

#[test]
fn delete_at_cursor_removes_current_character_and_resets_menu() {
    let mut runtime = CoreRuntime::new(store(), "script").unwrap();
    for ch in "wox".chars() {
        runtime.dispatch(InputEvent::Text(ch));
    }
    runtime.dispatch(InputEvent::MoveCursor(-1));
    let result = runtime.dispatch(InputEvent::Delete);
    assert_eq!(result.snapshot.pending, "wo");
    assert_eq!(result.snapshot.cursor, 2);
    assert_eq!(result.snapshot.candidates.page_index, 0);
}

#[test]
fn cursor_moves_across_segment_boundaries() {
    let mut runtime = CoreRuntime::new(store(), "script").unwrap();
    runtime.state.segments = vec![segment("wo", None, false, 0, 0), segment("zhong", None, false, 0, 0)];
    runtime.state.current_segment = 1;
    runtime.focus_segment(1);
    runtime.dispatch(InputEvent::MoveCursor(-99));
    assert_eq!(runtime.current_segment_index(), 0);
    assert_eq!(runtime.snapshot().cursor, 2);
    runtime.dispatch(InputEvent::MoveCursor(99));
    assert_eq!(runtime.current_segment_index(), 1);
    assert_eq!(runtime.snapshot().cursor, 0);
}

#[test]
fn cross_segment_backspace_and_delete_update_segment_list() {
    let mut runtime = CoreRuntime::new(store(), "script").unwrap();
    runtime.state.segments = vec![segment("wo", None, false, 2, 0), segment("zhong", None, false, 0, 0)];
    runtime.state.current_segment = 1;
    runtime.focus_segment(1);
    runtime.dispatch(InputEvent::Backspace);
    assert_eq!(runtime.current_segment_index(), 0);
    assert_eq!(runtime.snapshot().pending, "w");
    runtime.state.current_segment = 0;
    runtime.state.pending = "wo".into();
    runtime.state.cursor = 2;
    runtime.dispatch(InputEvent::Delete);
    assert_eq!(runtime.snapshot().segments.len(), 1);
    assert_eq!(runtime.snapshot().pending, "wo");
}

#[test]
fn edit_snapshot_restores_segments_cursor_and_menu() {
    let mut runtime = CoreRuntime::new(store(), "script").unwrap();
    runtime.state.segments = vec![segment("wo", None, false, 1, 2)];
    runtime.state.current_segment = 0;
    runtime.focus_segment(0);
    let snapshot = runtime.edit_snapshot();
    runtime.dispatch(InputEvent::Text('x'));
    assert!(runtime.restore_edit_snapshot(snapshot));
    assert_eq!(runtime.snapshot().pending, "wo");
    assert_eq!(runtime.snapshot().cursor, 1);
    assert_eq!(runtime.snapshot().candidates.page_index, 2);
}

#[test]
fn unknown_schema_is_an_error() {
    assert!(matches!(CoreRuntime::new(store(), "nope"), Err(CoreError::UnknownSchema(ref s)) if s == "nope"));
    let mut runtime = CoreRuntime::new(store(), "script").unwrap();
    let result = runtime.dispatch(InputEvent::SetSchema("nope".into()));
    assert_eq!(result.error, Some(CoreError::UnknownSchema("nope".into())));
    assert_eq!(result.snapshot.status.schema, "script");
}

#[test]
fn toggles_and_escape() {
    let mut runtime = CoreRuntime::new(store(), "script").unwrap();
    assert!(runtime.dispatch(InputEvent::ToggleAscii).snapshot.status.ascii_mode);
    assert!(!runtime.dispatch(InputEvent::SetAscii(false)).snapshot.status.ascii_mode);
    assert!(!runtime.dispatch(InputEvent::ToggleFullShape).snapshot.status.full_shape);
    runtime.dispatch(InputEvent::Text('w'));
    let result = runtime.dispatch(InputEvent::Escape);
    assert!(result.snapshot.pending.is_empty());
    assert!(!result.snapshot.status.composing);
}

#[test]
fn revert_last_edit_undoes_the_last_commit() {
    let mut runtime = CoreRuntime::new(store(), "script").unwrap();
    assert!(!runtime.revert_last_edit());
    runtime.dispatch(InputEvent::Text('w'));
    runtime.dispatch(InputEvent::Text('o'));
    let result = runtime.dispatch(InputEvent::Space);
    assert_eq!(result.committed, Some("我".to_string()));
    assert_eq!(runtime.store().get("script").unwrap().user_dict.as_ref().unwrap().count("wo", "我"), 1);
    assert!(runtime.revert_last_edit());
    assert_eq!(runtime.confirmed_text(), "");
    assert_eq!(runtime.commit_history().len(), 0);
    assert_eq!(runtime.store().get("script").unwrap().user_dict.as_ref().unwrap().count("wo", "我"), 0);
}

#[test]
fn enter_commits_the_first_candidate() {
    let mut runtime = CoreRuntime::new(store(), "script").unwrap();
    runtime.dispatch(InputEvent::Text('w'));
    runtime.dispatch(InputEvent::Text('o'));
    let result = runtime.dispatch(InputEvent::Enter);
    assert_eq!(result.committed, Some("我".to_string()));
    assert!(result.snapshot.pending.is_empty());
}

#[test]
fn backspace_with_nothing_to_edit_passes_through() {
    let mut runtime = CoreRuntime::new(store(), "script").unwrap();
    let result = runtime.dispatch(InputEvent::Backspace);
    assert_eq!(result.disposition, EventDisposition::PassedThrough);
    assert_eq!(result.committed, None);
    assert!(result.snapshot.pending.is_empty());
}

#[test]
fn backspace_after_a_commit_takes_it_back() {
    let mut runtime = CoreRuntime::new(store(), "script").unwrap();
    runtime.dispatch(InputEvent::Text('w'));
    runtime.dispatch(InputEvent::Text('o'));
    runtime.dispatch(InputEvent::Space);
    runtime.dispatch(InputEvent::Reset);
    assert_eq!(runtime.commit_history().len(), 1);
    let result = runtime.dispatch(InputEvent::Backspace);
    assert_eq!(result.disposition, EventDisposition::Consumed);
    assert_eq!(runtime.commit_history().len(), 0);
    assert_eq!(runtime.store().get("script").unwrap().user_dict.as_ref().unwrap().count("wo", "我"), 0);
}

#[test]
fn confirm_segment_records_the_segment_without_committing() {
    let mut runtime = CoreRuntime::new(store(), "script").unwrap();
    runtime.dispatch(InputEvent::Text('w'));
    runtime.dispatch(InputEvent::Text('o'));
    let result = runtime.dispatch(InputEvent::ConfirmSegment);
    assert_eq!(result.committed, None);
    assert_eq!(result.error, None);
    let current = result.snapshot.segments[result.snapshot.current_segment].clone();
    assert!(current.confirmed);
    assert_eq!(current.input, "wo");
    assert_eq!(current.text, Some("我".to_string()));
    assert_eq!(result.snapshot.confirmed_text, "我");
    assert_eq!(runtime.commit_history().len(), 1);
}

#[test]
fn backspace_with_nothing_pending_edits_the_previous_segment() {
    let mut runtime = CoreRuntime::new(store(), "script").unwrap();
    runtime.state.segments = vec![segment("wo", Some("我"), true, 0, 0)];
    runtime.state.current_segment = 1;
    let result = runtime.dispatch(InputEvent::Backspace);
    assert_eq!(result.disposition, EventDisposition::Consumed);
    assert_eq!(result.snapshot.pending, "w");
    assert_eq!(result.snapshot.cursor, 1);
}
