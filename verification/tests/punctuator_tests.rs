use heshun::engine::FeedResult;
use heshun::processor::{ProcessCtx, ProcessOutcome, Processor};
use heshun::punctuator::Punctuator;

#[test]
fn comma_to_full() {
    let p = Punctuator::new();
    let mut ctx = ProcessCtx::default();
    let r = p.process(',', "", &mut ctx);
    assert!(matches!(r, Some(ProcessOutcome::Handled(FeedResult::Committed(ref s))) if s == "，"));
}

#[test]
fn period_to_full() {
    let p = Punctuator::new();
    let mut ctx = ProcessCtx::default();
    let r = p.process('.', "", &mut ctx);
    assert!(matches!(r, Some(ProcessOutcome::Handled(FeedResult::Committed(ref s))) if s == "。"));
}

#[test]
fn ascii_mode_no_convert() {
    let p = Punctuator::new();
    let mut ctx = ProcessCtx { ascii_mode: true, ..Default::default() };
    assert!(p.process(',', "", &mut ctx).is_none());
}

#[test]
fn letter_passthrough() {
    let p = Punctuator::new();
    let mut ctx = ProcessCtx::default();
    assert!(p.process('a', "", &mut ctx).is_none());
}

#[test]
fn full_width_table_and_shape() {
    let p = Punctuator::new();
    assert_eq!(p.full_width('?'), Some("？".to_string()));
    assert_eq!(p.full_width('a'), None);
    let q = Punctuator::new().with_full_shape(false);
    assert_eq!(q.full_width(','), Some("，".to_string()));
}

#[test]
fn punctuator_is_named() {
    assert_eq!(Punctuator::new().name(), "punctuator");
}

#[test]
fn caret_and_underscore_give_doubled_marks() {
    let p = Punctuator::new();
    let mut ctx = ProcessCtx::default();
    let r = p.process('^', "", &mut ctx);
    assert!(matches!(r, Some(ProcessOutcome::Handled(FeedResult::Committed(ref s))) if s == "……"));
    let r = p.process('_', "", &mut ctx);
    assert!(matches!(r, Some(ProcessOutcome::Handled(FeedResult::Committed(ref s))) if s == "——"));
    assert!(p.process('a', "", &mut ctx).is_none());
}
