use heshun::engine::FeedResult;
use heshun::processor::{chain_step, key_step, ChainStep, ProcessCtx, ProcessOutcome, Processor, ProcessorChain};
use heshun::punctuator::Punctuator;

struct Passthrough;
impl Processor for Passthrough {
    fn name(&self) -> &str {
        "passthrough"
    }
    fn process(&self, _key: char, _pending: &str, _ctx: &mut ProcessCtx) -> Option<ProcessOutcome> {
        None
    }
}

struct Upper;
impl Processor for Upper {
    fn name(&self) -> &str {
        "upper"
    }
    fn process(&self, key: char, _pending: &str, _ctx: &mut ProcessCtx) -> Option<ProcessOutcome> {
        Some(ProcessOutcome::Modified(key.to_ascii_uppercase()))
    }
}

#[test]
fn empty_chain_passthrough() {
    let chain = ProcessorChain::new();
    let mut ctx = ProcessCtx::default();
    let r = chain.final_key('a', "", &mut ctx);
    assert_eq!(r, 'a');
}

#[test]
fn chain_with_passthrough() {
    let mut chain = ProcessorChain::new();
    chain.add(Box::new(Passthrough));
    let mut ctx = ProcessCtx::default();
    assert_eq!(chain.final_key('x', "", &mut ctx), 'x');
}

#[test]
fn chain_applies_modifications_in_order() {
    let mut chain = ProcessorChain::new();
    chain.add(Box::new(Upper));
    chain.add(Box::new(Passthrough));
    let mut ctx = ProcessCtx::default();
    assert_eq!(chain.final_key('x', "", &mut ctx), 'X');
}

#[test]
fn chain_stops_at_handled_key() {
    let mut chain = ProcessorChain::new();
    chain.add(Box::new(Punctuator::new()));
    chain.add(Box::new(Upper));
    let mut ctx = ProcessCtx::default();
    let r = chain.process(',', "", &mut ctx);
    assert!(matches!(r, Some(ProcessOutcome::Handled(FeedResult::Committed(ref s))) if s == "，"));
}

#[test]
fn chain_step_stops_on_handled_and_goes_on_otherwise() {
    assert!(matches!(chain_step('a', None), ChainStep::Go('a')));
    assert!(matches!(chain_step('a', Some(ProcessOutcome::Modified('B'))), ChainStep::Go('B')));
    assert!(matches!(
        chain_step('a', Some(ProcessOutcome::Handled(FeedResult::Waiting))),
        ChainStep::Stop(FeedResult::Waiting)
    ));
}

#[test]
fn chain_reports_the_changed_key_when_none_handles_it() {
    let mut chain = ProcessorChain::new();
    chain.add(Box::new(Upper));
    chain.add(Box::new(Passthrough));
    let mut ctx = ProcessCtx::default();
    assert!(matches!(chain.process('x', "", &mut ctx), Some(ProcessOutcome::Modified('X'))));
    let mut plain = ProcessorChain::new();
    plain.add(Box::new(Passthrough));
    assert!(plain.process('x', "", &mut ctx).is_none());
}

#[test]
fn key_step_sets_bypass_only_for_a_changed_key() {
    let mut ctx = ProcessCtx::default();
    assert!(matches!(key_step('a', None, &mut ctx), ChainStep::Go('a')));
    assert!(!ctx.bypass_speller);
    assert!(matches!(key_step('a', Some(ProcessOutcome::Modified('b')), &mut ctx), ChainStep::Go('b')));
    assert!(ctx.bypass_speller);
    let mut ctx2 = ProcessCtx::default();
    let r = key_step('a', Some(ProcessOutcome::Handled(FeedResult::Committed("x".to_string()))), &mut ctx2);
    assert!(matches!(r, ChainStep::Stop(FeedResult::Committed(ref s)) if s == "x"));
    assert!(!ctx2.bypass_speller);
}
