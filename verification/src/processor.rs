//! The processor chain: each processor may take a key (and answer it), change
//! it for the processors after it, or let it pass.
use vstd::prelude::*;
use crate::engine::FeedResult;

verus! {

/// Session state the processors read and set.
pub struct ProcessCtx {
    /// The buffer should be committed (as on a mode switch).
    pub flush_requested: bool,
    /// Western (ASCII) mode.
    pub ascii_mode: bool,
    /// The next key goes out as typed instead of to the speller.
    pub bypass_speller: bool,
    /// Candidate page offset.
    pub page_offset: usize,
}

impl Default for ProcessCtx {
    fn default() -> (c: ProcessCtx)
        ensures
            !c.flush_requested,
            !c.ascii_mode,
            !c.bypass_speller,
            c.page_offset == 0,
    {
        ProcessCtx { flush_requested: false, ascii_mode: false, bypass_speller: false, page_offset: 0 }
    }
}

/// What a processor did with a key.
pub enum ProcessOutcome {
    /// The key was consumed, with this result.
    Handled(FeedResult),
    /// The key was changed for the processors after it.
    Modified(char),
}

/// A key processor.
pub trait Processor {
    fn name(&self) -> &str;

    fn process(&self, key: char, pending: &str, ctx: &mut ProcessCtx) -> Option<ProcessOutcome>;
}

/// What the chain does after one processor answered: stop with a handled
/// result, or go on with the (possibly changed) key.
pub enum ChainStep {
    Stop(FeedResult),
    Go(char),
}

/// One step of the chain: `Handled` stops with its result, `Modified(c)`
/// goes on with `c`, no answer goes on with the same key.
pub fn chain_step(current: char, o: Option<ProcessOutcome>) -> (s: ChainStep)
    ensures
        match o {
            Some(ProcessOutcome::Handled(r)) => s == ChainStep::Stop(r),
            Some(ProcessOutcome::Modified(c)) => s == ChainStep::Go(c),
            None => s == ChainStep::Go(current),
        },
{
    match o {
        Some(ProcessOutcome::Handled(r)) => ChainStep::Stop(r),
        Some(ProcessOutcome::Modified(c)) => ChainStep::Go(c),
        None => ChainStep::Go(current),
    }
}

/// One step of `final_key`: as `chain_step`, and a changed key also sets
/// `bypass_speller` (the changed key goes out as typed).
pub fn key_step(current: char, o: Option<ProcessOutcome>, ctx: &mut ProcessCtx) -> (s: ChainStep)
    ensures
        match o {
            Some(ProcessOutcome::Handled(r)) => s == ChainStep::Stop(r) && *final(ctx) == *old(ctx),
            Some(ProcessOutcome::Modified(c)) => s == ChainStep::Go(c)
                && *final(ctx) == (ProcessCtx { bypass_speller: true, ..*old(ctx) }),
            None => s == ChainStep::Go(current) && *final(ctx) == *old(ctx),
        },
{
    match o {
        Some(ProcessOutcome::Handled(r)) => ChainStep::Stop(r),
        Some(ProcessOutcome::Modified(c)) => {
            ctx.bypass_speller = true;
            ChainStep::Go(c)
        },
        None => ChainStep::Go(current),
    }
}

/// Processors in order.
pub struct ProcessorChain {
    processors: Vec<Box<dyn Processor>>,
}

impl ProcessorChain {
    pub closed spec fn size(&self) -> nat {
        self.processors@.len()
    }

    pub fn new() -> (c: ProcessorChain)
        ensures
            c.size() == 0,
    {
        ProcessorChain { processors: Vec::new() }
    }

    /// Appends a processor at the end of the chain.
    pub fn add(&mut self, p: Box<dyn Processor>) {
        self.processors.push(p);
    }

    pub fn is_empty(&self) -> (b: bool)
        ensures
            b == (self.size() == 0),
    {
        self.processors.len() == 0
    }

    /// Runs the key through the chain: the first processor that handles it
    /// decides the result; a changed key goes on to the next processors.
    /// When none handles it, the result is the key as the last change left
    /// it, or nothing when no processor changed it.
    pub fn process(&self, key: char, pending: &str, ctx: &mut ProcessCtx) -> (r: Option<ProcessOutcome>)
        ensures
            self.size() == 0 ==> r is None && *final(ctx) == *old(ctx),
    {
        let mut current = key;
        let mut changed = false;
        let mut i: usize = 0;
        while i < self.processors.len()
            invariant
                i <= self.processors@.len(),
                i == 0 ==> !changed && *ctx == *old(ctx),
            decreases self.processors@.len() - i,
        {
            let o = self.processors[i].process(current, pending, ctx);
            match &o {
                Some(ProcessOutcome::Modified(_)) => { changed = true; },
                _ => {},
            }
            match chain_step(current, o) {
                ChainStep::Stop(r) => { return Some(ProcessOutcome::Handled(r)); },
                ChainStep::Go(c) => { current = c; },
            }
            i += 1;
        }
        if changed { Some(ProcessOutcome::Modified(current)) } else { None }
    }

    /// The key that leaves the chain (for the speller): each processor's
    /// answer is taken by `key_step`; `'\0'` once one handles the key (the
    /// processors after it are not asked), else the key as the last change
    /// left it.
    pub fn final_key(&self, key: char, pending: &str, ctx: &mut ProcessCtx) -> (r: char)
        ensures
            self.size() == 0 ==> r == key && *final(ctx) == *old(ctx),
    {
        let mut current = key;
        let mut i: usize = 0;
        while i < self.processors.len()
            invariant
                i <= self.processors@.len(),
                i == 0 ==> current == key && *ctx == *old(ctx),
            decreases self.processors@.len() - i,
        {
            let o = self.processors[i].process(current, pending, ctx);
            match key_step(current, o, ctx) {
                ChainStep::Stop(_) => { return '\0'; },
                ChainStep::Go(c) => { current = c; },
            }
            i += 1;
        }
        current
    }
}

} // verus!
