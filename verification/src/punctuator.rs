//! The punctuator: ASCII punctuation to full-width Chinese punctuation.
//!
//! It stands before the speller in the processor chain and commits the
//! full-width mark for a punctuation key; `^` and `_` give the doubled
//! marks "……" and "——".
use vstd::prelude::*;
use crate::engine::FeedResult;
use crate::processor::{ProcessCtx, ProcessOutcome, Processor};
use crate::text::push_char;

verus! {

/// The default half-width to full-width table.
pub open spec fn default_punct() -> Seq<(char, char, bool)> {
    seq![
        (',', '，', false),
        ('.', '。', false),
        ('!', '！', false),
        ('?', '？', false),
        (':', '：', false),
        (';', '；', false),
        ('(', '（', false),
        (')', '）', false),
        ('[', '【', false),
        (']', '】', false),
        ('<', '《', false),
        ('>', '》', false),
        ('@', '·', false),
        ('#', '＃', false),
        ('$', '￥', false),
        ('%', '％', false),
        ('^', '…', true),
        ('&', '＆', false),
        ('*', '＊', false),
        ('_', '—', true),
        ('-', '－', false),
        ('+', '＋', false),
        ('=', '＝', false),
        ('|', '｜', false),
        ('\\', '＼', false),
        ('/', '、', false),
        ('~', '～', false),
        ('`', '｀', false),
        ('\'', '＇', false),
        ('"', '＂', false)
    ]
}

/// The full-width mark for `c` in table `t`, if any (the first match): its
/// character, twice where the table says so ("……", "——").
pub open spec fn punct_lookup(t: Seq<(char, char, bool)>, c: char) -> Option<Seq<char>>
    decreases t.len(),
{
    if t.len() == 0 {
        None
    } else if t[0].0 == c {
        Some(if t[0].2 { seq![t[0].1, t[0].1] } else { seq![t[0].1] })
    } else {
        punct_lookup(t.drop_first(), c)
    }
}

/// The marks that are not the key's full-width form (U+FF01..U+FF5E, the
/// key plus 0xFEE0): the Chinese full stop, brackets, title marks, middle
/// dot, yuan sign, ellipsis, dash and enumeration comma.
pub open spec fn cjk_mark(c: char) -> Option<Seq<char>> {
    if c == '.' { Some(seq!['。']) }
    else if c == '[' { Some(seq!['【']) }
    else if c == ']' { Some(seq!['】']) }
    else if c == '<' { Some(seq!['《']) }
    else if c == '>' { Some(seq!['》']) }
    else if c == '@' { Some(seq!['·']) }
    else if c == '$' { Some(seq!['￥']) }
    else if c == '^' { Some(seq!['…', '…']) }
    else if c == '_' { Some(seq!['—', '—']) }
    else if c == '/' { Some(seq!['、']) }
    else { None }
}

/// The shape of the mark of one key (the first half of the law below).
pub open spec fn mark_shape(c: char, m: Seq<char>) -> bool {
    &&& 0x21 <= (c as u32) <= 0x7e
    &&& !(('0' <= c <= '9') || ('a' <= c <= 'z') || ('A' <= c <= 'Z'))
    &&& match cjk_mark(c) {
        Some(x) => m == x,
        None => m.len() == 1 && (m[0] as u32) == (c as u32) + 0xFEE0,
    }
}

proof fn lemma_mark_shape(c: char)
    ensures
        punct_lookup(default_punct(), c) matches Some(m) ==> mark_shape(c, m),
{
    reveal_with_fuel(punct_lookup, 31);
}

/// Every key of the default table is an ASCII punctuation mark (no letter,
/// digit or space), and its mark is its full-width form, the key plus
/// 0xFEE0, except for the Chinese marks `cjk_mark` names; the marks of
/// two different keys differ.
pub proof fn law_full_width_marks(c: char, d: char)
    ensures
        punct_lookup(default_punct(), c) matches Some(m) ==> mark_shape(c, m),
        c != d && punct_lookup(default_punct(), c) is Some && punct_lookup(default_punct(), d) is Some
            ==> punct_lookup(default_punct(), c) != punct_lookup(default_punct(), d),
{
    lemma_mark_shape(c);
    lemma_mark_shape(d);
    if c != d && punct_lookup(default_punct(), c) is Some && punct_lookup(default_punct(), d) is Some {
        let mc = punct_lookup(default_punct(), c)->0;
        let md = punct_lookup(default_punct(), d)->0;
        if mc == md {
            assert(mc.len() == md.len() && mc[0] == md[0]);
            assert(false);
        }
    }
}

pub struct Punctuator {
    map: Vec<(char, char, bool)>,
    full_shape: bool,
}

impl Punctuator {
    #[verifier::type_invariant]
    closed spec fn inv(self) -> bool {
        self.map@ == default_punct()
    }

    /// Whether full-width marks are produced.
    pub closed spec fn is_full_shape(&self) -> bool {
        self.full_shape
    }

    pub fn new() -> (p: Punctuator)
        ensures
            p.is_full_shape(),
    {
        let map: Vec<(char, char, bool)> = vec![
            (',', '，', false),
            ('.', '。', false),
            ('!', '！', false),
            ('?', '？', false),
            (':', '：', false),
            (';', '；', false),
            ('(', '（', false),
            (')', '）', false),
            ('[', '【', false),
            (']', '】', false),
            ('<', '《', false),
            ('>', '》', false),
            ('@', '·', false),
            ('#', '＃', false),
            ('$', '￥', false),
            ('%', '％', false),
            ('^', '…', true),
            ('&', '＆', false),
            ('*', '＊', false),
            ('_', '—', true),
            ('-', '－', false),
            ('+', '＋', false),
            ('=', '＝', false),
            ('|', '｜', false),
            ('\\', '＼', false),
            ('/', '、', false),
            ('~', '～', false),
            ('`', '｀', false),
            ('\'', '＇', false),
            ('"', '＂', false)
        ];
        assert(map@ =~= default_punct());
        Punctuator { map, full_shape: true }
    }

    pub fn with_full_shape(self, enabled: bool) -> (p: Punctuator)
        ensures
            p.is_full_shape() == enabled,
    {
        proof { use_type_invariant(&self); }
        Punctuator { map: self.map, full_shape: enabled }
    }

    /// The full-width mark for `c`, if it is a punctuation key.
    pub fn full_width(&self, c: char) -> (r: Option<String>)
        ensures
            match punct_lookup(default_punct(), c) {
                Some(m) => r matches Some(x) && x@ == m,
                None => r is None,
            },
    {
        proof { use_type_invariant(self); }
        let mut i: usize = 0;
        assert(default_punct().skip(0) == default_punct());
        while i < self.map.len()
            invariant
                i <= self.map@.len(),
                self.map@ == default_punct(),
                punct_lookup(default_punct(), c) == punct_lookup(default_punct().skip(i as int), c),
            decreases self.map@.len() - i,
        {
            assert(default_punct().skip(i as int)[0] == self.map@[i as int]);
            assert(default_punct().skip(i as int).drop_first() == default_punct().skip(i + 1));
            if self.map[i].0 == c {
                let (_, f, twice) = self.map[i];
                let mut s = String::new();
                push_char(&mut s, f);
                if twice {
                    push_char(&mut s, f);
                    assert(s@ =~= seq![f, f]);
                } else {
                    assert(s@ =~= seq![f]);
                }
                return Some(s);
            }
            i += 1;
        }
        None
    }
}

impl Default for Punctuator {
    fn default() -> (p: Punctuator)
        ensures
            p.is_full_shape(),
    {
        Punctuator::new()
    }
}

impl Processor for Punctuator {
    fn name(&self) -> (r: &str)
        ensures
            r@ == "punctuator"@,
    {
        "punctuator"
    }

    /// In full-width mode and outside ASCII mode, a punctuation key commits
    /// its full-width mark; every other key passes.
    fn process(&self, key: char, pending: &str, ctx: &mut ProcessCtx) -> (r: Option<ProcessOutcome>)
        ensures
            match punct_lookup(default_punct(), key) {
                Some(f) => if self.is_full_shape() && !old(ctx).ascii_mode {
                    r matches Some(ProcessOutcome::Handled(FeedResult::Committed(s))) && s@ == f
                } else {
                    r is None
                },
                None => r is None,
            },
            *final(ctx) == *old(ctx),
    {
        if !self.full_shape || ctx.ascii_mode {
            return None;
        }
        match self.full_width(key) {
            Some(mark) => Some(ProcessOutcome::Handled(FeedResult::Committed(mark))),
            None => None,
        }
    }
}

} // verus!
