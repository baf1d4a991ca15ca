//! The input session engine: shape codes (table) and pinyin (script) behind
//! one session interface.
//!
//! - Shape code (Zhengma): prefix lookup in the table; with auto-select, a
//!   unique candidate at the full code length is committed at once.
//! - Full pinyin: the pinyin dictionary plus sentence composition.
//! - Double pinyin: as full pinyin, with the typed key pairs mapped back to
//!   full pinyin first.
//!
//! A shell feeds keys to a `Session`, reads its pending text and candidates,
//! and acts on each `FeedResult`. Selections a session learns are kept in the
//! session; `Engine::learn_all` applies them to the engine's user dictionary.
use vstd::prelude::*;
use crate::runtime::CandidateSource;
use crate::dict::{Dict, TableEntry, encode_spec, decode_spec, code_in, word_is, prefix_span};
use crate::pinyin::{PinyinDict, PinyinEntry, normalize_spec, py_code_is, py_code_between, prefix_upper};
use crate::zrm::{ZrmEntry, zrm_to_pinyin};
use crate::composer::{SentenceCandidate, compose, composed, MAX_COMPOSE_INPUT_LEN};
use crate::reverse_lookup::ReverseLookup;
use crate::user_dict::{UserDict, LearnEntry};
use crate::punctuator::{Punctuator, punct_lookup, default_punct};
use crate::processor::Processor;
use crate::text::{chars_of, string_of, string_from, push_char, str_eq, strip_delimiters, is_ascii_alpha,
    is_ascii_lower, is_ascii_upper, is_ascii_digit, to_lower, lemma_strip_idempotent};
use crate::algebra::strings_view;

verus! {

/// What feeding one key did.
#[derive(Debug, Clone, PartialEq, Eq)]
pub enum FeedResult {
    /// Text was committed.
    Committed(String),
    /// The key was taken; more input or a selection is awaited.
    Waiting,
    /// The key was refused (not an input key, buffer full, or no match).
    Rejected,
}

/// A candidate (shape code or pinyin): its word, its code, and where it
/// came from.
#[derive(Debug, Clone)]
pub struct Candidate {
    pub word: String,
    pub code: String,
    pub source: CandidateSource,
}

/// A candidate as seen by the contracts: (word, code, source).
pub type CandView = (Seq<char>, Seq<char>, CandidateSource);

pub open spec fn cand_view(c: Candidate) -> CandView {
    (c.word@, c.code@, c.source)
}

pub open spec fn cands_view(v: Seq<Candidate>) -> Seq<CandView> {
    v.map_values(|c: Candidate| cand_view(c))
}

/// The input scheme.
#[allow(inconsistent_fields)]
pub enum SchemaKind {
    /// A shape-code scheme (such as Zhengma).
    Table {
        dict: Dict,
        max_code_len: usize,
        auto_select: bool,
        auto_select_pattern: Option<String>,
    },
    /// A pinyin scheme (full or double pinyin; the double-pinyin map is
    /// carried by the dictionary).
    Script {
        dict: PinyinDict,
    },
}

pub struct Engine {
    /// The input scheme.
    pub schema: SchemaKind,
    /// The shape-code table, kept for annotating reverse-lookup candidates
    /// with their codes.
    pub table_dict: Option<Dict>,
    /// Reverse lookup (such as pinyin after a backquote), if enabled.
    pub reverse_lookup: Option<ReverseLookup>,
    /// The user dictionary, if enabled.
    pub user_dict: Option<UserDict>,
    /// Where the user dictionary is saved.
    pub user_dict_path: Option<String>,
    /// The punctuator, if punctuation is converted.
    pub punctuator: Option<Punctuator>,
}

/// Letters are the only keys that spell codes; `ch` lower-cased.
pub open spec fn key_letter(ch: char) -> char {
    to_lower(ch)
}

/// The reverse-lookup prefix, when reverse lookup is enabled.
pub open spec fn rl_prefix(e: Engine) -> Option<char> {
    match e.reverse_lookup {
        Some(r) => Some(r.prefix_char()),
        None => None,
    }
}

/// The reverse-lookup dictionary (empty when disabled).
pub open spec fn rl_entries(e: Engine) -> Seq<PinyinEntry> {
    match e.reverse_lookup {
        Some(r) => r.dict_view(),
        None => Seq::empty(),
    }
}

/// The buffer is in reverse-lookup mode: it starts with the prefix.
pub open spec fn reverse_mode(e: Engine, buf: Seq<char>) -> bool {
    rl_prefix(e) matches Some(p) && buf.len() > 0 && buf[0] == p
}

/// Some pinyin entry has code `q`, or a code in `[q, q + "{")`.
pub open spec fn py_any_match(d: Seq<PinyinEntry>, q: Seq<char>) -> bool {
    d.filter(py_code_is(q)).len() > 0 || d.filter(py_code_between(q, prefix_upper(q))).len() > 0
}

/// Table entries whose code starts with `input` (none when `input` is not
/// a code).
pub open spec fn table_matches(d: Seq<TableEntry>, input: Seq<char>) -> Seq<TableEntry> {
    match encode_spec(input) {
        Some(v) => d.filter(code_in(v as int, v + prefix_span(input.len() as int))),
        None => Seq::empty(),
    }
}

// ── contracts of the session ───────────────────────────────────────────

/// What feeding a key did, as seen by the contracts.
pub enum FeedView {
    Committed(Seq<char>),
    Waiting,
    Rejected,
}

pub open spec fn feed_view(r: FeedResult) -> FeedView {
    match r {
        FeedResult::Committed(s) => FeedView::Committed(s@),
        FeedResult::Waiting => FeedView::Waiting,
        FeedResult::Rejected => FeedView::Rejected,
    }
}

/// The outcome of a key: the result, the new buffer, the new caret, and
/// the (dictionary, spelling) to compose sentences for, if any.
pub type FeedOutcome = (FeedView, Seq<char>, nat, Option<(Seq<PinyinEntry>, Seq<char>)>);

/// The full pinyin spelling of the typed keys: the double-pinyin pairs
/// mapped back when the scheme carries a map, else delimiters removed.
pub open spec fn script_input(e: Engine, buf: Seq<char>) -> Seq<char> {
    match e.script_zrm() {
        Some(m) => zrm_to_pinyin(m, buf),
        None => normalize_spec(buf),
    }
}

pub open spec fn is_ascii_alnum(c: char) -> bool {
    is_ascii_alpha(c) || is_ascii_digit(c)
}

/// The keys handled before the speller: a key in reverse-lookup mode, the
/// prefix that starts it, a key in ASCII mode, and punctuation.
pub open spec fn pre_speller(e: Engine, buf: Seq<char>, cur: nat, ascii: bool, ch: char) -> Option<FeedOutcome> {
    if reverse_mode(e, buf) {
        let c = key_letter(ch);
        if !is_ascii_alpha(c) {
            Some((FeedView::Rejected, buf, cur, None))
        } else {
            let q = normalize_spec(buf.drop_first().push(c));
            if !py_any_match(rl_entries(e), q) {
                Some((FeedView::Rejected, buf, cur, None))
            } else {
                Some((FeedView::Waiting, buf.push(c), buf.len() + 1, Some((rl_entries(e), q))))
            }
        }
    } else if buf.len() == 0 && rl_prefix(e) == Some(ch) {
        Some((FeedView::Waiting, seq![ch], 1, None))
    } else if ascii && (is_ascii_alnum(ch) || ch == ' ') {
        Some((FeedView::Committed(seq![ch]), buf, cur, None))
    } else if e.punctuator matches Some(p) && p.is_full_shape() && !ascii && punct_lookup(default_punct(), ch) is Some {
        Some((FeedView::Committed(punct_lookup(default_punct(), ch)->0), buf, cur, None))
    } else if !is_ascii_alpha(key_letter(ch)) {
        Some((FeedView::Rejected, buf, cur, None))
    } else {
        None
    }
}

/// A letter in a shape-code scheme, the buffer becoming `b2`: refused when
/// the buffer is full or nothing starts with `b2`; with auto-select, a
/// single match at the full length is committed.
pub open spec fn table_letter(e: Engine, buf: Seq<char>, cur: nat, b2: Seq<char>, next: nat) -> FeedOutcome {
    let d = e.table_entries();
    let max = e.max_code_len_spec();
    if buf.len() >= max {
        (FeedView::Rejected, buf, cur, None)
    } else if b2.len() == max && e.auto_select_spec() && table_matches(d, b2).len() == 0 {
        (FeedView::Rejected, buf, cur, None)
    } else if b2.len() == max && e.auto_select_spec() && table_matches(d, b2).len() == 1 {
        (FeedView::Committed(table_matches(d, b2)[0].1), Seq::empty(), 0, None)
    } else if table_matches(d, b2).len() == 0 {
        (FeedView::Rejected, buf, cur, None)
    } else {
        (FeedView::Waiting, b2, next, None)
    }
}

/// What `feed` does with `ch` (appending at the end of the buffer).
pub open spec fn feed_spec(e: Engine, buf: Seq<char>, cur: nat, ascii: bool, ch: char) -> FeedOutcome {
    match pre_speller(e, buf, cur, ascii, ch) {
        Some(o) => o,
        None => {
            let c = key_letter(ch);
            let b2 = buf.push(c);
            if e.is_table_spec() {
                table_letter(e, buf, cur, b2, b2.len())
            } else {
                let input = script_input(e, b2);
                let d = e.script_entries();
                if input.len() == 0 {
                    if e.script_zrm() is Some && b2.len() < 2 {
                        (FeedView::Waiting, b2, b2.len(), None)
                    } else {
                        (FeedView::Rejected, buf, cur, None)
                    }
                } else if !py_any_match(d, normalize_spec(input)) {
                    if e.script_zrm() is Some {
                        (FeedView::Waiting, b2, b2.len(), None)
                    } else {
                        (FeedView::Rejected, buf, cur, None)
                    }
                } else {
                    (FeedView::Waiting, b2, b2.len(), Some((d, input)))
                }
            }
        },
    }
}

/// What `feed_at_cursor` does with `ch`: as `feed`, but a letter goes in at
/// the caret, and in a pinyin scheme every letter is taken (the sentences
/// are composed anew, possibly none).
pub open spec fn feed_at_spec(e: Engine, buf: Seq<char>, cur: nat, ascii: bool, ch: char) -> FeedOutcome {
    match pre_speller(e, buf, cur, ascii, ch) {
        Some(o) => o,
        None => {
            let c = key_letter(ch);
            let b2 = buf.insert(cur as int, c);
            if e.is_table_spec() {
                table_letter(e, buf, cur, b2, cur + 1)
            } else {
                (FeedView::Waiting, b2, cur + 1, Some((e.script_entries(), script_input(e, b2))))
            }
        },
    }
}

/// `r` is what `compose(x, d, limit)` gives.
pub open spec fn compose_result(d: Seq<PinyinEntry>, input: Seq<char>, limit: int, r: Seq<SentenceCandidate>) -> bool {
    let x = normalize_spec(input);
    if x.len() == 0 || x.len() > MAX_COMPOSE_INPUT_LEN {
        r.len() == 0
    } else {
        composed(d, x, limit, r)
    }
}

/// The words of a sentence, concatenated.
pub open spec fn join_words(ws: Seq<Seq<char>>) -> Seq<char>
    decreases ws.len(),
{
    if ws.len() == 0 {
        Seq::empty()
    } else {
        join_words(ws.drop_last()) + ws.last()
    }
}

/// The text of a sentence candidate.
pub open spec fn sentence_text(s: SentenceCandidate) -> Seq<char> {
    join_words(strings_view(s.words@))
}

/// Codes joined with '/'.
pub open spec fn join_slash(cs: Seq<Seq<char>>) -> Seq<char>
    decreases cs.len(),
{
    if cs.len() == 0 {
        Seq::empty()
    } else if cs.len() == 1 {
        cs[0]
    } else {
        join_slash(cs.drop_last()) + seq!['/'] + cs.last()
    }
}

/// The annotation of a reverse-lookup candidate: the word's codes in the
/// kept table, joined with '/', or '—' when it has none.
pub open spec fn annotation(e: Engine, w: Seq<char>) -> Seq<char> {
    match e.annot_entries() {
        Some(t) => {
            let cs = t.filter(word_is(w)).map_values(|x: TableEntry| decode_spec(x.0 as int));
            if cs.len() == 0 { seq!['—'] } else { join_slash(cs) }
        },
        None => seq!['—'],
    }
}

/// `items` added in order to `out`, skipping a word already present and
/// stopping at `limit` candidates.
pub open spec fn add_distinct(out: Seq<CandView>, items: Seq<CandView>, limit: int) -> Seq<CandView>
    decreases items.len(),
{
    if items.len() == 0 {
        out
    } else {
        let o = add_distinct(out, items.drop_last(), limit);
        let x = items.last();
        if o.len() >= limit || (exists|k: int| 0 <= k < o.len() && o[k].0 == x.0) {
            o
        } else {
            o.push(x)
        }
    }
}

/// At most `limit` items.
pub open spec fn take_at_most<A>(s: Seq<A>, limit: int) -> Seq<A> {
    if limit < s.len() { s.take(limit) } else { s }
}

/// The candidates limit: `limit`, or no limit when it is 0.
pub open spec fn list_limit(limit: usize) -> int {
    if limit == 0 { usize::MAX as int } else { limit as int }
}

/// Reverse-lookup candidates: the exact pinyin matches, then the composed
/// sentences (skipping repeated words), each annotated with its codes.
pub open spec fn reverse_cands(e: Engine, buf: Seq<char>, sents: Seq<SentenceCandidate>, limit: usize) -> Seq<CandView> {
    let q = normalize_spec(buf.drop_first());
    let lim = list_limit(limit);
    let ex = rl_entries(e).filter(py_code_is(q)).map_values(|x: PinyinEntry| (x.1, annotation(e, x.1), CandidateSource::Reverse));
    let st = sents.map_values(|s: SentenceCandidate| (sentence_text(s), annotation(e, sentence_text(s)), CandidateSource::Reverse));
    add_distinct(take_at_most(ex, lim), st, lim)
}

/// Shape-code candidates: the table entries that start with the buffer,
/// at most `limit` (9 when 0), exact codes marked as such.
pub open spec fn table_cands(e: Engine, buf: Seq<char>, limit: usize) -> Seq<CandView> {
    let k = if limit == 0 { 9 } else { limit as int };
    take_at_most(table_matches(e.table_entries(), buf), k).map_values(|x: TableEntry|
        (x.1, decode_spec(x.0 as int), if decode_spec(x.0 as int) == buf { CandidateSource::Table } else { CandidateSource::TableCompletion }))
}

/// Pinyin candidates: exact matches, then the composed sentences, then the
/// prefix matches (skipping repeated words), each with the spelling.
pub open spec fn script_cands(e: Engine, buf: Seq<char>, sents: Seq<SentenceCandidate>, limit: usize) -> Seq<CandView> {
    let input = script_input(e, buf);
    let q = normalize_spec(input);
    let d = e.script_entries();
    let lim = list_limit(limit);
    let ex = d.filter(py_code_is(q)).map_values(|x: PinyinEntry| (x.1, input, CandidateSource::ScriptExact));
    let st = sents.map_values(|s: SentenceCandidate| (sentence_text(s), input, CandidateSource::ScriptSentence));
    let pf = d.filter(py_code_between(q, prefix_upper(q))).map_values(|x: PinyinEntry| (x.1, input, CandidateSource::ScriptPrefix));
    add_distinct(add_distinct(take_at_most(ex, lim), st, lim), pf, lim)
}

/// The code selections are learned under: the buffer for a shape code, the
/// pinyin spelling for a pinyin scheme, the query in reverse lookup.
pub open spec fn learn_code(e: Engine, buf: Seq<char>) -> Seq<char> {
    if reverse_mode(e, buf) {
        buf.drop_first()
    } else if e.is_table_spec() {
        buf
    } else {
        script_input(e, buf)
    }
}

/// Candidates promoted by the user dictionary, stably by count.
pub open spec fn by_count_view(v: Seq<LearnEntry>, code: Seq<char>) -> spec_fn(CandView, CandView) -> bool {
    |a: CandView, b: CandView| crate::user_dict::count_of(v, code, a.0) >= crate::user_dict::count_of(v, code, b.0)
}

/// What `candidates(limit)` lists.
pub open spec fn cands_spec(e: Engine, buf: Seq<char>, sents: Seq<SentenceCandidate>, limit: usize) -> Seq<CandView> {
    if buf.len() == 0 {
        Seq::empty()
    } else if reverse_mode(e, buf) {
        reverse_cands(e, buf, sents, limit)
    } else {
        let base = if e.is_table_spec() { table_cands(e, buf, limit) } else { script_cands(e, buf, sents, limit) };
        match e.user_dict {
            Some(u) => crate::seqs::stable_sort_by(base, by_count_view(u@, learn_code(e, buf))),
            None => base,
        }
    }
}

impl Engine {
    pub open spec fn is_table_spec(&self) -> bool {
        self.schema is Table
    }

    /// The shape-code table (empty for a pinyin scheme).
    pub open spec fn table_entries(&self) -> Seq<TableEntry> {
        match self.schema {
            SchemaKind::Table { dict, .. } => dict@,
            _ => Seq::empty(),
        }
    }

    pub open spec fn max_code_len_spec(&self) -> usize {
        match self.schema {
            SchemaKind::Table { max_code_len, .. } => max_code_len,
            _ => 0,
        }
    }

    pub open spec fn auto_select_spec(&self) -> bool {
        match self.schema {
            SchemaKind::Table { auto_select, .. } => auto_select,
            _ => false,
        }
    }

    /// The pinyin dictionary (empty for a shape-code scheme).
    pub open spec fn script_entries(&self) -> Seq<PinyinEntry> {
        match self.schema {
            SchemaKind::Script { dict } => dict@,
            _ => Seq::empty(),
        }
    }

    /// The double-pinyin map of a pinyin scheme, if any.
    pub open spec fn script_zrm(&self) -> Option<Seq<ZrmEntry>> {
        match self.schema {
            SchemaKind::Script { dict } => dict.zrm_view(),
            _ => None,
        }
    }

    /// The table kept for annotating reverse-lookup candidates.
    pub open spec fn annot_entries(&self) -> Option<Seq<TableEntry>> {
        match self.table_dict {
            Some(d) => Some(d@),
            None => None,
        }
    }

    pub open spec fn user_dict_path_view(&self) -> Option<Seq<char>> {
        match self.user_dict_path {
            Some(p) => Some(p@),
            None => None,
        }
    }

    pub fn new(schema: SchemaKind) -> (e: Engine)
        ensures
            e.schema == schema,
            e.table_dict is None,
            e.reverse_lookup is None,
            e.user_dict is None,
            e.user_dict_path is None,
            e.punctuator is None,
    {
        Engine {
            schema,
            table_dict: None,
            reverse_lookup: None,
            user_dict: None,
            user_dict_path: None,
            punctuator: None,
        }
    }

    pub fn with_reverse_lookup(self, rl: ReverseLookup) -> (e: Engine)
        ensures
            e == (Engine { reverse_lookup: Some(rl), ..self }),
    {
        Engine { reverse_lookup: Some(rl), ..self }
    }

    pub fn with_user_dict(self, ud: UserDict) -> (e: Engine)
        ensures
            e == (Engine { user_dict: Some(ud), ..self }),
    {
        Engine { user_dict: Some(ud), ..self }
    }

    pub fn with_user_dict_path(self, path: String) -> (e: Engine)
        ensures
            e == (Engine { user_dict_path: Some(path), ..self }),
    {
        Engine { user_dict_path: Some(path), ..self }
    }

    pub fn with_punctuator(self, p: Punctuator) -> (e: Engine)
        ensures
            e == (Engine { punctuator: Some(p), ..self }),
    {
        Engine { punctuator: Some(p), ..self }
    }

    /// Keeps a table for annotating reverse-lookup candidates with codes.
    pub fn with_table_dict(self, d: Dict) -> (e: Engine)
        ensures
            e == (Engine { table_dict: Some(d), ..self }),
    {
        Engine { table_dict: Some(d), ..self }
    }

    /// Where the user dictionary is saved, if configured.
    pub fn user_dict_path(&self) -> (r: Option<&str>)
        ensures
            match self.user_dict_path_view() {
                Some(p) => r matches Some(s) && s@ == p,
                None => r is None,
            },
    {
        match &self.user_dict_path {
            Some(p) => Some(p.as_str()),
            None => None,
        }
    }

    pub fn is_table(&self) -> (b: bool)
        ensures
            b == self.is_table_spec(),
    {
        match &self.schema {
            SchemaKind::Table { .. } => true,
            _ => false,
        }
    }

    /// Applies learned (code, word) selections to the user dictionary, in
    /// order; without a user dictionary nothing changes.
    pub fn learn_all(&mut self, learned: &Vec<(String, String)>)
        ensures
            final(self).schema == old(self).schema,
            final(self).table_dict == old(self).table_dict,
            final(self).reverse_lookup == old(self).reverse_lookup,
            final(self).punctuator == old(self).punctuator,
            final(self).user_dict_path == old(self).user_dict_path,
            old(self).user_dict is None ==> final(self).user_dict is None,
            old(self).user_dict matches Some(u) ==> (final(self).user_dict matches Some(u2)
                && (forall|c: Seq<char>, w: Seq<char>| #[trigger] crate::user_dict::count_of(u2@, c, w)
                    == crate::user_dict::learned_count(u@, learned_pairs(learned@), c, w))
                && u2.saved_view() == u.saved_view() && u2.fails_next_commit() == u.fails_next_commit()),
    {
        let mut ud_opt: Option<UserDict> = None;
        std::mem::swap(&mut ud_opt, &mut self.user_dict);
        match ud_opt {
            Some(mut ud) => {
                let ghost u0 = ud;
                let ghost lp = learned_pairs(learned@);
                let mut i: usize = 0;
                while i < learned.len()
                    invariant
                        i <= learned@.len(),
                        lp == learned_pairs(learned@),
                        forall|c: Seq<char>, w: Seq<char>| #[trigger] crate::user_dict::count_of(ud@, c, w)
                            == crate::user_dict::learned_count(u0@, lp.take(i as int), c, w),
                        ud.saved_view() == u0.saved_view(),
                        ud.fails_next_commit() == u0.fails_next_commit(),
                    decreases learned@.len() - i,
                {
                    let ghost before = ud@;
                    proof {
                        assert(lp.take(i + 1).drop_last() =~= lp.take(i as int));
                        assert(lp.take(i + 1).last() == lp[i as int]);
                        assert(lp[i as int] == (learned@[i as int].0@, learned@[i as int].1@));
                    }
                    ud.learn(learned[i].0.as_str(), learned[i].1.as_str());
                    assert forall|c: Seq<char>, w: Seq<char>| #[trigger] crate::user_dict::count_of(ud@, c, w)
                        == crate::user_dict::learned_count(u0@, lp.take(i + 1), c, w) by {
                        assert(crate::user_dict::count_of(before, c, w) == crate::user_dict::learned_count(u0@, lp.take(i as int), c, w));
                    }
                    i += 1;
                }
                assert(lp.take(learned@.len() as int) =~= lp);
                self.user_dict = Some(ud);
            },
            None => {},
        }
    }

    /// A fresh session on this engine: empty buffer, cursor 0, no sentence
    /// candidates, not in ASCII mode.
    pub fn session(&self) -> (s: Session<'_>)
        ensures
            *s.engine_of() == *self,
            s.buf_view().len() == 0,
            s.cursor_view() == 0,
            s.sentences_view().len() == 0,
            s.learned_view().len() == 0,
            !s.ascii_view(),
    {
        Session {
            engine: self,
            buf: String::new(),
            cursor: 0,
            sentence_cands: Vec::new(),
            sentence_offset: 0,
            ascii_mode: false,
            preceding_word: None,
            learned: Vec::new(),
        }
    }
}

/// An input session: a buffer of typed keys with a caret, and the sentence
/// candidates composed for it.
pub struct Session<'a> {
    engine: &'a Engine,
    buf: String,
    cursor: usize,
    sentence_cands: Vec<SentenceCandidate>,
    sentence_offset: usize,
    /// Western (ASCII) mode.
    pub ascii_mode: bool,
    preceding_word: Option<String>,
    learned: Vec<(String, String)>,
}

/// The caret `c` kept within a buffer of `n` characters.
pub open spec fn caret_in(c: nat, n: nat) -> nat {
    if c <= n { c } else { n }
}

pub open spec fn learned_pairs(v: Seq<(String, String)>) -> Seq<(Seq<char>, Seq<char>)> {
    v.map_values(|p: (String, String)| (p.0@, p.1@))
}

impl<'a> Session<'a> {
    pub closed spec fn engine_of(&self) -> &'a Engine {
        self.engine
    }

    pub closed spec fn ascii_view(&self) -> bool {
        self.ascii_mode
    }

    /// Switches western (ASCII) mode.
    pub fn set_ascii_mode(&mut self, on: bool)
        ensures
            final(self).ascii_view() == on,
            final(self).buf_view() == old(self).buf_view(),
            final(self).cursor_view() == old(self).cursor_view(),
            final(self).sentences_view() == old(self).sentences_view(),
            final(self).learned_view() == old(self).learned_view(),
            final(self).engine_of() == old(self).engine_of(),
    {
        self.ascii_mode = on;
    }

    pub closed spec fn buf_view(&self) -> Seq<char> {
        self.buf@
    }

    pub closed spec fn cursor_view(&self) -> nat {
        self.cursor as nat
    }

    pub closed spec fn sentences_view(&self) -> Seq<SentenceCandidate> {
        self.sentence_cands@
    }

    /// The (code, word) selections this session learned, in order.
    pub closed spec fn learned_view(&self) -> Seq<(Seq<char>, Seq<char>)> {
        learned_pairs(self.learned@)
    }

    pub closed spec fn preceding_view(&self) -> Option<Seq<char>> {
        match self.preceding_word {
            Some(w) => Some(w@),
            None => None,
        }
    }

    /// The pending (typed) text.
    /// The caret, as a character index into the buffer.
    pub fn cursor(&self) -> (c: usize)
        ensures
            c == self.cursor_view(),
    {
        self.cursor
    }

    pub fn pending(&self) -> (s: &str)
        ensures
            s@ == self.buf_view(),
    {
        self.buf.as_str()
    }

    /// The buffer, for a shell that edits it in place.
    pub fn buf_mut(&mut self) -> (r: &mut String)
        ensures
            (*r)@ == old(self).buf_view(),
            final(self).buf_view() == (*final(r))@,
            final(self).cursor_view() == old(self).cursor_view(),
            final(self).sentences_view() == old(self).sentences_view(),
            final(self).learned_view() == old(self).learned_view(),
            final(self).engine_of() == old(self).engine_of(),
            final(self).ascii_view() == old(self).ascii_view(),
    {
        &mut self.buf
    }

    /// Replaces the buffer; the caret goes to its end.
    pub fn set_buf(&mut self, b: String)
        ensures
            final(self).buf_view() == b@,
            final(self).cursor_view() == b@.len(),
            final(self).sentences_view() == old(self).sentences_view(),
            final(self).learned_view() == old(self).learned_view(),
            final(self).engine_of() == old(self).engine_of(),
            final(self).ascii_view() == old(self).ascii_view(),
    {
        let n = chars_of(b.as_str()).len();
        self.buf = b;
        self.cursor = n;
    }

    pub fn set_sentence_cands(&mut self, sc: Vec<SentenceCandidate>)
        ensures
            final(self).sentences_view() == sc@,
            final(self).buf_view() == old(self).buf_view(),
            final(self).cursor_view() == old(self).cursor_view(),
            final(self).learned_view() == old(self).learned_view(),
            final(self).engine_of() == old(self).engine_of(),
            final(self).ascii_view() == old(self).ascii_view(),
    {
        self.sentence_cands = sc;
    }

    /// Hands out the buffer, the sentence candidates and the caret, leaving
    /// the session empty.
    pub fn take_state(&mut self) -> (r: (String, Vec<SentenceCandidate>, usize))
        ensures
            r.0@ == old(self).buf_view(),
            r.1@ == old(self).sentences_view(),
            r.2 == old(self).cursor_view(),
            final(self).buf_view().len() == 0,
            final(self).cursor_view() == 0,
            final(self).sentences_view().len() == 0,
            final(self).learned_view() == old(self).learned_view(),
            final(self).engine_of() == old(self).engine_of(),
            final(self).ascii_view() == old(self).ascii_view(),
    {
        let mut b = String::new();
        std::mem::swap(&mut b, &mut self.buf);
        let mut sc: Vec<SentenceCandidate> = Vec::new();
        std::mem::swap(&mut sc, &mut self.sentence_cands);
        let c = self.cursor;
        self.cursor = 0;
        (b, sc, c)
    }

    /// Restores a buffer and its sentence candidates; the caret goes to the
    /// end.
    pub fn restore_state(&mut self, buf: String, sc: Vec<SentenceCandidate>)
        ensures
            final(self).buf_view() == buf@,
            final(self).cursor_view() == buf@.len(),
            final(self).sentences_view() == sc@,
            final(self).learned_view() == old(self).learned_view(),
            final(self).engine_of() == old(self).engine_of(),
            final(self).ascii_view() == old(self).ascii_view(),
    {
        let n = chars_of(buf.as_str()).len();
        self.buf = buf;
        self.cursor = n;
        self.sentence_cands = sc;
    }

    /// Restores a buffer, its sentence candidates and the caret (clamped to
    /// the buffer's length).
    pub fn restore_state_at(&mut self, buf: String, sc: Vec<SentenceCandidate>, cursor: usize)
        ensures
            final(self).buf_view() == buf@,
            final(self).cursor_view() == if cursor <= buf@.len() { cursor as nat } else { buf@.len() },
            final(self).sentences_view() == sc@,
            final(self).learned_view() == old(self).learned_view(),
            final(self).engine_of() == old(self).engine_of(),
            final(self).ascii_view() == old(self).ascii_view(),
    {
        let n = chars_of(buf.as_str()).len();
        self.buf = buf;
        self.cursor = if cursor <= n { cursor } else { n };
        self.sentence_cands = sc;
    }

    /// Sets the word before the composition (context for scoring).
    pub fn set_preceding_word(&mut self, w: Option<String>)
        ensures
            final(self).preceding_view() == match w {
                Some(s) => Some(s@),
                None => None::<Seq<char>>,
            },
            final(self).buf_view() == old(self).buf_view(),
            final(self).cursor_view() == old(self).cursor_view(),
            final(self).sentences_view() == old(self).sentences_view(),
            final(self).learned_view() == old(self).learned_view(),
            final(self).engine_of() == old(self).engine_of(),
            final(self).ascii_view() == old(self).ascii_view(),
    {
        self.preceding_word = w;
    }

    /// Hands out the selections learned so far, leaving none.
    pub fn take_learned(&mut self) -> (r: Vec<(String, String)>)
        ensures
            learned_pairs(r@) == old(self).learned_view(),
            final(self).learned_view().len() == 0,
            final(self).buf_view() == old(self).buf_view(),
            final(self).cursor_view() == old(self).cursor_view(),
            final(self).sentences_view() == old(self).sentences_view(),
            final(self).engine_of() == old(self).engine_of(),
            final(self).ascii_view() == old(self).ascii_view(),
    {
        let mut l: Vec<(String, String)> = Vec::new();
        std::mem::swap(&mut l, &mut self.learned);
        assert(learned_pairs(self.learned@) =~= Seq::<(Seq<char>, Seq<char>)>::empty());
        l
    }

    /// Whether the buffer is in reverse-lookup mode (starts with the prefix).
    pub fn in_reverse_mode(&self) -> (b: bool)
        ensures
            b == reverse_mode(*self.engine_of(), self.buf_view()),
    {
        match &self.engine.reverse_lookup {
            Some(rl) => {
                let cs = chars_of(self.buf.as_str());
                cs.len() > 0 && cs[0] == rl.prefix()
            },
            None => false,
        }
    }

    /// Deletes the last character of the buffer; `false` when it is empty.
    /// The sentence candidates are dropped either way, and the caret stays
    /// within the buffer.
    pub fn backspace(&mut self) -> (b: bool)
        ensures
            b == (old(self).buf_view().len() > 0),
            final(self).buf_view() == if b { old(self).buf_view().drop_last() } else { old(self).buf_view() },
            final(self).cursor_view() == if old(self).cursor_view() <= final(self).buf_view().len() {
                old(self).cursor_view() } else { final(self).buf_view().len() },
            final(self).sentences_view().len() == 0,
            final(self).learned_view() == old(self).learned_view(),
            final(self).engine_of() == old(self).engine_of(),
            final(self).ascii_view() == old(self).ascii_view(),
    {
        self.sentence_cands = Vec::new();
        let mut cs = chars_of(self.buf.as_str());
        let n = cs.len();
        if n == 0 {
            if self.cursor > 0 {
                self.cursor = 0;
            }
            return false;
        }
        let _ = cs.pop();
        self.buf = string_of(cs.as_slice());
        if self.cursor > n - 1 {
            self.cursor = n - 1;
        }
        true
    }

    /// Deletes the character before the caret; `false` when the caret is
    /// at the start. The sentence candidates are dropped either way.
    pub fn delete_before_cursor(&mut self) -> (b: bool)
        ensures
            ({
                let c = if old(self).cursor_view() <= old(self).buf_view().len() { old(self).cursor_view() } else { old(self).buf_view().len() };
                &&& b == (c > 0)
                &&& b ==> final(self).buf_view() == old(self).buf_view().remove(c - 1) && final(self).cursor_view() == c - 1
                &&& !b ==> final(self).buf_view() == old(self).buf_view() && final(self).cursor_view() == old(self).cursor_view()
            }),
            final(self).sentences_view().len() == 0,
            final(self).learned_view() == old(self).learned_view(),
            final(self).engine_of() == old(self).engine_of(),
            final(self).ascii_view() == old(self).ascii_view(),
    {
        self.sentence_cands = Vec::new();
        let mut cs = chars_of(self.buf.as_str());
        let c = if self.cursor <= cs.len() { self.cursor } else { cs.len() };
        if c == 0 {
            return false;
        }
        cs.remove(c - 1);
        self.buf = string_of(cs.as_slice());
        self.cursor = c - 1;
        true
    }

    /// Empties the buffer and the sentence candidates.
    pub fn clear(&mut self)
        ensures
            final(self).buf_view().len() == 0,
            final(self).cursor_view() == 0,
            final(self).sentences_view().len() == 0,
            final(self).learned_view() == old(self).learned_view(),
            final(self).engine_of() == old(self).engine_of(),
            final(self).ascii_view() == old(self).ascii_view(),
    {
        self.buf = String::new();
        self.cursor = 0;
        self.sentence_cands = Vec::new();
    }

    /// Hands out the pending text (on a focus or mode switch), leaving the
    /// session empty; `None` when nothing is pending.
    pub fn flush(&mut self) -> (r: Option<String>)
        ensures
            old(self).buf_view().len() == 0 ==> r is None,
            old(self).buf_view().len() > 0 ==> (r matches Some(s) && s@ == old(self).buf_view()),
            final(self).buf_view().len() == 0,
            final(self).cursor_view() == 0,
            final(self).sentences_view().len() == 0,
            final(self).learned_view() == old(self).learned_view(),
            final(self).engine_of() == old(self).engine_of(),
            final(self).ascii_view() == old(self).ascii_view(),
    {
        self.sentence_cands = Vec::new();
        self.cursor = 0;
        if chars_of(self.buf.as_str()).len() == 0 {
            None
        } else {
            let mut b = String::new();
            std::mem::swap(&mut b, &mut self.buf);
            Some(b)
        }
    }
}

/// `ch` lower-cased (ASCII letters only).
pub fn lower_key(ch: char) -> (c: char)
    ensures
        c == key_letter(ch),
{
    let b = ch as u32;
    if 65 <= b && b <= 90 {
        let x: u8 = (b + 32) as u8;
        assert(x as u32 == (ch as u32) + 32);
        x as char
    } else {
        ch
    }
}

pub fn is_alpha(c: char) -> (b: bool)
    ensures
        b == is_ascii_alpha(c),
{
    ('a' <= c && c <= 'z') || ('A' <= c && c <= 'Z')
}

pub fn is_alnum(c: char) -> (b: bool)
    ensures
        b == is_ascii_alnum(c),
{
    is_alpha(c) || ('0' <= c && c <= '9')
}

/// A one-character string.
pub fn char_string(c: char) -> (s: String)
    ensures
        s@ == seq![c],
{
    let mut s = String::new();
    push_char(&mut s, c);
    assert(s@ =~= seq![c]);
    s
}

/// The words of a sentence, concatenated.
pub fn join_strings(ws: &Vec<String>) -> (r: String)
    ensures
        r@ == join_words(strings_view(ws@)),
{
    let mut r = String::new();
    let mut i: usize = 0;
    while i < ws.len()
        invariant
            i <= ws@.len(),
            r@ == join_words(strings_view(ws@.take(i as int))),
        decreases ws@.len() - i,
    {
        crate::zrm::append_str(&mut r, ws[i].as_str());
        proof {
            assert(strings_view(ws@.take(i + 1)).drop_last() =~= strings_view(ws@.take(i as int)));
            assert(strings_view(ws@.take(i + 1)).last() == ws@[i as int]@);
        }
        i += 1;
    }
    assert(ws@.take(ws@.len() as int) == ws@);
    r
}

/// Codes joined with '/'.
fn join_codes(cs: &Vec<String>) -> (r: String)
    ensures
        r@ == join_slash(strings_view(cs@)),
{
    let mut r = String::new();
    let mut i: usize = 0;
    while i < cs.len()
        invariant
            i <= cs@.len(),
            r@ == join_slash(strings_view(cs@.take(i as int))),
        decreases cs@.len() - i,
    {
        let ghost before = r@;
        if i > 0 {
            push_char(&mut r, '/');
        }
        crate::zrm::append_str(&mut r, cs[i].as_str());
        proof {
            let t = strings_view(cs@.take(i + 1));
            assert(t.drop_last() =~= strings_view(cs@.take(i as int)));
            assert(t.last() == cs@[i as int]@);
            if i == 0 {
                assert(r@ =~= t[0]);
            } else {
                assert(r@ =~= before + seq!['/'] + t.last());
            }
        }
        i += 1;
    }
    assert(cs@.take(cs@.len() as int) == cs@);
    r
}

/// Whether some candidate has word `w`.
fn has_word(out: &Vec<Candidate>, w: &str) -> (b: bool)
    ensures
        b == exists|k: int| 0 <= k < out@.len() && cands_view(out@)[k].0 == w@,
{
    let mut i: usize = 0;
    while i < out.len()
        invariant
            i <= out@.len(),
            forall|k: int| 0 <= k < i ==> cands_view(out@)[k].0 != w@,
        decreases out@.len() - i,
    {
        if str_eq(out[i].word.as_str(), w) {
            assert(cands_view(out@)[i as int].0 == w@);
            return true;
        }
        i += 1;
    }
    false
}

/// Appends `c` unless the list is full or holds its word.
fn push_distinct(out: &mut Vec<Candidate>, c: Candidate, limit: usize)
    ensures
        cands_view(final(out)@) == if old(out)@.len() >= limit
            || (exists|k: int| 0 <= k < old(out)@.len() && cands_view(old(out)@)[k].0 == c.word@) {
            cands_view(old(out)@)
        } else {
            cands_view(old(out)@).push(cand_view(c))
        },
{
    if out.len() >= limit {
        return;
    }
    if has_word(out, c.word.as_str()) {
        return;
    }
    let ghost before = out@;
    out.push(c);
    assert(cands_view(out@) =~= cands_view(before).push(cand_view(c)));
}

proof fn lemma_add_distinct_step(out: Seq<CandView>, items: Seq<CandView>, i: int, limit: int)
    requires
        0 <= i < items.len(),
    ensures
        add_distinct(out, items.take(i + 1), limit) == ({
            let o = add_distinct(out, items.take(i), limit);
            if o.len() >= limit || (exists|k: int| 0 <= k < o.len() && o[k].0 == items[i].0) { o } else { o.push(items[i]) }
        }),
{
    assert(items.take(i + 1).drop_last() =~= items.take(i));
    assert(items.take(i + 1).last() == items[i]);
}

/// `w` is the word of one of `cs`.
pub open spec fn lists_word(cs: Seq<CandView>, w: Seq<char>) -> bool {
    exists|k: int| 0 <= k < cs.len() && cs[k].0 == w
}

/// `w` is among all the candidates of the buffer: what `select_word` commits.
pub open spec fn selectable(e: Engine, buf: Seq<char>, sents: Seq<SentenceCandidate>, w: Seq<char>) -> bool {
    lists_word(cands_spec(e, buf, sents, usize::MAX), w)
}

/// The dictionaries and sentences are few enough that no list of all
/// candidates reaches `usize::MAX` entries.
pub open spec fn lists_fit(e: Engine, sents: Seq<SentenceCandidate>) -> bool {
    2 * e.script_entries().len() + 2 * rl_entries(e).len() + sents.len() < usize::MAX
}

proof fn lemma_add_distinct_len(out: Seq<CandView>, items: Seq<CandView>, limit: int)
    ensures
        add_distinct(out, items, limit).len() <= out.len() + items.len(),
        out.len() <= limit ==> add_distinct(out, items, limit).len() <= limit,
    decreases items.len(),
{
    if items.len() > 0 {
        lemma_add_distinct_len(out, items.drop_last(), limit);
    }
}

/// The words of `out` stay among the result's.
proof fn lemma_add_distinct_keeps(out: Seq<CandView>, items: Seq<CandView>, limit: int, w: Seq<char>)
    requires
        lists_word(out, w),
    ensures
        lists_word(add_distinct(out, items, limit), w),
    decreases items.len(),
{
    if items.len() > 0 {
        lemma_add_distinct_keeps(out, items.drop_last(), limit, w);
        let o = add_distinct(out, items.drop_last(), limit);
        let k = choose|k: int| 0 <= k < o.len() && o[k].0 == w;
        assert(o.push(items.last())[k] == o[k]);
    }
}

/// A larger limit over more words lists every word a smaller one does,
/// while the larger never fills.
proof fn lemma_add_distinct_mono(o1: Seq<CandView>, o2: Seq<CandView>, items: Seq<CandView>, l1: int, l2: int, w: Seq<char>)
    requires
        forall|v: Seq<char>| lists_word(o1, v) ==> lists_word(o2, v),
        o2.len() + items.len() < l2,
        lists_word(add_distinct(o1, items, l1), w),
    ensures
        lists_word(add_distinct(o2, items, l2), w),
    decreases items.len(),
{
    if items.len() == 0 {
    } else {
        let t = items.drop_last();
        let x = items.last();
        let a1 = add_distinct(o1, t, l1);
        let a2 = add_distinct(o2, t, l2);
        lemma_add_distinct_len(o2, t, l2);
        if lists_word(a1, w) {
            lemma_add_distinct_mono(o1, o2, t, l1, l2, w);
            let k = choose|k: int| 0 <= k < a2.len() && a2[k].0 == w;
            assert(a2.push(x)[k] == a2[k]);
        } else {
            assert(w == x.0) by {
                let k = choose|k: int| 0 <= k < add_distinct(o1, items, l1).len() && add_distinct(o1, items, l1)[k].0 == w;
                if k < a1.len() {
                    assert(add_distinct(o1, items, l1)[k] == a1[k]);
                }
            }
            if exists|k: int| 0 <= k < a2.len() && a2[k].0 == x.0 {
            } else {
                assert(a2.push(x)[a2.len() as int] == x);
            }
        }
    }
}

/// Stable sorting keeps every element.
proof fn lemma_sort_keeps<A>(s: Seq<A>, le: spec_fn(A, A) -> bool, x: A)
    requires
        s.contains(x),
    ensures
        crate::seqs::stable_sort_by(s, le).contains(x),
        crate::seqs::stable_sort_by(s, le).len() == s.len(),
    decreases s.len(),
{
    let t = crate::seqs::stable_sort_by(s.drop_last(), le);
    sort_len(s.drop_last(), le);
    crate::seqs::lemma_upper_pos_by_range(t, s.last(), le);
    let p = crate::seqs::upper_pos_by(t, s.last(), le);
    if x == s.last() {
        assert(t.insert(p, s.last())[p] == x);
    } else {
        let i = choose|i: int| 0 <= i < s.len() && s[i] == x;
        assert(s.drop_last()[i] == x);
        lemma_sort_keeps(s.drop_last(), le, x);
        let j = choose|j: int| 0 <= j < t.len() && t[j] == x;
        if j < p {
            assert(t.insert(p, s.last())[j] == x);
        } else {
            assert(t.insert(p, s.last())[j + 1] == x);
        }
    }
}

proof fn sort_len<A>(s: Seq<A>, le: spec_fn(A, A) -> bool)
    ensures
        crate::seqs::stable_sort_by(s, le).len() == s.len(),
    decreases s.len(),
{
    if s.len() > 0 {
        sort_len(s.drop_last(), le);
        crate::seqs::lemma_upper_pos_by_range(crate::seqs::stable_sort_by(s.drop_last(), le), s.last(), le);
    }
}

proof fn lemma_sort_lists(s: Seq<CandView>, le: spec_fn(CandView, CandView) -> bool, w: Seq<char>)
    requires
        lists_word(s, w),
    ensures
        lists_word(crate::seqs::stable_sort_by(s, le), w),
{
    let k = choose|k: int| 0 <= k < s.len() && s[k].0 == w;
    lemma_sort_keeps(s, le, s[k]);
    let t = crate::seqs::stable_sort_by(s, le);
    let j = choose|j: int| 0 <= j < t.len() && t[j] == s[k];
    assert(t[j].0 == w);
}

proof fn lemma_sort_lists_back(s: Seq<CandView>, le: spec_fn(CandView, CandView) -> bool, w: Seq<char>)
    requires
        lists_word(crate::seqs::stable_sort_by(s, le), w),
    ensures
        lists_word(s, w),
    decreases s.len(),
{
    let t = crate::seqs::stable_sort_by(s.drop_last(), le);
    if s.len() > 0 {
        sort_len(s.drop_last(), le);
        crate::seqs::lemma_upper_pos_by_range(t, s.last(), le);
        let p = crate::seqs::upper_pos_by(t, s.last(), le);
        let u = t.insert(p, s.last());
        let k = choose|k: int| 0 <= k < u.len() && u[k].0 == w;
        if k == p {
            assert(s[s.len() - 1].0 == w);
        } else {
            let j = if k < p { k } else { k - 1 };
            assert(t[j].0 == w);
            lemma_sort_lists_back(s.drop_last(), le, w);
            let i = choose|i: int| 0 <= i < s.drop_last().len() && s.drop_last()[i].0 == w;
            assert(s[i].0 == w);
        }
    }
}

proof fn lemma_take_lists(s: Seq<CandView>, a: int, b: int, w: Seq<char>)
    requires
        0 < a <= b,
        lists_word(take_at_most(s, a), w),
    ensures
        lists_word(take_at_most(s, b), w),
{
    let k = choose|k: int| 0 <= k < take_at_most(s, a).len() && take_at_most(s, a)[k].0 == w;
    assert(take_at_most(s, a)[k] == s[k]);
    assert(take_at_most(s, b)[k] == s[k]);
}

/// A shape-code key that completes a full-length code with auto-select on:
/// it commits, emptying the buffer, exactly when one table entry starts
/// with the new code (that entry's word); with two or more the key is
/// taken and the session waits on the longer code; with none the key is
/// refused and the buffer kept. This holds whether the key is appended
/// (`feed`) or put in at the caret (`feed_at_cursor`).
pub proof fn law_full_code_commits_only_a_unique_match(e: Engine, buf: Seq<char>, cur: nat, ascii: bool, ch: char)
    requires
        e.is_table_spec(),
        e.auto_select_spec(),
        pre_speller(e, buf, cur, ascii, ch) is None,
        buf.len() + 1 == e.max_code_len_spec(),
        cur <= buf.len(),
    ensures
        ({
            let b2 = buf.push(key_letter(ch));
            let ms = table_matches(e.table_entries(), b2);
            let o = feed_spec(e, buf, cur, ascii, ch);
            &&& (o.0 is Committed) <==> ms.len() == 1
            &&& ms.len() == 1 ==> o.0 == FeedView::Committed(ms[0].1) && o.1.len() == 0
            &&& ms.len() >= 2 ==> o.0 == FeedView::Waiting && o.1 == b2
            &&& ms.len() == 0 ==> o.0 == FeedView::Rejected && o.1 == buf
        }),
        ({
            let b2 = buf.insert(cur as int, key_letter(ch));
            let ms = table_matches(e.table_entries(), b2);
            let o = feed_at_spec(e, buf, cur, ascii, ch);
            &&& (o.0 is Committed) <==> ms.len() == 1
            &&& ms.len() == 1 ==> o.0 == FeedView::Committed(ms[0].1) && o.1.len() == 0
            &&& ms.len() >= 2 ==> o.0 == FeedView::Waiting && o.1 == b2
            &&& ms.len() == 0 ==> o.0 == FeedView::Rejected && o.1 == buf
        }),
{
}

/// Any other shape-code letter: a full buffer refuses it; short of a
/// full-length code (or without auto-select) it is taken, and the session
/// waits on the longer code, exactly when some table entry starts with that
/// code, and it is refused, the buffer kept, when none does. Nothing is
/// committed.
pub proof fn law_table_letter_waits_while_a_code_matches(e: Engine, buf: Seq<char>, cur: nat, ascii: bool, ch: char)
    requires
        e.is_table_spec(),
        pre_speller(e, buf, cur, ascii, ch) is None,
        cur <= buf.len(),
        buf.len() + 1 < e.max_code_len_spec() || !e.auto_select_spec() || buf.len() >= e.max_code_len_spec(),
    ensures
        ({
            let b2 = buf.push(key_letter(ch));
            let o = feed_spec(e, buf, cur, ascii, ch);
            &&& buf.len() >= e.max_code_len_spec() ==> o.0 == FeedView::Rejected && o.1 == buf
            &&& buf.len() < e.max_code_len_spec() ==> {
                &&& table_matches(e.table_entries(), b2).len() > 0 ==> o.0 == FeedView::Waiting && o.1 == b2
                &&& table_matches(e.table_entries(), b2).len() == 0 ==> o.0 == FeedView::Rejected && o.1 == buf
            }
        }),
        ({
            let b2 = buf.insert(cur as int, key_letter(ch));
            let o = feed_at_spec(e, buf, cur, ascii, ch);
            &&& buf.len() >= e.max_code_len_spec() ==> o.0 == FeedView::Rejected && o.1 == buf
            &&& buf.len() < e.max_code_len_spec() ==> {
                &&& table_matches(e.table_entries(), b2).len() > 0 ==> o.0 == FeedView::Waiting && o.1 == b2
                &&& table_matches(e.table_entries(), b2).len() == 0 ==> o.0 == FeedView::Rejected && o.1 == buf
            }
        }),
{
}

proof fn lemma_add_distinct_shape(out: Seq<CandView>, items: Seq<CandView>, lim: int)
    ensures
        out.len() <= add_distinct(out, items, lim).len(),
        add_distinct(out, items, lim).take(out.len() as int) == out,
        forall|k: int| out.len() <= k < add_distinct(out, items, lim).len()
            ==> items.contains(#[trigger] add_distinct(out, items, lim)[k]),
        forall|x: CandView| #[trigger] items.contains(x)
            ==> lists_word(add_distinct(out, items, lim), x.0) || add_distinct(out, items, lim).len() >= lim,
    decreases items.len(),
{
    if items.len() > 0 {
        let t = items.drop_last();
        let x = items.last();
        lemma_add_distinct_shape(out, t, lim);
        let o = add_distinct(out, t, lim);
        let r = add_distinct(out, items, lim);
        if r != o {
            assert(r == o.push(x));
            assert(r.take(out.len() as int) =~= o.take(out.len() as int));
        }
        assert forall|k: int| out.len() <= k < r.len() implies items.contains(#[trigger] r[k]) by {
            if k < o.len() {
                assert(r[k] == o[k]);
                let i = choose|i: int| 0 <= i < t.len() && t[i] == o[k];
                assert(items[i] == t[i]);
            } else {
                assert(r[k] == x);
                assert(items[items.len() - 1] == x);
            }
        }
        assert forall|y: CandView| #[trigger] items.contains(y) implies lists_word(r, y.0) || r.len() >= lim by {
            let i = choose|i: int| 0 <= i < items.len() && items[i] == y;
            if i < items.len() - 1 {
                assert(t[i] == y);
                assert(t.contains(y));
                if lists_word(o, y.0) {
                    let k = choose|k: int| 0 <= k < o.len() && o[k].0 == y.0;
                    assert(r[k] == o[k]);
                }
            } else {
                if r != o {
                    assert(r[o.len() as int] == x);
                }
            }
        }
    }
}

/// `w` is the word of a dictionary entry whose code is the spelling `q`.
pub open spec fn exact_word(d: Seq<PinyinEntry>, q: Seq<char>, w: Seq<char>) -> bool {
    exists|x: PinyinEntry| #[trigger] d.contains(x) && x.0 == q && x.1 == w
}

/// `w` is the text of one of the composed sentences.
pub open spec fn sentence_word(sents: Seq<SentenceCandidate>, w: Seq<char>) -> bool {
    exists|s: SentenceCandidate| #[trigger] sents.contains(s) && sentence_text(s) == w
}

/// `w` is the word of a dictionary entry whose code starts with the
/// spelling `q` (lies between `q` and `q` followed by `'{'`).
pub open spec fn prefix_word(d: Seq<PinyinEntry>, q: Seq<char>, w: Seq<char>) -> bool {
    exists|x: PinyinEntry| #[trigger] d.contains(x) && py_code_between(q, prefix_upper(q))(x) && x.1 == w
}

proof fn lemma_mapped_member(d: Seq<PinyinEntry>, p: spec_fn(PinyinEntry) -> bool, f: spec_fn(PinyinEntry) -> CandView, y: CandView)
    requires
        d.filter(p).map_values(f).contains(y),
    ensures
        exists|x: PinyinEntry| #[trigger] d.contains(x) && p(x) && f(x) == y,
{
    broadcast use vstd::seq_lib::group_filter_ensures;
    let m = d.filter(p).map_values(f);
    let i = choose|i: int| 0 <= i < m.len() && m[i] == y;
    let x = d.filter(p)[i];
    assert(d.filter(p).contains(x));
    d.lemma_filter_contains_rev(p, x);
    assert(p(x));
}

proof fn lemma_member_mapped(d: Seq<PinyinEntry>, p: spec_fn(PinyinEntry) -> bool, f: spec_fn(PinyinEntry) -> CandView, x: PinyinEntry)
    requires
        d.contains(x),
        p(x),
    ensures
        d.filter(p).map_values(f).contains(f(x)),
{
    broadcast use vstd::seq_lib::group_filter_ensures;
    let i = choose|i: int| 0 <= i < d.len() && d[i] == x;
    d.lemma_filter_contains(p, i);
    let fl = d.filter(p);
    let j = choose|j: int| 0 <= j < fl.len() && fl[j] == x;
    assert(fl.map_values(f)[j] == f(x));
}

/// A pinyin scheme's candidates, before the user dictionary reorders them:
/// the exact matches come first, then the composed sentences, then the
/// matches that only start with the spelling; every candidate carries the
/// spelling and is what its source says (an entry with that very code, a
/// composed sentence, an entry whose code starts with the spelling); and
/// every exact match, sentence and prefix match is listed, by its word,
/// unless the list is full.
pub proof fn law_script_candidates_in_order(e: Engine, buf: Seq<char>, sents: Seq<SentenceCandidate>, limit: usize)
    requires
        !e.is_table_spec(),
        !reverse_mode(e, buf),
        buf.len() > 0,
        e.user_dict is None,
    ensures
        ({
            let r = cands_spec(e, buf, sents, limit);
            let input = script_input(e, buf);
            let q = normalize_spec(input);
            let d = e.script_entries();
            let lim = list_limit(limit);
            &&& forall|i: int, j: int| 0 <= i < j < r.len() && (#[trigger] r[j]).2 == CandidateSource::ScriptExact
                    ==> (#[trigger] r[i]).2 == CandidateSource::ScriptExact
            &&& forall|i: int, j: int| 0 <= i < j < r.len() && (#[trigger] r[i]).2 == CandidateSource::ScriptPrefix
                    ==> (#[trigger] r[j]).2 == CandidateSource::ScriptPrefix
            &&& forall|k: int| 0 <= k < r.len() ==> (#[trigger] r[k]).1 == input && {
                    ||| r[k].2 == CandidateSource::ScriptExact && exact_word(d, q, r[k].0)
                    ||| r[k].2 == CandidateSource::ScriptSentence && sentence_word(sents, r[k].0)
                    ||| r[k].2 == CandidateSource::ScriptPrefix && prefix_word(d, q, r[k].0)
                }
            &&& forall|x: PinyinEntry| #[trigger] d.contains(x) && x.0 == q ==> lists_word(r, x.1) || r.len() >= lim
            &&& forall|s: SentenceCandidate| #[trigger] sents.contains(s) ==> lists_word(r, sentence_text(s)) || r.len() >= lim
            &&& forall|x: PinyinEntry| #[trigger] d.contains(x) && py_code_between(q, prefix_upper(q))(x)
                    ==> lists_word(r, x.1) || r.len() >= lim
        }),
{
    let input = script_input(e, buf);
    let q = normalize_spec(input);
    let d = e.script_entries();
    let lim = list_limit(limit);
    let fe = |x: PinyinEntry| (x.1, input, CandidateSource::ScriptExact);
    let fp = |x: PinyinEntry| (x.1, input, CandidateSource::ScriptPrefix);
    let ex = d.filter(py_code_is(q)).map_values(fe);
    let st = sents.map_values(|s: SentenceCandidate| (sentence_text(s), input, CandidateSource::ScriptSentence));
    let pf = d.filter(py_code_between(q, prefix_upper(q))).map_values(fp);
    let a = take_at_most(ex, lim);
    let b = add_distinct(a, st, lim);
    let r = add_distinct(b, pf, lim);
    assert(r == cands_spec(e, buf, sents, limit));
    lemma_add_distinct_shape(a, st, lim);
    lemma_add_distinct_shape(b, pf, lim);
    // Where each candidate comes from.
    assert forall|k: int| 0 <= k < r.len() implies {
        &&& (#[trigger] r[k]).1 == input
        &&& k < a.len() ==> r[k].2 == CandidateSource::ScriptExact && exact_word(d, q, r[k].0)
        &&& a.len() <= k < b.len() ==> r[k].2 == CandidateSource::ScriptSentence && sentence_word(sents, r[k].0)
        &&& b.len() <= k ==> r[k].2 == CandidateSource::ScriptPrefix && prefix_word(d, q, r[k].0)
    } by {
        if k < b.len() {
            assert(r[k] == r.take(b.len() as int)[k]);
            assert(r[k] == b[k]);
            if k < a.len() {
                assert(b[k] == b.take(a.len() as int)[k]);
                assert(b[k] == a[k]);
                assert(a[k] == ex[k]);
                assert(ex.contains(ex[k]));
                lemma_mapped_member(d, py_code_is(q), fe, ex[k]);
            } else {
                assert(st.contains(b[k]));
                let i = choose|i: int| 0 <= i < st.len() && st[i] == b[k];
                assert(sents.contains(sents[i]));
            }
        } else {
            assert(pf.contains(r[k]));
            lemma_mapped_member(d, py_code_between(q, prefix_upper(q)), fp, r[k]);
        }
    }
    // Completeness.
    assert forall|x: PinyinEntry| #[trigger] d.contains(x) && x.0 == q implies lists_word(r, x.1) || r.len() >= lim by {
        lemma_member_mapped(d, py_code_is(q), fe, x);
        let i = choose|i: int| 0 <= i < ex.len() && ex[i] == fe(x);
        if i < a.len() {
            assert(a[i] == ex[i]);
            assert(b[i] == b.take(a.len() as int)[i]);
            assert(r[i] == r.take(b.len() as int)[i]);
        } else {
            assert(a.len() >= lim);
        }
    }
    assert forall|s: SentenceCandidate| #[trigger] sents.contains(s) implies lists_word(r, sentence_text(s)) || r.len() >= lim by {
        let i = choose|i: int| 0 <= i < sents.len() && sents[i] == s;
        assert(st[i] == (sentence_text(s), input, CandidateSource::ScriptSentence));
        assert(st.contains(st[i]));
        if lists_word(b, sentence_text(s)) {
            let k = choose|k: int| 0 <= k < b.len() && b[k].0 == sentence_text(s);
            assert(r[k] == r.take(b.len() as int)[k]);
        }
    }
    assert forall|x: PinyinEntry| #[trigger] d.contains(x) && py_code_between(q, prefix_upper(q))(x)
        implies lists_word(r, x.1) || r.len() >= lim by {
        lemma_member_mapped(d, py_code_between(q, prefix_upper(q)), fp, x);
    }
    // Order.
    assert forall|i: int, j: int| 0 <= i < j < r.len() && (#[trigger] r[j]).2 == CandidateSource::ScriptExact
        implies (#[trigger] r[i]).2 == CandidateSource::ScriptExact by {
        assert(r[j] == r[j]);
        assert(r[i] == r[i]);
    }
    assert forall|i: int, j: int| 0 <= i < j < r.len() && (#[trigger] r[i]).2 == CandidateSource::ScriptPrefix
        implies (#[trigger] r[j]).2 == CandidateSource::ScriptPrefix by {
        assert(r[j] == r[j]);
        assert(r[i] == r[i]);
    }
}

spec fn unsorted_cands(e: Engine, buf: Seq<char>, sents: Seq<SentenceCandidate>, l: usize) -> Seq<CandView> {
    if reverse_mode(e, buf) {
        reverse_cands(e, buf, sents, l)
    } else if e.is_table_spec() {
        table_cands(e, buf, l)
    } else {
        script_cands(e, buf, sents, l)
    }
}

/// Sorting by the user dictionary leaves which words are listed alone.
proof fn lemma_selectable_unsorted(e: Engine, buf: Seq<char>, sents: Seq<SentenceCandidate>, w: Seq<char>)
    ensures
        selectable(e, buf, sents, w) == (buf.len() > 0 && lists_word(unsorted_cands(e, buf, sents, usize::MAX), w)),
{
    let base = unsorted_cands(e, buf, sents, usize::MAX);
    if buf.len() > 0 && !reverse_mode(e, buf) {
        match e.user_dict {
            Some(u) => {
                let le = by_count_view(u@, learn_code(e, buf));
                if lists_word(base, w) {
                    lemma_sort_lists(base, le, w);
                }
                if lists_word(crate::seqs::stable_sort_by(base, le), w) {
                    lemma_sort_lists_back(base, le, w);
                }
            },
            None => {},
        }
    }
}

/// Which words are selectable does not depend on the user dictionary.
pub proof fn lemma_selectable_any_user_dict(e1: Engine, e2: Engine, buf: Seq<char>, sents: Seq<SentenceCandidate>, w: Seq<char>)
    requires
        e1.schema == e2.schema,
        e1.table_dict == e2.table_dict,
        e1.reverse_lookup == e2.reverse_lookup,
    ensures
        selectable(e1, buf, sents, w) == selectable(e2, buf, sents, w),
{
    lemma_selectable_unsorted(e1, buf, sents, w);
    lemma_selectable_unsorted(e2, buf, sents, w);
    assert(unsorted_cands(e1, buf, sents, usize::MAX) == unsorted_cands(e2, buf, sents, usize::MAX)) by {
        assert(rl_entries(e1) == rl_entries(e2));
        assert(e1.script_entries() == e2.script_entries());
        assert(e1.table_entries() == e2.table_entries());
        assert(script_input(e1, buf) == script_input(e2, buf));
        assert forall|x: Seq<char>| annotation(e1, x) == annotation(e2, x) by {}
        if reverse_mode(e1, buf) {
            let q = normalize_spec(buf.drop_first());
            let f = rl_entries(e1).filter(py_code_is(q));
            assert(f.map_values(|x: PinyinEntry| (x.1, annotation(e1, x.1), CandidateSource::Reverse))
                =~= f.map_values(|x: PinyinEntry| (x.1, annotation(e2, x.1), CandidateSource::Reverse)));
            assert(sents.map_values(|s: SentenceCandidate| (sentence_text(s), annotation(e1, sentence_text(s)), CandidateSource::Reverse))
                =~= sents.map_values(|s: SentenceCandidate| (sentence_text(s), annotation(e2, sentence_text(s)), CandidateSource::Reverse)));
        }
    }
}

/// No more candidates are listed than the limit.
pub proof fn lemma_cands_len(e: Engine, buf: Seq<char>, sents: Seq<SentenceCandidate>, limit: usize)
    requires
        0 < limit,
    ensures
        cands_spec(e, buf, sents, limit).len() <= limit,
{
    if buf.len() > 0 {
        let lim = limit as int;
        if reverse_mode(e, buf) {
            let q = normalize_spec(buf.drop_first());
            let ex = rl_entries(e).filter(py_code_is(q)).map_values(|x: PinyinEntry| (x.1, annotation(e, x.1), CandidateSource::Reverse));
            let st = sents.map_values(|s: SentenceCandidate| (sentence_text(s), annotation(e, sentence_text(s)), CandidateSource::Reverse));
            lemma_add_distinct_len(take_at_most(ex, lim), st, lim);
        } else {
            if !e.is_table_spec() {
                let input = script_input(e, buf);
                let q = normalize_spec(input);
                let d = e.script_entries();
                let ex = d.filter(py_code_is(q)).map_values(|x: PinyinEntry| (x.1, input, CandidateSource::ScriptExact));
                let st = sents.map_values(|s: SentenceCandidate| (sentence_text(s), input, CandidateSource::ScriptSentence));
                let pf = d.filter(py_code_between(q, prefix_upper(q))).map_values(|x: PinyinEntry| (x.1, input, CandidateSource::ScriptPrefix));
                lemma_add_distinct_len(take_at_most(ex, lim), st, lim);
                lemma_add_distinct_len(add_distinct(take_at_most(ex, lim), st, lim), pf, lim);
            }
            match e.user_dict {
                Some(u) => { sort_len(unsorted_cands(e, buf, sents, limit), by_count_view(u@, learn_code(e, buf))); },
                None => {},
            }
        }
    }
}

/// A word listed under any limit is among all the candidates, while the
/// lists fit.
pub proof fn lemma_listed_selectable(e: Engine, buf: Seq<char>, sents: Seq<SentenceCandidate>, limit: usize, w: Seq<char>)
    requires
        lists_fit(e, sents),
        0 < limit,
        lists_word(cands_spec(e, buf, sents, limit), w),
    ensures
        selectable(e, buf, sents, w),
{
    if buf.len() == 0 {
        return;
    }
    let big = usize::MAX;
    assert(lists_word(unsorted_cands(e, buf, sents, limit), w)) by {
        if !reverse_mode(e, buf) {
            match e.user_dict {
                Some(u) => { lemma_sort_lists_back(unsorted_cands(e, buf, sents, limit), by_count_view(u@, learn_code(e, buf)), w); },
                None => {},
            }
        }
    }
    assert(lists_word(unsorted_cands(e, buf, sents, big), w)) by {
        if reverse_mode(e, buf) {
            let q = normalize_spec(buf.drop_first());
            let ex = rl_entries(e).filter(py_code_is(q)).map_values(|x: PinyinEntry| (x.1, annotation(e, x.1), CandidateSource::Reverse));
            let st = sents.map_values(|s: SentenceCandidate| (sentence_text(s), annotation(e, sentence_text(s)), CandidateSource::Reverse));
            rl_entries(e).lemma_filter_len(py_code_is(q));
            assert forall|v: Seq<char>| lists_word(take_at_most(ex, limit as int), v) implies lists_word(take_at_most(ex, big as int), v) by {
                lemma_take_lists(ex, limit as int, big as int, v);
            }
            lemma_add_distinct_mono(take_at_most(ex, limit as int), take_at_most(ex, big as int), st, limit as int, big as int, w);
        } else if e.is_table_spec() {
            let m = table_matches(e.table_entries(), buf);
            let f = |x: TableEntry| (x.1, decode_spec(x.0 as int), if decode_spec(x.0 as int) == buf { CandidateSource::Table } else { CandidateSource::TableCompletion });
            let k = choose|k: int| 0 <= k < unsorted_cands(e, buf, sents, limit).len() && unsorted_cands(e, buf, sents, limit)[k].0 == w;
            assert(take_at_most(m, limit as int)[k] == m[k]);
            assert(take_at_most(m, big as int)[k] == m[k]);
            assert(unsorted_cands(e, buf, sents, big)[k] == f(m[k]));
        } else {
            let input = script_input(e, buf);
            let q = normalize_spec(input);
            let d = e.script_entries();
            let ex = d.filter(py_code_is(q)).map_values(|x: PinyinEntry| (x.1, input, CandidateSource::ScriptExact));
            let st = sents.map_values(|s: SentenceCandidate| (sentence_text(s), input, CandidateSource::ScriptSentence));
            let pf = d.filter(py_code_between(q, prefix_upper(q))).map_values(|x: PinyinEntry| (x.1, input, CandidateSource::ScriptPrefix));
            d.lemma_filter_len(py_code_is(q));
            d.lemma_filter_len(py_code_between(q, prefix_upper(q)));
            let i1 = add_distinct(take_at_most(ex, limit as int), st, limit as int);
            let i2 = add_distinct(take_at_most(ex, big as int), st, big as int);
            assert forall|v: Seq<char>| lists_word(take_at_most(ex, limit as int), v) implies lists_word(take_at_most(ex, big as int), v) by {
                lemma_take_lists(ex, limit as int, big as int, v);
            }
            assert forall|v: Seq<char>| lists_word(i1, v) implies lists_word(i2, v) by {
                lemma_add_distinct_mono(take_at_most(ex, limit as int), take_at_most(ex, big as int), st, limit as int, big as int, v);
            }
            lemma_add_distinct_len(take_at_most(ex, big as int), st, big as int);
            lemma_add_distinct_mono(i1, i2, pf, limit as int, big as int, w);
        }
    }
    if !reverse_mode(e, buf) {
        match e.user_dict {
            Some(u) => { lemma_sort_lists(unsorted_cands(e, buf, sents, big), by_count_view(u@, learn_code(e, buf)), w); },
            None => {},
        }
    }
}

impl Engine {
    /// The annotation of a reverse-lookup candidate: its codes in the kept
    /// table joined with '/', or '—'.
    fn annotate(&self, w: &str) -> (r: String)
        ensures
            r@ == annotation(*self, w@),
    {
        match &self.table_dict {
            Some(d) => {
                let codes = d.codes_for_word(w);
                proof {
                    let t = d@.filter(word_is(w@));
                    assert(strings_view(codes@) =~= t.map_values(|x: TableEntry| decode_spec(x.0 as int)));
                }
                if codes.len() == 0 {
                    char_string('—')
                } else {
                    join_codes(&codes)
                }
            },
            None => char_string('—'),
        }
    }
}

impl<'a> Session<'a> {
    /// The full pinyin spelling of the buffer.
    fn normalized_input(&self) -> (r: String)
        ensures
            r@ == script_input(*self.engine_of(), self.buf_view()),
    {
        match &self.engine.schema {
            SchemaKind::Script { dict } => {
                match dict.zrm() {
                    Some(map) => map.to_pinyin(self.buf.as_str()),
                    None => crate::pinyin::normalize_pinyin(self.buf.as_str()),
                }
            },
            _ => crate::pinyin::normalize_pinyin(self.buf.as_str()),
        }
    }

    /// The buffer after the reverse-lookup prefix.
    fn after_prefix(&self) -> (r: String)
        requires
            self.buf_view().len() > 0,
        ensures
            r@ == self.buf_view().drop_first(),
    {
        let cs = chars_of(self.buf.as_str());
        let rest = crate::text::sub_chars(cs.as_slice(), 1, cs.len());
        assert(rest@ =~= self.buf_view().drop_first());
        string_of(rest.as_slice())
    }
}

impl<'a> Session<'a> {
    /// The keys handled before the speller.
    fn feed_pre(&mut self, ch: char) -> (r: Option<FeedResult>)
        requires
            old(self).cursor_view() <= old(self).buf_view().len(),
        ensures
            match pre_speller(*old(self).engine_of(), old(self).buf_view(), old(self).cursor_view(), old(self).ascii_view(), ch) {
                Some(o) => r matches Some(x) && feed_view(x) == o.0 && final(self).buf_view() == o.1
                    && final(self).cursor_view() == o.2
                    && match o.3 {
                        Some(dq) => compose_result(dq.0, dq.1, 9, final(self).sentences_view()),
                        None => final(self).sentences_view() == old(self).sentences_view(),
                    },
                None => r is None && final(self).buf_view() == old(self).buf_view()
                    && final(self).cursor_view() == old(self).cursor_view()
                    && final(self).sentences_view() == old(self).sentences_view(),
            },
            final(self).learned_view() == old(self).learned_view(),
            final(self).engine_of() == old(self).engine_of(),
            final(self).ascii_view() == old(self).ascii_view(),
    {
        let ghost e = *self.engine;
        if self.in_reverse_mode() {
            return Some(self.feed_reverse(ch));
        }
        if chars_of(self.buf.as_str()).len() == 0 {
            match &self.engine.reverse_lookup {
                Some(rl) => {
                    if ch == rl.prefix() {
                        self.buf = char_string(ch);
                        self.cursor = 1;
                        return Some(FeedResult::Waiting);
                    }
                },
                None => {},
            }
        }
        if self.ascii_mode && (is_alnum(ch) || ch == ' ') {
            return Some(FeedResult::Committed(char_string(ch)));
        }
        match &self.engine.punctuator {
            Some(p) => {
                let mut ctx = crate::processor::ProcessCtx::default();
                ctx.ascii_mode = self.ascii_mode;
                match p.process(ch, self.buf.as_str(), &mut ctx) {
                    Some(crate::processor::ProcessOutcome::Handled(r)) => return Some(r),
                    _ => {},
                }
            },
            None => {},
        }
        let c = lower_key(ch);
        if !is_alpha(c) {
            return Some(FeedResult::Rejected);
        }
        None
    }

    /// A key in reverse-lookup mode: the reverse dictionary takes the role
    /// of a pinyin dictionary.
    fn feed_reverse(&mut self, ch: char) -> (r: FeedResult)
        requires
            reverse_mode(*old(self).engine_of(), old(self).buf_view()),
            old(self).cursor_view() <= old(self).buf_view().len(),
        ensures
            match pre_speller(*old(self).engine_of(), old(self).buf_view(), old(self).cursor_view(), old(self).ascii_view(), ch) {
                Some(o) => feed_view(r) == o.0 && final(self).buf_view() == o.1
                    && final(self).cursor_view() == o.2
                    && match o.3 {
                        Some(dq) => compose_result(dq.0, dq.1, 9, final(self).sentences_view()),
                        None => final(self).sentences_view() == old(self).sentences_view(),
                    },
                None => false,
            },
            final(self).learned_view() == old(self).learned_view(),
            final(self).engine_of() == old(self).engine_of(),
            final(self).ascii_view() == old(self).ascii_view(),
    {
        let rl = match &self.engine.reverse_lookup {
            Some(rl) => rl,
            None => return FeedResult::Rejected,
        };
        let c = lower_key(ch);
        if !is_alpha(c) {
            return FeedResult::Rejected;
        }
        let mut q = self.after_prefix();
        push_char(&mut q, c);
        let dict = rl.dict();
        let input = crate::pinyin::normalize_pinyin(q.as_str());
        proof { lemma_strip_idempotent(q@); }
        let exact = dict.exact(input.as_str());
        let prefix = dict.prefix(input.as_str());
        if exact.len() == 0 && prefix.len() == 0 {
            return FeedResult::Rejected;
        }
        let mut cs = chars_of(self.buf.as_str());
        cs.push(c);
        self.buf = string_of(cs.as_slice());
        self.cursor = cs.len();
        self.sentence_cands = compose(input.as_str(), dict, 9);
        FeedResult::Waiting
    }

    /// A letter in a shape-code scheme, inserted at `at`; the caret goes to
    /// `next` when the key is taken.
    fn feed_table(&mut self, c: char, at: usize, append: bool) -> (r: FeedResult)
        requires
            old(self).engine_of().is_table_spec(),
            at <= old(self).buf_view().len(),
        ensures
            ({
                let o = table_letter(*old(self).engine_of(), old(self).buf_view(), old(self).cursor_view(),
                    old(self).buf_view().insert(at as int, c),
                    if append { old(self).buf_view().len() + 1 } else { (at + 1) as nat });
                &&& feed_view(r) == o.0
                &&& final(self).buf_view() == o.1
                &&& final(self).cursor_view() == o.2
            }),
            final(self).sentences_view() == old(self).sentences_view(),
            final(self).learned_view() == old(self).learned_view(),
            final(self).engine_of() == old(self).engine_of(),
            final(self).ascii_view() == old(self).ascii_view(),
    {
        let (dict, max_code_len, auto_select) = match &self.engine.schema {
            SchemaKind::Table { dict, max_code_len, auto_select, .. } => (dict, *max_code_len, *auto_select),
            _ => { return FeedResult::Rejected; },
        };
        let cs = chars_of(self.buf.as_str());
        if cs.len() >= max_code_len {
            return FeedResult::Rejected;
        }
        let mut b2 = cs.clone();
        b2.insert(at, c);
        let s2 = string_of(b2.as_slice());
        if b2.len() == max_code_len && auto_select {
            let cands = dict.prefix(s2.as_str(), 2);
            if cands.len() == 0 {
                return FeedResult::Rejected;
            }
            if cands.len() == 1 {
                let w = string_from(cands[0].word);
                self.buf = String::new();
                self.cursor = 0;
                return FeedResult::Committed(w);
            }
        }
        if dict.prefix(s2.as_str(), 1).len() == 0 {
            return FeedResult::Rejected;
        }
        self.buf = s2;
        self.cursor = if append { b2.len() } else { at + 1 };
        FeedResult::Waiting
    }

    /// Feeds one key. In order: a key in reverse-lookup mode, the prefix
    /// that starts it, a key in ASCII mode (committed as typed),
    /// punctuation (committed full-width), then a letter for the speller,
    /// appended to the buffer.
    pub fn feed(&mut self, ch: char) -> (r: FeedResult)
        ensures
            ({
                let o = feed_spec(*old(self).engine_of(), old(self).buf_view(),
                    caret_in(old(self).cursor_view(), old(self).buf_view().len()), old(self).ascii_view(), ch);
                &&& feed_view(r) == o.0
                &&& final(self).buf_view() == o.1
                &&& final(self).cursor_view() == o.2
                &&& match o.3 {
                    Some(dq) => compose_result(dq.0, dq.1, 9, final(self).sentences_view()),
                    None => final(self).sentences_view() == old(self).sentences_view(),
                }
            }),
            final(self).learned_view() == old(self).learned_view(),
            final(self).engine_of() == old(self).engine_of(),
            final(self).ascii_view() == old(self).ascii_view(),
    {
        let n0 = chars_of(self.buf.as_str()).len();
        if self.cursor > n0 {
            self.cursor = n0;
        }
        match self.feed_pre(ch) {
            Some(r) => return r,
            None => {},
        }
        let c = lower_key(ch);
        let n = chars_of(self.buf.as_str()).len();
        if self.engine.is_table() {
            return self.feed_table(c, n, true);
        }
        let dict = match &self.engine.schema {
            SchemaKind::Script { dict } => dict,
            _ => { return FeedResult::Rejected; },
        };
        let old_buf = string_from(self.buf.as_str());
        let old_cursor = self.cursor;
        let mut cs = chars_of(self.buf.as_str());
        cs.push(c);
        self.buf = string_of(cs.as_slice());
        let input = self.normalized_input();
        let exact = dict.exact(input.as_str());
        let prefix = dict.prefix(input.as_str());
        let has_zrm = dict.zrm().is_some();
        if chars_of(input.as_str()).len() == 0 {
            if has_zrm && cs.len() < 2 {
                self.cursor = cs.len();
                return FeedResult::Waiting;
            }
            self.buf = old_buf;
            self.cursor = old_cursor;
            return FeedResult::Rejected;
        }
        if exact.len() == 0 && prefix.len() == 0 {
            if has_zrm {
                self.cursor = cs.len();
                return FeedResult::Waiting;
            }
            self.buf = old_buf;
            self.cursor = old_cursor;
            return FeedResult::Rejected;
        }
        self.sentence_cands = compose(input.as_str(), dict, 9);
        self.sentence_offset = 0;
        self.cursor = cs.len();
        FeedResult::Waiting
    }

    /// Feeds one key with a letter going in at the caret; in a pinyin
    /// scheme every letter is taken and the sentences are composed anew
    /// (possibly none), so unmatched spellings stay editable.
    pub fn feed_at_cursor(&mut self, ch: char) -> (r: FeedResult)
        ensures
            ({
                let o = feed_at_spec(*old(self).engine_of(), old(self).buf_view(),
                    caret_in(old(self).cursor_view(), old(self).buf_view().len()), old(self).ascii_view(), ch);
                &&& feed_view(r) == o.0
                &&& final(self).buf_view() == o.1
                &&& final(self).cursor_view() == o.2
                &&& match o.3 {
                    Some(dq) => compose_result(dq.0, dq.1, 9, final(self).sentences_view()),
                    None => final(self).sentences_view() == old(self).sentences_view(),
                }
            }),
            final(self).learned_view() == old(self).learned_view(),
            final(self).engine_of() == old(self).engine_of(),
            final(self).ascii_view() == old(self).ascii_view(),
    {
        let n0 = chars_of(self.buf.as_str()).len();
        if self.cursor > n0 {
            self.cursor = n0;
        }
        match self.feed_pre(ch) {
            Some(r) => return r,
            None => {},
        }
        let c = lower_key(ch);
        let at = self.cursor;
        if self.engine.is_table() {
            return self.feed_table(c, at, false);
        }
        let dict = match &self.engine.schema {
            SchemaKind::Script { dict } => dict,
            _ => { return FeedResult::Rejected; },
        };
        let mut cs = chars_of(self.buf.as_str());
        cs.insert(at, c);
        self.buf = string_of(cs.as_slice());
        let n2 = cs.len();
        self.cursor = if at < n2 { at + 1 } else { n2 };
        let input = self.normalized_input();
        self.sentence_cands = compose(input.as_str(), dict, 9);
        self.sentence_offset = 0;
        FeedResult::Waiting
    }
}

impl<'a> Session<'a> {
    /// Adds the sentence candidates to `out`, skipping repeated words and
    /// stopping at `lim`; `items` describes them.
    fn add_sentences(&self, out: &mut Vec<Candidate>, lim: usize, reverse: bool, code: &str, source: CandidateSource,
        Ghost(items): Ghost<Seq<CandView>>)
        requires
            items.len() == self.sentences_view().len(),
            forall|k: int| 0 <= k < items.len() ==> #[trigger] items[k] == (sentence_text(self.sentences_view()[k]),
                if reverse { annotation(*self.engine_of(), sentence_text(self.sentences_view()[k])) } else { code@ }, source),
        ensures
            cands_view(final(out)@) == add_distinct(cands_view(old(out)@), items, lim as int),
    {
        let ghost start = cands_view(out@);
        let mut j: usize = 0;
        assert(items.take(0) =~= Seq::<CandView>::empty());
        while j < self.sentence_cands.len()
            invariant
                j <= self.sentence_cands@.len(),
                items.len() == self.sentence_cands@.len(),
                forall|k: int| 0 <= k < items.len() ==> #[trigger] items[k] == (sentence_text(self.sentences_view()[k]),
                    if reverse { annotation(*self.engine_of(), sentence_text(self.sentences_view()[k])) } else { code@ }, source),
                cands_view(out@) == add_distinct(start, items.take(j as int), lim as int),
            decreases self.sentence_cands@.len() - j,
        {
            let w = join_strings(&self.sentence_cands[j].words);
            let c = if reverse { self.engine.annotate(w.as_str()) } else { string_from(code) };
            proof {
                lemma_add_distinct_step(start, items, j as int, lim as int);
                assert(items[j as int] == (w@, c@, source));
            }
            push_distinct(out, Candidate { word: w, code: c, source }, lim);
            j += 1;
        }
        assert(items.take(items.len() as int) == items);
    }

    /// Adds pinyin matches to `out`, skipping repeated words and stopping at
    /// `lim`; `items` describes them.
    fn add_matches(out: &mut Vec<Candidate>, ms: &Vec<crate::pinyin::PinyinCandidate>, lim: usize, code: &str,
        source: CandidateSource, Ghost(items): Ghost<Seq<CandView>>)
        requires
            ms@.len() == items.len(),
            forall|k: int| 0 <= k < ms@.len() ==> #[trigger] items[k] == ((ms@[k]).word@, code@, source),
        ensures
            cands_view(final(out)@) == add_distinct(cands_view(old(out)@), items, lim as int),
    {
        let ghost start = cands_view(out@);
        let mut j: usize = 0;
        assert(items.take(0) =~= Seq::<CandView>::empty());
        while j < ms.len()
            invariant
                j <= ms@.len(),
                ms@.len() == items.len(),
                forall|k: int| 0 <= k < ms@.len() ==> #[trigger] items[k] == ((ms@[k]).word@, code@, source),
                cands_view(out@) == add_distinct(start, items.take(j as int), lim as int),
            decreases ms@.len() - j,
        {
            proof {
                lemma_add_distinct_step(start, items, j as int, lim as int);
                assert(items[j as int] == (ms@[j as int].word@, code@, source));
            }
            push_distinct(out, Candidate { word: ms[j].word.clone(), code: string_from(code), source }, lim);
            j += 1;
        }
        assert(items.take(items.len() as int) == items);
    }

    /// The first at most `lim` exact matches; `items` describes them.
    fn take_matches(&self, ms: &Vec<crate::pinyin::PinyinCandidate>, lim: usize, reverse: bool, code: &str,
        source: CandidateSource, Ghost(items): Ghost<Seq<CandView>>) -> (out: Vec<Candidate>)
        requires
            ms@.len() == items.len(),
            forall|k: int| 0 <= k < ms@.len() ==> #[trigger] items[k] == ((ms@[k]).word@,
                if reverse { annotation(*self.engine_of(), ms@[k].word@) } else { code@ }, source),
        ensures
            cands_view(out@) == take_at_most(items, lim as int),
    {
        let mut out: Vec<Candidate> = Vec::new();
        let n = if lim < ms.len() { lim } else { ms.len() };
        let mut j: usize = 0;
        while j < n
            invariant
                j <= n,
                n <= ms@.len(),
                n == if lim < ms@.len() { lim as int } else { ms@.len() as int },
                ms@.len() == items.len(),
                forall|k: int| 0 <= k < ms@.len() ==> #[trigger] items[k] == ((ms@[k]).word@,
                    if reverse { annotation(*self.engine_of(), ms@[k].word@) } else { code@ }, source),
                cands_view(out@) == items.take(j as int),
            decreases n - j,
        {
            let w = ms[j].word.clone();
            let c = if reverse { self.engine.annotate(w.as_str()) } else { string_from(code) };
            let ghost before = out@;
            out.push(Candidate { word: w, code: c, source });
            proof {
                assert(items[j as int] == (ms@[j as int].word@, c@, source));
                assert(cands_view(out@) =~= cands_view(before).push(items[j as int]));
                assert(items.take(j + 1) =~= items.take(j as int).push(items[j as int]));
            }
            j += 1;
        }
        proof {
            if lim >= ms@.len() {
                assert(items.take(n as int) =~= items);
            }
        }
        out
    }

    /// Reverse-lookup candidates.
    fn reverse_list(&self, limit: usize) -> (r: Vec<Candidate>)
        requires
            reverse_mode(*self.engine_of(), self.buf_view()),
        ensures
            cands_view(r@) == reverse_cands(*self.engine_of(), self.buf_view(), self.sentences_view(), limit),
    {
        let ghost e = *self.engine;
        let lim: usize = if limit == 0 { usize::MAX } else { limit };
        let rl = match &self.engine.reverse_lookup {
            Some(rl) => rl,
            None => { return Vec::new(); },
        };
        let query = self.after_prefix();
        let input = crate::pinyin::normalize_pinyin(query.as_str());
        proof { lemma_strip_idempotent(query@); }
        let exm = rl.dict().exact(input.as_str());
        let ghost sel = rl_entries(e).filter(py_code_is(input@));
        let ghost ex = sel.map_values(|x: PinyinEntry| (x.1, annotation(e, x.1), CandidateSource::Reverse));
        let ghost st = self.sentences_view().map_values(|sc: SentenceCandidate| (sentence_text(sc), annotation(e, sentence_text(sc)), CandidateSource::Reverse));
        let mut out = self.take_matches(&exm, lim, true, "", CandidateSource::Reverse, Ghost(ex));
        self.add_sentences(&mut out, lim, true, "", CandidateSource::Reverse, Ghost(st));
        out
    }

    /// Shape-code candidates.
    fn table_list(&self, limit: usize) -> (r: Vec<Candidate>)
        requires
            self.engine_of().is_table_spec(),
        ensures
            cands_view(r@) == table_cands(*self.engine_of(), self.buf_view(), limit),
    {
        let mut out: Vec<Candidate> = Vec::new();
        let dict = match &self.engine.schema {
            SchemaKind::Table { dict, .. } => dict,
            _ => { return out; },
        };
        let k: usize = if limit == 0 { 9 } else { limit };
        let cs = dict.prefix(self.buf.as_str(), k);
        let ghost m = table_matches(dict@, self.buf@);
        let ghost t = take_at_most(m, k as int);
        let bc = chars_of(self.buf.as_str());
        let mut i: usize = 0;
        while i < cs.len()
            invariant
                i <= cs@.len(),
                bc@ == self.buf@,
                t == take_at_most(m, k as int),
                cs@.len() == t.len(),
                forall|j: int| 0 <= j < cs@.len() ==> (#[trigger] cs@[j]).word@ == t[j].1
                    && cs@[j].code@ == decode_spec(t[j].0 as int),
                cands_view(out@) == t.take(i as int).map_values(|x: TableEntry|
                    (x.1, decode_spec(x.0 as int), if decode_spec(x.0 as int) == self.buf@ { CandidateSource::Table } else { CandidateSource::TableCompletion })),
            decreases cs@.len() - i,
        {
            let code = cs[i].code.clone();
            let cc = chars_of(code.as_str());
            let source = if crate::text::chars_eq(cc.as_slice(), bc.as_slice()) {
                CandidateSource::Table
            } else {
                CandidateSource::TableCompletion
            };
            let ghost before = out@;
            out.push(Candidate { word: string_from(cs[i].word), code, source });
            proof {
                assert(t.take(i + 1) =~= t.take(i as int).push(t[i as int]));
                assert(cands_view(out@) =~= cands_view(before).push(cand_view(out@[i as int])));
            }
            i += 1;
        }
        proof {
            assert(t.take(t.len() as int) == t);
        }
        out
    }

    /// Pinyin candidates.
    fn script_list(&self, limit: usize) -> (r: Vec<Candidate>)
        requires
            !self.engine_of().is_table_spec(),
        ensures
            cands_view(r@) == script_cands(*self.engine_of(), self.buf_view(), self.sentences_view(), limit),
    {
        let lim: usize = if limit == 0 { usize::MAX } else { limit };
        let dict = match &self.engine.schema {
            SchemaKind::Script { dict } => dict,
            _ => { return Vec::new(); },
        };
        let input = self.normalized_input();
        let ghost q = normalize_spec(input@);
        let exm = dict.exact(input.as_str());
        let ghost e = *self.engine;
        let ghost ex = dict@.filter(py_code_is(q)).map_values(|x: PinyinEntry| (x.1, input@, CandidateSource::ScriptExact));
        let ghost st = self.sentences_view().map_values(|sc: SentenceCandidate| (sentence_text(sc), input@, CandidateSource::ScriptSentence));
        let ghost pfs = dict@.filter(py_code_between(q, prefix_upper(q))).map_values(|x: PinyinEntry| (x.1, input@, CandidateSource::ScriptPrefix));
        let mut out = self.take_matches(&exm, lim, false, input.as_str(), CandidateSource::ScriptExact, Ghost(ex));
        self.add_sentences(&mut out, lim, false, input.as_str(), CandidateSource::ScriptSentence, Ghost(st));
        let pf = dict.prefix(input.as_str());
        Self::add_matches(&mut out, &pf, lim, input.as_str(), CandidateSource::ScriptPrefix, Ghost(pfs));
        out
    }

    /// The candidates (shell menus show the first nine). `limit == 0`
    /// lists all (nine for a shape code). Reverse lookup lists its exact
    /// matches and sentences annotated with their codes; a shape code lists
    /// the table entries starting with the buffer; pinyin lists exact
    /// matches, sentences, then prefix matches, without repeated words.
    /// Outside reverse lookup the user dictionary then promotes, stably,
    /// the words chosen most often for this code.
    pub fn candidates(&self, limit: usize) -> (r: Vec<Candidate>)
        ensures
            cands_view(r@) == cands_spec(*self.engine_of(), self.buf_view(), self.sentences_view(), limit),
    {
        if chars_of(self.buf.as_str()).len() == 0 {
            let r: Vec<Candidate> = Vec::new();
            assert(cands_view(r@) =~= Seq::<CandView>::empty());
            return r;
        }
        if self.in_reverse_mode() {
            return self.reverse_list(limit);
        }
        let mut out = if self.engine.is_table() { self.table_list(limit) } else { self.script_list(limit) };
        match &self.engine.user_dict {
            Some(ud) => {
                let code = if self.engine.is_table() { string_from(self.buf.as_str()) } else { self.normalized_input() };
                let ghost before = out@;
                ud.reorder_candidates(code.as_str(), &mut out);
                proof {
                    crate::seqs::lemma_sort_map(before, |c: Candidate| cand_view(c),
                        crate::user_dict::by_count(ud@, code@), by_count_view(ud@, code@));
                    assert(cands_view(before) == before.map_values(|c: Candidate| cand_view(c)));
                }
            },
            None => {},
        }
        out
    }
}

impl<'a> Session<'a> {
    /// The `i`-th (0-based) of the exact matches `ex` followed by the
    /// sentences.
    /// The code a selection is learned under (see `learn_code`).
    fn selection_code(&self) -> (r: String)
        ensures
            r@ == learn_code(*self.engine_of(), self.buf_view()),
    {
        if self.in_reverse_mode() {
            self.after_prefix()
        } else if self.engine.is_table() {
            string_from(self.buf.as_str())
        } else {
            self.normalized_input()
        }
    }

    /// Selects candidate `idx` (1-based) of `candidates(0)`, recording
    /// (code, word) among the session's learned selections. The session
    /// only reads its engine, so `take_learned` hands the selections out and
    /// `Engine::learn_all` counts them in the user dictionary. The buffer and
    /// the sentences are cleared whenever something was pending, whether or
    /// not `idx` named a candidate.
    pub fn select(&mut self, idx: usize) -> (r: Option<String>)
        ensures
            old(self).buf_view().len() == 0 ==> r is None && *final(self) == *old(self),
            old(self).buf_view().len() > 0 ==> {
                let e = *old(self).engine_of();
                let cs = cands_spec(e, old(self).buf_view(), old(self).sentences_view(), 0);
                &&& if 0 < idx <= cs.len() {
                        r matches Some(s) && s@ == cs[idx - 1].0
                        && final(self).learned_view() == old(self).learned_view().push((learn_code(e, old(self).buf_view()), cs[idx - 1].0))
                    } else {
                        r is None && final(self).learned_view() == old(self).learned_view()
                    }
                &&& final(self).buf_view().len() == 0
                &&& final(self).cursor_view() == 0
                &&& final(self).sentences_view().len() == 0
            },
            final(self).engine_of() == old(self).engine_of(),
            final(self).ascii_view() == old(self).ascii_view(),
    {
        if chars_of(self.buf.as_str()).len() == 0 {
            return None;
        }
        let ghost e = *self.engine;
        let cands = self.candidates(0);
        let code = self.selection_code();
        let result = if idx > 0 && idx <= cands.len() {
            assert(cands_view(cands@)[idx - 1] == cand_view(cands@[idx - 1]));
            Some(cands[idx - 1].word.clone())
        } else {
            None
        };
        match &result {
            Some(w) => {
                let ghost before = self.learned@;
                self.learned.push((code, w.clone()));
                assert(learned_pairs(self.learned@) =~= learned_pairs(before).push((learn_code(e, old(self).buf_view()), w@)));
            },
            None => {},
        }
        self.buf = String::new();
        self.cursor = 0;
        self.sentence_cands = Vec::new();
        result
    }

    /// Commits the candidate whose word is `word` (as a shell does after the
    /// user dictionary reordered the menu, or from a later page), recording
    /// (code, word) among the learned selections as `select` does; `None`,
    /// with nothing changed, when no candidate of the whole list has that
    /// word.
    pub fn select_word(&mut self, word: &str) -> (r: Option<String>)
        ensures
            ({
                let e = *old(self).engine_of();
                let cs = cands_spec(e, old(self).buf_view(), old(self).sentences_view(), usize::MAX);
                if exists|k: int| 0 <= k < cs.len() && cs[k].0 == word@ {
                    &&& r matches Some(s) && s@ == word@
                    &&& final(self).learned_view() == old(self).learned_view().push((learn_code(e, old(self).buf_view()), word@))
                    &&& final(self).buf_view().len() == 0
                    &&& final(self).cursor_view() == 0
                    &&& final(self).sentences_view().len() == 0
                } else {
                    r is None && *final(self) == *old(self)
                }
            }),
            final(self).engine_of() == old(self).engine_of(),
            final(self).ascii_view() == old(self).ascii_view(),
    {
        let cands = self.candidates(usize::MAX);
        if !has_word(&cands, word) {
            return None;
        }
        let ghost e = *self.engine;
        let code = self.selection_code();
        let w = string_from(word);
        let ghost before = self.learned@;
        self.learned.push((code, string_from(word)));
        assert(learned_pairs(self.learned@) =~= learned_pairs(before).push((learn_code(e, old(self).buf_view()), word@)));
        self.buf = String::new();
        self.cursor = 0;
        self.sentence_cands = Vec::new();
        Some(w)
    }

    /// Space: commits the first candidate of `candidates(0)` (`select(1)`).
    pub fn select_first(&mut self) -> (r: Option<String>)
        ensures
            old(self).buf_view().len() == 0 ==> r is None && *final(self) == *old(self),
            old(self).buf_view().len() > 0 ==> {
                let e = *old(self).engine_of();
                let cs = cands_spec(e, old(self).buf_view(), old(self).sentences_view(), 0);
                &&& if cs.len() > 0 {
                        r matches Some(s) && s@ == cs[0].0
                        && final(self).learned_view() == old(self).learned_view().push((learn_code(e, old(self).buf_view()), cs[0].0))
                    } else {
                        r is None && final(self).learned_view() == old(self).learned_view()
                    }
                &&& final(self).buf_view().len() == 0
                &&& final(self).cursor_view() == 0
                &&& final(self).sentences_view().len() == 0
            },
            final(self).engine_of() == old(self).engine_of(),
            final(self).ascii_view() == old(self).ascii_view(),
    {
        self.select(1)
    }
}

// ── building an engine from a scheme ───────────────────────────────────

/// A "ZPY1" file loads: its main part and any double-pinyin segment parse.
pub open spec fn pinyin_loads(d: Seq<u8>) -> bool {
    &&& crate::pinyin::parse_pinyin(d) is Some
    &&& crate::pinyin::has_zrm_segment(d) ==> crate::zrm::parse_zrm(d.subrange(crate::pinyin::py_blob_end(d), d.len() as int)) is Some
}

/// The data is at least a magic number long, and that magic is `m`.
pub open spec fn has_magic(d: Seq<u8>, m: u32) -> bool {
    d.len() >= 4 && crate::codec::rd32(d, 0) == m
}

/// The reverse-lookup data, if given, is used when it is a "ZPY1" file,
/// which must then load.
pub open spec fn reverse_data_ok(rl: Option<Seq<u8>>) -> bool {
    match rl {
        Some(b) => has_magic(b, crate::pinyin::PY_MAGIC) ==> pinyin_loads(b),
        None => true,
    }
}

/// An upper-case hexadecimal digit.
fn hex_digit(d: u32) -> (c: char)
    requires
        d < 16,
    ensures
        c == seq!['0', '1', '2', '3', '4', '5', '6', '7', '8', '9', 'A', 'B', 'C', 'D', 'E', 'F'][d as int],
{
    if d < 10 {
        let x: u8 = (d + 48) as u8;
        x as char
    } else {
        let x: u8 = (d + 55) as u8;
        x as char
    }
}

/// Eight upper-case hexadecimal digits of `x`.
fn hex8(x: u32) -> (s: String)
    ensures
        s@.len() == 8,
{
    let mut s = String::new();
    let mut i: u32 = 0;
    while i < 8
        invariant
            i <= 8,
            s@.len() == i,
        decreases 8 - i,
    {
        let shift: u32 = 28 - 4 * i;
        let d = (x >> shift) & 15;
        assert(d < 16) by (bit_vector)
            requires d == (x >> shift) & 15;
        push_char(&mut s, hex_digit(d));
        i += 1;
    }
    s
}

impl Engine {
    /// Builds an engine from a scheme configuration and the bytes its files
    /// hold (read by the caller): the dictionary, told apart by its magic
    /// ("ZMD1" shape-code table, kept twice for annotating reverse lookup,
    /// or "ZPY1" pinyin); the reverse-lookup dictionary, used when it is a
    /// "ZPY1" file, with the configured prefix key (backquote by default);
    /// the punctuator (full width unless configured off); and the user
    /// dictionary with its path.
    pub fn from_schema_data(sc: &crate::schema::SchemaConfig, data: &[u8], rl_data: Option<&[u8]>,
        user_dict: Option<UserDict>, user_dict_path: Option<String>) -> (r: Result<Engine, String>)
        ensures
            r is Ok <==> ((has_magic(data@, crate::dict::DICT_MAGIC) && crate::dict::parse_table(data@) is Some)
                || (has_magic(data@, crate::pinyin::PY_MAGIC) && pinyin_loads(data@)))
                && reverse_data_ok(match rl_data { Some(b) => Some(b@), None => None::<Seq<u8>> }),
            r matches Ok(e) ==> {
                &&& e.is_table_spec() == has_magic(data@, crate::dict::DICT_MAGIC)
                &&& e.is_table_spec() ==> e.table_entries() == crate::dict::sort_by_code(crate::dict::parse_table(data@)->0)
                    && e.annot_entries() == Some(crate::dict::sort_by_code(crate::dict::parse_table(data@)->0))
                    && e.max_code_len_spec() == match sc.speller.max_code_length { Some(n) => n, None => 4 }
                    && e.auto_select_spec() == match sc.speller.auto_select { Some(b) => b, None => false }
                &&& !e.is_table_spec() ==> e.script_entries()
                    == crate::seqs::stable_sort_by(crate::pinyin::parse_pinyin(data@)->0, crate::pinyin::py_order())
                    && e.annot_entries() is None
                &&& (e.reverse_lookup is Some) == (rl_data matches Some(b) && has_magic(b@, crate::pinyin::PY_MAGIC))
                &&& e.reverse_lookup matches Some(rl) ==> rl.dict_view()
                    == crate::seqs::stable_sort_by(crate::pinyin::parse_pinyin(rl_data->0@)->0, crate::pinyin::py_order())
                    && rl.prefix_char() == match sc.reverse_lookup.prefix {
                        Some(p) => if p@.len() > 0 { p@[0] } else { '`' },
                        None => '`',
                    }
                &&& e.punctuator matches Some(p) && p.is_full_shape() == match sc.punctuator.full_shape { Some(b) => b, None => true }
                &&& e.user_dict == user_dict
                &&& e.user_dict_path == user_dict_path
            },
    {
        let magic = match crate::codec::read_u32(data, 0) {
            Some(m) => m,
            None => { return Err(string_from("字典文件太小")); },
        };
        let kind = if magic == crate::dict::DICT_MAGIC {
            let dict = Dict::load(data)?;
            let annot = Dict::load(data)?;
            let max_code_len = match sc.speller.max_code_length { Some(n) => n, None => 4 };
            let auto_select = match sc.speller.auto_select { Some(b) => b, None => false };
            let pattern = match &sc.speller.auto_select_pattern { Some(p) => Some(string_from(p.as_str())), None => None };
            (SchemaKind::Table { dict, max_code_len, auto_select, auto_select_pattern: pattern }, Some(annot))
        } else if magic == crate::pinyin::PY_MAGIC {
            let dict = PinyinDict::load(data)?;
            (SchemaKind::Script { dict }, None)
        } else {
            let mut msg = string_from("未知字典格式 (magic=");
            let h = hex8(magic);
            crate::zrm::append_str(&mut msg, h.as_str());
            push_char(&mut msg, ')');
            return Err(msg);
        };
        let mut engine = Engine::new(kind.0);
        engine.table_dict = kind.1;
        match rl_data {
            Some(b) => {
                match crate::codec::read_u32(b, 0) {
                    Some(m) => {
                        if m == crate::pinyin::PY_MAGIC {
                            let rl_dict = PinyinDict::load(b)?;
                            let prefix_char = match &sc.reverse_lookup.prefix {
                                Some(p) => {
                                    let cs = chars_of(p.as_str());
                                    if cs.len() > 0 { cs[0] } else { '`' }
                                },
                                None => '`',
                            };
                            engine = engine.with_reverse_lookup(ReverseLookup::new(rl_dict, prefix_char));
                        }
                    },
                    None => {},
                }
            },
            None => {},
        }
        let full_shape = match sc.punctuator.full_shape { Some(b) => b, None => true };
        engine = engine.with_punctuator(Punctuator::new().with_full_shape(full_shape));
        engine.user_dict = user_dict;
        engine.user_dict_path = user_dict_path;
        Ok(engine)
    }
}

} // verus!
