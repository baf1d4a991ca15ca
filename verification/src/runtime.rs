//! The owned, platform-neutral input runtime.
//!
//! This is what GUI and native shells talk to: it owns the composition state
//! (segments, pending text, caret, candidate page) and answers each input
//! event with a command result, running a short-lived engine session for
//! the work a session does.
use vstd::prelude::*;
use crate::composer::SentenceCandidate;
use crate::engine::{Engine, Session, FeedResult, CandView, cands_view, cands_spec, feed_at_spec, feed_view,
    FeedView, learn_code};
use crate::history::{CommitHistory, CommitRecord};
use crate::text::{chars_of, string_of, string_from, str_eq, push_char};
use crate::algebra::strings_view;

verus! {

/// A runtime result is copied across the native boundary and rendered by a
/// native candidate window; the candidate list is kept this short.
pub const MAX_SNAPSHOT_CANDIDATES: usize = 64;

/// Where a candidate came from.
#[derive(Debug, Clone, Copy, PartialEq, Eq, Hash, Structural)]
pub enum CandidateSource {
    Table,
    TableCompletion,
    ScriptExact,
    ScriptSentence,
    ScriptPrefix,
    Reverse,
    ScriptAbbreviation,
    ScriptCorrection,
}

/// A candidate's identity in the list: its source and its position.
#[derive(Debug, Clone, Copy, PartialEq, Eq, Hash, Structural)]
pub struct CandidateKey {
    pub source: CandidateSource,
    pub ordinal: u32,
}

/// A listed candidate.
#[derive(Debug, Clone, PartialEq, Eq)]
pub struct CandidateView {
    pub key: CandidateKey,
    pub word: String,
    pub annotation: String,
    pub label: String,
}

/// One page of candidates.
#[derive(Debug, Clone, PartialEq, Eq)]
pub struct CandidatePage {
    pub items: Vec<CandidateView>,
    pub page_index: usize,
    pub page_size: usize,
    pub total: usize,
    pub selected: Option<CandidateKey>,
    pub has_previous: bool,
    pub has_next: bool,
}

/// A composition segment: its input and, once confirmed, its text.
#[derive(Debug, Clone, PartialEq, Eq)]
pub struct Segment {
    pub input: String,
    pub text: Option<String>,
    pub confirmed: bool,
    pub cursor: usize,
    pub page_index: usize,
    pub selected: Option<CandidateKey>,
}

/// The composition state.
#[derive(Debug, Clone)]
pub struct CoreState {
    pub schema: String,
    pub segments: Vec<Segment>,
    pub current_segment: usize,
    /// The confirmed segments' text, kept in the composition.
    pub confirmed_text: String,
    pub pending: String,
    /// The caret, as a character index into `pending`.
    pub cursor: usize,
    pub sentence_candidates: Vec<SentenceCandidate>,
    pub ascii_mode: bool,
    pub full_shape: bool,
    pub page_index: usize,
    pub selected: Option<CandidateKey>,
}

/// An input event.
#[derive(Debug, Clone, PartialEq, Eq)]
pub enum InputEvent {
    Text(char),
    Backspace,
    Delete,
    Escape,
    Space,
    Enter,
    Select(CandidateKey),
    MoveSelection(i32),
    MoveCursor(i32),
    Page(i32),
    ToggleAscii,
    SetAscii(bool),
    ToggleFullShape,
    SetSchema(String),
    Reset,
    ConfirmSegment,
    ReopenPreviousSegment,
    RevertLastEdit,
}

/// Whether the runtime took the event.
#[derive(Debug, Clone, Copy, PartialEq, Eq, Structural)]
pub enum EventDisposition {
    Consumed,
    PassedThrough,
}

/// What a shell should do with its composition window.
#[derive(Debug, Clone, Copy, PartialEq, Eq, Structural)]
pub enum CompositionAction {
    Keep,
    Update,
    End,
}

#[derive(Debug, Clone, PartialEq, Eq)]
pub struct RuntimeStatus {
    pub schema: String,
    pub ascii_mode: bool,
    pub full_shape: bool,
    pub composing: bool,
}

/// What a shell renders.
#[derive(Debug, Clone, PartialEq, Eq)]
pub struct ContextSnapshot {
    pub segments: Vec<Segment>,
    pub current_segment: usize,
    pub confirmed_text: String,
    pub pending: String,
    pub cursor: usize,
    pub candidates: CandidatePage,
    pub status: RuntimeStatus,
}

#[derive(Debug, Clone, PartialEq, Eq)]
pub enum CoreError {
    UnknownSchema(String),
    InvalidCandidate(CandidateKey),
}

/// The answer to one event.
#[derive(Debug, Clone, PartialEq, Eq)]
pub struct CommandResult {
    pub disposition: EventDisposition,
    pub committed: Option<String>,
    pub composition: CompositionAction,
    pub snapshot: ContextSnapshot,
    pub error: Option<CoreError>,
}

// ── views ──────────────────────────────────────────────────────────────

/// A sentence candidate as seen by the contracts: (words, score).
pub open spec fn sentence_view(s: SentenceCandidate) -> (Seq<Seq<char>>, u32) {
    (strings_view(s.words@), s.score)
}

pub open spec fn sentences_view(v: Seq<SentenceCandidate>) -> Seq<(Seq<Seq<char>>, u32)> {
    v.map_values(|s: SentenceCandidate| sentence_view(s))
}

/// The text of the confirmed segments, in order.
pub open spec fn confirmed_concat(segs: Seq<Segment>) -> Seq<char>
    decreases segs.len(),
{
    if segs.len() == 0 {
        Seq::empty()
    } else {
        let rest = confirmed_concat(segs.drop_last());
        match segs.last().text {
            Some(t) => if segs.last().confirmed { rest + t@ } else { rest },
            None => rest,
        }
    }
}

/// `a` and `b` hold the same state.
pub open spec fn same_state(a: CoreState, b: CoreState) -> bool {
    &&& a.schema == b.schema
    &&& a.segments@ == b.segments@
    &&& a.current_segment == b.current_segment
    &&& a.confirmed_text == b.confirmed_text
    &&& a.pending == b.pending
    &&& a.cursor == b.cursor
    &&& sentences_view(a.sentence_candidates@) == sentences_view(b.sentence_candidates@)
    &&& a.ascii_mode == b.ascii_mode
    &&& a.full_shape == b.full_shape
    &&& a.page_index == b.page_index
    &&& a.selected == b.selected
}

/// A composition with nothing pending: no text, caret at 0, no sentences,
/// first page, nothing selected.
pub open spec fn composition_cleared(st: CoreState) -> bool {
    &&& st.pending@.len() == 0
    &&& st.cursor == 0
    &&& st.sentence_candidates@.len() == 0
    &&& st.page_index == 0
    &&& st.selected is None
}

// ── copies ─────────────────────────────────────────────────────────────

pub fn clone_segment(s: &Segment) -> (r: Segment)
    ensures
        r == *s,
{
    Segment {
        input: s.input.clone(),
        text: match &s.text {
            Some(t) => Some(t.clone()),
            None => None,
        },
        confirmed: s.confirmed,
        cursor: s.cursor,
        page_index: s.page_index,
        selected: s.selected,
    }
}

pub fn clone_segments(v: &Vec<Segment>) -> (r: Vec<Segment>)
    ensures
        r@ == v@,
{
    let mut r: Vec<Segment> = Vec::new();
    let mut i: usize = 0;
    while i < v.len()
        invariant
            i <= v@.len(),
            r@ == v@.take(i as int),
        decreases v@.len() - i,
    {
        r.push(clone_segment(&v[i]));
        proof {
            assert(v@.take(i + 1) =~= v@.take(i as int).push(v@[i as int]));
        }
        i += 1;
    }
    assert(v@.take(v@.len() as int) =~= v@);
    r
}

pub fn clone_sentence(s: &SentenceCandidate) -> (r: SentenceCandidate)
    ensures
        sentence_view(r) == sentence_view(*s),
{
    SentenceCandidate { words: crate::composer::clone_strings(&s.words), score: s.score }
}

pub fn clone_sentences(v: &Vec<SentenceCandidate>) -> (r: Vec<SentenceCandidate>)
    ensures
        sentences_view(r@) == sentences_view(v@),
{
    let mut r: Vec<SentenceCandidate> = Vec::new();
    let mut i: usize = 0;
    while i < v.len()
        invariant
            i <= v@.len(),
            sentences_view(r@) == sentences_view(v@.take(i as int)),
        decreases v@.len() - i,
    {
        let ghost before = r@;
        r.push(clone_sentence(&v[i]));
        proof {
            assert(sentences_view(r@) =~= sentences_view(before).push(sentence_view(v@[i as int])));
            assert(sentences_view(v@.take(i + 1)) =~= sentences_view(v@.take(i as int)).push(sentence_view(v@[i as int])));
        }
        i += 1;
    }
    assert(v@.take(v@.len() as int) =~= v@);
    r
}

impl CoreState {
    /// A fresh state for `schema`: nothing composed, full-width on.
    pub fn new(schema: &str) -> (st: CoreState)
        ensures
            st.schema@ == schema@,
            st.segments@.len() == 0,
            st.current_segment == 0,
            st.confirmed_text@.len() == 0,
            composition_cleared(st),
            !st.ascii_mode,
            st.full_shape,
    {
        CoreState {
            schema: string_from(schema),
            segments: Vec::new(),
            current_segment: 0,
            confirmed_text: String::new(),
            pending: String::new(),
            cursor: 0,
            sentence_candidates: Vec::new(),
            ascii_mode: false,
            full_shape: true,
            page_index: 0,
            selected: None,
        }
    }

    /// A copy of the state.
    pub fn copy(&self) -> (r: CoreState)
        ensures
            same_state(r, *self),
    {
        CoreState {
            schema: self.schema.clone(),
            segments: clone_segments(&self.segments),
            current_segment: self.current_segment,
            confirmed_text: self.confirmed_text.clone(),
            pending: self.pending.clone(),
            cursor: self.cursor,
            sentence_candidates: clone_sentences(&self.sentence_candidates),
            ascii_mode: self.ascii_mode,
            full_shape: self.full_shape,
            page_index: self.page_index,
            selected: self.selected,
        }
    }

    /// Ends the composition: nothing pending.
    pub fn clear_composition(&mut self)
        ensures
            composition_cleared(*final(self)),
            final(self).schema == old(self).schema,
            final(self).segments == old(self).segments,
            final(self).current_segment == old(self).current_segment,
            final(self).confirmed_text == old(self).confirmed_text,
            final(self).ascii_mode == old(self).ascii_mode,
            final(self).full_shape == old(self).full_shape,
    {
        self.pending = String::new();
        self.cursor = 0;
        self.sentence_candidates = Vec::new();
        self.page_index = 0;
        self.selected = None;
    }

    /// Recomputes the confirmed text from the confirmed segments.
    pub fn rebuild_confirmed_text(&mut self)
        ensures
            final(self).confirmed_text@ == confirmed_concat(final(self).segments@),
            final(self).schema == old(self).schema,
            final(self).segments == old(self).segments,
            final(self).current_segment == old(self).current_segment,
            final(self).pending == old(self).pending,
            final(self).cursor == old(self).cursor,
            final(self).sentence_candidates == old(self).sentence_candidates,
            final(self).ascii_mode == old(self).ascii_mode,
            final(self).full_shape == old(self).full_shape,
            final(self).page_index == old(self).page_index,
            final(self).selected == old(self).selected,
    {
        let mut t = String::new();
        let mut i: usize = 0;
        while i < self.segments.len()
            invariant
                i <= self.segments@.len(),
                t@ == confirmed_concat(self.segments@.take(i as int)),
            decreases self.segments@.len() - i,
        {
            proof {
                assert(self.segments@.take(i + 1).drop_last() =~= self.segments@.take(i as int));
                assert(self.segments@.take(i + 1).last() == self.segments@[i as int]);
            }
            if self.segments[i].confirmed {
                match &self.segments[i].text {
                    Some(x) => crate::zrm::append_str(&mut t, x.as_str()),
                    None => {},
                }
            }
            i += 1;
        }
        assert(self.segments@.take(self.segments@.len() as int) =~= self.segments@);
        self.confirmed_text = t;
    }
}

/// The engines by scheme id.
pub struct EngineStore {
    schemas: Vec<(String, Engine)>,
}

impl View for EngineStore {
    type V = Seq<(Seq<char>, Engine)>;

    closed spec fn view(&self) -> Seq<(Seq<char>, Engine)> {
        self.schemas@.map_values(|p: (String, Engine)| (p.0@, p.1))
    }
}

/// Scheme ids occur once.
pub open spec fn ids_unique(s: Seq<(Seq<char>, Engine)>) -> bool {
    forall|i: int, j: int| 0 <= i < j < s.len() ==> (#[trigger] s[i]).0 != (#[trigger] s[j]).0
}

/// The engine registered under `id`.
pub open spec fn store_get(s: Seq<(Seq<char>, Engine)>, id: Seq<char>) -> Option<Engine> {
    if exists|i: int| 0 <= i < s.len() && (#[trigger] s[i]).0 == id {
        Some(s[choose|i: int| 0 <= i < s.len() && (#[trigger] s[i]).0 == id].1)
    } else {
        None
    }
}

pub proof fn lemma_store_get_at(s: Seq<(Seq<char>, Engine)>, i: int)
    requires
        ids_unique(s),
        0 <= i < s.len(),
    ensures
        store_get(s, s[i].0) == Some(s[i].1),
{
    let k = choose|k: int| 0 <= k < s.len() && (#[trigger] s[k]).0 == s[i].0;
    if k < i {
        assert(s[k].0 != s[i].0);
    } else if k > i {
        assert(s[i].0 != s[k].0);
    }
}

/// Changing or adding the entry at `i` (whose id is not `other`) keeps what
/// `other` finds.
proof fn lemma_store_get_moved(s0: Seq<(Seq<char>, Engine)>, s1: Seq<(Seq<char>, Engine)>, other: Seq<char>, i: int)
    requires
        ids_unique(s0),
        ids_unique(s1),
        0 <= i,
        s1.len() == s0.len() || (s1.len() == s0.len() + 1 && i == s0.len()),
        i < s1.len(),
        s1[i].0 != other,
        i < s0.len() ==> s0[i].0 == s1[i].0,
        forall|k: int| 0 <= k < s0.len() && k != i ==> #[trigger] s1[k] == s0[k],
    ensures
        store_get(s1, other) == store_get(s0, other),
{
    if exists|k: int| 0 <= k < s0.len() && (#[trigger] s0[k]).0 == other {
        let k = choose|k: int| 0 <= k < s0.len() && (#[trigger] s0[k]).0 == other;
        lemma_store_get_at(s0, k);
        assert(k != i);
        assert(s1[k] == s0[k]);
        lemma_store_get_at(s1, k);
    } else {
        assert forall|k: int| 0 <= k < s1.len() implies (#[trigger] s1[k]).0 != other by {
            if k != i {
                assert(s1[k] == s0[k]);
            }
        }
    }
}

impl EngineStore {
    #[verifier::type_invariant]
    closed spec fn inv(self) -> bool {
        ids_unique(self@)
    }

    pub fn new() -> (s: EngineStore)
        ensures
            s@.len() == 0,
    {
        let s = EngineStore { schemas: Vec::new() };
        assert(s@ =~= Seq::<(Seq<char>, Engine)>::empty());
        s
    }

    fn find(&self, id: &str) -> (r: Option<usize>)
        ensures
            ids_unique(self@),
            match r {
                Some(i) => i < self@.len() && self@[i as int].0 == id@ && store_get(self@, id@) == Some(self@[i as int].1),
                None => store_get(self@, id@) is None,
            },
    {
        proof { use_type_invariant(self); }
        let mut i: usize = 0;
        while i < self.schemas.len()
            invariant
                i <= self@.len(),
                self@.len() == self.schemas@.len(),
                ids_unique(self@),
                forall|j: int| 0 <= j < i ==> (#[trigger] self@[j]).0 != id@,
            decreases self@.len() - i,
        {
            assert(self@[i as int] == (self.schemas@[i as int].0@, self.schemas@[i as int].1));
            if str_eq(self.schemas[i].0.as_str(), id) {
                proof {
                    let k = choose|k: int| 0 <= k < self@.len() && (#[trigger] self@[k]).0 == id@;
                    if k != i {
                        if k < i {
                            assert(self@[k].0 != self@[i as int].0);
                        } else {
                            assert(self@[i as int].0 != self@[k].0);
                        }
                    }
                }
                return Some(i);
            }
            i += 1;
        }
        None
    }

    /// Registers `engine` under `id`, replacing an engine already there.
    pub fn insert(&mut self, id: &str, engine: Engine)
        ensures
            store_get(final(self)@, id@) == Some(engine),
            forall|other: Seq<char>| other != id@ ==> store_get(final(self)@, other) == store_get(old(self)@, other),
    {
        let pos = self.find(id);
        let ghost s0 = self@;
        let mut v: Vec<(String, Engine)> = Vec::new();
        std::mem::swap(&mut v, &mut self.schemas);
        assert(s0 == v@.map_values(|p: (String, Engine)| (p.0@, p.1)));
        let entry = (string_from(id), engine);
        let ghost ne = (id@, engine);
        match pos {
            Some(i) => {
                v.set(i, entry);
                let ghost s1 = v@.map_values(|p: (String, Engine)| (p.0@, p.1));
                proof {
                    assert(s1 =~= s0.update(i as int, ne));
                    assert(ids_unique(s1)) by {
                        assert forall|a: int, b: int| 0 <= a < b < s1.len() implies (#[trigger] s1[a]).0 != (#[trigger] s1[b]).0 by {
                            assert(s1[a].0 == s0[a].0 && s1[b].0 == s0[b].0);
                        }
                    }
                    lemma_store_get_at(s1, i as int);
                    assert forall|other: Seq<char>| other != id@ implies store_get(s1, other) == store_get(s0, other) by {
                        lemma_store_get_moved(s0, s1, other, i as int);
                    }
                }
            },
            None => {
                v.push(entry);
                let ghost s1 = v@.map_values(|p: (String, Engine)| (p.0@, p.1));
                proof {
                    assert(s1 =~= s0.push(ne));
                    assert forall|k: int| 0 <= k < s0.len() implies (#[trigger] s0[k]).0 != id@ by {
                        if s0[k].0 == id@ {
                            assert(store_get(s0, id@) is Some);
                        }
                    }
                    assert(ids_unique(s1)) by {
                        assert forall|a: int, b: int| 0 <= a < b < s1.len() implies (#[trigger] s1[a]).0 != (#[trigger] s1[b]).0 by {
                            assert(s1[a] == s0[a]);
                            if b < s0.len() {
                                assert(s1[b] == s0[b]);
                            }
                        }
                    }
                    lemma_store_get_at(s1, s0.len() as int);
                    assert forall|other: Seq<char>| other != id@ implies store_get(s1, other) == store_get(s0, other) by {
                        lemma_store_get_moved(s0, s1, other, s0.len() as int);
                    }
                }
            },
        }
        self.schemas = v;
    }


    /// Takes the engine registered under `id` out of the store.
    pub fn take(&mut self, id: &str) -> (r: Option<Engine>)
        ensures
            r == store_get(old(self)@, id@),
            store_get(final(self)@, id@) is None,
            forall|other: Seq<char>| other != id@ ==> store_get(final(self)@, other) == store_get(old(self)@, other),
    {
        let pos = self.find(id);
        match pos {
            None => {
                return None;
            },
            Some(i) => {
                let ghost s0 = self@;
                let mut v: Vec<(String, Engine)> = Vec::new();
                std::mem::swap(&mut v, &mut self.schemas);
                assert(s0 == v@.map_values(|p: (String, Engine)| (p.0@, p.1)));
                let (_name, eng) = v.remove(i);
                let ghost s1 = v@.map_values(|p: (String, Engine)| (p.0@, p.1));
                proof {
                    assert(s1 =~= s0.remove(i as int));
                    assert(ids_unique(s1)) by {
                        assert forall|a: int, b: int| 0 <= a < b < s1.len() implies (#[trigger] s1[a]).0 != (#[trigger] s1[b]).0 by {
                            let aa = if a < i { a } else { a + 1 };
                            let bb = if b < i { b } else { b + 1 };
                            assert(s1[a] == s0[aa] && s1[b] == s0[bb]);
                        }
                    }
                    assert forall|k: int| 0 <= k < s1.len() implies (#[trigger] s1[k]).0 != id@ by {
                        let kk = if k < i { k } else { k + 1 };
                        assert(s1[k] == s0[kk]);
                        if kk < i {
                            assert(s0[kk].0 != s0[i as int].0);
                        } else {
                            assert(s0[i as int].0 != s0[kk].0);
                        }
                    }
                    assert forall|other: Seq<char>| other != id@ implies store_get(s1, other) == store_get(s0, other) by {
                        if exists|k: int| 0 <= k < s0.len() && (#[trigger] s0[k]).0 == other {
                            let k = choose|k: int| 0 <= k < s0.len() && (#[trigger] s0[k]).0 == other;
                            lemma_store_get_at(s0, k);
                            let kk = if k < i { k } else { k - 1 };
                            assert(s1[kk] == s0[k]);
                            lemma_store_get_at(s1, kk);
                        } else {
                            assert forall|k: int| 0 <= k < s1.len() implies (#[trigger] s1[k]).0 != other by {
                                let kk = if k < i { k } else { k + 1 };
                                assert(s1[k] == s0[kk]);
                            }
                        }
                    }
                }
                self.schemas = v;
                Some(eng)
            },
        }
    }

    /// The engine registered under `id`.
    pub fn get(&self, id: &str) -> (r: Option<&Engine>)
        ensures
            match store_get(self@, id@) {
                Some(e) => r matches Some(x) && *x == e,
                None => r is None,
            },
    {
        match self.find(id) {
            Some(i) => Some(&self.schemas[i].1),
            None => None,
        }
    }

    pub fn contains(&self, id: &str) -> (b: bool)
        ensures
            b == (store_get(self@, id@) is Some),
    {
        self.find(id).is_some()
    }
}

impl Default for EngineStore {
    fn default() -> (s: EngineStore)
        ensures
            s@.len() == 0,
    {
        EngineStore::new()
    }
}

/// The segments (and current index) after the pending text is written back
/// into the current segment: an empty pending text removes an unconfirmed
/// current segment; otherwise it replaces an unconfirmed current segment or
/// becomes a new last segment.
pub open spec fn synced(st: CoreState) -> (Seq<Segment>, usize) {
    let segs = st.segments@;
    let cur = st.current_segment;
    if st.pending@.len() == 0 {
        if cur < segs.len() && !segs[cur as int].confirmed {
            let r = segs.remove(cur as int);
            (r, if cur < r.len() { cur } else if r.len() > 0 { (r.len() - 1) as usize } else { 0usize })
        } else {
            (segs, cur)
        }
    } else {
        let seg = Segment { input: st.pending, text: None, confirmed: false, cursor: st.cursor,
            page_index: st.page_index, selected: st.selected };
        if cur < segs.len() && !segs[cur as int].confirmed {
            (segs.update(cur as int, seg), cur)
        } else {
            (segs.push(seg), segs.len() as usize)
        }
    }
}

/// The segments (and current index) once the pending text is gone: an
/// unconfirmed current segment is removed (see `synced`).
pub open spec fn dropped_current(segs: Seq<Segment>, cur: usize) -> (Seq<Segment>, usize) {
    if cur < segs.len() && !segs[cur as int].confirmed {
        let r = segs.remove(cur as int);
        (r, if cur < r.len() { cur } else if r.len() > 0 { (r.len() - 1) as usize } else { 0usize })
    } else {
        (segs, cur)
    }
}

/// `seg` placed as the current segment: it replaces an unconfirmed current
/// segment, or comes last.
pub open spec fn placed(at: (Seq<Segment>, usize), seg: Segment) -> (Seq<Segment>, usize) {
    let (segs, cur) = at;
    if cur < segs.len() && !segs[cur as int].confirmed {
        (segs.update(cur as int, seg), cur)
    } else {
        (segs.push(seg), segs.len() as usize)
    }
}

/// Everything but the segments, the current index and the confirmed text
/// is as in `b`.
pub open spec fn same_composition(a: CoreState, b: CoreState) -> bool {
    &&& a.schema == b.schema
    &&& a.pending == b.pending
    &&& a.cursor == b.cursor
    &&& a.sentence_candidates == b.sentence_candidates
    &&& a.ascii_mode == b.ascii_mode
    &&& a.full_shape == b.full_shape
    &&& a.page_index == b.page_index
    &&& a.selected == b.selected
}

/// Two engines differ at most in their user dictionaries.
pub open spec fn same_but_user_dict(a: Engine, b: Engine) -> bool {
    &&& a.schema == b.schema
    &&& a.table_dict == b.table_dict
    &&& a.reverse_lookup == b.reverse_lookup
    &&& a.punctuator == b.punctuator
    &&& a.user_dict_path == b.user_dict_path
}

/// The stores hold the same schemes with the same engines, user
/// dictionaries aside.
pub open spec fn stores_agree(s0: Seq<(Seq<char>, Engine)>, s1: Seq<(Seq<char>, Engine)>) -> bool {
    forall|id: Seq<char>| #![trigger store_get(s1, id)]
        (store_get(s0, id) is Some) == (store_get(s1, id) is Some)
        && (store_get(s0, id) matches Some(e0) ==> same_but_user_dict(e0, store_get(s1, id)->0))
}

/// Decimal digits of `n`.
pub open spec fn decimal(n: nat) -> Seq<char>
    decreases n,
{
    if n < 10 {
        seq![((n + 48) as u8) as char]
    } else {
        decimal(n / 10).push((((n % 10) + 48) as u8) as char)
    }
}

/// A listed candidate as seen by the contracts: (key, word, annotation,
/// label).
pub type ListedView = (CandidateKey, Seq<char>, Seq<char>, Seq<char>);

pub open spec fn listed_view(c: CandidateView) -> ListedView {
    (c.key, c.word@, c.annotation@, c.label@)
}

pub open spec fn listed_views(v: Seq<CandidateView>) -> Seq<ListedView> {
    v.map_values(|c: CandidateView| listed_view(c))
}

/// Candidates numbered in order, labelled 1 to 9 within each page.
pub open spec fn listing(cs: Seq<CandView>) -> Seq<ListedView> {
    Seq::new(cs.len(), |k: int| (CandidateKey { source: cs[k].2, ordinal: k as u32 }, cs[k].0, cs[k].1,
        decimal(((k % (PAGE_SIZE as int)) + 1) as nat)))
}

/// The candidates of the runtime's composition (at most 64).
pub open spec fn runtime_cands(e: Option<Engine>, st: CoreState) -> Seq<CandView> {
    match e {
        Some(x) => cands_spec(x, st.pending@, st.sentence_candidates@, MAX_SNAPSHOT_CANDIDATES),
        None => Seq::empty(),
    }
}

/// First index of page `p` among `total` candidates.
pub open spec fn page_start(p: usize, total: int) -> int {
    if p * (PAGE_SIZE as int) < total { p * (PAGE_SIZE as int) } else { total }
}

pub open spec fn page_end(p: usize, total: int) -> int {
    if page_start(p, total) + (PAGE_SIZE as int) < total { page_start(p, total) + (PAGE_SIZE as int) } else { total }
}

/// What `snapshot` shows of a runtime in state `st` with candidates `all`.
pub open spec fn snapshot_of(st: CoreState, all: Seq<ListedView>, snap: ContextSnapshot) -> bool {
    let total = all.len() as int;
    let start = page_start(st.page_index, total);
    let end = page_end(st.page_index, total);
    let items = all.subrange(start, end);
    &&& snap.segments@ == st.segments@
    &&& snap.current_segment == st.current_segment
    &&& snap.confirmed_text@ == st.confirmed_text@
    &&& snap.pending@ == st.pending@
    &&& snap.cursor == st.cursor
    &&& listed_views(snap.candidates.items@) == items
    &&& snap.candidates.page_index == st.page_index
    &&& snap.candidates.page_size == PAGE_SIZE
    &&& snap.candidates.total == total
    &&& snap.candidates.selected == (if st.selected matches Some(k) && (exists|i: int| 0 <= i < items.len() && items[i].0 == k) {
            st.selected } else { None })
    &&& snap.candidates.has_previous == (start > 0)
    &&& snap.candidates.has_next == (end < total)
    &&& snap.status.schema@ == st.schema@
    &&& snap.status.ascii_mode == st.ascii_mode
    &&& snap.status.full_shape == st.full_shape
    &&& snap.status.composing == (st.pending@.len() > 0)
}

/// The user dictionary of the runtime's current engine.
pub open spec fn current_ud(rt: CoreRuntime) -> Option<crate::user_dict::UserDict> {
    match current_engine(rt) {
        Some(e) => e.user_dict,
        None => None,
    }
}

/// The key Space and Enter select: the selected candidate of the page, or
/// its first.
pub open spec fn default_key(st: CoreState, all: Seq<ListedView>) -> Option<CandidateKey> {
    let total = all.len() as int;
    let items = all.subrange(page_start(st.page_index, total), page_end(st.page_index, total));
    if st.selected matches Some(k) && (exists|i: int| 0 <= i < items.len() && items[i].0 == k) {
        st.selected
    } else if items.len() > 0 {
        Some(items[0].0)
    } else {
        None
    }
}

/// `ct` without its suffix `t`, when it ends with `t`.
pub open spec fn without_suffix(ct: Seq<char>, t: Seq<char>) -> Seq<char> {
    if ct.len() >= t.len() && ct.subrange(ct.len() - t.len(), ct.len() as int) == t {
        ct.subrange(0, ct.len() - t.len())
    } else {
        ct
    }
}

/// The runtime: the engines, the composition state, the commit history and
/// the host's preceding text.
pub struct CoreRuntime {
    store: EngineStore,
    pub state: CoreState,
    history: CommitHistory,
    preceding_text: String,
}

/// Candidates per page.
pub const PAGE_SIZE: usize = 9;

/// The runtime's engine for the state's scheme.
pub open spec fn current_engine(rt: CoreRuntime) -> Option<Engine> {
    store_get(rt.store_view(), rt.st().schema@)
}

impl CoreRuntime {
    /// The composition state.
    pub closed spec fn st(&self) -> CoreState {
        self.state
    }

    pub closed spec fn store_view(&self) -> Seq<(Seq<char>, Engine)> {
        self.store@
    }

    pub closed spec fn history_view(&self) -> Seq<CommitRecord> {
        self.history@
    }

    /// How many commits the history keeps.
    pub closed spec fn history_cap(&self) -> nat {
        self.history.capacity()
    }

    pub closed spec fn preceding_view(&self) -> Seq<char> {
        self.preceding_text@
    }

    /// A runtime on `store` for `schema` (the last 32 commits kept);
    /// `UnknownSchema` when the store lacks it.
    pub fn new(store: EngineStore, schema: &str) -> (r: Result<CoreRuntime, CoreError>)
        ensures
            store_get(store@, schema@) is None ==> (r matches Err(CoreError::UnknownSchema(s)) && s@ == schema@),
            store_get(store@, schema@) is Some ==> (r matches Ok(rt) && {
                &&& rt.store_view() == store@
                &&& rt.st().schema@ == schema@
                &&& rt.st().segments@.len() == 0
                &&& rt.st().current_segment == 0
                &&& rt.st().confirmed_text@.len() == 0
                &&& composition_cleared(rt.st())
                &&& !rt.st().ascii_mode
                &&& rt.st().full_shape
                &&& rt.history_view().len() == 0
                &&& rt.history_cap() == 32
                &&& rt.preceding_view().len() == 0
            }),
    {
        if !store.contains(schema) {
            return Err(CoreError::UnknownSchema(string_from(schema)));
        }
        Ok(CoreRuntime {
            store,
            state: CoreState::new(schema),
            history: CommitHistory::new(32),
            preceding_text: String::new(),
        })
    }

    pub fn state(&self) -> (r: &CoreState)
        ensures
            *r == self.st(),
    {
        &self.state
    }

    /// The engines.
    pub fn store(&self) -> (r: &EngineStore)
        ensures
            r@ == self.store_view(),
    {
        &self.store
    }

    /// The engines, for changing one (its user dictionary, say).
    pub fn store_mut(&mut self) -> (r: &mut EngineStore)
        ensures
            (*r)@ == old(self).store_view(),
            final(self).store_view() == (*final(r))@,
            final(self).st() == old(self).st(),
            final(self).history_view() == old(self).history_view(),
            final(self).preceding_view() == old(self).preceding_view(),
    {
        &mut self.store
    }

    pub fn schema_id(&self) -> (r: &str)
        ensures
            r@ == self.st().schema@,
    {
        self.state.schema.as_str()
    }

    pub fn commit_history(&self) -> (r: &CommitHistory)
        ensures
            r@ == self.history_view(),
    {
        &self.history
    }

    pub fn confirmed_text(&self) -> (r: &str)
        ensures
            r@ == self.st().confirmed_text@,
    {
        self.state.confirmed_text.as_str()
    }

    /// Sets the host's text before the composition (context for scoring).
    pub fn set_preceding_text(&mut self, text: &str)
        ensures
            final(self).preceding_view() == text@,
            final(self).st() == old(self).st(),
            final(self).store_view() == old(self).store_view(),
            final(self).history_view() == old(self).history_view(),
    {
        self.preceding_text = string_from(text);
    }

    pub fn preceding_text(&self) -> (r: &str)
        ensures
            r@ == self.preceding_view(),
    {
        self.preceding_text.as_str()
    }

    /// A copy of the composition state, to restore later.
    pub fn edit_snapshot(&self) -> (r: CoreState)
        ensures
            same_state(r, self.st()),
    {
        self.state.copy()
    }

    pub fn current_segment_index(&self) -> (r: usize)
        ensures
            r == self.st().current_segment,
    {
        self.state.current_segment
    }

    pub fn current_segment(&self) -> (r: Option<&Segment>)
        ensures
            self.st().current_segment < self.st().segments@.len() ==>
                (r matches Some(x) && *x == self.st().segments@[self.st().current_segment as int]),
            self.st().current_segment >= self.st().segments@.len() ==> r is None,
    {
        if self.state.current_segment < self.state.segments.len() {
            Some(&self.state.segments[self.state.current_segment])
        } else {
            None
        }
    }

    /// Moves to segment `index`, taking its input, caret (clamped), page and
    /// selection; `false`, with nothing changed, when there is no such
    /// segment.
    pub fn focus_segment(&mut self, index: usize) -> (b: bool)
        ensures
            b == (index < old(self).st().segments@.len()),
            !b ==> *final(self) == *old(self),
            b ==> {
                let seg = old(self).st().segments@[index as int];
                &&& final(self).st().current_segment == index
                &&& final(self).st().pending == seg.input
                &&& final(self).st().cursor == if seg.cursor <= seg.input@.len() { seg.cursor as int } else { seg.input@.len() as int }
                &&& final(self).st().page_index == seg.page_index
                &&& final(self).st().selected == seg.selected
                &&& final(self).st().segments == old(self).st().segments
                &&& final(self).st().schema == old(self).st().schema
                &&& final(self).st().confirmed_text == old(self).st().confirmed_text
                &&& final(self).st().sentence_candidates == old(self).st().sentence_candidates
                &&& final(self).st().ascii_mode == old(self).st().ascii_mode
                &&& final(self).st().full_shape == old(self).st().full_shape
                &&& final(self).store_view() == old(self).store_view()
                &&& final(self).history_view() == old(self).history_view()
                &&& final(self).preceding_view() == old(self).preceding_view()
            },
    {
        if index >= self.state.segments.len() {
            return false;
        }
        self.state.current_segment = index;
        let seg = clone_segment(&self.state.segments[index]);
        let n = chars_of(seg.input.as_str()).len();
        self.state.pending = seg.input;
        self.state.cursor = if seg.cursor <= n { seg.cursor } else { n };
        self.state.page_index = seg.page_index;
        self.state.selected = seg.selected;
        true
    }

    /// Moves `delta` segments (clamped to the first and last); `false` when
    /// there are no segments.
    pub fn move_segment(&mut self, delta: i32) -> (b: bool)
        ensures
            b == (old(self).st().segments@.len() > 0),
            !b ==> *final(self) == *old(self),
            b ==> {
                let n = old(self).st().segments@.len() as int;
                let t = old(self).st().current_segment as int + delta as int;
                let next = if t < 0 { 0 } else if t > n - 1 { n - 1 } else { t };
                let seg = old(self).st().segments@[next];
                &&& final(self).st().current_segment == next
                &&& final(self).st().pending == seg.input
                &&& final(self).st().cursor == if seg.cursor <= seg.input@.len() { seg.cursor as int } else { seg.input@.len() as int }
                &&& final(self).st().page_index == seg.page_index
                &&& final(self).st().selected == seg.selected
                &&& final(self).st().segments == old(self).st().segments
                &&& final(self).st().confirmed_text == old(self).st().confirmed_text
            },
    {
        let n = self.state.segments.len();
        if n == 0 {
            return false;
        }
        let t: i128 = self.state.current_segment as i128 + delta as i128;
        let last: i128 = (n - 1) as i128;
        let next: usize = if t < 0 { 0 } else if t > last { n - 1 } else { t as usize };
        self.focus_segment(next)
    }
}

impl CoreRuntime {
    /// Writes the pending text back into the current segment (see
    /// `synced`); the confirmed text is rebuilt when a segment goes.
    fn sync_current_segment_state(&mut self)
        ensures
            final(self).history_cap() == old(self).history_cap(),
            (final(self).st().segments@, final(self).st().current_segment) == synced(old(self).st()),
            old(self).st().pending@.len() > 0 ==> final(self).st().current_segment < final(self).st().segments@.len()
                && final(self).st().segments@[final(self).st().current_segment as int] == (Segment {
                    input: old(self).st().pending, text: None, confirmed: false, cursor: old(self).st().cursor,
                    page_index: old(self).st().page_index, selected: old(self).st().selected }),
            same_composition(final(self).st(), old(self).st()),
            final(self).st().confirmed_text@ == if old(self).st().pending@.len() == 0
                && old(self).st().current_segment < old(self).st().segments@.len()
                && !old(self).st().segments@[old(self).st().current_segment as int].confirmed {
                confirmed_concat(final(self).st().segments@)
            } else {
                old(self).st().confirmed_text@
            },
            final(self).store_view() == old(self).store_view(),
            final(self).history_view() == old(self).history_view(),
            final(self).preceding_view() == old(self).preceding_view(),
    {
        let cur = self.state.current_segment;
        if chars_of(self.state.pending.as_str()).len() == 0 {
            if cur < self.state.segments.len() && !self.state.segments[cur].confirmed {
                self.state.segments.remove(cur);
                let n = self.state.segments.len();
                self.state.current_segment = if cur < n { cur } else if n > 0 { n - 1 } else { 0 };
                self.state.rebuild_confirmed_text();
            }
            return;
        }
        let seg = Segment {
            input: self.state.pending.clone(),
            text: None,
            confirmed: false,
            cursor: self.state.cursor,
            page_index: self.state.page_index,
            selected: self.state.selected,
        };
        if cur < self.state.segments.len() && !self.state.segments[cur].confirmed {
            self.state.segments.set(cur, seg);
        } else {
            self.state.segments.push(seg);
            self.state.current_segment = self.state.segments.len() - 1;
        }
    }

    /// Loads an unconfirmed current segment's input, caret, page and
    /// selection into the composition.
    fn load_current_segment_state(&mut self)
        ensures
            final(self).history_cap() == old(self).history_cap(),
            ({
                let o = old(self).st();
                let cur = o.current_segment;
                if cur < o.segments@.len() && !o.segments@[cur as int].confirmed {
                    let seg = o.segments@[cur as int];
                    &&& final(self).st().pending == seg.input
                    &&& final(self).st().cursor == seg.cursor
                    &&& final(self).st().page_index == seg.page_index
                    &&& final(self).st().selected == seg.selected
                } else {
                    &&& final(self).st().pending == o.pending
                    &&& final(self).st().cursor == o.cursor
                    &&& final(self).st().page_index == o.page_index
                    &&& final(self).st().selected == o.selected
                }
            }),
            final(self).st().segments == old(self).st().segments,
            final(self).st().current_segment == old(self).st().current_segment,
            final(self).st().confirmed_text == old(self).st().confirmed_text,
            final(self).st().schema == old(self).st().schema,
            final(self).st().sentence_candidates == old(self).st().sentence_candidates,
            final(self).st().ascii_mode == old(self).st().ascii_mode,
            final(self).st().full_shape == old(self).st().full_shape,
            final(self).store_view() == old(self).store_view(),
            final(self).history_view() == old(self).history_view(),
            final(self).preceding_view() == old(self).preceding_view(),
    {
        let cur = self.state.current_segment;
        if cur < self.state.segments.len() && !self.state.segments[cur].confirmed {
            let seg = clone_segment(&self.state.segments[cur]);
            self.state.pending = seg.input;
            self.state.cursor = seg.cursor;
            self.state.page_index = seg.page_index;
            self.state.selected = seg.selected;
        }
    }

    /// Removes segment `index`, rebuilds the confirmed text and moves to the
    /// segment now at the current index (the last one if it was past the
    /// end), or ends the composition when none is left; `false` when there is
    /// no such segment.
    pub fn delete_segment(&mut self, index: usize) -> (b: bool)
        ensures
            b == (index < old(self).st().segments@.len()),
            !b ==> *final(self) == *old(self),
            b ==> {
                let segs = old(self).st().segments@.remove(index as int);
                let c0 = old(self).st().current_segment;
                let cur = if c0 >= segs.len() { if segs.len() > 0 { (segs.len() - 1) as usize } else { 0usize } } else { c0 };
                &&& final(self).st().segments@ == segs
                &&& final(self).st().current_segment == cur
                &&& final(self).st().confirmed_text@ == confirmed_concat(segs)
                &&& cur < segs.len() ==> final(self).st().pending == segs[cur as int].input
                    && final(self).st().cursor == segs[cur as int].cursor
                    && final(self).st().page_index == segs[cur as int].page_index
                    && final(self).st().selected == segs[cur as int].selected
                    && final(self).st().sentence_candidates == old(self).st().sentence_candidates
                &&& cur >= segs.len() ==> composition_cleared(final(self).st())
                &&& final(self).st().schema == old(self).st().schema
                &&& final(self).st().ascii_mode == old(self).st().ascii_mode
                &&& final(self).st().full_shape == old(self).st().full_shape
                &&& final(self).store_view() == old(self).store_view()
                &&& final(self).history_view() == old(self).history_view()
                &&& final(self).preceding_view() == old(self).preceding_view()
            },
    {
        if index >= self.state.segments.len() {
            return false;
        }
        self.state.segments.remove(index);
        self.state.rebuild_confirmed_text();
        let n = self.state.segments.len();
        if self.state.current_segment >= n {
            self.state.current_segment = if n > 0 { n - 1 } else { 0 };
        }
        let cur = self.state.current_segment;
        if cur < n {
            let seg = clone_segment(&self.state.segments[cur]);
            self.state.pending = seg.input;
            self.state.cursor = seg.cursor;
            self.state.page_index = seg.page_index;
            self.state.selected = seg.selected;
        } else {
            self.state.clear_composition();
        }
        true
    }

    /// Restores a state taken by `edit_snapshot`: its confirmed text is
    /// rebuilt and its current segment (clamped) focused, or the composition
    /// ends when it has no segments; `false`, with nothing changed, when its
    /// scheme is not in the store.
    pub fn restore_edit_snapshot(&mut self, snapshot: CoreState) -> (b: bool)
        ensures
            b == (store_get(old(self).store_view(), snapshot.schema@) is Some),
            !b ==> *final(self) == *old(self),
            b ==> {
                &&& final(self).st().schema == snapshot.schema
                &&& final(self).st().segments == snapshot.segments
                &&& final(self).st().confirmed_text@ == confirmed_concat(snapshot.segments@)
                &&& final(self).st().ascii_mode == snapshot.ascii_mode
                &&& final(self).st().full_shape == snapshot.full_shape
                &&& snapshot.segments@.len() == 0 ==> final(self).st().current_segment == 0 && composition_cleared(final(self).st())
                &&& snapshot.segments@.len() > 0 ==> {
                    let cur = if snapshot.current_segment < snapshot.segments@.len() { snapshot.current_segment as int }
                        else { snapshot.segments@.len() - 1 };
                    let seg = snapshot.segments@[cur];
                    &&& final(self).st().current_segment == cur
                    &&& final(self).st().pending == seg.input
                    &&& final(self).st().cursor == if seg.cursor <= seg.input@.len() { seg.cursor as int } else { seg.input@.len() as int }
                    &&& final(self).st().page_index == seg.page_index
                    &&& final(self).st().selected == seg.selected
                }
                &&& final(self).store_view() == old(self).store_view()
                &&& final(self).history_view() == old(self).history_view()
                &&& final(self).preceding_view() == old(self).preceding_view()
            },
    {
        if !self.store.contains(snapshot.schema.as_str()) {
            return false;
        }
        self.state = snapshot;
        self.state.rebuild_confirmed_text();
        let n = self.state.segments.len();
        if n == 0 {
            self.state.current_segment = 0;
            self.state.clear_composition();
            return true;
        }
        if self.state.current_segment >= n {
            self.state.current_segment = n - 1;
        }
        let c = self.state.current_segment;
        self.focus_segment(c)
    }
}

/// Decimal digits of `n`.
pub fn usize_decimal(n: usize) -> (s: String)
    ensures
        s@ == decimal(n as nat),
    decreases n,
{
    if n < 10 {
        let mut s = String::new();
        push_char(&mut s, ((n + 48) as u8) as char);
        assert(s@ =~= decimal(n as nat));
        s
    } else {
        let mut s = usize_decimal(n / 10);
        push_char(&mut s, (((n % 10) + 48) as u8) as char);
        s
    }
}

/// Sentences with the same words list the same candidates.
proof fn lemma_cands_sentences(e: Engine, buf: Seq<char>, a: Seq<SentenceCandidate>, b: Seq<SentenceCandidate>, limit: usize)
    requires
        sentences_view(a) == sentences_view(b),
    ensures
        cands_spec(e, buf, a, limit) == cands_spec(e, buf, b, limit),
{
    assert(a.len() == sentences_view(a).len() && b.len() == sentences_view(b).len());
    assert forall|k: int| 0 <= k < a.len() implies #[trigger] crate::engine::sentence_text(a[k]) == crate::engine::sentence_text(b[k]) by {
        assert(sentences_view(a)[k] == sentence_view(a[k]));
        assert(sentences_view(b)[k] == sentence_view(b[k]));
        assert(strings_view(a[k].words@) == strings_view(b[k].words@));
    }
    let input = crate::engine::script_input(e, buf);
    assert(a.map_values(|s: SentenceCandidate| (crate::engine::sentence_text(s), input, CandidateSource::ScriptSentence))
        =~= b.map_values(|s: SentenceCandidate| (crate::engine::sentence_text(s), input, CandidateSource::ScriptSentence)));
    assert(a.map_values(|s: SentenceCandidate| (crate::engine::sentence_text(s), crate::engine::annotation(e, crate::engine::sentence_text(s)), CandidateSource::Reverse))
        =~= b.map_values(|s: SentenceCandidate| (crate::engine::sentence_text(s), crate::engine::annotation(e, crate::engine::sentence_text(s)), CandidateSource::Reverse)));
}

impl CoreRuntime {
    /// A session on `engine` holding the composition.
    fn open_session<'b>(&self, engine: &'b Engine) -> (s: Session<'b>)
        ensures
            *s.engine_of() == *engine,
            s.buf_view() == self.st().pending@,
            s.cursor_view() == if self.st().cursor <= self.st().pending@.len() { self.st().cursor as nat } else { self.st().pending@.len() },
            sentences_view(s.sentences_view()) == sentences_view(self.st().sentence_candidates@),
            s.ascii_view() == self.st().ascii_mode,
            s.learned_view().len() == 0,
    {
        let mut session = engine.session();
        session.restore_state_at(self.state.pending.clone(), clone_sentences(&self.state.sentence_candidates), self.state.cursor);
        session.set_ascii_mode(self.state.ascii_mode);
        let pre = chars_of(self.preceding_text.as_str());
        let word = if pre.len() > 0 {
            Some(crate::engine::char_string(pre[pre.len() - 1]))
        } else {
            let ct = chars_of(self.state.confirmed_text.as_str());
            if ct.len() > 0 { Some(crate::engine::char_string(ct[ct.len() - 1])) } else { None }
        };
        session.set_preceding_word(word);
        session
    }

    /// All candidates of the composition (at most 64), numbered.
    fn all_candidates(&self) -> (r: Vec<CandidateView>)
        ensures
            listed_views(r@) == listing(runtime_cands(current_engine(*self), self.st())),
    {
        let engine = match self.store.get(self.state.schema.as_str()) {
            Some(e) => e,
            None => {
                let r: Vec<CandidateView> = Vec::new();
                assert(listed_views(r@) =~= listing(Seq::<CandView>::empty()));
                return r;
            },
        };
        let session = self.open_session(engine);
        let cands = session.candidates(MAX_SNAPSHOT_CANDIDATES);
        proof {
            lemma_cands_sentences(*engine, self.state.pending@, session.sentences_view(), self.state.sentence_candidates@,
                MAX_SNAPSHOT_CANDIDATES);
        }
        let ghost cs = cands_view(cands@);
        let mut out: Vec<CandidateView> = Vec::new();
        let mut i: usize = 0;
        while i < cands.len()
            invariant
                i <= cands@.len(),
                cs == cands_view(cands@),
                listed_views(out@) == listing(cs).take(i as int),
            decreases cands@.len() - i,
        {
            let c = &cands[i];
            let label = usize_decimal(i % PAGE_SIZE + 1);
            let item = CandidateView {
                key: CandidateKey { source: c.source, ordinal: i as u32 },
                word: c.word.clone(),
                annotation: c.code.clone(),
                label,
            };
            let ghost before = out@;
            out.push(item);
            proof {
                assert(listed_views(out@) =~= listed_views(before).push(listed_view(item)));
                assert(listing(cs).take(i + 1) =~= listing(cs).take(i as int).push(listing(cs)[i as int]));
            }
            i += 1;
        }
        assert(listing(cs).take(cs.len() as int) =~= listing(cs));
        out
    }

    /// What a shell renders: segments, pending text, caret, the current
    /// page of candidates and the status.
    pub fn snapshot(&self) -> (snap: ContextSnapshot)
        ensures
            snapshot_of(self.st(), listing(runtime_cands(current_engine(*self), self.st())), snap),
    {
        self.build_snapshot()
    }

    #[verifier::spinoff_prover]
    fn build_snapshot(&self) -> (snap: ContextSnapshot)
        ensures
            snapshot_of(self.st(), listing(runtime_cands(current_engine(*self), self.st())), snap),
    {
        let all = self.all_candidates();
        let ghost av = listed_views(all@);
        let total = all.len();
        let start = match self.state.page_index.checked_mul(PAGE_SIZE) {
            Some(x) => if x < total { x } else { total },
            None => total,
        };
        let end = if start < total && total - start > PAGE_SIZE { start + PAGE_SIZE } else { total };
        let mut items: Vec<CandidateView> = Vec::new();
        let mut i = start;
        while i < end
            invariant
                start <= i <= end <= total,
                total == all@.len(),
                av == listed_views(all@),
                listed_views(items@) == av.subrange(start as int, i as int),
            decreases end - i,
        {
            let c = &all[i];
            let item = CandidateView { key: c.key, word: c.word.clone(), annotation: c.annotation.clone(), label: c.label.clone() };
            let ghost before = items@;
            items.push(item);
            proof {
                assert(listed_views(items@) =~= listed_views(before).push(av[i as int]));
                assert(av.subrange(start as int, i + 1) =~= av.subrange(start as int, i as int).push(av[i as int]));
            }
            i += 1;
        }
        let selected = match self.state.selected {
            Some(k) => {
                let mut found = false;
                let mut j: usize = 0;
                while j < items.len()
                    invariant
                        j <= items@.len(),
                        found == exists|t: int| 0 <= t < j && listed_views(items@)[t].0 == k,
                    decreases items@.len() - j,
                {
                    if items[j].key == k {
                        found = true;
                    }
                    proof {
                        assert(listed_views(items@)[j as int].0 == items@[j as int].key);
                        if found {
                            if !(exists|t: int| 0 <= t < j && listed_views(items@)[t].0 == k) {
                                assert(listed_views(items@)[j as int].0 == k);
                            }
                        }
                    }
                    j += 1;
                }
                if found { Some(k) } else { None }
            },
            None => None,
        };
        let n = chars_of(self.state.pending.as_str()).len();
        ContextSnapshot {
            segments: clone_segments(&self.state.segments),
            current_segment: self.state.current_segment,
            confirmed_text: self.state.confirmed_text.clone(),
            pending: self.state.pending.clone(),
            cursor: self.state.cursor,
            candidates: CandidatePage {
                items,
                page_index: self.state.page_index,
                page_size: PAGE_SIZE,
                total,
                selected,
                has_previous: start > 0,
                has_next: end < total,
            },
            status: RuntimeStatus {
                schema: self.state.schema.clone(),
                ascii_mode: self.state.ascii_mode,
                full_shape: self.state.full_shape,
                composing: n > 0,
            },
        }
    }
}

impl CoreRuntime {
    fn result(&self, disposition: EventDisposition, committed: Option<String>, composition: CompositionAction,
        error: Option<CoreError>) -> (r: CommandResult)
        ensures
            r.disposition == disposition,
            r.committed == committed,
            r.composition == composition,
            r.error == error,
            snapshot_of(self.st(), listing(runtime_cands(current_engine(*self), self.st())), r.snapshot),
    {
        CommandResult { disposition, committed, composition, snapshot: self.build_snapshot(), error }
    }

    /// The selected candidate of the page, or its first.
    fn selected_or_first(&self) -> (r: Option<CandidateKey>)
        ensures
            r == default_key(self.st(), listing(runtime_cands(current_engine(*self), self.st()))),
    {
        let page = self.build_snapshot().candidates;
        match page.selected {
            Some(k) => Some(k),
            None => {
                if page.items.len() > 0 {
                    assert(listed_views(page.items@)[0].0 == page.items@[0].key);
                    Some(page.items[0].key)
                } else {
                    None
                }
            },
        }
    }

    fn reset_candidate_view(&mut self)
        ensures
            final(self).st().page_index == 0,
            final(self).st().selected is None,
            final(self).st().schema == old(self).st().schema,
            final(self).st().segments == old(self).st().segments,
            final(self).st().current_segment == old(self).st().current_segment,
            final(self).st().confirmed_text == old(self).st().confirmed_text,
            final(self).st().pending == old(self).st().pending,
            final(self).st().cursor == old(self).st().cursor,
            final(self).st().sentence_candidates == old(self).st().sentence_candidates,
            final(self).st().ascii_mode == old(self).st().ascii_mode,
            final(self).st().full_shape == old(self).st().full_shape,
            final(self).store_view() == old(self).store_view(),
            final(self).history_view() == old(self).history_view(),
            final(self).preceding_view() == old(self).preceding_view(),
    {
        self.state.page_index = 0;
        self.state.selected = None;
    }

    fn set_ascii(&mut self, value: bool)
        ensures
            final(self).st().ascii_mode == value,
            composition_cleared(final(self).st()),
            final(self).st().schema == old(self).st().schema,
            final(self).st().segments == old(self).st().segments,
            final(self).st().current_segment == old(self).st().current_segment,
            final(self).st().confirmed_text == old(self).st().confirmed_text,
            final(self).st().full_shape == old(self).st().full_shape,
            final(self).store_view() == old(self).store_view(),
            final(self).history_view() == old(self).history_view(),
            final(self).preceding_view() == old(self).preceding_view(),
    {
        self.state.ascii_mode = value;
        self.state.clear_composition();
    }

    /// Moves `delta` pages, clamped to the pages there are; the selection is
    /// dropped.
    fn move_page(&mut self, delta: i32)
        ensures
            ({
                let total = listing(runtime_cands(current_engine(*old(self)), old(self).st())).len() as int;
                let pages = (total + (PAGE_SIZE as int) - 1) / (PAGE_SIZE as int);
                let last = if pages > 0 { pages - 1 } else { 0 };
                let t = old(self).st().page_index as int + delta as int;
                final(self).st().page_index == if t < 0 { 0 } else if t > last { last } else { t }
            }),
            final(self).st().selected is None,
            final(self).st().schema == old(self).st().schema,
            final(self).st().segments == old(self).st().segments,
            final(self).st().current_segment == old(self).st().current_segment,
            final(self).st().confirmed_text == old(self).st().confirmed_text,
            final(self).st().pending == old(self).st().pending,
            final(self).st().cursor == old(self).st().cursor,
            final(self).st().sentence_candidates == old(self).st().sentence_candidates,
            final(self).st().ascii_mode == old(self).st().ascii_mode,
            final(self).st().full_shape == old(self).st().full_shape,
            final(self).store_view() == old(self).store_view(),
            final(self).history_view() == old(self).history_view(),
            final(self).preceding_view() == old(self).preceding_view(),
    {
        let total = self.build_snapshot().candidates.total;
        let pages = total / PAGE_SIZE + if total % PAGE_SIZE > 0 { 1 } else { 0 };
        proof {
            assert(pages == (total + 8) / 9) by (nonlinear_arith)
                requires pages == total / 9 + if total % 9 > 0 { 1int } else { 0int };
        }
        let last: usize = if pages > 0 { pages - 1 } else { 0 };
        let t: i128 = self.state.page_index as i128 + delta as i128;
        let next: usize = if t < 0 { 0 } else if t > last as i128 { last } else { t as usize };
        self.state.page_index = next;
        self.state.selected = None;
    }

    /// Deletes the character after the caret; at the end of the pending
    /// text, deletes the next segment instead. `false` when neither exists.
    fn delete_at_cursor(&mut self) -> (b: bool)
        ensures
            old(self).st().cursor < old(self).st().pending@.len() ==> b
                && final(self).st().pending@ == old(self).st().pending@.remove(old(self).st().cursor as int)
                && final(self).st().cursor == old(self).st().cursor
                && final(self).st().sentence_candidates@.len() == 0
                && final(self).st().page_index == 0
                && final(self).st().selected is None,
            old(self).st().cursor >= old(self).st().pending@.len()
                && old(self).st().current_segment + 1 >= old(self).st().segments@.len() ==> !b && *final(self) == *old(self),
            old(self).st().cursor >= old(self).st().pending@.len()
                && old(self).st().current_segment + 1 < old(self).st().segments@.len() ==> {
                let (segs, cur) = synced(old(self).st());
                &&& b == (cur + 1 < segs.len())
                &&& b ==> final(self).st().segments@ == segs.remove(cur + 1)
                    && final(self).st().confirmed_text@ == confirmed_concat(final(self).st().segments@)
            },
            final(self).st().schema == old(self).st().schema,
            final(self).st().ascii_mode == old(self).st().ascii_mode,
            final(self).st().full_shape == old(self).st().full_shape,
            final(self).store_view() == old(self).store_view(),
            final(self).history_view() == old(self).history_view(),
            final(self).preceding_view() == old(self).preceding_view(),
    {
        let mut cs = chars_of(self.state.pending.as_str());
        let len = cs.len();
        if self.state.cursor < len {
            cs.remove(self.state.cursor);
            self.state.pending = string_of(cs.as_slice());
            self.state.sentence_candidates = Vec::new();
            self.state.page_index = 0;
            self.state.selected = None;
            self.sync_current_segment_state();
            return true;
        }
        if self.state.current_segment < self.state.segments.len() && self.state.current_segment + 1 < self.state.segments.len() {
            self.sync_current_segment_state();
            if self.state.current_segment < self.state.segments.len() {
                let next = self.state.current_segment + 1;
                return self.delete_segment(next);
            }
            return false;
        }
        false
    }

    /// Moves the caret `delta` characters; at the start (end) of the pending
    /// text a move left (right) goes to the end (start) of the previous
    /// (next) segment.
    fn move_cursor_across_segments(&mut self, delta: i32)
        ensures
            !(delta < 0 && old(self).st().cursor == 0 && old(self).st().current_segment > 0)
                && !(delta > 0 && old(self).st().cursor >= old(self).st().pending@.len()
                    && old(self).st().current_segment + 1 < old(self).st().segments@.len()) ==> {
                    let t = old(self).st().cursor as int + delta as int;
                    let n = old(self).st().pending@.len() as int;
                    &&& final(self).st().cursor == if t < 0 { 0 } else if t > n { n } else { t }
                    &&& final(self).st().pending == old(self).st().pending
                    &&& n > 0 && old(self).st().current_segment < old(self).st().segments@.len()
                        && !old(self).st().segments@[old(self).st().current_segment as int].confirmed
                        ==> final(self).st().current_segment == old(self).st().current_segment
                },
            delta < 0 && old(self).st().cursor == 0 && 0 < old(self).st().current_segment <= old(self).st().segments@.len() ==> {
                let seg = old(self).st().segments@[old(self).st().current_segment - 1];
                &&& final(self).st().pending == seg.input
                &&& final(self).st().cursor == seg.input@.len()
                &&& !seg.confirmed && seg.input@.len() > 0 ==> final(self).st().current_segment == old(self).st().current_segment - 1
            },
            delta > 0 && old(self).st().cursor >= old(self).st().pending@.len()
                && old(self).st().current_segment + 1 < old(self).st().segments@.len() ==> {
                let seg = old(self).st().segments@[old(self).st().current_segment + 1];
                &&& final(self).st().pending == seg.input
                &&& final(self).st().cursor == 0
                &&& !seg.confirmed && seg.input@.len() > 0 ==> final(self).st().current_segment == old(self).st().current_segment + 1
            },
            final(self).st().pending@.len() > 0 ==> final(self).st().current_segment < final(self).st().segments@.len()
                && final(self).st().segments@[final(self).st().current_segment as int] == (Segment {
                    input: final(self).st().pending, text: None, confirmed: false, cursor: final(self).st().cursor,
                    page_index: final(self).st().page_index, selected: final(self).st().selected }),
            final(self).st().schema == old(self).st().schema,
            final(self).st().ascii_mode == old(self).st().ascii_mode,
            final(self).st().full_shape == old(self).st().full_shape,
            final(self).store_view() == old(self).store_view(),
            final(self).history_view() == old(self).history_view(),
            final(self).preceding_view() == old(self).preceding_view(),
    {
        let n = chars_of(self.state.pending.as_str()).len();
        let cur = self.state.current_segment;
        if delta < 0 && self.state.cursor == 0 && cur > 0 {
            let _ = self.focus_segment(cur - 1);
            self.state.cursor = chars_of(self.state.pending.as_str()).len();
        } else if delta > 0 && self.state.cursor >= n && cur < self.state.segments.len() && cur + 1 < self.state.segments.len() {
            let _ = self.focus_segment(cur + 1);
            self.state.cursor = 0;
        } else {
            let t: i128 = self.state.cursor as i128 + delta as i128;
            self.state.cursor = if t < 0 { 0 } else if t > n as i128 { n } else { t as usize };
        }
        self.sync_current_segment_state();
    }
}

proof fn lemma_stores_agree_refl(s: Seq<(Seq<char>, Engine)>)
    ensures
        stores_agree(s, s),
{
}

proof fn lemma_stores_agree_trans(a: Seq<(Seq<char>, Engine)>, b: Seq<(Seq<char>, Engine)>, c: Seq<(Seq<char>, Engine)>)
    requires
        stores_agree(a, b),
        stores_agree(b, c),
    ensures
        stores_agree(a, c),
{
    assert forall|id: Seq<char>| #![trigger store_get(c, id)]
        (store_get(a, id) is Some) == (store_get(c, id) is Some)
        && (store_get(a, id) matches Some(e0) ==> same_but_user_dict(e0, store_get(c, id)->0)) by {
        assert((store_get(a, id) is Some) == (store_get(b, id) is Some));
        assert((store_get(b, id) is Some) == (store_get(c, id) is Some));
    }
}

impl CoreRuntime {
    /// Opens a user-dictionary transaction on the current engine.
    fn ud_begin(&mut self)
        ensures
            final(self).history_cap() == old(self).history_cap(),
            stores_agree(old(self).store_view(), final(self).store_view()),
            final(self).st() == old(self).st(),
            final(self).history_view() == old(self).history_view(),
            final(self).preceding_view() == old(self).preceding_view(),
            current_ud(*old(self)) matches Some(u) ==> (current_ud(*final(self)) matches Some(u2)
                && u2@ == u@ && u2.saved_view() == Some(u@) && u2.fails_next_commit() == u.fails_next_commit()),
            current_ud(*old(self)) is None ==> current_ud(*final(self)) is None,
    {
        let schema = self.state.schema.clone();
        let ghost s0 = self.store@;
        match self.store.take(schema.as_str()) {
            Some(mut eng) => {
                let ghost e0 = eng;
                match &mut eng.user_dict {
                    Some(u) => { u.begin_transaction(); },
                    None => {},
                }
                assert(same_but_user_dict(e0, eng));
                self.store.insert(schema.as_str(), eng);
                proof { self.lemma_put_back(s0, schema@, e0, eng); }
            },
            None => {},
        }
    }

    /// Applies learned selections to the current engine's user dictionary.
    fn ud_learn(&mut self, learned: &Vec<(String, String)>)
        ensures
            final(self).history_cap() == old(self).history_cap(),
            stores_agree(old(self).store_view(), final(self).store_view()),
            final(self).st() == old(self).st(),
            final(self).history_view() == old(self).history_view(),
            final(self).preceding_view() == old(self).preceding_view(),
            current_ud(*old(self)) matches Some(u) ==> (current_ud(*final(self)) matches Some(u2)
                && u2.saved_view() == u.saved_view() && u2.fails_next_commit() == u.fails_next_commit()
                && (forall|c: Seq<char>, w: Seq<char>| #[trigger] crate::user_dict::count_of(u2@, c, w)
                    == crate::user_dict::learned_count(u@, crate::engine::learned_pairs(learned@), c, w))),
            current_ud(*old(self)) is None ==> current_ud(*final(self)) is None,
    {
        let schema = self.state.schema.clone();
        let ghost s0 = self.store@;
        match self.store.take(schema.as_str()) {
            Some(mut eng) => {
                let ghost e0 = eng;
                eng.learn_all(learned);
                assert(same_but_user_dict(e0, eng));
                self.store.insert(schema.as_str(), eng);
                proof { self.lemma_put_back(s0, schema@, e0, eng); }
            },
            None => {},
        }
    }

    /// Closes the transaction: on success commits it (rolling back when
    /// the commit fails), otherwise rolls it back.
    fn ud_finish(&mut self, success: bool)
        ensures
            final(self).history_cap() == old(self).history_cap(),
            stores_agree(old(self).store_view(), final(self).store_view()),
            final(self).st() == old(self).st(),
            final(self).history_view() == old(self).history_view(),
            final(self).preceding_view() == old(self).preceding_view(),
            current_ud(*old(self)) matches Some(u) ==> (current_ud(*final(self)) matches Some(u2)
                && ((!success || u.fails_next_commit()) ==> u2@ == match u.saved_view() { Some(sv) => sv, None => u@ })
                && ((success && !u.fails_next_commit()) ==> u2@ == u@)),
            current_ud(*old(self)) is None ==> current_ud(*final(self)) is None,
    {
        let schema = self.state.schema.clone();
        let ghost s0 = self.store@;
        match self.store.take(schema.as_str()) {
            Some(mut eng) => {
                let ghost e0 = eng;
                match &mut eng.user_dict {
                    Some(u) => {
                        if success {
                            if !u.commit_transaction() {
                                u.rollback_transaction();
                            }
                        } else {
                            u.rollback_transaction();
                        }
                    },
                    None => {},
                }
                assert(same_but_user_dict(e0, eng));
                self.store.insert(schema.as_str(), eng);
                proof { self.lemma_put_back(s0, schema@, e0, eng); }
            },
            None => {},
        }
    }

    /// Takes back one selection of `word` for `code` in the current
    /// engine's user dictionary; `None` without one.
    fn ud_forget(&mut self, code: &str, word: &str) -> (r: Option<bool>)
        ensures
            stores_agree(old(self).store_view(), final(self).store_view()),
            final(self).st() == old(self).st(),
            final(self).history_view() == old(self).history_view(),
            final(self).preceding_view() == old(self).preceding_view(),
            current_ud(*old(self)) matches Some(u) ==> (current_ud(*final(self)) matches Some(u2)
                && r == Some(crate::user_dict::count_of(u@, code@, word@) > 0)),
            current_ud(*old(self)) is None ==> r is None && current_ud(*final(self)) is None,
    {
        let schema = self.state.schema.clone();
        let ghost s0 = self.store@;
        match self.store.take(schema.as_str()) {
            Some(mut eng) => {
                let ghost e0 = eng;
                let r = match &mut eng.user_dict {
                    Some(u) => Some(u.forget(code, word)),
                    None => None,
                };
                assert(same_but_user_dict(e0, eng));
                self.store.insert(schema.as_str(), eng);
                proof { self.lemma_put_back(s0, schema@, e0, eng); }
                r
            },
            None => None,
        }
    }

    /// Taking the current engine out and putting a changed copy back keeps
    /// the store in agreement.
    proof fn lemma_put_back(&self, s0: Seq<(Seq<char>, Engine)>, id: Seq<char>, e0: Engine, e1: Engine)
        requires
            store_get(s0, id) == Some(e0),
            store_get(self.store_view(), id) == Some(e1),
            same_but_user_dict(e0, e1),
            forall|other: Seq<char>| other != id ==> store_get(self.store_view(), other) == store_get(s0, other),
        ensures
            stores_agree(s0, self.store_view()),
    {
    }
}

/// The caret clamped to the pending text.
/// The spelling and caret an edit starts from: those of an unconfirmed
/// current segment, else the composition's.
pub open spec fn loaded_composition(st: CoreState) -> (Seq<char>, usize) {
    let cur = st.current_segment;
    if cur < st.segments@.len() && !st.segments@[cur as int].confirmed {
        (st.segments@[cur as int].input@, st.segments@[cur as int].cursor)
    } else {
        (st.pending@, st.cursor)
    }
}

pub open spec fn clamped_cursor(st: CoreState) -> nat {
    if st.cursor <= st.pending@.len() { st.cursor as nat } else { st.pending@.len() }
}

impl CoreRuntime {
    /// Feeds `ch` to a session on the composition (inserting at the caret)
    /// and writes the session back; `None` when the scheme has no engine.
    fn run_text(&mut self, ch: char) -> (r: Option<FeedResult>)
        ensures
            match current_engine(*old(self)) {
                Some(e) => {
                    let o = feed_at_spec(e, old(self).st().pending@, clamped_cursor(old(self).st()), old(self).st().ascii_mode, ch);
                    &&& r matches Some(x) && feed_view(x) == o.0
                    &&& final(self).st().pending@ == o.1
                    &&& final(self).st().cursor == o.2
                    &&& (final(self).st().segments@, final(self).st().current_segment) == synced(CoreState {
                            pending: final(self).st().pending, cursor: final(self).st().cursor, ..old(self).st() })
                    &&& o.1.len() > 0 ==> final(self).st().current_segment < final(self).st().segments@.len()
                        && final(self).st().segments@[final(self).st().current_segment as int] == (Segment {
                            input: final(self).st().pending, text: None, confirmed: false, cursor: final(self).st().cursor,
                            page_index: old(self).st().page_index, selected: old(self).st().selected })
                },
                None => r is None && *final(self) == *old(self),
            },
            final(self).st().schema == old(self).st().schema,
            final(self).st().ascii_mode == old(self).st().ascii_mode,
            final(self).st().full_shape == old(self).st().full_shape,
            final(self).st().page_index == old(self).st().page_index,
            final(self).st().selected == old(self).st().selected,
            final(self).st().confirmed_text@ == old(self).st().confirmed_text@
                || final(self).st().confirmed_text@ == confirmed_concat(final(self).st().segments@),
            final(self).store_view() == old(self).store_view(),
            final(self).history_view() == old(self).history_view(),
            final(self).preceding_view() == old(self).preceding_view(),
    {
        let engine = match self.store.get(self.state.schema.as_str()) {
            Some(e) => e,
            None => { return None; },
        };
        let mut session = self.open_session(engine);
        let r = session.feed_at_cursor(ch);
        let (p, sc, c) = session.take_state();
        self.state.pending = p;
        self.state.sentence_candidates = sc;
        self.state.cursor = c;
        self.sync_current_segment_state();
        Some(r)
    }

    /// Deletes the character before the caret through a session, after
    /// loading an unconfirmed current segment.
    fn run_backspace(&mut self)
        ensures
            current_engine(*old(self)) is Some ==> {
                let (p, c0) = loaded_composition(old(self).st());
                let c = if c0 <= p.len() { c0 as int } else { p.len() as int };
                &&& final(self).st().pending@ == if c > 0 { p.remove(c - 1) } else { p }
                &&& final(self).st().cursor == if c > 0 { c - 1 } else { c }
                &&& final(self).st().pending@.len() > 0 ==> final(self).st().current_segment < final(self).st().segments@.len()
                    && final(self).st().segments@[final(self).st().current_segment as int].input == final(self).st().pending
                    && final(self).st().segments@[final(self).st().current_segment as int].cursor == final(self).st().cursor
                    && !final(self).st().segments@[final(self).st().current_segment as int].confirmed
            },
            final(self).st().schema == old(self).st().schema,
            final(self).st().ascii_mode == old(self).st().ascii_mode,
            final(self).st().full_shape == old(self).st().full_shape,
            final(self).store_view() == old(self).store_view(),
            final(self).history_view() == old(self).history_view(),
            final(self).preceding_view() == old(self).preceding_view(),
    {
        self.load_current_segment_state();
        let engine = match self.store.get(self.state.schema.as_str()) {
            Some(e) => e,
            None => { return; },
        };
        let mut session = self.open_session(engine);
        let _ = session.delete_before_cursor();
        let (p, sc, c) = session.take_state();
        self.state.pending = p;
        self.state.sentence_candidates = sc;
        self.state.cursor = c;
        self.sync_current_segment_state();
    }

    /// Commits `word` through a session, after loading an unconfirmed
    /// current segment; hands back what the session learned.
    fn run_select_word(&mut self, word: &str) -> (r: (Option<String>, Vec<(String, String)>))
        ensures
            final(self).history_cap() == old(self).history_cap(),
            r.0 matches Some(w) ==> w@ == word@,
            r.0 is Some ==> final(self).st().pending@.len() == 0 && final(self).st().cursor == 0
                && (final(self).st().segments@, final(self).st().current_segment)
                    == dropped_current(old(self).st().segments@, old(self).st().current_segment),
            current_engine(*old(self)) matches Some(e) ==> (r.0 is Some <==> crate::engine::selectable(e,
                loaded_composition(old(self).st()).0, old(self).st().sentence_candidates@, word@)),
            current_engine(*old(self)) matches Some(e) ==> (r.0 is Some ==> crate::engine::learned_pairs(r.1@)
                == seq![(crate::engine::learn_code(e, loaded_composition(old(self).st()).0), word@)]),
            r.0 is None ==> r.1@.len() == 0,
            final(self).st().schema == old(self).st().schema,
            final(self).st().ascii_mode == old(self).st().ascii_mode,
            final(self).st().full_shape == old(self).st().full_shape,
            final(self).store_view() == old(self).store_view(),
            final(self).history_view() == old(self).history_view(),
            final(self).preceding_view() == old(self).preceding_view(),
    {
        self.load_current_segment_state();
        let engine = match self.store.get(self.state.schema.as_str()) {
            Some(e) => e,
            None => { return (None, Vec::new()); },
        };
        let mut session = self.open_session(engine);
        proof {
            lemma_cands_sentences(*engine, self.state.pending@, session.sentences_view(), self.state.sentence_candidates@,
                usize::MAX);
        }
        let result = session.select_word(word);
        let learned = session.take_learned();
        let (p, sc, c) = session.take_state();
        self.state.pending = p;
        self.state.sentence_candidates = sc;
        self.state.cursor = c;
        self.sync_current_segment_state();
        (result, learned)
    }

    /// Commits the candidate `key` names: it is learned within a user-
    /// dictionary transaction (rolled back when the commit fails), recorded
    /// as a confirmed segment and in the history. `InvalidCandidate` when no
    /// candidate has that key.
    fn select_key(&mut self, key: CandidateKey, error: &mut Option<CoreError>) -> (r: Option<String>)
        ensures
            final(self).history_cap() == old(self).history_cap(),
            ({
                let all = listing(runtime_cands(current_engine(*old(self)), old(self).st()));
                &&& !(exists|i: int| 0 <= i < all.len() && all[i].0 == key) ==> r is None
                    && *final(error) == Some(CoreError::InvalidCandidate(key))
                    && *final(self) == *old(self)
                &&& (exists|i: int| 0 <= i < all.len() && all[i].0 == key) ==> *final(error) == *old(error)
                    && (r matches Some(w) ==> (exists|i: int| 0 <= i < all.len() && all[i].0 == key && all[i].1 == w@)
                        && final(self).history_view().len() > 0
                        && final(self).history_view().last() == (CommitRecord { text: w, code: old(self).st().pending, learned: true })
                        && final(self).history_view() == crate::history::pushed(old(self).history_view(), old(self).history_cap(),
                            final(self).history_view().last())
                        && final(self).st().pending@.len() == 0
                        && final(self).st().confirmed_text@ == confirmed_concat(final(self).st().segments@)
                        && final(self).st().current_segment < final(self).st().segments@.len()
                        && final(self).st().segments@[final(self).st().current_segment as int] == (Segment {
                            input: old(self).st().pending, text: Some(w), confirmed: true, cursor: 0, page_index: 0,
                            selected: Some(key) })
                        && (final(self).st().segments@, final(self).st().current_segment) == placed(
                            dropped_current(old(self).st().segments@, old(self).st().current_segment), (Segment {
                            input: old(self).st().pending, text: Some(w), confirmed: true, cursor: 0, page_index: 0,
                            selected: Some(key) })))
                    && (r is None ==> final(self).history_view() == old(self).history_view())
                &&& (exists|i: int| 0 <= i < all.len() && all[i].0 == key) ==> (current_engine(*old(self)) matches Some(e)
                    ==> (loaded_composition(old(self).st()).0 == old(self).st().pending@
                        && crate::engine::lists_fit(e, old(self).st().sentence_candidates@) ==> r is Some))
            }),
            r matches Some(w) ==> (current_ud(*old(self)) matches Some(u) ==> (!u.fails_next_commit() ==>
                (current_ud(*final(self)) matches Some(u2) && forall|c: Seq<char>, w2: Seq<char>|
                    #[trigger] crate::user_dict::count_of(u2@, c, w2) == crate::user_dict::learned_count(u@,
                        seq![(crate::engine::learn_code(current_engine(*old(self))->0, loaded_composition(old(self).st()).0), w@)],
                        c, w2)))),
            current_ud(*old(self)) matches Some(u) ==> (u.fails_next_commit() ==>
                (current_ud(*final(self)) matches Some(u2) && u2@ == u@)),
            stores_agree(old(self).store_view(), final(self).store_view()),
            final(self).st().schema == old(self).st().schema,
            final(self).st().ascii_mode == old(self).st().ascii_mode,
            final(self).st().full_shape == old(self).st().full_shape,
            final(self).preceding_view() == old(self).preceding_view(),
    {
        let all = self.all_candidates();
        let ghost av = listed_views(all@);
        let mut k: usize = 0;
        let mut found: Option<usize> = None;
        while k < all.len()
            invariant
                k <= all@.len(),
                av == listed_views(all@),
                match found {
                    Some(i) => i < all@.len() && av[i as int].0 == key,
                    None => forall|j: int| 0 <= j < k ==> av[j].0 != key,
                },
            decreases all@.len() - k,
        {
            assert(av[k as int].0 == all@[k as int].key);
            if found.is_none() && all[k].key == key {
                found = Some(k);
            }
            k += 1;
        }
        let i = match found {
            Some(i) => i,
            None => {
                *error = Some(CoreError::InvalidCandidate(key));
                return None;
            },
        };
        let word = all[i].word.clone();
        assert(av[i as int].1 == word@);
        let code = self.state.pending.clone();
        let ghost s0 = self.store@;
        self.ud_begin();
        proof {
            match current_engine(*old(self)) {
                Some(e) => {
                    let cs = runtime_cands(current_engine(*old(self)), old(self).st());
                    assert(cs[i as int].0 == word@);
                    if crate::engine::lists_fit(e, old(self).st().sentence_candidates@) {
                        crate::engine::lemma_listed_selectable(e, old(self).st().pending@,
                            old(self).st().sentence_candidates@, MAX_SNAPSHOT_CANDIDATES, word@);
                    }
                    let e2 = store_get(self.store@, self.state.schema@)->0;
                    crate::engine::lemma_selectable_any_user_dict(e, e2, old(self).st().pending@,
                        old(self).st().sentence_candidates@, word@);
                },
                None => {},
            }
        }
        let (result, learned) = self.run_select_word(word.as_str());
        self.ud_learn(&learned);
        self.ud_finish(result.is_some());
        proof {
            lemma_stores_agree_trans(s0, old(self).store_view(), self.store@);
        }
        match &result {
            Some(text) => {
                let segment = Segment {
                    input: code.clone(),
                    text: Some(text.clone()),
                    confirmed: true,
                    cursor: 0,
                    page_index: 0,
                    selected: Some(key),
                };
                let cur = self.state.current_segment;
                if cur < self.state.segments.len() && !self.state.segments[cur].confirmed {
                    self.state.segments.set(cur, segment);
                } else {
                    self.state.segments.push(segment);
                    self.state.current_segment = self.state.segments.len() - 1;
                }
                self.state.rebuild_confirmed_text();
                self.push_history(CommitRecord { text: text.clone(), code, learned: true });
            },
            None => {},
        }
        result
    }

    fn push_history(&mut self, record: CommitRecord)
        ensures
            final(self).history_view() == crate::history::pushed(old(self).history_view(), old(self).history_cap(), record),
            final(self).history_cap() == old(self).history_cap(),
            final(self).history_view().len() > 0,
            final(self).history_view().last() == record,
            final(self).st() == old(self).st(),
            final(self).store_view() == old(self).store_view(),
            final(self).preceding_view() == old(self).preceding_view(),
    {
        self.history.push(record);
    }

    /// Takes back the last commit: its text leaves the end of the confirmed
    /// text (when it is there) and, when it was learned, its selection
    /// leaves the user dictionary. `false` when the history is empty, or
    /// when the selection was not in the user dictionary.
    pub fn revert_last_edit(&mut self) -> (b: bool)
        ensures
            old(self).history_view().len() == 0 ==> !b && final(self).st() == old(self).st()
                && final(self).history_view() == old(self).history_view() && final(self).store_view() == old(self).store_view(),
            old(self).history_view().len() > 0 ==> {
                let rec = old(self).history_view().last();
                let ct = old(self).st().confirmed_text@;
                &&& final(self).history_view() == old(self).history_view().drop_last()
                &&& final(self).st().confirmed_text@ == without_suffix(ct, rec.text@)
                &&& rec.learned ==> (current_ud(*old(self)) matches Some(u) ==>
                        b == (crate::user_dict::count_of(u@, rec.code@, rec.text@) > 0))
                &&& !(rec.learned && current_ud(*old(self)) is Some) ==> b
            },
            stores_agree(old(self).store_view(), final(self).store_view()),
            final(self).st().schema == old(self).st().schema,
            final(self).st().segments == old(self).st().segments,
            final(self).st().pending == old(self).st().pending,
            final(self).st().cursor == old(self).st().cursor,
            final(self).st().ascii_mode == old(self).st().ascii_mode,
            final(self).st().full_shape == old(self).st().full_shape,
            final(self).preceding_view() == old(self).preceding_view(),
    {
        let record = match self.history.pop() {
            Some(r) => r,
            None => { return false; },
        };
        self.strip_confirmed_suffix(record.text.as_str());
        if record.learned {
            match self.ud_forget(record.code.as_str(), record.text.as_str()) {
                Some(r) => { return r; },
                None => {},
            }
        } else {
            proof { lemma_stores_agree_refl(self.store@); }
        }
        true
    }
}

impl CoreRuntime {
    /// Removes `t` from the end of the confirmed text, when it ends with it.
    fn strip_confirmed_suffix(&mut self, t: &str)
        ensures
            final(self).st().confirmed_text@ == without_suffix(old(self).st().confirmed_text@, t@),
            final(self).st().schema == old(self).st().schema,
            final(self).st().segments == old(self).st().segments,
            final(self).st().current_segment == old(self).st().current_segment,
            final(self).st().pending == old(self).st().pending,
            final(self).st().cursor == old(self).st().cursor,
            final(self).st().sentence_candidates == old(self).st().sentence_candidates,
            final(self).st().ascii_mode == old(self).st().ascii_mode,
            final(self).st().full_shape == old(self).st().full_shape,
            final(self).st().page_index == old(self).st().page_index,
            final(self).st().selected == old(self).st().selected,
            final(self).store_view() == old(self).store_view(),
            final(self).history_view() == old(self).history_view(),
            final(self).preceding_view() == old(self).preceding_view(),
    {
        let ct = chars_of(self.state.confirmed_text.as_str());
        let tt = chars_of(t);
        if ct.len() >= tt.len() {
            let tail = crate::text::sub_chars(ct.as_slice(), ct.len() - tt.len(), ct.len());
            if crate::text::chars_eq(tail.as_slice(), tt.as_slice()) {
                let head = crate::text::sub_chars(ct.as_slice(), 0, ct.len() - tt.len());
                self.state.confirmed_text = string_of(head.as_slice());
            }
        }
    }
}

/// What a committed result says of a feed outcome.
pub open spec fn committed_of(v: FeedView, c: Option<String>) -> bool {
    match v {
        FeedView::Committed(t) => c matches Some(s) && s@ == t,
        _ => c is None,
    }
}

/// The selection is one of the page's candidates.
pub open spec fn selected_on_page(sel: Option<CandidateKey>, items: Seq<ListedView>) -> bool {
    sel matches Some(k) && exists|i: int| 0 <= i < items.len() && items[i].0 == k
}

/// Moving by `delta` from `cur` around `n` places, computed without signs.
proof fn lemma_step_mod(cur: int, delta: int, n: int)
    requires
        0 < n,
        0 <= cur < n,
    ensures
        delta >= 0 ==> (cur + delta % n) % n == (cur + delta) % n,
        delta < 0 ==> (cur + n - ((-delta) % n)) % n == (cur + delta) % n,
{
    if delta >= 0 {
        vstd::arithmetic::div_mod::lemma_add_mod_noop_right(cur, delta, n);
    } else {
        let a = -delta;
        vstd::arithmetic::div_mod::lemma_mod_add_multiples_vanish(cur - a % n, n);
        assert(n + (cur - a % n) == cur + n - a % n);
        vstd::arithmetic::div_mod::lemma_sub_mod_noop_right(cur, a, n);
    }
}

/// Spelling, caret and current index after focusing segment `i` with the
/// caret at its end (only the caret moves to the end when there is no such
/// segment).
pub open spec fn focus_end(segs: Seq<Segment>, i: int, at: (Seq<char>, int, int)) -> (Seq<char>, int, int) {
    if 0 <= i < segs.len() {
        (segs[i].input@, segs[i].input@.len() as int, i)
    } else {
        (at.0, at.0.len() as int, at.2)
    }
}

/// Where a Backspace starts from: with nothing pending, at the end of the
/// previous segment.
pub open spec fn backspace_from(st: CoreState) -> (Seq<char>, int, int) {
    let at = (st.pending@, st.cursor as int, st.current_segment as int);
    if st.pending@.len() == 0 && st.current_segment > 0 {
        focus_end(st.segments@, st.current_segment - 1, at)
    } else {
        at
    }
}

/// What a Backspace with something to edit deletes in: from the caret at
/// the start of a segment it moves to the end of the previous one; an
/// unconfirmed segment is edited at its own caret.
pub open spec fn backspace_edit(st: CoreState) -> (Seq<char>, int) {
    let segs = st.segments@;
    let s1 = backspace_from(st);
    let s2 = if s1.1 == 0 && s1.2 > 0 { focus_end(segs, s1.2 - 1, s1) } else { s1 };
    if 0 <= s2.2 < segs.len() && !segs[s2.2].confirmed {
        (segs[s2.2].input@, segs[s2.2].cursor as int)
    } else {
        (s2.0, s2.1)
    }
}

/// A commit of a listed candidate is owed: the scheme has an engine, the
/// composition is that of the current segment, and the dictionaries are
/// small enough that no candidate list reaches `usize::MAX` entries.
pub open spec fn commit_owed(o: CoreRuntime) -> bool {
    current_engine(o) matches Some(e) && loaded_composition(o.st()).0 == o.st().pending@
        && crate::engine::lists_fit(e, o.st().sentence_candidates@)
}

/// `w`, picked by `key` from the composition of `o`, was recorded in `f`:
/// last in the history and as the confirmed current segment.
pub open spec fn recorded_commit(o: CoreRuntime, f: CoreRuntime, key: CandidateKey, w: Seq<char>) -> bool {
    let cur = f.st().current_segment;
    &&& f.history_view().len() > 0
    &&& f.history_view() == crate::history::pushed(o.history_view(), o.history_cap(), f.history_view().last())
    &&& f.history_view().last().text@ == w
    &&& f.history_view().last().code == o.st().pending
    &&& f.history_view().last().learned
    &&& cur < f.st().segments@.len()
    &&& f.st().segments@[cur as int].input == o.st().pending
    &&& f.st().segments@[cur as int].text matches Some(t) && t@ == w
    &&& f.st().segments@[cur as int].confirmed
    &&& f.st().segments@[cur as int].selected == Some(key)
    &&& (f.st().segments@, cur) == placed(dropped_current(o.st().segments@, o.st().current_segment), (Segment {
            input: o.st().pending, text: f.st().segments@[cur as int].text, confirmed: true, cursor: 0, page_index: 0,
            selected: Some(key) }))
    &&& f.st().confirmed_text@ == confirmed_concat(f.st().segments@)
}

/// What committing the candidate `key` does (`Select`, and `Space` or
/// `Enter` on the default candidate): a commit is learned at once, one more
/// selection of the word for its code, unless the user dictionary's commit
/// fails and it is rolled back.
pub open spec fn select_effect(o: CoreRuntime, f: CoreRuntime, key: CandidateKey, r: CommandResult) -> bool {
    let all = listing(runtime_cands(current_engine(o), o.st()));
    let listed = exists|i: int| 0 <= i < all.len() && all[i].0 == key;
    &&& !listed ==> r.error == Some(CoreError::InvalidCandidate(key)) && r.committed is None && f.st() == o.st()
    &&& listed ==> r.error is None
    &&& r.committed matches Some(w) ==> (exists|i: int| 0 <= i < all.len() && all[i].0 == key && all[i].1 == w@)
        && recorded_commit(o, f, key, w@)
        && composition_cleared(f.st())
        && r.composition == CompositionAction::End
    &&& listed && commit_owed(o) ==> r.committed is Some
    &&& current_ud(o) matches Some(u) ==> (u.fails_next_commit() ==>
        (current_ud(f) matches Some(u2) && u2@ == u@))
    &&& r.committed matches Some(w) ==> (current_ud(o) matches Some(u) ==> (!u.fails_next_commit() ==>
        (current_ud(f) matches Some(u2) && forall|c: Seq<char>, w2: Seq<char>|
            #[trigger] crate::user_dict::count_of(u2@, c, w2) == crate::user_dict::learned_count(u@,
                seq![(crate::engine::learn_code(current_engine(o)->0, loaded_composition(o.st()).0), w@)], c, w2))))
}

/// What one event does to the runtime (`o` before, `f` after) and what it
/// answers (`r`).
pub open spec fn event_effect(o: CoreRuntime, f: CoreRuntime, event: InputEvent, r: CommandResult) -> bool {
    match event {
        InputEvent::Escape | InputEvent::Reset => {
            &&& composition_cleared(f.st())
            &&& f.st().confirmed_text@.len() == 0
            &&& f.st().schema == o.st().schema
            &&& f.st().segments == o.st().segments
            &&& r.composition == CompositionAction::End
            &&& r.committed is None
            &&& r.disposition == EventDisposition::Consumed
            &&& r.error is None
        },
        InputEvent::ToggleAscii => {
            &&& f.st().ascii_mode == !o.st().ascii_mode
            &&& composition_cleared(f.st())
            &&& f.st().schema == o.st().schema
            &&& r.committed is None && r.error is None
        },
        InputEvent::SetAscii(v) => {
            &&& f.st().ascii_mode == v
            &&& composition_cleared(f.st())
            &&& f.st().schema == o.st().schema
            &&& r.committed is None && r.error is None
        },
        InputEvent::ToggleFullShape => {
            &&& f.st().full_shape == !o.st().full_shape
            &&& f.st().pending == o.st().pending
            &&& f.st().cursor == o.st().cursor
            &&& f.st().ascii_mode == o.st().ascii_mode
            &&& f.st().schema == o.st().schema
            &&& r.committed is None && r.error is None
        },
        InputEvent::SetSchema(id) => if store_get(o.store_view(), id@) is Some {
            &&& f.st().schema == id
            &&& composition_cleared(f.st())
            &&& r.composition == CompositionAction::End
            &&& r.error is None && r.committed is None
        } else {
            &&& f.st() == o.st()
            &&& r.error == Some(CoreError::UnknownSchema(id))
            &&& r.committed is None
        },
        InputEvent::Text(ch) => match current_engine(o) {
            Some(e) => {
                let fo = feed_at_spec(e, o.st().pending@, clamped_cursor(o.st()), o.st().ascii_mode, ch);
                &&& f.st().pending@ == fo.1
                &&& f.st().cursor == fo.2
                &&& committed_of(fo.0, r.committed)
                &&& r.composition == if fo.1.len() == 0 { CompositionAction::End } else { CompositionAction::Update }
                &&& f.st().page_index == 0
                &&& f.st().selected is None
                &&& (f.st().segments@, f.st().current_segment) == synced(CoreState {
                        pending: f.st().pending, cursor: f.st().cursor, page_index: 0, selected: None, ..o.st() })
                &&& fo.1.len() > 0 ==> f.st().current_segment < f.st().segments@.len()
                    && f.st().segments@[f.st().current_segment as int] == (Segment {
                        input: f.st().pending, text: None, confirmed: false, cursor: f.st().cursor,
                        page_index: 0, selected: None })
                &&& f.st().schema == o.st().schema
                &&& r.error is None
            },
            None => {
                &&& r.error == Some(CoreError::UnknownSchema(o.st().schema))
                &&& r.composition == CompositionAction::End
                &&& r.committed is None
                &&& f.st().pending == o.st().pending
            },
        },
        InputEvent::Select(key) => select_effect(o, f, key, r),
        InputEvent::Space | InputEvent::Enter => match default_key(o.st(), listing(runtime_cands(current_engine(o), o.st()))) {
            Some(k) => select_effect(o, f, k, r),
            None => {
                &&& r.committed is None
                &&& f.st() == o.st()
                &&& r.composition == if o.st().pending@.len() == 0 { CompositionAction::End } else { CompositionAction::Keep }
                &&& r.disposition == EventDisposition::Consumed
            },
        },
        InputEvent::Page(delta) => {
            let total = listing(runtime_cands(current_engine(o), o.st())).len() as int;
            let pages = (total + (PAGE_SIZE as int) - 1) / (PAGE_SIZE as int);
            let last = if pages > 0 { pages - 1 } else { 0 };
            let t = o.st().page_index as int + delta as int;
            &&& f.st().page_index == if t < 0 { 0 } else if t > last { last } else { t }
            &&& f.st().selected is None
            &&& f.st().pending == o.st().pending
            &&& f.st().cursor == o.st().cursor
            &&& r.committed is None && r.error is None
        },
        InputEvent::RevertLastEdit => {
            &&& r.committed is None && r.error is None
            &&& o.history_view().len() == 0 ==> f.st() == o.st() && f.history_view() == o.history_view()
                && r.composition != CompositionAction::Update
            &&& o.history_view().len() > 0 ==> {
                let rec = o.history_view().last();
                &&& f.history_view() == o.history_view().drop_last()
                &&& f.st().confirmed_text@ == without_suffix(o.st().confirmed_text@, rec.text@)
                &&& f.st().pending == o.st().pending
                &&& f.st().segments == o.st().segments
                &&& (r.composition == CompositionAction::Update) == (match current_ud(o) {
                        Some(u) => !rec.learned || crate::user_dict::count_of(u@, rec.code@, rec.text@) > 0,
                        None => true,
                    })
            }
        },
        InputEvent::MoveCursor(delta) => {
            &&& r.committed is None && r.error is None
            &&& f.st().pending@.len() > 0 ==> f.st().current_segment < f.st().segments@.len()
                && f.st().segments@[f.st().current_segment as int] == (Segment {
                    input: f.st().pending, text: None, confirmed: false, cursor: f.st().cursor,
                    page_index: f.st().page_index, selected: f.st().selected })
            &&& f.st().schema == o.st().schema
            &&& f.history_view() == o.history_view()
            &&& !(delta < 0 && o.st().cursor == 0 && o.st().current_segment > 0)
                && !(delta > 0 && o.st().cursor >= o.st().pending@.len()
                    && o.st().current_segment + 1 < o.st().segments@.len()) ==> {
                let t = o.st().cursor as int + delta as int;
                let n = o.st().pending@.len() as int;
                &&& f.st().cursor == if t < 0 { 0 } else if t > n { n } else { t }
                &&& f.st().pending == o.st().pending
                &&& n > 0 && o.st().current_segment < o.st().segments@.len()
                    && !o.st().segments@[o.st().current_segment as int].confirmed
                    ==> f.st().current_segment == o.st().current_segment
            }
            &&& delta < 0 && o.st().cursor == 0 && 0 < o.st().current_segment <= o.st().segments@.len() ==> {
                let seg = o.st().segments@[o.st().current_segment - 1];
                &&& f.st().pending == seg.input && f.st().cursor == seg.input@.len()
                &&& !seg.confirmed && seg.input@.len() > 0 ==> f.st().current_segment == o.st().current_segment - 1
            }
            &&& delta > 0 && o.st().cursor >= o.st().pending@.len() && o.st().current_segment + 1 < o.st().segments@.len() ==> {
                let seg = o.st().segments@[o.st().current_segment + 1];
                &&& f.st().pending == seg.input && f.st().cursor == 0
                &&& !seg.confirmed && seg.input@.len() > 0 ==> f.st().current_segment == o.st().current_segment + 1
            }
        },
        InputEvent::Delete => {
            &&& r.committed is None && r.error is None
            &&& f.history_view() == o.history_view()
            &&& o.st().cursor < o.st().pending@.len() ==> f.st().pending@ == o.st().pending@.remove(o.st().cursor as int)
                && f.st().cursor == o.st().cursor && f.st().page_index == 0 && f.st().selected is None
                && r.composition == CompositionAction::Update
            &&& o.st().cursor >= o.st().pending@.len() && o.st().current_segment + 1 >= o.st().segments@.len()
                ==> f == o && r.disposition == EventDisposition::PassedThrough
            &&& o.st().cursor >= o.st().pending@.len() && o.st().current_segment + 1 < o.st().segments@.len() ==> {
                let (segs, cur) = synced(o.st());
                &&& cur + 1 < segs.len() ==> f.st().segments@ == segs.remove(cur + 1)
                    && f.st().confirmed_text@ == confirmed_concat(f.st().segments@)
                    && r.composition == CompositionAction::Update && r.disposition == EventDisposition::Consumed
                &&& cur + 1 >= segs.len() ==> r.disposition == EventDisposition::PassedThrough
            }
        },
        InputEvent::Backspace => {
            &&& r.committed is None
            &&& o.st().pending@.len() == 0 && o.st().current_segment == 0 ==>
                f.st().pending == o.st().pending && f.st().segments == o.st().segments
                && (o.history_view().len() == 0 ==> f.st() == o.st())
            &&& backspace_from(o.st()).0.len() == 0 ==> r.error is None && (o.history_view().len() == 0 ==>
                r.disposition == EventDisposition::PassedThrough && r.composition == CompositionAction::End
                && f.history_view() == o.history_view())
            &&& backspace_from(o.st()).0.len() == 0 && o.history_view().len() > 0 ==>
                f.history_view() == o.history_view().drop_last()
                && f.st().confirmed_text@ == without_suffix(o.st().confirmed_text@, o.history_view().last().text@)
            &&& backspace_from(o.st()).0.len() > 0 ==> r.disposition == EventDisposition::Consumed && r.error is None
            &&& backspace_from(o.st()).0.len() > 0 && current_engine(o) is Some ==> {
                let (p, c0) = backspace_edit(o.st());
                let c = if c0 <= p.len() { c0 } else { p.len() as int };
                let p2 = if c > 0 { p.remove(c - 1) } else { p };
                p2.len() > 0 ==> f.st().pending@ == p2 && f.st().cursor == (if c > 0 { c - 1 } else { c })
                    && r.composition == CompositionAction::Update && f.history_view() == o.history_view()
                    && r.disposition == EventDisposition::Consumed && r.error is None
                    && f.st().current_segment < f.st().segments@.len()
                    && f.st().segments@[f.st().current_segment as int].input == f.st().pending
                    && f.st().segments@[f.st().current_segment as int].cursor == f.st().cursor
                    && !f.st().segments@[f.st().current_segment as int].confirmed
            }
        },
        InputEvent::ConfirmSegment => {
            let all = listing(runtime_cands(current_engine(o), o.st()));
            &&& r.committed is None
            &&& default_key(o.st(), all) is None
                ==> f.st() == o.st() && f.history_view() == o.history_view()
            &&& f.history_view() == o.history_view() || (f.history_view().len() > 0
                && f.history_view().last().code == o.st().pending && f.history_view().last().learned)
            &&& (default_key(o.st(), all) matches Some(k) ==> (commit_owed(o) ==>
                (exists|i: int| 0 <= i < all.len() && all[i].0 == k && recorded_commit(o, f, k, all[i].1))
                && f.st().pending@.len() == 0
                && r.composition == CompositionAction::Keep && r.error is None
                && (current_ud(o) matches Some(u) ==> (!u.fails_next_commit() ==>
                    (current_ud(f) matches Some(u2) && forall|c: Seq<char>, w2: Seq<char>|
                        #[trigger] crate::user_dict::count_of(u2@, c, w2) == crate::user_dict::learned_count(u@,
                            seq![(crate::engine::learn_code(current_engine(o)->0, loaded_composition(o.st()).0),
                                f.history_view().last().text@)], c, w2))))))
        },
        InputEvent::MoveSelection(delta) => {
            let all = listing(runtime_cands(current_engine(o), o.st()));
            let total = all.len() as int;
            let items = all.subrange(page_start(o.st().page_index, total), page_end(o.st().page_index, total));
            let n = items.len() as int;
            &&& r.committed is None && r.error is None
            &&& f.st().pending == o.st().pending
            &&& f.st().cursor == o.st().cursor
            &&& f.st().page_index == o.st().page_index
            &&& n == 0 ==> f.st().selected == o.st().selected
            &&& n > 0 ==> exists|i: int| 0 <= i < n
                && (if selected_on_page(o.st().selected, items) { items[i].0 == o.st().selected->0 } else { i == 0 })
                && f.st().selected == Some(#[trigger] items[(i + delta) % n].0)
        },
        InputEvent::ReopenPreviousSegment => if o.history_view().len() > 0 {
            let rec = o.history_view().last();
            &&& f.history_view() == o.history_view().drop_last()
            &&& f.st().pending == rec.code
            &&& f.st().cursor == rec.code@.len()
            &&& f.st().confirmed_text@ == without_suffix(o.st().confirmed_text@, rec.text@)
            &&& f.st().segments@ == if o.st().segments@.len() > 0 { o.st().segments@.drop_last() } else { o.st().segments@ }
            &&& f.st().page_index == 0 && f.st().selected is None
            &&& r.committed is None && r.error is None
        } else {
            &&& f.st() == o.st()
            &&& f.history_view() == o.history_view()
            &&& r.committed is None
        },
    }
}

/// Reopening right after a segment was confirmed brings back the spelling
/// it was confirmed from, with the caret at its end.
pub proof fn law_reopen_undoes_confirm(r0: CoreRuntime, r1: CoreRuntime, a1: CommandResult,
    r2: CoreRuntime, a2: CommandResult)
    requires
        event_effect(r0, r1, InputEvent::ConfirmSegment, a1),
        r1.history_view() != r0.history_view(),
        event_effect(r1, r2, InputEvent::ReopenPreviousSegment, a2),
    ensures
        r2.st().pending == r0.st().pending,
        r2.st().cursor == r0.st().pending@.len(),
        a1.committed is None,
        a2.committed is None,
{
}

/// Selecting a listed candidate commits the word listed under its key, ends
/// the composition and records the commit, when the composition is the
/// current segment's and the dictionaries fit.
pub proof fn law_listed_key_commits_its_word(r0: CoreRuntime, r1: CoreRuntime, i: int, a: CommandResult)
    requires
        0 <= i < listing(runtime_cands(current_engine(r0), r0.st())).len(),
        commit_owed(r0),
        event_effect(r0, r1, InputEvent::Select(listing(runtime_cands(current_engine(r0), r0.st()))[i].0), a),
    ensures
        a.committed matches Some(w) && w@ == listing(runtime_cands(current_engine(r0), r0.st()))[i].1,
        a.composition == CompositionAction::End,
        composition_cleared(r1.st()),
        r1.history_view().last().code == r0.st().pending,
{
    let all = listing(runtime_cands(current_engine(r0), r0.st()));
    let key = all[i].0;
    let w = a.committed->0;
    let j = choose|j: int| 0 <= j < all.len() && all[j].0 == key && all[j].1 == w@;
    crate::engine::lemma_cands_len(current_engine(r0)->0, r0.st().pending@, r0.st().sentence_candidates@,
        MAX_SNAPSHOT_CANDIDATES);
    assert(all[j].0.ordinal == j as u32 && all[i].0.ordinal == i as u32);
    assert(i == j);
}

/// A key that names no listed candidate commits nothing, reports the key,
/// and leaves the composition as it was.
pub proof fn law_invalid_key_keeps_composition(r0: CoreRuntime, r1: CoreRuntime, key: CandidateKey, a: CommandResult)
    requires
        event_effect(r0, r1, InputEvent::Select(key), a),
        forall|i: int| 0 <= i < listing(runtime_cands(current_engine(r0), r0.st())).len()
            ==> (#[trigger] listing(runtime_cands(current_engine(r0), r0.st()))[i]).0 != key,
    ensures
        a.committed is None,
        a.error == Some(CoreError::InvalidCandidate(key)),
        r1.st() == r0.st(),
{
}

impl CoreRuntime {
    /// Handles one input event and answers with what was committed, what the
    /// shell should do with its composition window, and a snapshot.
    ///
    /// - `Text`: the key goes to a session at the caret (see
    ///   `Session::feed_at_cursor`), the page resets.
    /// - `Backspace`: deletes before the caret (moving into the previous
    ///   segment at its start); with nothing pending it takes back the last
    ///   commit, or passes the key through.
    /// - `Delete`: deletes after the caret or the next segment, or passes.
    /// - `Escape`, `Reset`: end the composition and drop the confirmed text.
    /// - `Space`, `Enter`, `Select`: commit a candidate; `ConfirmSegment`
    ///   confirms it as a segment without committing.
    /// - `ReopenPreviousSegment`, `RevertLastEdit`: take back the last commit.
    /// - `MoveSelection`, `MoveCursor`, `Page`: move within the menu, the
    ///   text and the pages.
    /// - `ToggleAscii`, `SetAscii`, `ToggleFullShape`, `SetSchema`: modes.
    #[verifier::rlimit(40)]
    #[verifier::spinoff_prover]
    pub fn dispatch(&mut self, event: InputEvent) -> (r: CommandResult)
        ensures
            stores_agree(old(self).store_view(), final(self).store_view()),
            final(self).preceding_view() == old(self).preceding_view(),
            snapshot_of(final(self).st(), listing(runtime_cands(current_engine(*final(self)), final(self).st())), r.snapshot),
            event_effect(*old(self), *final(self), event, r),
    {
        let mut committed: Option<String> = None;
        let mut error: Option<CoreError> = None;
        let mut disposition = EventDisposition::Consumed;
        let mut composition = if chars_of(self.state.pending.as_str()).len() == 0 {
            CompositionAction::End
        } else {
            CompositionAction::Keep
        };
        let ghost s0 = self.store@;
        proof { lemma_stores_agree_refl(s0); }
        match event {
            InputEvent::Text(ch) => {
                self.reset_candidate_view();
                match self.run_text(ch) {
                    Some(fr) => {
                        match fr {
                            FeedResult::Committed(text) => { committed = Some(text); },
                            _ => {},
                        }
                        composition = if chars_of(self.state.pending.as_str()).len() == 0 {
                            CompositionAction::End
                        } else {
                            CompositionAction::Update
                        };
                    },
                    None => {
                        error = Some(CoreError::UnknownSchema(self.state.schema.clone()));
                        return self.result(disposition, committed, CompositionAction::End, error);
                    },
                }
            },
            InputEvent::Backspace => {
                if chars_of(self.state.pending.as_str()).len() == 0 && self.state.current_segment > 0 {
                    let c = self.state.current_segment - 1;
                    let _ = self.focus_segment(c);
                    self.state.cursor = chars_of(self.state.pending.as_str()).len();
                }
                if chars_of(self.state.pending.as_str()).len() == 0 {
                    let ghost s1 = self.store@;
                    if self.revert_last_edit() {
                        self.reset_candidate_view();
                        proof { lemma_stores_agree_trans(s0, s1, self.store@); }
                        composition = if chars_of(self.state.pending.as_str()).len() == 0 {
                            CompositionAction::End
                        } else {
                            CompositionAction::Update
                        };
                        return self.result(disposition, committed, composition, error);
                    }
                    proof { lemma_stores_agree_trans(s0, s1, self.store@); }
                    return self.result(EventDisposition::PassedThrough, None, CompositionAction::End, None);
                }
                if self.state.cursor == 0 && self.state.current_segment > 0 {
                    let c = self.state.current_segment - 1;
                    let _ = self.focus_segment(c);
                    self.state.cursor = chars_of(self.state.pending.as_str()).len();
                }
                self.run_backspace();
                if chars_of(self.state.pending.as_str()).len() == 0 && self.state.segments.len() > 1 {
                    let c = self.state.current_segment;
                    let _ = self.delete_segment(c);
                }
                self.reset_candidate_view();
                composition = if chars_of(self.state.pending.as_str()).len() == 0 {
                    CompositionAction::End
                } else {
                    CompositionAction::Update
                };
            },
            InputEvent::Delete => {
                if self.delete_at_cursor() {
                    composition = CompositionAction::Update;
                } else {
                    disposition = EventDisposition::PassedThrough;
                }
            },
            InputEvent::Escape | InputEvent::Reset => {
                self.state.clear_composition();
                self.state.confirmed_text = String::new();
                composition = CompositionAction::End;
            },
            InputEvent::Space | InputEvent::Enter => {
                match self.selected_or_first() {
                    Some(key) => {
                        committed = self.select_key(key, &mut error);
                        if committed.is_some() {
                            self.state.clear_composition();
                            composition = CompositionAction::End;
                        }
                    },
                    None => {
                        composition = if chars_of(self.state.pending.as_str()).len() == 0 {
                            CompositionAction::End
                        } else {
                            CompositionAction::Keep
                        };
                    },
                }
            },
            InputEvent::Select(key) => {
                committed = self.select_key(key, &mut error);
                if committed.is_some() {
                    self.state.clear_composition();
                    composition = CompositionAction::End;
                }
            },
            InputEvent::ConfirmSegment => {
                match self.selected_or_first() {
                    Some(key) => {
                        if self.select_key(key, &mut error).is_some() {
                            committed = None;
                            composition = CompositionAction::Keep;
                        }
                    },
                    None => {},
                }
            },
            InputEvent::ReopenPreviousSegment => {
                match self.history.pop() {
                    Some(record) => {
                        self.strip_confirmed_suffix(record.text.as_str());
                        let _ = self.state.segments.pop();
                        self.state.current_segment = self.state.segments.len();
                        let n = chars_of(record.code.as_str()).len();
                        self.state.pending = record.code;
                        self.state.cursor = n;
                        self.reset_candidate_view();
                        composition = CompositionAction::Update;
                    },
                    None => {},
                }
            },
            InputEvent::RevertLastEdit => {
                if self.revert_last_edit() {
                    composition = CompositionAction::Update;
                }
            },
            InputEvent::MoveSelection(delta) => {
                let ghost all = listing(runtime_cands(current_engine(*self), self.st()));
                let ghost total = all.len() as int;
                let ghost items = all.subrange(page_start(self.st().page_index, total), page_end(self.st().page_index, total));
                let page = self.build_snapshot().candidates;
                let n = page.items.len();
                assert(listed_views(page.items@) == items);
                assert(n <= PAGE_SIZE);
                if n > 0 {
                    let mut current: usize = 0;
                    let mut found = false;
                    match page.selected {
                        Some(k) => {
                            let mut j: usize = 0;
                            while j < n
                                invariant
                                    j <= n,
                                    n == page.items@.len(),
                                    listed_views(page.items@) == items,
                                    current < n,
                                    found ==> items[current as int].0 == k,
                                    !found ==> forall|q: int| 0 <= q < j ==> items[q].0 != k,
                                decreases n - j,
                            {
                                assert(items[j as int] == listed_view(page.items@[j as int]));
                                if !found && page.items[j].key == k {
                                    current = j;
                                    found = true;
                                }
                                j += 1;
                            }
                        },
                        None => {},
                    }
                    let nn = n as u64;
                    let cur = current as u64;
                    let next: u64 = if delta >= 0 {
                        (cur + (delta as u64) % nn) % nn
                    } else {
                        let a: u64 = (-(delta as i64)) as u64;
                        (cur + nn - a % nn) % nn
                    };
                    proof {
                        lemma_step_mod(current as int, delta as int, n as int);
                        assert(next == (current + delta) % (n as int));
                        assert(selected_on_page(self.st().selected, items) == (page.selected is Some));
                        assert(found == (page.selected is Some));
                    }
                    let nx = next as usize;
                    assert(items[nx as int] == listed_view(page.items@[nx as int]));
                    self.state.selected = Some(page.items[nx].key);
                    self.sync_current_segment_state();
                }
            },
            InputEvent::MoveCursor(delta) => {
                self.move_cursor_across_segments(delta);
                composition = if chars_of(self.state.pending.as_str()).len() == 0 {
                    CompositionAction::End
                } else {
                    CompositionAction::Keep
                };
            },
            InputEvent::Page(delta) => {
                self.move_page(delta);
                self.sync_current_segment_state();
            },
            InputEvent::ToggleAscii => {
                let v = !self.state.ascii_mode;
                self.set_ascii(v);
            },
            InputEvent::SetAscii(value) => {
                self.set_ascii(value);
            },
            InputEvent::ToggleFullShape => {
                self.state.full_shape = !self.state.full_shape;
            },
            InputEvent::SetSchema(schema) => {
                if self.store.contains(schema.as_str()) {
                    self.state.schema = schema;
                    self.state.clear_composition();
                    composition = CompositionAction::End;
                } else {
                    error = Some(CoreError::UnknownSchema(schema));
                }
            },
        }
        self.result(disposition, committed, composition, error)
    }
}

} // verus!
