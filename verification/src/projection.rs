//! Spelling projection: raw keys become the dictionary spelling and the
//! displayed preedit.
//!
//! Full pinyin projects to itself (delimiters dropped); double pinyin goes
//! through the embedded reverse map. What follows (syllable graph, word
//! graph, translation) no longer depends on the key layout. Ranges and
//! boundaries are UTF-8 byte offsets.
use vstd::prelude::*;
use crate::pinyin::{PinyinDict, PinyinEntry, normalize_spec, dict_has_code};
use crate::zrm::{ZrmMap, ZrmEntry, zrm_lookup, zrm_to_display};
use crate::text::{is_delimiter, chars_of, string_of, push_char, sub_chars, byte_len, char_width, char_width_of,
    byte_len_of, lemma_byte_len_take};

verus! {

/// A projected spelling: the spelling, one raw byte range for each byte of
/// the spelling, and the spelling byte offsets right after a delimiter.
#[derive(Debug, Clone, PartialEq, Eq)]
pub struct ProjectedSpelling {
    pub input: String,
    pub original_ranges: Vec<(usize, usize)>,
    pub delimiter_boundaries: Vec<usize>,
}

/// The projection of one key layout.
#[derive(Clone, Copy)]
pub enum SpellingProjection<'a> {
    FullPinyin,
    DoublePinyin(&'a ZrmMap),
}

/// A projection as seen by the contracts: (spelling, ranges, boundaries).
pub type ProjView = (Seq<char>, Seq<(usize, usize)>, Seq<usize>);

pub open spec fn proj_view(p: ProjectedSpelling) -> ProjView {
    (p.input@, p.original_ranges@, p.delimiter_boundaries@)
}

/// `k` copies of the raw range `r`.
pub open spec fn repeat_range(r: (usize, usize), k: nat) -> Seq<(usize, usize)> {
    Seq::new(k, |i: int| r)
}

/// Full-pinyin projection of the first `n` raw characters, and whether a
/// delimiter follows projected text. Each byte of the spelling gets the
/// byte range of the raw character behind it; boundaries are byte offsets
/// into the spelling.
pub open spec fn full_acc(raw: Seq<char>, n: int) -> (ProjView, bool)
    decreases n,
{
    if n <= 0 {
        ((Seq::empty(), Seq::empty(), Seq::empty()), false)
    } else {
        let (p, after) = full_acc(raw, n - 1);
        let ch = raw[n - 1];
        if is_delimiter(ch) {
            (p, p.0.len() > 0)
        } else {
            let b = if after { p.2.push(byte_len(p.0) as usize) } else { p.2 };
            let start = byte_len(raw.take(n - 1));
            let w = char_width(ch);
            ((p.0.push(ch), p.1 + repeat_range((start as usize, (start + w) as usize), w), b), false)
        }
    }
}

pub open spec fn project_full_spec(raw: Seq<char>) -> ProjView {
    full_acc(raw, raw.len() as int).0
}

/// The full-pinyin projection of the first `n` raw characters counted in
/// characters (as the syllable graph counts positions), and whether a
/// delimiter follows projected text.
pub open spec fn chars_acc(raw: Seq<char>, n: int) -> (ProjView, bool)
    decreases n,
{
    if n <= 0 {
        ((Seq::empty(), Seq::empty(), Seq::empty()), false)
    } else {
        let (p, after) = chars_acc(raw, n - 1);
        let ch = raw[n - 1];
        if is_delimiter(ch) {
            (p, p.0.len() > 0)
        } else {
            let b = if after { p.2.push(p.0.len() as usize) } else { p.2 };
            ((p.0.push(ch), p.1.push(((n - 1) as usize, n as usize)), b), false)
        }
    }
}

pub open spec fn project_chars_spec(raw: Seq<char>) -> ProjView {
    chars_acc(raw, raw.len() as int).0
}

/// Double-pinyin projection state after `n` raw characters: the
/// projection, a first key waiting for its pair (with its raw byte start),
/// and whether a delimiter follows projected text. Each byte of a syllable
/// gets the byte range of its key pair.
pub open spec fn double_acc(m: Seq<ZrmEntry>, raw: Seq<char>, n: int) -> (ProjView, Option<(char, usize)>, bool)
    decreases n,
{
    if n <= 0 {
        ((Seq::empty(), Seq::empty(), Seq::empty()), None, false)
    } else {
        let (p, pending, after) = double_acc(m, raw, n - 1);
        let ch = raw[n - 1];
        if is_delimiter(ch) {
            (p, None, p.0.len() > 0)
        } else {
            let b = if after { p.2.push(byte_len(p.0) as usize) } else { p.2 };
            match pending {
                Some((first, start)) => {
                    let key = seq![first, ch];
                    let sp = match zrm_lookup(m, key) { Some(s) => s, None => key };
                    ((p.0 + sp, p.1 + repeat_range((start, byte_len(raw.take(n)) as usize), byte_len(sp)), b), None, false)
                },
                None => ((p.0, p.1, b), Some((ch, byte_len(raw.take(n - 1)) as usize)), false),
            }
        }
    }
}

pub open spec fn project_double_spec(m: Seq<ZrmEntry>, raw: Seq<char>) -> ProjView {
    double_acc(m, raw, raw.len() as int).0
}

impl<'a> SpellingProjection<'a> {
    /// The map of a double-pinyin projection.
    pub open spec fn map_view(&self) -> Option<Seq<ZrmEntry>> {
        match *self {
            SpellingProjection::FullPinyin => None,
            SpellingProjection::DoublePinyin(m) => Some(m@),
        }
    }

    /// Double pinyin when the dictionary carries a map, else full pinyin.
    pub fn from_dict(dict: &'a PinyinDict) -> (p: SpellingProjection<'a>)
        ensures
            p.map_view() == dict.zrm_view(),
    {
        match dict.zrm() {
            Some(map) => SpellingProjection::DoublePinyin(map),
            None => SpellingProjection::FullPinyin,
        }
    }

    /// The complete spelling, for dictionary lookup and the graphs.
    pub fn lookup(&self, raw: &str) -> (r: String)
        ensures
            r@ == match self.map_view() {
                Some(m) => project_double_spec(m, raw@).0,
                None => project_full_spec(raw@).0,
            },
    {
        self.project(raw).input
    }

    /// Projects raw input, keeping the raw range behind every spelling
    /// character.
    pub fn project(&self, raw: &str) -> (r: ProjectedSpelling)
        ensures
            proj_view(r) == match self.map_view() {
                Some(m) => project_double_spec(m, raw@),
                None => project_full_spec(raw@),
            },
    {
        match self {
            SpellingProjection::FullPinyin => project_full_pinyin(raw),
            SpellingProjection::DoublePinyin(map) => project_double_pinyin(raw, map),
        }
    }

    /// The displayed spelling, keeping an unfinished double-pinyin key.
    pub fn display(&self, raw: &str) -> (r: String)
        ensures
            r@ == match self.map_view() {
                Some(m) => zrm_to_display(m, raw@),
                None => normalize_spec(raw@),
            },
    {
        match self {
            SpellingProjection::FullPinyin => crate::pinyin::normalize_pinyin(raw),
            SpellingProjection::DoublePinyin(map) => map.to_pinyin_display(raw),
        }
    }

    pub fn is_double_pinyin(&self) -> (b: bool)
        ensures
            b == (self.map_view() is Some),
    {
        match self {
            SpellingProjection::DoublePinyin(_) => true,
            SpellingProjection::FullPinyin => false,
        }
    }

    /// Whether `ch` is a key of the double-pinyin layout (never for full
    /// pinyin).
    pub fn accepts_key_char(&self, ch: char) -> (b: bool)
        ensures
            self.map_view() is None ==> !b,
            self.map_view() matches Some(m) ==> b == crate::zrm::has_key_char(m, ch),
    {
        match self {
            SpellingProjection::DoublePinyin(map) => {
                assert(self.map_view() == Some(map@));
                let b = map.accepts_key_char(ch);
                b
            },
            SpellingProjection::FullPinyin => {
                assert(self.map_view() is None);
                false
            },
        }
    }
}

/// Full-pinyin projection: delimiters dropped, every other character kept,
/// with its raw byte range repeated for each of its bytes.
pub fn project_full_pinyin(raw: &str) -> (r: ProjectedSpelling)
    ensures
        proj_view(r) == project_full_spec(raw@),
{
    let cs = chars_of(raw);
    let total = byte_len_of(raw);
    let mut input: Vec<char> = Vec::new();
    let mut ranges: Vec<(usize, usize)> = Vec::new();
    let mut bounds: Vec<usize> = Vec::new();
    let mut after = false;
    let mut bo: usize = 0;
    let mut ib: usize = 0;
    let mut i: usize = 0;
    while i < cs.len()
        invariant
            i <= cs@.len(),
            cs@ == raw@,
            total == byte_len(raw@),
            bo == byte_len(raw@.take(i as int)),
            ib == byte_len(input@),
            ib <= bo,
            full_acc(raw@, i as int) == ((input@, ranges@, bounds@), after),
        decreases cs@.len() - i,
    {
        let ch = cs[i];
        let w = char_width_of(ch);
        proof {
            lemma_byte_len_take(raw@, i as int);
            lemma_byte_len_take(raw@, i + 1);
            assert(raw@.take(i + 1).take(i as int) =~= raw@.take(i as int));
        }
        if ch == ' ' || ch == '\'' {
            after = input.len() > 0;
        } else {
            if after {
                bounds.push(ib);
                after = false;
            }
            let ghost i0 = input@;
            input.push(ch);
            assert(input@.drop_last() =~= i0);
            let ghost r0 = ranges@;
            let mut k: usize = 0;
            while k < w
                invariant
                    k <= w,
                    w == char_width(ch),
                    bo + w <= total,
                    ranges@ == r0 + repeat_range((bo, (bo + w) as usize), k as nat),
                decreases w - k,
            {
                ranges.push((bo, bo + w));
                k += 1;
                assert(ranges@ =~= r0 + repeat_range((bo, (bo + w) as usize), k as nat));
            }
            ib = ib + w;
        }
        bo = bo + w;
        i += 1;
    }
    assert(raw@.take(cs@.len() as int) =~= raw@);
    ProjectedSpelling { input: string_of(input.as_slice()), original_ranges: ranges, delimiter_boundaries: bounds }
}

/// The projection with positions counted in characters.
pub(crate) fn project_chars(raw: &str) -> (r: ProjectedSpelling)
    ensures
        proj_view(r) == project_chars_spec(raw@),
{
    let cs = chars_of(raw);
    let mut input: Vec<char> = Vec::new();
    let mut ranges: Vec<(usize, usize)> = Vec::new();
    let mut bounds: Vec<usize> = Vec::new();
    let mut after = false;
    let mut i: usize = 0;
    while i < cs.len()
        invariant
            i <= cs@.len(),
            cs@ == raw@,
            chars_acc(raw@, i as int) == ((input@, ranges@, bounds@), after),
        decreases cs@.len() - i,
    {
        let ch = cs[i];
        if ch == ' ' || ch == '\'' {
            after = input.len() > 0;
        } else {
            if after {
                bounds.push(input.len());
                after = false;
            }
            input.push(ch);
            ranges.push((i, i + 1));
        }
        i += 1;
    }
    ProjectedSpelling { input: string_of(input.as_slice()), original_ranges: ranges, delimiter_boundaries: bounds }
}

fn project_double_pinyin(raw: &str, map: &ZrmMap) -> (r: ProjectedSpelling)
    ensures
        proj_view(r) == project_double_spec(map@, raw@),
{
    let cs = chars_of(raw);
    let total = byte_len_of(raw);
    let mut input = String::new();
    let mut ranges: Vec<(usize, usize)> = Vec::new();
    let mut bounds: Vec<usize> = Vec::new();
    let mut pending: Option<(char, usize)> = None;
    let mut after = false;
    let mut filled = false;
    let mut bo: usize = 0;
    let mut i: usize = 0;
    while i < cs.len()
        invariant
            i <= cs@.len(),
            cs@ == raw@,
            total == byte_len(raw@),
            bo == byte_len(raw@.take(i as int)),
            filled == (input@.len() > 0),
            double_acc(map@, raw@, i as int) == ((input@, ranges@, bounds@), pending, after),
        decreases cs@.len() - i,
    {
        let ch = cs[i];
        let w = char_width_of(ch);
        proof {
            lemma_byte_len_take(raw@, i as int);
            lemma_byte_len_take(raw@, i + 1);
        }
        if ch == ' ' || ch == '\'' {
            pending = None;
            after = filled;
        } else {
            if after {
                bounds.push(byte_len_of(input.as_str()));
                after = false;
            }
            let end = bo + w;
            match pending {
                Some((first, start)) => {
                    let mut key = String::new();
                    push_char(&mut key, first);
                    push_char(&mut key, ch);
                    assert(key@ =~= seq![first, ch]);
                    let sp: &str = match map.lookup(key.as_str()) {
                        Some(s) => s,
                        None => key.as_str(),
                    };
                    let spc = chars_of(sp);
                    let nb = byte_len_of(sp);
                    let ghost i0 = input@;
                    let mut k: usize = 0;
                    while k < spc.len()
                        invariant
                            k <= spc@.len(),
                            spc@ == sp@,
                            input@ == i0 + spc@.take(k as int),
                        decreases spc@.len() - k,
                    {
                        push_char(&mut input, spc[k]);
                        assert(spc@.take(k + 1) =~= spc@.take(k as int).push(spc@[k as int]));
                        k += 1;
                    }
                    assert(spc@.take(spc@.len() as int) =~= spc@);
                    filled = filled || spc.len() > 0;
                    let ghost r0 = ranges@;
                    let mut k: usize = 0;
                    while k < nb
                        invariant
                            k <= nb,
                            ranges@ == r0 + repeat_range((start, end), k as nat),
                        decreases nb - k,
                    {
                        ranges.push((start, end));
                        k += 1;
                        assert(ranges@ =~= r0 + repeat_range((start, end), k as nat));
                    }
                    pending = None;
                },
                None => {
                    pending = Some((ch, bo));
                },
            }
        }
        bo = bo + w;
        i += 1;
    }
    assert(raw@.take(cs@.len() as int) =~= raw@);
    ProjectedSpelling { input, original_ranges: ranges, delimiter_boundaries: bounds }
}

// ── preedit formatting ─────────────────────────────────────────────────

/// The end of the longest dictionary code starting at `pos` in `cs`
/// (`cs.len()` when none does).
pub open spec fn longest_code_end(d: Seq<PinyinEntry>, cs: Seq<char>, pos: int, end: int) -> int
    decreases end - pos,
{
    if end <= pos {
        cs.len() as int
    } else if dict_has_code(d, normalize_spec(cs.subrange(pos, end))) {
        end
    } else {
        longest_code_end(d, cs, pos, end - 1)
    }
}

/// Preedit state after the greedy pass reached `pos`: the text built and
/// the display caret.
pub open spec fn preedit_from(d: Seq<PinyinEntry>, cs: Seq<char>, k: int, pos: int, out: Seq<char>, cur: int) -> (Seq<char>, int)
    decreases cs.len() - pos,
{
    if pos >= cs.len() || pos < 0 {
        (out, cur)
    } else {
        let end = longest_code_end(d, cs, pos, cs.len() as int);
        let o1 = if out.len() > 0 { out.push('\'') } else { out };
        let c1 = if pos < k { o1.len() as int } else { cur };
        let o2 = o1 + cs.subrange(pos, end);
        let c2 = if end <= k { o2.len() as int } else { c1 };
        if end <= pos || end > cs.len() { (o2, c2) } else { preedit_from(d, cs, k, end, o2, c2) }
    }
}

/// What `format_preedit` returns.
pub open spec fn preedit_spec(d: Seq<PinyinEntry>, m: Option<Seq<ZrmEntry>>, raw: Seq<char>, cursor: usize) -> (Seq<char>, int) {
    let disp = |s: Seq<char>| match m { Some(x) => zrm_to_display(x, s), None => normalize_spec(s) };
    let cs = disp(raw);
    let k = disp(raw.take(if cursor <= raw.len() { cursor as int } else { raw.len() as int })).len() as int;
    let (out, cur) = preedit_from(d, cs, k, 0, Seq::empty(), 0);
    (out, if cs.len() == 0 { 0 } else if k >= cs.len() { out.len() as int } else { cur })
}

/// The end of the longest dictionary code starting at `position`.
fn longest_end(dict: &PinyinDict, chars: &Vec<char>, position: usize) -> (end: usize)
    requires
        position < chars@.len(),
    ensures
        end as int == longest_code_end(dict@, chars@, position as int, chars@.len() as int),
        position < end <= chars@.len(),
{
    let mut end = chars.len();
    while end > position
        invariant
            position <= end <= chars@.len(),
            position < chars@.len(),
            longest_code_end(dict@, chars@, position as int, chars@.len() as int)
                == longest_code_end(dict@, chars@, position as int, end as int),
        decreases end - position,
    {
        let syll = string_of(sub_chars(chars.as_slice(), position, end).as_slice());
        if dict.has_code(syll.as_str()) {
            return end;
        }
        end = end - 1;
    }
    chars.len()
}

/// The displayed spelling cut into dictionary syllables (longest match
/// first) joined with `'`, and the raw caret mapped into it. The raw buffer
/// is not changed.
pub fn format_preedit(dict: &PinyinDict, raw: &str, cursor: usize) -> (r: (String, usize))
    ensures
        r.0@ == preedit_spec(dict@, dict.zrm_view(), raw@, cursor).0,
        r.1 == preedit_spec(dict@, dict.zrm_view(), raw@, cursor).1,
{
    let projection = SpellingProjection::from_dict(dict);
    let display_input = projection.display(raw);
    let rc = chars_of(raw);
    let take = if cursor <= rc.len() { cursor } else { rc.len() };
    let raw_prefix = string_of(sub_chars(rc.as_slice(), 0, take).as_slice());
    assert(raw_prefix@ =~= raw@.take(take as int));
    let display_prefix = projection.display(raw_prefix.as_str());
    let k = chars_of(display_prefix.as_str()).len();
    let chars = chars_of(display_input.as_str());
    let mut output: Vec<char> = Vec::new();
    let mut position: usize = 0;
    let mut display_cursor: usize = 0;
    let ghost d = dict@;
    while position < chars.len()
        invariant
            position <= chars@.len(),
            d == dict@,
            preedit_from(d, chars@, k as int, 0, Seq::empty(), 0)
                == preedit_from(d, chars@, k as int, position as int, output@, display_cursor as int),
            output@.len() <= 2 * position,
        decreases chars@.len() - position,
    {
        let end = longest_end(dict, &chars, position);
        if output.len() > 0 {
            output.push('\'');
        }
        if position < k {
            display_cursor = output.len();
        }
        let mut j = position;
        let ghost o1 = output@;
        while j < end
            invariant
                position <= j <= end <= chars@.len(),
                output@ == o1 + chars@.subrange(position as int, j as int),
            decreases end - j,
        {
            output.push(chars[j]);
            proof {
                assert(chars@.subrange(position as int, j + 1) =~= chars@.subrange(position as int, j as int).push(chars@[j as int]));
            }
            j += 1;
        }
        if end <= k {
            display_cursor = output.len();
        }
        position = end;
    }
    if chars.len() == 0 {
        display_cursor = 0;
    } else if k >= chars.len() {
        display_cursor = output.len();
    }
    (string_of(output.as_slice()), display_cursor)
}

} // verus!
