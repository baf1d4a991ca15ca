//! Dictionary sources for the table builder: decoding the file's text
//! (UTF-8, or UTF-16 behind a byte-order mark), cutting it into lines, and
//! the two line formats (shape codes: `code<TAB>word`; Rime pinyin
//! `.dict.yaml`: `word<TAB>pinyin[<TAB>weight]` after a front matter).
use vstd::prelude::*;
use crate::text::{chars_of, string_of, push_char};
use crate::codec::utf8_to_string;
use crate::dict::{encode_code, encode_spec};

verus! {

// ── characters ─────────────────────────────────────────────────────────

/// Unicode `White_Space` (what `char::is_whitespace` tests).
pub open spec fn white_space(c: char) -> bool {
    ||| ('\u{9}' <= c && c <= '\u{d}')
    ||| c == ' '
    ||| c == '\u{85}'
    ||| c == '\u{a0}'
    ||| c == '\u{1680}'
    ||| ('\u{2000}' <= c && c <= '\u{200a}')
    ||| c == '\u{2028}'
    ||| c == '\u{2029}'
    ||| c == '\u{202f}'
    ||| c == '\u{205f}'
    ||| c == '\u{3000}'
}

pub fn is_white_space(c: char) -> (b: bool)
    ensures
        b == white_space(c),
{
    ('\u{9}' <= c && c <= '\u{d}') || c == ' ' || c == '\u{85}' || c == '\u{a0}' || c == '\u{1680}'
        || ('\u{2000}' <= c && c <= '\u{200a}') || c == '\u{2028}' || c == '\u{2029}' || c == '\u{202f}'
        || c == '\u{205f}' || c == '\u{3000}'
}

/// A private-use character (U+E000..=U+F8FF), which a table may not hold.
pub open spec fn private_use(c: char) -> bool {
    '\u{e000}' <= c && c <= '\u{f8ff}'
}

// ── trimming and splitting ─────────────────────────────────────────────

/// Leading white space removed.
pub open spec fn trim_start_spec(s: Seq<char>) -> Seq<char>
    decreases s.len(),
{
    if s.len() > 0 && white_space(s[0]) { trim_start_spec(s.drop_first()) } else { s }
}

/// Trailing white space removed.
pub open spec fn trim_end_spec(s: Seq<char>) -> Seq<char>
    decreases s.len(),
{
    if s.len() > 0 && white_space(s.last()) { trim_end_spec(s.drop_last()) } else { s }
}

/// `str::trim`.
pub open spec fn trim_spec(s: Seq<char>) -> Seq<char> {
    trim_end_spec(trim_start_spec(s))
}

proof fn lemma_trim_start_skip(s: Seq<char>, i: int)
    requires
        0 <= i <= s.len(),
        forall|k: int| 0 <= k < i ==> white_space(#[trigger] s[k]),
    ensures
        trim_start_spec(s) == trim_start_spec(s.skip(i)),
    decreases i,
{
    if i > 0 {
        assert(s.skip(1) == s.drop_first());
        assert forall|k: int| 0 <= k < i - 1 implies white_space(#[trigger] s.drop_first()[k]) by {
            assert(s.drop_first()[k] == s[k + 1]);
        }
        lemma_trim_start_skip(s.drop_first(), i - 1);
        assert(s.drop_first().skip(i - 1) == s.skip(i));
    } else {
        assert(s.skip(0) == s);
    }
}

proof fn lemma_trim_end_take(s: Seq<char>, j: int)
    requires
        0 <= j <= s.len(),
        forall|k: int| j <= k < s.len() ==> white_space(#[trigger] s[k]),
    ensures
        trim_end_spec(s) == trim_end_spec(s.take(j)),
    decreases s.len() - j,
{
    if j < s.len() {
        assert(s.drop_last() == s.take(s.len() - 1));
        assert forall|k: int| j <= k < s.drop_last().len() implies white_space(#[trigger] s.drop_last()[k]) by {
            assert(s.drop_last()[k] == s[k]);
        }
        lemma_trim_end_take(s.drop_last(), j);
        assert(s.drop_last().take(j) == s.take(j));
    } else {
        assert(s.take(j) == s);
    }
}

/// `str::trim` on characters.
pub fn trim_chars(s: &[char]) -> (r: Vec<char>)
    ensures
        r@ == trim_spec(s@),
{
    let mut i: usize = 0;
    while i < s.len() && is_white_space(s[i])
        invariant
            i <= s@.len(),
            forall|k: int| 0 <= k < i ==> white_space(#[trigger] s@[k]),
        decreases s@.len() - i,
    {
        i += 1;
    }
    proof { lemma_trim_start_skip(s@, i as int); }
    let t = crate::text::sub_chars(s, i, s.len());
    assert(t@ == s@.skip(i as int));
    assert(i < s@.len() ==> !white_space(s@.skip(i as int)[0]));
    assert(trim_start_spec(s@.skip(i as int)) == s@.skip(i as int));
    let mut j: usize = t.len();
    while j > 0 && is_white_space(t[j - 1])
        invariant
            j <= t@.len(),
            forall|k: int| j <= k < t@.len() ==> white_space(#[trigger] t@[k]),
        decreases j,
    {
        j -= 1;
    }
    proof {
        lemma_trim_end_take(t@, j as int);
        assert(t@.take(j as int).len() > 0 ==> t@.take(j as int).last() == t@[j - 1]);
    }
    crate::text::sub_chars(t.as_slice(), 0, j)
}

/// The part before the first `sep`, and the rest after it (if `sep` occurs).
pub open spec fn split_once_spec(s: Seq<char>, sep: char) -> (Seq<char>, Option<Seq<char>>)
    decreases s.len(),
{
    if s.len() == 0 {
        (s, None)
    } else if s[0] == sep {
        (Seq::empty(), Some(s.drop_first()))
    } else {
        let (a, b) = split_once_spec(s.drop_first(), sep);
        (seq![s[0]] + a, b)
    }
}

proof fn lemma_split_once(s: Seq<char>, sep: char, i: int)
    requires
        0 <= i <= s.len(),
        forall|k: int| 0 <= k < i ==> #[trigger] s[k] != sep,
        i == s.len() || s[i] == sep,
    ensures
        split_once_spec(s, sep) == if i == s.len() { (s, None::<Seq<char>>) } else { (s.take(i), Some(s.skip(i + 1))) },
    decreases i,
{
    if i > 0 {
        assert forall|k: int| 0 <= k < i - 1 implies #[trigger] s.drop_first()[k] != sep by {
            assert(s.drop_first()[k] == s[k + 1]);
        }
        if i < s.len() {
            assert(s.drop_first()[i - 1] == s[i]);
        }
        lemma_split_once(s.drop_first(), sep, i - 1);
        if i == s.len() {
            assert(seq![s[0]] + s.drop_first() =~= s);
        } else {
            assert(seq![s[0]] + s.drop_first().take(i - 1) =~= s.take(i));
            assert(s.drop_first().skip(i) =~= s.skip(i + 1));
        }
    } else {
        if s.len() == 0 {
        } else {
            assert(s.take(0) =~= Seq::<char>::empty());
            assert(s.skip(1) == s.drop_first());
        }
    }
}

/// `s.split_once(sep)`, the whole of `s` as the first part when `sep` does
/// not occur.
pub fn split_once_chars(s: &[char], sep: char) -> (r: (Vec<char>, Option<Vec<char>>))
    ensures
        (r.0@, match r.1 { Some(v) => Some(v@), None => None::<Seq<char>> }) == split_once_spec(s@, sep),
{
    let mut i: usize = 0;
    while i < s.len() && s[i] != sep
        invariant
            i <= s@.len(),
            forall|k: int| 0 <= k < i ==> #[trigger] s@[k] != sep,
        decreases s@.len() - i,
    {
        i += 1;
    }
    proof { lemma_split_once(s@, sep, i as int); }
    if i == s.len() {
        (crate::text::sub_chars(s, 0, s.len()), None)
    } else {
        (crate::text::sub_chars(s, 0, i), Some(crate::text::sub_chars(s, i + 1, s.len())))
    }
}

/// Lines as `str::lines` gives them: split at `\n`, a `\r` right before
/// it dropped, no empty line after a final `\n`. State after the first `n`
/// characters: the finished lines and the current one.
pub open spec fn lines_acc(s: Seq<char>, n: int) -> (Seq<Seq<char>>, Seq<char>)
    decreases n,
{
    if n <= 0 {
        (Seq::empty(), Seq::empty())
    } else {
        let (done, cur) = lines_acc(s, n - 1);
        if s[n - 1] == '\n' {
            let line = if cur.len() > 0 && cur.last() == '\r' { cur.drop_last() } else { cur };
            (done.push(line), Seq::empty())
        } else {
            (done, cur.push(s[n - 1]))
        }
    }
}

pub open spec fn lines_spec(s: Seq<char>) -> Seq<Seq<char>> {
    let (done, cur) = lines_acc(s, s.len() as int);
    if cur.len() > 0 { done.push(cur) } else { done }
}

/// `str::lines`.
pub fn lines_of(text: &str) -> (r: Vec<Vec<char>>)
    ensures
        crate::text::char_seqs(r@) == lines_spec(text@),
{
    let cs = chars_of(text);
    let mut done: Vec<Vec<char>> = Vec::new();
    let mut cur: Vec<char> = Vec::new();
    let mut i: usize = 0;
    while i < cs.len()
        invariant
            i <= cs@.len(),
            cs@ == text@,
            (crate::text::char_seqs(done@), cur@) == lines_acc(text@, i as int),
        decreases cs@.len() - i,
    {
        if cs[i] == '\n' {
            let mut line = cur;
            if line.len() > 0 && line[line.len() - 1] == '\r' {
                line.pop();
            }
            proof { assert(crate::text::char_seqs(done@.push(line)) =~= crate::text::char_seqs(done@).push(line@)); }
            done.push(line);
            cur = Vec::new();
        } else {
            cur.push(cs[i]);
        }
        i += 1;
    }
    if cur.len() > 0 {
        proof { assert(crate::text::char_seqs(done@.push(cur)) =~= crate::text::char_seqs(done@).push(cur@)); }
        done.push(cur);
    }
    done
}

// ── decoding ───────────────────────────────────────────────────────────

/// UTF-16 decoding (what `String::from_utf16` does): a unit outside the
/// surrogate range is a character; a high surrogate followed by a low one
/// is the pair's character; any other surrogate is an error.
pub open spec fn utf16_decode(u: Seq<u16>) -> Option<Seq<char>>
    decreases u.len(),
{
    if u.len() == 0 {
        Some(Seq::empty())
    } else if u[0] < 0xD800 || u[0] > 0xDFFF {
        match utf16_decode(u.drop_first()) {
            Some(rest) => Some(seq![(u[0] as u32) as char] + rest),
            None => None,
        }
    } else if u[0] <= 0xDBFF && u.len() >= 2 && 0xDC00 <= u[1] && u[1] <= 0xDFFF {
        match utf16_decode(u.skip(2)) {
            Some(rest) => Some(seq![(0x10000 + ((u[0] - 0xD800) as u32) * 0x400 + ((u[1] - 0xDC00) as u32)) as char] + rest),
            None => None,
        }
    } else {
        None
    }
}

/// The units of `b` taken two bytes at a time, little- or big-endian, an
/// odd last byte left out.
pub open spec fn units_of(b: Seq<u8>, little: bool) -> Seq<u16> {
    Seq::new((b.len() / 2) as nat, |i: int| if little {
        (b[2 * i] as u16 + (b[2 * i + 1] as u16) * 256) as u16
    } else {
        (b[2 * i + 1] as u16 + (b[2 * i] as u16) * 256) as u16
    })
}

fn units(b: &[u8], little: bool) -> (r: Vec<u16>)
    ensures
        r@ == units_of(b@, little),
{
    let mut r: Vec<u16> = Vec::new();
    let mut i: usize = 0;
    while i < b.len() / 2
        invariant
            i <= b@.len() / 2,
            r@ == units_of(b@, little).take(i as int),
        decreases b@.len() / 2 - i,
    {
        let lo = if little { b[2 * i] } else { b[2 * i + 1] };
        let hi = if little { b[2 * i + 1] } else { b[2 * i] };
        let u: u16 = lo as u16 + (hi as u16) * 256;
        r.push(u);
        assert(r@ =~= units_of(b@, little).take(i + 1));
        i += 1;
    }
    assert(units_of(b@, little).take((b@.len() / 2) as int) =~= units_of(b@, little));
    r
}

/// `char::from_u32`: the character whose scalar value is `v`; `None` when
/// `v` is a surrogate or above U+10FFFF.
#[verifier::external_body]
fn char_from_u32(v: u32) -> (r: Option<char>)
    ensures
        r is Some <==> (v < 0xD800 || (0xE000 <= v && v <= 0x10FFFF)),
        r matches Some(c) ==> c == v as char,
{
    char::from_u32(v)
}

fn decode_utf16(u: &[u16]) -> (r: Option<String>)
    ensures
        match utf16_decode(u@) {
            Some(s) => r matches Some(t) && t@ == s,
            None => r is None,
        },
{
    let mut out: Vec<char> = Vec::new();
    let mut i: usize = 0;
    assert(u@.skip(0) == u@);
    assert(forall|t: Seq<char>| out@ + t == t) by {
        assert forall|t: Seq<char>| out@ + t == t by {
            assert(out@ + t =~= t);
        }
    }
    while i < u.len()
        invariant
            i <= u@.len(),
            match utf16_decode(u@) {
                Some(s) => match utf16_decode(u@.skip(i as int)) {
                    Some(t) => s == out@ + t,
                    None => false,
                },
                None => utf16_decode(u@.skip(i as int)) is None,
            },
        decreases u@.len() - i,
    {
        let a = u[i];
        let ghost rest = u@.skip(i as int);
        assert(rest[0] == a);
        if a < 0xD800 || a > 0xDFFF {
            let c: char = match char_from_u32(a as u32) {
                Some(c) => c,
                None => { return None; },
            };
            proof {
                assert(rest.drop_first() == u@.skip(i + 1));
            }
            out.push(c);
            proof {
                if let Some(s) = utf16_decode(u@) {
                    assert(c == (a as u32) as char);
                    assert(s == out@ + utf16_decode(u@.skip(i + 1))->0) by {
                        assert(out@ =~= out@.drop_last() + seq![c]);
                    }
                }
            }
            i += 1;
        } else if a <= 0xDBFF && i + 1 < u.len() && 0xDC00 <= u[i + 1] && u[i + 1] <= 0xDFFF {
            let b = u[i + 1];
            assert(rest[1] == b);
            let v: u32 = 0x10000 + ((a - 0xD800) as u32) * 0x400 + ((b - 0xDC00) as u32);
            let c: char = match char_from_u32(v) {
                Some(c) => c,
                None => { return None; },
            };
            proof {
                assert(rest.skip(2) == u@.skip(i + 2));
            }
            out.push(c);
            proof {
                if let Some(s) = utf16_decode(u@) {
                    assert(c == v as char);
                    assert(s == out@ + utf16_decode(u@.skip(i + 2))->0) by {
                        assert(out@ =~= out@.drop_last() + seq![c]);
                    }
                }
            }
            i += 2;
        } else {
            return None;
        }
    }
    proof {
        assert(u@.skip(i as int) =~= Seq::<u16>::empty());
        assert(out@ + Seq::<char>::empty() =~= out@);
    }
    Some(string_of(out.as_slice()))
}

/// The text of a dictionary source: UTF-16 (little- or big-endian) behind
/// its byte-order mark, else UTF-8 with any leading U+FEFF removed.
pub open spec fn source_text(raw: Seq<u8>) -> Option<Seq<char>> {
    if raw.len() >= 2 && raw[0] == 0xFF && raw[1] == 0xFE {
        utf16_decode(units_of(raw.skip(2), true))
    } else if raw.len() >= 2 && raw[0] == 0xFE && raw[1] == 0xFF {
        utf16_decode(units_of(raw.skip(2), false))
    } else if vstd::utf8::valid_utf8(raw) {
        Some(skip_boms(vstd::utf8::decode_utf8(raw)))
    } else {
        None
    }
}

/// Leading U+FEFF characters removed.
pub open spec fn skip_boms(s: Seq<char>) -> Seq<char>
    decreases s.len(),
{
    if s.len() > 0 && s[0] == '\u{feff}' { skip_boms(s.drop_first()) } else { s }
}

/// Decodes a dictionary source file's bytes; the error names the encoding
/// that failed.
pub fn decode_source(raw: &[u8]) -> (r: Result<String, String>)
    ensures
        match source_text(raw@) {
            Some(t) => r matches Ok(s) && s@ == t,
            None => r is Err,
        },
{
    if raw.len() >= 2 && ((raw[0] == 0xFF && raw[1] == 0xFE) || (raw[0] == 0xFE && raw[1] == 0xFF)) {
        let little = raw[0] == 0xFF;
        let body = vstd::slice::slice_subrange(raw, 2, raw.len());
        assert(body@ == raw@.skip(2));
        let us = units(body, little);
        return match decode_utf16(us.as_slice()) {
            Some(s) => Ok(s),
            None => Err(crate::text::string_from(if little { "utf-16-le 解码失败" } else { "utf-16-be 解码失败" })),
        };
    }
    match utf8_to_string(raw) {
        Some(s) => {
            proof {
                vstd::utf8::decode_utf8_encode_utf8(raw@);
                vstd::utf8::encode_utf8_decode_utf8(s@);
            }
            let cs = chars_of(s.as_str());
            let mut i: usize = 0;
            assert(cs@.skip(0) == cs@);
            while i < cs.len() && cs[i] == '\u{feff}'
                invariant
                    i <= cs@.len(),
                    skip_boms(cs@) == skip_boms(cs@.skip(i as int)),
                decreases cs@.len() - i,
            {
                assert(cs@.skip(i as int).drop_first() == cs@.skip(i + 1));
                i += 1;
            }
            let rest = crate::text::sub_chars(cs.as_slice(), i, cs.len());
            assert(rest@ == cs@.skip(i as int));
            Ok(string_of(rest.as_slice()))
        },
        None => Err(crate::text::string_from("不是 UTF-8/UTF-16（带BOM）")),
    }
}


// ── the two line formats ───────────────────────────────────────────────

/// The trimmed parts of a line before and after its first tab (the second
/// empty when there is no tab).
pub open spec fn tab_pair(t: Seq<char>) -> (Seq<char>, Seq<char>) {
    let (a, b) = split_once_spec(t, '\t');
    (trim_spec(a), match b { Some(x) => trim_spec(x), None => Seq::empty() })
}

/// The shape-code source after its first `n` lines: the entries, the lines
/// left out for having no word or an invalid code, the lines left out for a
/// private-use character, and each invalid code with its line number.
pub open spec fn table_acc(ls: Seq<Seq<char>>, n: int) -> (Seq<(u32, Seq<char>)>, nat, nat, Seq<(usize, Seq<char>)>)
    decreases n,
{
    if n <= 0 {
        (Seq::empty(), 0, 0, Seq::empty())
    } else {
        let (es, sk, pu, bad) = table_acc(ls, n - 1);
        let t = trim_spec(ls[n - 1]);
        let (code, word) = tab_pair(t);
        if t.len() == 0 {
            (es, sk, pu, bad)
        } else if word.len() == 0 {
            (es, sk + 1, pu, bad)
        } else if exists|k: int| 0 <= k < word.len() && private_use(#[trigger] word[k]) {
            (es, sk, pu + 1, bad)
        } else {
            match encode_spec(code) {
                Some(v) => (es.push((v, word)), sk, pu, bad),
                None => (es, sk + 1, pu, bad.push((n as usize, code))),
            }
        }
    }
}

/// A shape-code source, line by line (`code<TAB>word`).
pub struct TableSource {
    pub entries: Vec<(u32, String)>,
    /// Lines left out for having no word or an invalid code.
    pub skipped: usize,
    /// Lines left out for a private-use character in the word.
    pub private_use: usize,
    /// Each invalid code with its (1-based) line number.
    pub invalid: Vec<(usize, String)>,
}

pub open spec fn table_source_view(r: TableSource) -> (Seq<(u32, Seq<char>)>, nat, nat, Seq<(usize, Seq<char>)>) {
    (r.entries@.map_values(|e: (u32, String)| (e.0, e.1@)), r.skipped as nat, r.private_use as nat,
        r.invalid@.map_values(|e: (usize, String)| (e.0, e.1@)))
}

fn tab_pair_exec(t: &[char]) -> (r: (Vec<char>, Vec<char>))
    ensures
        (r.0@, r.1@) == tab_pair(t@),
{
    let (a, b) = split_once_chars(t, '\t');
    let code = trim_chars(a.as_slice());
    let word = match b {
        Some(x) => trim_chars(x.as_slice()),
        None => Vec::new(),
    };
    (code, word)
}

fn has_private_use(w: &[char]) -> (b: bool)
    ensures
        b == exists|k: int| 0 <= k < w@.len() && private_use(#[trigger] w@[k]),
{
    let mut k: usize = 0;
    while k < w.len()
        invariant
            k <= w@.len(),
            forall|j: int| 0 <= j < k ==> !private_use(#[trigger] w@[j]),
        decreases w@.len() - k,
    {
        if '\u{e000}' <= w[k] && w[k] <= '\u{f8ff}' {
            return true;
        }
        k += 1;
    }
    false
}

/// Reads a shape-code source: one `code<TAB>word` per line (both trimmed);
/// blank lines are ignored, lines without a word or with a code that is not
/// one to four letters are skipped, and so are words holding a private-use
/// character.
pub fn table_source(text: &str) -> (r: TableSource)
    ensures
        table_source_view(r) == table_acc(lines_spec(text@), lines_spec(text@).len() as int),
{
    let ls = lines_of(text);
    let ghost lv = crate::text::char_seqs(ls@);
    let mut r = TableSource { entries: Vec::new(), skipped: 0, private_use: 0, invalid: Vec::new() };
    assert(table_source_view(r) =~= table_acc(lv, 0));
    let mut i: usize = 0;
    while i < ls.len()
        invariant
            i <= ls@.len(),
            lv == crate::text::char_seqs(ls@),
            lv == lines_spec(text@),
            table_source_view(r) == table_acc(lv, i as int),
            r.skipped <= i,
            r.private_use <= i,
        decreases ls@.len() - i,
    {
        assert(lv[i as int] == ls@[i as int]@);
        let t = trim_chars(ls[i].as_slice());
        let (code, word) = tab_pair_exec(t.as_slice());
        let ghost before = table_source_view(r);
        if t.len() == 0 {
        } else if word.len() == 0 {
            r.skipped = r.skipped + 1;
        } else if has_private_use(word.as_slice()) {
            r.private_use = r.private_use + 1;
        } else {
            let cs = string_of(code.as_slice());
            match encode_code(cs.as_str()) {
                Some(v) => {
                    let w = string_of(word.as_slice());
                    r.entries.push((v, w));
                    assert(table_source_view(r).0 =~= before.0.push((v, word@)));
                },
                None => {
                    r.skipped = r.skipped + 1;
                    r.invalid.push((i + 1, cs));
                    assert(table_source_view(r).3 =~= before.3.push(((i + 1) as usize, code@)));
                },
            }
        }
        i += 1;
    }
    r
}

/// The line after a front matter (`---` ... `...`), or 0 without one.
pub open spec fn front_matter_scan(ls: Seq<Seq<char>>, i: int, open: bool) -> int
    decreases ls.len() - i,
{
    if i >= ls.len() || i < 0 {
        0
    } else {
        let t = trim_spec(ls[i]);
        let o = open || t == seq!['-', '-', '-'];
        if o && t == seq!['.', '.', '.'] { i + 1 } else { front_matter_scan(ls, i + 1, o) }
    }
}

proof fn lemma_scan_bound(ls: Seq<Seq<char>>, i: int, open: bool)
    ensures
        0 <= front_matter_scan(ls, i, open) <= ls.len(),
    decreases ls.len() - i,
{
    if 0 <= i < ls.len() {
        let t = trim_spec(ls[i]);
        let o = open || t == seq!['-', '-', '-'];
        lemma_scan_bound(ls, i + 1, o);
    }
}

fn is_three(t: &[char], c: char) -> (b: bool)
    ensures
        b == (t@ == seq![c, c, c]),
{
    let b = t.len() == 3 && t[0] == c && t[1] == c && t[2] == c;
    assert(b ==> t@ =~= seq![c, c, c]);
    b
}

/// Where the data lines of a Rime `.dict.yaml` start.
pub fn front_matter_end(ls: &Vec<Vec<char>>) -> (n: usize)
    ensures
        n == front_matter_scan(crate::text::char_seqs(ls@), 0, false),
{
    let ghost lv = crate::text::char_seqs(ls@);
    let mut open = false;
    let mut i: usize = 0;
    while i < ls.len()
        invariant
            i <= ls@.len(),
            lv == crate::text::char_seqs(ls@),
            front_matter_scan(lv, 0, false) == front_matter_scan(lv, i as int, open),
        decreases ls@.len() - i,
    {
        assert(lv[i as int] == ls@[i as int]@);
        let t = trim_chars(ls[i].as_slice());
        if is_three(t.as_slice(), '-') {
            open = true;
        }
        if open && is_three(t.as_slice(), '.') {
            return i + 1;
        }
        i += 1;
    }
    0
}

/// The (word, pinyin, weight text) of a trimmed Rime line: its first three
/// tab-separated parts, trimmed.
pub open spec fn rime_fields(t: Seq<char>) -> (Seq<char>, Seq<char>, Seq<char>) {
    let (a, b) = split_once_spec(t, '\t');
    let rest = match b { Some(x) => x, None => Seq::empty() };
    let (c, d) = split_once_spec(rest, '\t');
    (trim_spec(a), trim_spec(c), match d { Some(x) => trim_spec(x), None => Seq::empty() })
}

/// The pinyin source's data lines `start..n`: (pinyin, word, weight text)
/// of each line with a word and a pinyin, and how many were skipped.
pub open spec fn pinyin_acc(ls: Seq<Seq<char>>, start: int, n: int) -> (Seq<(Seq<char>, Seq<char>, Seq<char>)>, nat)
    decreases n,
{
    if n <= start || n <= 0 {
        (Seq::empty(), 0)
    } else {
        let (es, sk) = pinyin_acc(ls, start, n - 1);
        let t = trim_spec(ls[n - 1]);
        let (w, c, x) = rime_fields(t);
        if t.len() == 0 {
            (es, sk)
        } else if w.len() == 0 || c.len() == 0 {
            (es, sk + 1)
        } else {
            (es.push((c, w, x)), sk)
        }
    }
}

/// Spelling parts of a pinyin code: split at spaces and apostrophes, empty
/// parts dropped.
pub open spec fn syllable_acc(c: Seq<char>, n: int) -> (Seq<Seq<char>>, Seq<char>)
    decreases n,
{
    if n <= 0 {
        (Seq::empty(), Seq::empty())
    } else {
        let (done, cur) = syllable_acc(c, n - 1);
        if c[n - 1] == ' ' || c[n - 1] == '\'' {
            (if cur.len() > 0 { done.push(cur) } else { done }, Seq::empty())
        } else {
            (done, cur.push(c[n - 1]))
        }
    }
}

pub open spec fn syllables_of(c: Seq<char>) -> Seq<Seq<char>> {
    let (done, cur) = syllable_acc(c, c.len() as int);
    if cur.len() > 0 { done.push(cur) } else { done }
}

/// The syllables of the data lines `start..n`, line after line.
pub open spec fn syllables_acc(ls: Seq<Seq<char>>, start: int, n: int) -> Seq<Seq<char>>
    decreases n,
{
    if n <= start || n <= 0 {
        Seq::empty()
    } else {
        let t = trim_spec(ls[n - 1]);
        if t.len() == 0 {
            syllables_acc(ls, start, n - 1)
        } else {
            syllables_acc(ls, start, n - 1) + syllables_of(rime_fields(t).1)
        }
    }
}

/// A Rime pinyin source (`word<TAB>pinyin[<TAB>weight]` after the front
/// matter), line by line; weights are left as text.
pub struct PinyinSource {
    /// (pinyin, word, weight text) of each data line.
    pub entries: Vec<(String, String, String)>,
    /// Data lines without a word or a pinyin.
    pub skipped: usize,
    /// The syllables of every pinyin, in order (for a double-pinyin map).
    pub syllables: Vec<String>,
}

fn rime_fields_exec(t: &[char]) -> (r: (Vec<char>, Vec<char>, Vec<char>))
    ensures
        (r.0@, r.1@, r.2@) == rime_fields(t@),
{
    let (a, b) = split_once_chars(t, '\t');
    let rest = match b {
        Some(x) => x,
        None => Vec::new(),
    };
    let (c, d) = split_once_chars(rest.as_slice(), '\t');
    let x = match d {
        Some(x) => trim_chars(x.as_slice()),
        None => Vec::new(),
    };
    (trim_chars(a.as_slice()), trim_chars(c.as_slice()), x)
}

fn push_syllables(c: &[char], out: &mut Vec<String>)
    ensures
        crate::algebra::strings_view(final(out)@) == crate::algebra::strings_view(old(out)@) + syllables_of(c@),
{
    let ghost base = crate::algebra::strings_view(out@);
    let mut cur: Vec<char> = Vec::new();
    let mut i: usize = 0;
    assert(base + Seq::<Seq<char>>::empty() =~= base);
    while i < c.len()
        invariant
            i <= c@.len(),
            (crate::algebra::strings_view(out@), cur@) == (base + syllable_acc(c@, i as int).0, syllable_acc(c@, i as int).1),
        decreases c@.len() - i,
    {
        if c[i] == ' ' || c[i] == '\'' {
            if cur.len() > 0 {
                let s = string_of(cur.as_slice());
                let ghost before = crate::algebra::strings_view(out@);
                out.push(s);
                assert(crate::algebra::strings_view(out@) =~= before.push(cur@));
            }
            cur = Vec::new();
        } else {
            cur.push(c[i]);
        }
        i += 1;
    }
    if cur.len() > 0 {
        let s = string_of(cur.as_slice());
        let ghost before = crate::algebra::strings_view(out@);
        out.push(s);
        assert(crate::algebra::strings_view(out@) =~= before.push(cur@));
    }
    assert(crate::algebra::strings_view(out@) =~= base + syllables_of(c@));
}

pub open spec fn pinyin_entries_view(v: Seq<(String, String, String)>) -> Seq<(Seq<char>, Seq<char>, Seq<char>)> {
    v.map_values(|e: (String, String, String)| (e.0@, e.1@, e.2@))
}

/// Reads a Rime pinyin source: the data lines after the front matter,
/// blank ones ignored, those without a word or a pinyin skipped.
pub fn pinyin_source(text: &str) -> (r: PinyinSource)
    ensures
        ({
            let ls = lines_spec(text@);
            let start = front_matter_scan(ls, 0, false);
            &&& (pinyin_entries_view(r.entries@), r.skipped as nat) == pinyin_acc(ls, start, ls.len() as int)
            &&& crate::algebra::strings_view(r.syllables@) == syllables_acc(ls, start, ls.len() as int)
        }),
{
    let ls = lines_of(text);
    let ghost lv = crate::text::char_seqs(ls@);
    let start = front_matter_end(&ls);
    let mut r = PinyinSource { entries: Vec::new(), skipped: 0, syllables: Vec::new() };
    let mut i: usize = start;
    proof {
        lemma_scan_bound(lv, 0, false);
        assert(pinyin_entries_view(r.entries@) =~= Seq::<(Seq<char>, Seq<char>, Seq<char>)>::empty());
        assert(crate::algebra::strings_view(r.syllables@) =~= Seq::<Seq<char>>::empty());
    }
    while i < ls.len()
        invariant
            start <= i,
            i <= ls@.len(),
            lv == crate::text::char_seqs(ls@),
            lv == lines_spec(text@),
            start == front_matter_scan(lv, 0, false),
            (pinyin_entries_view(r.entries@), r.skipped as nat) == pinyin_acc(lv, start as int, i as int),
            crate::algebra::strings_view(r.syllables@) == syllables_acc(lv, start as int, i as int),
            r.skipped <= i,
        decreases ls@.len() - i,
    {
        assert(lv[i as int] == ls@[i as int]@);
        let t = trim_chars(ls[i].as_slice());
        let (w, c, x) = rime_fields_exec(t.as_slice());
        if t.len() > 0 {
            let ghost before = pinyin_entries_view(r.entries@);
            if w.len() == 0 || c.len() == 0 {
                r.skipped = r.skipped + 1;
            } else {
                r.entries.push((string_of(c.as_slice()), string_of(w.as_slice()), string_of(x.as_slice())));
                assert(pinyin_entries_view(r.entries@) =~= before.push((c@, w@, x@)));
            }
            push_syllables(c.as_slice(), &mut r.syllables);
        }
        i += 1;
    }
    r
}

} // verus!
