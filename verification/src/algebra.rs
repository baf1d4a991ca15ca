//! Spelling algebra (Rime `speller.algebra` and `translator.preedit_format`).
//!
//! Rule kinds:
//! - `xform/pattern/replacement/`  rewrite (pinyin -> double-pinyin keys)
//! - `derive/pattern/replacement/` derived spelling (fuzzy variants)
//! - `abbrev/pattern/replacement/` abbreviated spelling
//! - `erase/pattern/`              erase on match
//! - `xlit/from/to/`               character transliteration
//!
//! At build time xform/erase/xlit turn every dictionary syllable into its
//! double-pinyin keys; derive/abbrev produce variant spellings.
use vstd::prelude::*;
use vstd::string::StringSliceAdditionalSpecFns;
use crate::text::{chars_of, string_of, string_from, str_eq, chars_eq, is_ascii_digit, sub_chars, append_chars};

verus! {

#[verifier::external_type_specification]
#[verifier::external_body]
pub struct ExRegex(regex::Regex);

/// Whether the regex crate compiles `pattern` (syntax and size limit).
pub uninterp spec fn regex_compiles(pattern: Seq<char>) -> bool;

/// Whether the regex compiled from `pattern` matches somewhere in `haystack`.
pub uninterp spec fn regex_is_match(pattern: Seq<char>, haystack: Seq<char>) -> bool;

/// `haystack` with the first match of `pattern` replaced by `replacement`,
/// after the regex crate's `$` expansion.
pub uninterp spec fn regex_replace(pattern: Seq<char>, haystack: Seq<char>, replacement: Seq<char>) -> Seq<char>;

/// A regex together with the pattern text it was compiled from. Only
/// `compile_pattern` builds one.
#[derive(Debug)]
pub struct Pattern {
    source: String,
    re: regex::Regex,
}

impl Pattern {
    /// The pattern text.
    pub closed spec fn source_view(&self) -> Seq<char> {
        self.source@
    }

    /// The pattern text.
    pub fn source(&self) -> (s: &str)
        ensures
            s@ == self.source_view(),
    {
        self.source.as_str()
    }
}

/// `regex::Regex::new`: `Ok` exactly when the crate compiles the pattern; on
/// failure, the error's `Display` text.
#[verifier::external_body]
fn regex_new(pattern: &str) -> (r: Result<regex::Regex, String>)
    ensures
        r is Ok <==> regex_compiles(pattern@),
{
    regex::Regex::new(pattern).map_err(|e| e.to_string())
}

/// `regex::Regex::is_match` of the regex in `p`, which was compiled from
/// `p`'s source text.
#[verifier::external_body]
fn pattern_is_match(p: &Pattern, haystack: &str) -> (b: bool)
    ensures
        b == regex_is_match(p.source_view(), haystack@),
{
    p.re.is_match(haystack)
}

/// `regex::Regex::replace` (first match) of the regex in `p`, which was
/// compiled from `p`'s source text, as an owned string.
#[verifier::external_body]
fn pattern_replace(p: &Pattern, haystack: &str, replacement: &str) -> (r: String)
    ensures
        r@ == regex_replace(p.source_view(), haystack@, replacement@),
{
    p.re.replace(haystack, replacement).into_owned()
}

/// Compiles a pattern, keeping its text.
pub fn compile_pattern(source: &str) -> (r: Result<Pattern, String>)
    ensures
        r is Ok <==> regex_compiles(source@),
        r matches Ok(p) ==> p.source_view() == source@,
{
    match regex_new(source) {
        Ok(re) => Ok(Pattern { source: string_from(source), re }),
        Err(e) => {
            let mut msg = string_from("正则 '");
            crate::zrm::append_str(&mut msg, source);
            crate::zrm::append_str(&mut msg, "' 无效: ");
            crate::zrm::append_str(&mut msg, e.as_str());
            Err(msg)
        },
    }
}

/// One algebra rule.
#[derive(Debug)]
pub enum AlgebraRule {
    Xform { pattern: Pattern, replacement: String },
    Derive { pattern: Pattern, replacement: String },
    Abbrev { pattern: Pattern, replacement: String },
    Erase { pattern: Pattern },
    Xlit { from: String, to: String },
}

/// A rule as seen by the contracts.
pub enum RuleSpec {
    Xform { pattern: Seq<char>, replacement: Seq<char> },
    Derive { pattern: Seq<char>, replacement: Seq<char> },
    Abbrev { pattern: Seq<char>, replacement: Seq<char> },
    Erase { pattern: Seq<char> },
    Xlit { from: Seq<char>, to: Seq<char> },
}

impl View for AlgebraRule {
    type V = RuleSpec;

    open spec fn view(&self) -> RuleSpec {
        match self {
            AlgebraRule::Xform { pattern, replacement } => RuleSpec::Xform { pattern: pattern.source_view(), replacement: replacement@ },
            AlgebraRule::Derive { pattern, replacement } => RuleSpec::Derive { pattern: pattern.source_view(), replacement: replacement@ },
            AlgebraRule::Abbrev { pattern, replacement } => RuleSpec::Abbrev { pattern: pattern.source_view(), replacement: replacement@ },
            AlgebraRule::Erase { pattern } => RuleSpec::Erase { pattern: pattern.source_view() },
            AlgebraRule::Xlit { from, to } => RuleSpec::Xlit { from: from@, to: to@ },
        }
    }
}

// ── transliteration ────────────────────────────────────────────────────

/// The image of `c` under the pairs `from[j] -> to[j]` (first match wins),
/// for `j` below both lengths; `c` itself when no pair applies.
pub open spec fn xlit_char(c: char, from: Seq<char>, to: Seq<char>, j: int) -> char
    decreases from.len() - j,
{
    if j < 0 || j >= from.len() || j >= to.len() {
        c
    } else if from[j] == c {
        to[j]
    } else {
        xlit_char(c, from, to, j + 1)
    }
}

/// Character transliteration; when `from` and `to` differ in UTF-8 length
/// the input is returned unchanged.
pub open spec fn xlit_spec(s: Seq<char>, from: Seq<char>, to: Seq<char>) -> Seq<char> {
    if crate::codec::utf8(from).len() != crate::codec::utf8(to).len() {
        s
    } else {
        Seq::new(s.len(), |i: int| xlit_char(s[i], from, to, 0))
    }
}

fn xlit_one(c: char, f: &Vec<char>, t: &Vec<char>) -> (m: char)
    ensures
        m == xlit_char(c, f@, t@, 0),
{
    let mut j: usize = 0;
    while j < f.len() && j < t.len()
        invariant
            j <= f@.len(),
            j <= t@.len(),
            xlit_char(c, f@, t@, 0) == xlit_char(c, f@, t@, j as int),
        decreases f@.len() - j,
    {
        if f[j] == c {
            return t[j];
        }
        j += 1;
    }
    c
}

/// Character transliteration: each character of `from` maps to the
/// character of `to` at the same position.
pub fn xlit(s: &str, from: &str, to: &str) -> (r: String)
    ensures
        r@ == xlit_spec(s@, from@, to@),
{
    if from.as_bytes().len() != to.as_bytes().len() {
        return string_from(s);
    }
    let f = chars_of(from);
    let t = chars_of(to);
    let cs = chars_of(s);
    let mut out: Vec<char> = Vec::new();
    let mut i: usize = 0;
    while i < cs.len()
        invariant
            i <= cs@.len(),
            cs@ == s@,
            f@ == from@,
            t@ == to@,
            out@.len() == i,
            forall|k: int| 0 <= k < i ==> out@[k] == xlit_char(s@[k], from@, to@, 0),
        decreases cs@.len() - i,
    {
        let c = cs[i];
        let mapped = xlit_one(c, &f, &t);
        out.push(mapped);
        i += 1;
    }
    assert(out@ =~= xlit_spec(s@, from@, to@));
    string_of(&out)
}

// ── rule text parsing ──────────────────────────────────────────────────

/// Index of the first `c` in `s`, if any.
pub open spec fn first_index(s: Seq<char>, c: char, i: int) -> Option<int>
    decreases s.len() - i,
{
    if i < 0 || i >= s.len() {
        None
    } else if s[i] == c {
        Some(i)
    } else {
        first_index(s, c, i + 1)
    }
}

/// `s` without its trailing `/` characters.
pub open spec fn trim_end_slashes(s: Seq<char>) -> Seq<char>
    decreases s.len(),
{
    if s.len() > 0 && s.last() == '/' {
        trim_end_slashes(s.drop_last())
    } else {
        s
    }
}

/// Position of the first `/` outside a character class `[...]`, scanning
/// from `i` with bracket depth `depth`.
pub open spec fn top_level_slash(s: Seq<char>, i: int, depth: int) -> Option<int>
    decreases s.len() - i,
{
    if i < 0 || i >= s.len() {
        None
    } else if s[i] == '[' {
        top_level_slash(s, i + 1, depth + 1)
    } else if s[i] == ']' {
        top_level_slash(s, i + 1, depth - 1)
    } else if s[i] == '/' && depth == 0 {
        Some(i)
    } else {
        top_level_slash(s, i + 1, depth)
    }
}

/// Pattern and replacement of `pattern/replacement/`: split at the first
/// top-level `/`; trailing `/` of the replacement dropped.
pub open spec fn split_spec(rest: Seq<char>) -> Option<(Seq<char>, Seq<char>)> {
    match top_level_slash(rest, 0, 0) {
        Some(p) => Some((rest.take(p), trim_end_slashes(rest.skip(p + 1)))),
        None => None,
    }
}

/// Length of the run of ASCII digits at the start of `s`.
pub open spec fn digit_run(s: Seq<char>) -> int
    decreases s.len(),
{
    if s.len() > 0 && is_ascii_digit(s[0]) {
        1 + digit_run(s.skip(1))
    } else {
        0
    }
}

pub proof fn lemma_digit_run_bound(s: Seq<char>)
    ensures
        0 <= digit_run(s) <= s.len(),
        s.len() > 0 && is_ascii_digit(s[0]) ==> digit_run(s) >= 1,
    decreases s.len(),
{
    if s.len() > 0 && is_ascii_digit(s[0]) {
        lemma_digit_run_bound(s.skip(1));
    }
}

/// Rime group references `$N` rewritten as `${N}`, so that `$1F` means
/// group 1 followed by `F` under the regex crate's expansion.
pub open spec fn normalize_replacement_spec(s: Seq<char>) -> Seq<char>
    decreases s.len(),
{
    if s.len() == 0 {
        Seq::empty()
    } else if s[0] == '$' && s.len() > 1 && is_ascii_digit(s[1]) {
        let d = digit_run(s.skip(1));
        proof {
            lemma_digit_run_bound(s.skip(1));
        }
        seq!['$', '{'] + s.subrange(1, 1 + d) + seq!['}'] + normalize_replacement_spec(s.skip(1 + d))
    } else {
        seq![s[0]] + normalize_replacement_spec(s.skip(1))
    }
}

/// The rule text `raw` denotes, and whether its regex compiles; `None` for
/// malformed text.
pub open spec fn rule_shape(raw: Seq<char>) -> Option<RuleSpec> {
    match first_index(raw, '/', 0) {
        None => None,
        Some(k) => {
            let kind = raw.take(k);
            let rest = raw.skip(k + 1);
            if kind == seq!['e', 'r', 'a', 's', 'e'] {
                Some(RuleSpec::Erase { pattern: trim_end_slashes(rest) })
            } else if kind == seq!['x', 'l', 'i', 't'] {
                match first_index(rest, '/', 0) {
                    None => None,
                    Some(q) => {
                        let from = rest.take(q);
                        let to = trim_end_slashes(rest.skip(q + 1));
                        if crate::codec::utf8(from).len() != crate::codec::utf8(to).len() {
                            None
                        } else {
                            Some(RuleSpec::Xlit { from, to })
                        }
                    },
                }
            } else if kind == seq!['x', 'f', 'o', 'r', 'm'] || kind == seq!['d', 'e', 'r', 'i', 'v', 'e']
                || kind == seq!['a', 'b', 'b', 'r', 'e', 'v'] {
                match split_spec(rest) {
                    None => None,
                    Some(pr) => {
                        let pattern = pr.0;
                        let replacement = normalize_replacement_spec(trim_end_slashes(pr.1));
                        if kind == seq!['x', 'f', 'o', 'r', 'm'] {
                            Some(RuleSpec::Xform { pattern, replacement })
                        } else if kind == seq!['d', 'e', 'r', 'i', 'v', 'e'] {
                            Some(RuleSpec::Derive { pattern, replacement })
                        } else {
                            Some(RuleSpec::Abbrev { pattern, replacement })
                        }
                    },
                }
            } else {
                None
            }
        },
    }
}

/// The regex a rule holds, if any.
pub open spec fn rule_pattern(r: RuleSpec) -> Option<Seq<char>> {
    match r {
        RuleSpec::Xform { pattern, .. } => Some(pattern),
        RuleSpec::Derive { pattern, .. } => Some(pattern),
        RuleSpec::Abbrev { pattern, .. } => Some(pattern),
        RuleSpec::Erase { pattern } => Some(pattern),
        RuleSpec::Xlit { .. } => None,
    }
}

/// What `parse_rule` accepts: well-formed text whose regex compiles.
pub open spec fn rule_parses(raw: Seq<char>) -> bool {
    match rule_shape(raw) {
        None => false,
        Some(r) => match rule_pattern(r) {
            Some(p) => regex_compiles(p),
            None => true,
        },
    }
}

fn find_char(s: &Vec<char>, c: char) -> (r: Option<usize>)
    ensures
        r matches Some(k) ==> first_index(s@, c, 0) == Some(k as int) && k < s@.len(),
        r is None ==> first_index(s@, c, 0) is None,
{
    let mut i: usize = 0;
    while i < s.len()
        invariant
            i <= s@.len(),
            first_index(s@, c, 0) == first_index(s@, c, i as int),
        decreases s@.len() - i,
    {
        if s[i] == c {
            return Some(i);
        }
        i += 1;
    }
    None
}

fn trim_end_slash_chars(s: &Vec<char>) -> (r: Vec<char>)
    ensures
        r@ == trim_end_slashes(s@),
{
    let mut n = s.len();
    assert(s@.take(n as int) == s@);
    while n > 0 && s[n - 1] == '/'
        invariant
            n <= s@.len(),
            trim_end_slashes(s@) == trim_end_slashes(s@.take(n as int)),
        decreases n,
    {
        assert(s@.take(n as int).drop_last() == s@.take(n - 1));
        n -= 1;
    }
    assert(s@.take(n as int) == s@.subrange(0, n as int));
    sub_chars(s, 0, n)
}

fn top_slash(chars: &Vec<char>) -> (r: Option<usize>)
    ensures
        r matches Some(p) ==> top_level_slash(chars@, 0, 0) == Some(p as int) && p < chars@.len(),
        r is None ==> top_level_slash(chars@, 0, 0) is None,
{
    let mut opens: usize = 0;
    let mut closes: usize = 0;
    let mut i: usize = 0;
    while i < chars.len()
        invariant
            i <= chars@.len(),
            opens <= i,
            closes <= i,
            top_level_slash(chars@, 0, 0) == top_level_slash(chars@, i as int, opens - closes),
        decreases chars@.len() - i,
    {
        let ch = chars[i];
        if ch == '[' {
            opens += 1;
        } else if ch == ']' {
            closes += 1;
        } else if ch == '/' && opens == closes {
            return Some(i);
        }
        i += 1;
    }
    None
}

/// Splits `pattern/replacement/` at the first `/` outside a character class;
/// the trailing `/` of the replacement is dropped.
pub fn split_pattern_replacement(rest: &str) -> (r: Result<(String, String), String>)
    ensures
        match split_spec(rest@) {
            Some(pr) => r matches Ok(x) && x.0@ == pr.0 && x.1@ == pr.1,
            None => r is Err,
        },
{
    let chars = chars_of(rest);
    let pos = match top_slash(&chars) {
        Some(p) => p,
        None => {
            let mut msg = string_from("无法分割 pattern/replacement: ");
            crate::zrm::append_str(&mut msg, rest);
            return Err(msg);
        },
    };
    let pat = sub_chars(&chars, 0, pos);
    assert(pos < chars.len());
    let tail = sub_chars(&chars, pos + 1, chars.len());
    assert(pat@ == rest@.take(pos as int));
    assert(tail@ == rest@.skip(pos + 1));
    let rep = trim_end_slash_chars(&tail);
    Ok((string_of(&pat), string_of(&rep)))
}

/// Rewrites Rime group references `$N` as `${N}`: the regex crate reads
/// `$1F` as the (missing) group named `1F`, where Rime means group 1 then `F`.
pub fn normalize_replacement(repl: &str) -> (r: String)
    ensures
        r@ == normalize_replacement_spec(repl@),
{
    let chars = chars_of(repl);
    let mut out: Vec<char> = Vec::new();
    let mut i: usize = 0;
    assert(repl@.skip(0) == repl@);
    assert(out@ + normalize_replacement_spec(repl@) =~= normalize_replacement_spec(repl@));
    while i < chars.len()
        invariant
            i <= chars@.len(),
            chars@ == repl@,
            normalize_replacement_spec(repl@) == out@ + normalize_replacement_spec(repl@.skip(i as int)),
        decreases chars@.len() - i,
    {
        let ghost s = repl@.skip(i as int);
        if chars[i] == '$' && i + 1 < chars.len() && '0' <= chars[i + 1] && chars[i + 1] <= '9' {
            let start = i + 1;
            let mut end = start;
            while end < chars.len() && '0' <= chars[end] && chars[end] <= '9'
                invariant
                    start <= end <= chars@.len(),
                    chars@ == repl@,
                    forall|k: int| start <= k < end ==> is_ascii_digit(#[trigger] chars@[k]),
                    digit_run(repl@.skip(start as int)) == (end - start) + digit_run(repl@.skip(end as int)),
                decreases chars@.len() - end,
            {
                assert(repl@.skip(end as int).skip(1) == repl@.skip(end + 1));
                end += 1;
            }
            proof {
                assert(s[0] == '$');
                assert(s.skip(1) == repl@.skip(start as int));
                assert(s.len() > 1 && is_ascii_digit(s[1]));
                let d = digit_run(s.skip(1));
                assert(d == end - start);
                assert(s.subrange(1, 1 + d) == repl@.subrange(start as int, end as int));
                assert(s.skip(1 + d) == repl@.skip(end as int));
            }
            let ghost before = out@;
            out.push('$');
            out.push('{');
            let mut k = start;
            while k < end
                invariant
                    start <= k <= end <= chars@.len(),
                    chars@ == repl@,
                    out@ == before + seq!['$', '{'] + repl@.subrange(start as int, k as int),
                decreases end - k,
            {
                out.push(chars[k]);
                k += 1;
                assert(repl@.subrange(start as int, k as int) == repl@.subrange(start as int, k - 1).push(repl@[k - 1]));
            }
            out.push('}');
            proof {
                assert(normalize_replacement_spec(s) == seq!['$', '{'] + repl@.subrange(start as int, end as int) + seq!['}']
                    + normalize_replacement_spec(repl@.skip(end as int)));
                assert(out@ =~= before + (seq!['$', '{'] + repl@.subrange(start as int, end as int) + seq!['}']));
            }
            i = end;
        } else {
            let ghost before = out@;
            out.push(chars[i]);
            proof {
                assert(s.skip(1) == repl@.skip(i + 1));
                assert(out@ =~= before + seq![s[0]]);
            }
            i += 1;
        }
    }
    assert(repl@.skip(chars@.len() as int) =~= Seq::<char>::empty());
    assert(out@ =~= out@ + Seq::<char>::empty());
    string_of(&out)
}

fn is_word(c: &Vec<char>, w: &str) -> (b: bool)
    ensures
        b == (c@ == w@),
{
    let v = chars_of(w);
    chars_eq(c.as_slice(), v.as_slice())
}

/// Parses one rule text `type/pattern/replacement/` (erase: `erase/pattern/`,
/// xlit: `xlit/from/to/`). Inside `[...]` a `/` is not a separator.
pub fn parse_rule(raw: &str) -> (r: Result<AlgebraRule, String>)
    ensures
        r is Ok <==> rule_parses(raw@),
        r matches Ok(rule) ==> rule_shape(raw@) == Some(rule@),
{
    proof {
        reveal_strlit("erase");
        reveal_strlit("xlit");
        reveal_strlit("xform");
        reveal_strlit("derive");
        reveal_strlit("abbrev");
        assert("erase"@ =~= seq!['e', 'r', 'a', 's', 'e']);
        assert("xlit"@ =~= seq!['x', 'l', 'i', 't']);
        assert("xform"@ =~= seq!['x', 'f', 'o', 'r', 'm']);
        assert("derive"@ =~= seq!['d', 'e', 'r', 'i', 'v', 'e']);
        assert("abbrev"@ =~= seq!['a', 'b', 'b', 'r', 'e', 'v']);
    }
    let chars = chars_of(raw);
    let k = match find_char(&chars, '/') {
        Some(k) => k,
        None => {
            let mut msg = string_from("无效规则（缺少 /）: ");
            crate::zrm::append_str(&mut msg, raw);
            return Err(msg);
        },
    };
    let kind = sub_chars(&chars, 0, k);
    assert(k < chars.len());
    let rest = sub_chars(&chars, k + 1, chars.len());
    assert(kind@ == raw@.take(k as int));
    assert(rest@ == raw@.skip(k + 1));
    if is_word(&kind, "erase") {
        let p = trim_end_slash_chars(&rest);
        let ps = string_of(&p);
        let pattern = compile_pattern(ps.as_str())?;
        return Ok(AlgebraRule::Erase { pattern });
    }
    if is_word(&kind, "xlit") {
        let q = match find_char(&rest, '/') {
            Some(q) => q,
            None => {
                let mut msg = string_from("xlit 缺少分割: ");
                crate::zrm::append_str(&mut msg, raw);
                return Err(msg);
            },
        };
        let from_c = sub_chars(&rest, 0, q);
        let to_raw = sub_chars(&rest, q + 1, rest.len());
        assert(from_c@ == rest@.take(q as int));
        assert(to_raw@ == rest@.skip(q + 1));
        let to_c = trim_end_slash_chars(&to_raw);
        let from = string_of(&from_c);
        let to = string_of(&to_c);
        if from.as_str().as_bytes().len() != to.as_str().as_bytes().len() {
            let mut msg = string_from("xlit from/to 长度不等: ");
            crate::zrm::append_str(&mut msg, raw);
            return Err(msg);
        }
        return Ok(AlgebraRule::Xlit { from, to });
    }
    let is_xform = is_word(&kind, "xform");
    let is_derive = is_word(&kind, "derive");
    let is_abbrev = is_word(&kind, "abbrev");
    if is_xform || is_derive || is_abbrev {
        let rest_s = string_of(&rest);
        let (pattern_str, replacement) = split_pattern_replacement(rest_s.as_str())?;
        let pattern = compile_pattern(pattern_str.as_str())?;
        let rc = chars_of(replacement.as_str());
        let rt = trim_end_slash_chars(&rc);
        let rts = string_of(&rt);
        let replacement = normalize_replacement(rts.as_str());
        if is_xform {
            Ok(AlgebraRule::Xform { pattern, replacement })
        } else if is_derive {
            Ok(AlgebraRule::Derive { pattern, replacement })
        } else {
            Ok(AlgebraRule::Abbrev { pattern, replacement })
        }
    } else {
        let mut msg = string_from("未知规则类型: ");
        let ks = string_of(&kind);
        crate::zrm::append_str(&mut msg, ks.as_str());
        Err(msg)
    }
}


// ── the rule set ───────────────────────────────────────────────────────

/// Result of the rewriting rules from rule `i` on: xform rewrites on a
/// match, erase empties the spelling on a match (and stops), xlit
/// transliterates; derive and abbrev do not take part.
pub open spec fn transform_from(rules: Seq<RuleSpec>, i: int, s: Seq<char>) -> Seq<char>
    decreases rules.len() - i,
{
    if i < 0 || i >= rules.len() {
        s
    } else {
        match rules[i] {
            RuleSpec::Xform { pattern, replacement } => transform_from(rules, i + 1,
                if regex_is_match(pattern, s) { regex_replace(pattern, s, replacement) } else { s }),
            RuleSpec::Erase { pattern } => if regex_is_match(pattern, s) {
                Seq::empty()
            } else {
                transform_from(rules, i + 1, s)
            },
            RuleSpec::Xlit { from, to } => transform_from(rules, i + 1, xlit_spec(s, from, to)),
            _ => transform_from(rules, i + 1, s),
        }
    }
}

/// What `transform` computes.
pub open spec fn transform_spec(rules: Seq<RuleSpec>, s: Seq<char>) -> Seq<char> {
    transform_from(rules, 0, s)
}

/// The new spellings one derive rule makes from `results`, in order: the
/// rewrite of each matching spelling that differs from it.
pub open spec fn derived_by(results: Seq<Seq<char>>, pattern: Seq<char>, replacement: Seq<char>) -> Seq<Seq<char>>
    decreases results.len(),
{
    if results.len() == 0 {
        Seq::empty()
    } else {
        let prev = derived_by(results.drop_last(), pattern, replacement);
        let s = results.last();
        if regex_is_match(pattern, s) && regex_replace(pattern, s, replacement) != s {
            prev.push(regex_replace(pattern, s, replacement))
        } else {
            prev
        }
    }
}

/// Spellings after the derive rules from rule `i` on: each derive rule
/// appends what it derives from all spellings so far.
pub open spec fn derivations_from(rules: Seq<RuleSpec>, i: int, results: Seq<Seq<char>>) -> Seq<Seq<char>>
    decreases rules.len() - i,
{
    if i < 0 || i >= rules.len() {
        results
    } else {
        match rules[i] {
            RuleSpec::Derive { pattern, replacement } => derivations_from(rules, i + 1,
                results + derived_by(results, pattern, replacement)),
            _ => derivations_from(rules, i + 1, results),
        }
    }
}

/// What `derivations` computes: the input first, then every derived spelling.
pub open spec fn derivations_spec(rules: Seq<RuleSpec>, input: Seq<char>) -> Seq<Seq<char>> {
    derivations_from(rules, 0, seq![input])
}

/// `t` is the rewrite, by pattern `p` and replacement `r`, of a spelling of
/// `xs` that the pattern matches and changes.
pub open spec fn is_rewrite_of(xs: Seq<Seq<char>>, p: Seq<char>, r: Seq<char>, t: Seq<char>) -> bool {
    exists|s: Seq<char>| #[trigger] xs.contains(s) && regex_is_match(p, s) && t == regex_replace(p, s, r) && t != s
}

/// The spellings one rule leaves after `x`: a derive rule appends its
/// rewrites of `x`, any other rule leaves `x` as it is.
spec fn derive_step(rule: RuleSpec, x: Seq<Seq<char>>) -> Seq<Seq<char>> {
    match rule {
        RuleSpec::Derive { pattern, replacement } => x + derived_by(x, pattern, replacement),
        _ => x,
    }
}

proof fn lemma_derivations_take(rules: Seq<RuleSpec>, k: int, j: int, res: Seq<Seq<char>>)
    requires
        0 <= j <= k < rules.len(),
    ensures
        derivations_from(rules.take(k + 1), j, res) == derive_step(rules[k], derivations_from(rules.take(k), j, res)),
    decreases k - j,
{
    let a = rules.take(k + 1);
    let b = rules.take(k);
    if j == k {
        assert(a[k] == rules[k]);
        match rules[k] {
            RuleSpec::Derive { pattern, replacement } => {
                assert(derivations_from(a, k + 1, res + derived_by(res, pattern, replacement))
                    == res + derived_by(res, pattern, replacement));
            },
            _ => {
                assert(derivations_from(a, k + 1, res) == res);
            },
        }
    } else {
        assert(a[j] == rules[j] && b[j] == rules[j]);
        match rules[j] {
            RuleSpec::Derive { pattern, replacement } => {
                lemma_derivations_take(rules, k, j + 1, res + derived_by(res, pattern, replacement));
            },
            _ => {
                lemma_derivations_take(rules, k, j + 1, res);
            },
        }
    }
}

proof fn lemma_derived_by(xs: Seq<Seq<char>>, p: Seq<char>, r: Seq<char>)
    ensures
        forall|s: Seq<char>| #[trigger] xs.contains(s) && regex_is_match(p, s) && regex_replace(p, s, r) != s
            ==> derived_by(xs, p, r).contains(regex_replace(p, s, r)),
        forall|t: Seq<char>| #[trigger] derived_by(xs, p, r).contains(t) ==> is_rewrite_of(xs, p, r, t),
    decreases xs.len(),
{
    if xs.len() > 0 {
        let d = xs.drop_last();
        lemma_derived_by(d, p, r);
        let prev = derived_by(d, p, r);
        let x = xs.last();
        assert forall|s: Seq<char>| #[trigger] xs.contains(s) && regex_is_match(p, s) && regex_replace(p, s, r) != s
            implies derived_by(xs, p, r).contains(regex_replace(p, s, r)) by {
            let i = choose|i: int| 0 <= i < xs.len() && xs[i] == s;
            if i < xs.len() - 1 {
                assert(d[i] == s);
                assert(d.contains(s));
                let q = choose|q: int| 0 <= q < prev.len() && prev[q] == regex_replace(p, s, r);
                if regex_is_match(p, x) && regex_replace(p, x, r) != x {
                    assert(prev.push(regex_replace(p, x, r))[q] == prev[q]);
                }
            } else {
                assert(prev.push(regex_replace(p, x, r))[prev.len() as int] == regex_replace(p, x, r));
            }
        }
        assert forall|t: Seq<char>| #[trigger] derived_by(xs, p, r).contains(t) implies is_rewrite_of(xs, p, r, t) by {
            let q = choose|q: int| 0 <= q < derived_by(xs, p, r).len() && derived_by(xs, p, r)[q] == t;
            if q < prev.len() {
                if regex_is_match(p, x) && regex_replace(p, x, r) != x {
                    assert(prev.push(regex_replace(p, x, r))[q] == prev[q]);
                }
                assert(prev.contains(t));
                let s = choose|s: Seq<char>| #[trigger] d.contains(s) && regex_is_match(p, s) && t == regex_replace(p, s, r) && t != s;
                let i = choose|i: int| 0 <= i < d.len() && d[i] == s;
                assert(xs[i] == s);
                assert(xs.contains(s));
            } else {
                assert(xs[xs.len() - 1] == x);
                assert(xs.contains(x));
            }
        }
    }
}

/// A derive rule works on every spelling the rules before it produced, not
/// only on the input: with the rules up to `k` the derivations are those of
/// the rules before `k`, followed by exactly the rewrites, by rule `k`, of
/// those spellings that its pattern matches and changes; a rule of another
/// kind adds nothing. With no rules the derivations are the input alone,
/// and with all of them they are what `derivations` gives.
pub proof fn law_derive_rule_applies_to_every_spelling(rules: Seq<RuleSpec>, input: Seq<char>, k: int)
    requires
        0 <= k < rules.len(),
    ensures
        derivations_spec(rules.take(0), input) == seq![input],
        derivations_spec(rules.take(rules.len() as int), input) == derivations_spec(rules, input),
        ({
            let before = derivations_spec(rules.take(k), input);
            let after = derivations_spec(rules.take(k + 1), input);
            match rules[k] {
                RuleSpec::Derive { pattern, replacement } => {
                    &&& before.len() <= after.len()
                    &&& after.take(before.len() as int) == before
                    &&& forall|s: Seq<char>| #[trigger] before.contains(s) && regex_is_match(pattern, s)
                            && regex_replace(pattern, s, replacement) != s
                            ==> after.contains(regex_replace(pattern, s, replacement))
                    &&& forall|i: int| before.len() <= i < after.len()
                            ==> is_rewrite_of(before, pattern, replacement, #[trigger] after[i])
                },
                _ => after == before,
            }
        }),
{
    assert(rules.take(rules.len() as int) =~= rules);
    lemma_derivations_take(rules, k, 0, seq![input]);
    let before = derivations_spec(rules.take(k), input);
    let after = derivations_spec(rules.take(k + 1), input);
    match rules[k] {
        RuleSpec::Derive { pattern, replacement } => {
            let nd = derived_by(before, pattern, replacement);
            assert(after == before + nd);
            assert(after.take(before.len() as int) =~= before);
            lemma_derived_by(before, pattern, replacement);
            assert forall|s: Seq<char>| #[trigger] before.contains(s) && regex_is_match(pattern, s)
                && regex_replace(pattern, s, replacement) != s
                implies after.contains(regex_replace(pattern, s, replacement)) by {
                let q = choose|q: int| 0 <= q < nd.len() && nd[q] == regex_replace(pattern, s, replacement);
                assert(after[before.len() + q] == nd[q]);
            }
            assert forall|i: int| before.len() <= i < after.len()
                implies is_rewrite_of(before, pattern, replacement, #[trigger] after[i]) by {
                assert(after[i] == nd[i - before.len()]);
                assert(nd.contains(nd[i - before.len()]));
            }
            assert(before.len() <= after.len());
        },
        _ => {
            assert(after == before);
        },
    }
}

/// What `abbreviations` computes: for each abbrev rule that matches the
/// input, in rule order, its rewrite when that differs from the input.
pub open spec fn abbreviations_spec(rules: Seq<RuleSpec>, input: Seq<char>) -> Seq<Seq<char>>
    decreases rules.len(),
{
    if rules.len() == 0 {
        Seq::empty()
    } else {
        let prev = abbreviations_spec(rules.drop_last(), input);
        match rules.last() {
            RuleSpec::Abbrev { pattern, replacement } =>
                if regex_is_match(pattern, input) && regex_replace(pattern, input, replacement) != input {
                    prev.push(regex_replace(pattern, input, replacement))
                } else {
                    prev
                },
            _ => prev,
        }
    }
}

/// The Natural Code double-pinyin preset (`speller.algebra` of Rime's
/// double_pinyin schema).
pub open spec fn natural_code_texts() -> Seq<Seq<char>> {
    seq![
        "erase/^xx$/"@,
        "derive/^([jqxy])u$/$1v/"@,
        "derive/^([aoe])([ioun])$/$1$1$2/"@,
        "xform/^([aoe])(ng)?$/$1$1$2/"@,
        "xform/iu$/Q/"@,
        "xform/[iu]a$/W/"@,
        "xform/[uv]an$/R/"@,
        "xform/[uv]e$/T/"@,
        "xform/ing$|uai$/Y/"@,
        "xform/^sh/U/"@,
        "xform/^ch/I/"@,
        "xform/^zh/V/"@,
        "xform/uo$/O/"@,
        "xform/[uv]n$/P/"@,
        "xform/i?ong$/S/"@,
        "xform/[iu]ang$/D/"@,
        "xform/(.)en$/$1F/"@,
        "xform/(.)eng$/$1G/"@,
        "xform/(.)ang$/$1H/"@,
        "xform/ian$/M/"@,
        "xform/(.)an$/$1J/"@,
        "xform/iao$/C/"@,
        "xform/(.)ao$/$1K/"@,
        "xform/(.)ai$/$1L/"@,
        "xform/(.)ei$/$1Z/"@,
        "xform/ie$/X/"@,
        "xform/ui$/V/"@,
        "xform/(.)ou$/$1B/"@,
        "xform/in$/N/"@,
        "xlit/QWRTYUIOPSDFGHMJCKLZXVBN/qwrtyuiopsdfghmjcklzxvbn/"@
    ]
}

pub open spec fn strings_view(v: Seq<String>) -> Seq<Seq<char>> {
    v.map_values(|x: String| x@)
}

/// A rule set.
#[derive(Debug)]
pub struct Algebra {
    rules: Vec<AlgebraRule>,
}

impl View for Algebra {
    type V = Seq<RuleSpec>;

    closed spec fn view(&self) -> Seq<RuleSpec> {
        self.rules@.map_values(|r: AlgebraRule| r@)
    }
}

impl Algebra {
    pub fn new() -> (a: Algebra)
        ensures
            a@.len() == 0,
    {
        Algebra { rules: Vec::new() }
    }

    pub fn is_empty(&self) -> (b: bool)
        ensures
            b == (self@.len() == 0),
    {
        self.rules.len() == 0
    }

    /// Builds a rule set from Rime rule texts such as `"xform/iu$/Q/"`; the
    /// first text that does not parse gives the error.
    pub fn from_strings(raw_rules: &[String]) -> (r: Result<Algebra, String>)
        ensures
            r is Ok <==> forall|i: int| 0 <= i < raw_rules@.len() ==> rule_parses(#[trigger] raw_rules@[i]@),
            r matches Ok(a) ==> a@.len() == raw_rules@.len()
                && forall|i: int| 0 <= i < raw_rules@.len() ==> rule_shape(#[trigger] raw_rules@[i]@) == Some(a@[i]),
    {
        let mut rules: Vec<AlgebraRule> = Vec::new();
        let mut i: usize = 0;
        while i < raw_rules.len()
            invariant
                i <= raw_rules@.len(),
                rules@.len() == i,
                forall|j: int| 0 <= j < i ==> rule_parses(#[trigger] raw_rules@[j]@),
                forall|j: int| 0 <= j < i ==> rule_shape(#[trigger] raw_rules@[j]@) == Some(rules@[j]@),
            decreases raw_rules@.len() - i,
        {
            let rule = parse_rule(raw_rules[i].as_str())?;
            rules.push(rule);
            i += 1;
        }
        Ok(Algebra { rules })
    }

    /// Applies every xform/erase/xlit rule in order (build time: syllable ->
    /// double-pinyin keys). Derive and abbrev rules do not take part.
    pub fn transform(&self, input: &str) -> (r: String)
        ensures
            r@ == transform_spec(self@, input@),
    {
        let mut s = string_from(input);
        let mut i: usize = 0;
        while i < self.rules.len()
            invariant
                i <= self@.len(),
                self@.len() == self.rules@.len(),
                transform_spec(self@, input@) == transform_from(self@, i as int, s@),
            decreases self.rules@.len() - i,
        {
            assert(self@[i as int] == self.rules@[i as int]@);
            match &self.rules[i] {
                AlgebraRule::Xform { pattern, replacement } => {
                    if pattern_is_match(pattern, s.as_str()) {
                        s = pattern_replace(pattern, s.as_str(), replacement.as_str());
                    }
                },
                AlgebraRule::Erase { pattern } => {
                    if pattern_is_match(pattern, s.as_str()) {
                        return String::new();
                    }
                },
                AlgebraRule::Xlit { from, to } => {
                    s = xlit(s.as_str(), from.as_str(), to.as_str());
                },
                _ => {},
            }
            i += 1;
        }
        s
    }

    /// Derived spellings (derive rules only): the input, then each derive
    /// rule's new spellings in rule order.
    pub fn derivations(&self, input: &str) -> (r: Vec<String>)
        ensures
            strings_view(r@) == derivations_spec(self@, input@),
    {
        let mut results: Vec<String> = vec![string_from(input)];
        assert(strings_view(results@) =~= seq![input@]);
        let mut i: usize = 0;
        while i < self.rules.len()
            invariant
                i <= self@.len(),
                self@.len() == self.rules@.len(),
                derivations_spec(self@, input@) == derivations_from(self@, i as int, strings_view(results@)),
            decreases self.rules@.len() - i,
        {
            assert(self@[i as int] == self.rules@[i as int]@);
            if let AlgebraRule::Derive { pattern, replacement } = &self.rules[i] {
                let ghost before = strings_view(results@);
                let mut new: Vec<String> = Vec::new();
                let mut j: usize = 0;
                while j < results.len()
                    invariant
                        j <= results@.len(),
                        before == strings_view(results@),
                        strings_view(new@) == derived_by(before.take(j as int), pattern.source_view(), replacement@),
                    decreases results@.len() - j,
                {
                    proof {
                        assert(before.take(j + 1).drop_last() == before.take(j as int));
                        assert(before.take(j + 1).last() == results@[j as int]@);
                    }
                    if pattern_is_match(pattern, results[j].as_str()) {
                        let derived = pattern_replace(pattern, results[j].as_str(), replacement.as_str());
                        if !str_eq(derived.as_str(), results[j].as_str()) {
                            let ghost nb = strings_view(new@);
                            new.push(derived);
                            assert(strings_view(new@) =~= nb.push(derived@));
                        }
                    }
                    j += 1;
                }
                assert(before.take(before.len() as int) == before);
                let mut k: usize = 0;
                let ghost mid = strings_view(results@);
                while k < new.len()
                    invariant
                        k <= new@.len(),
                        strings_view(results@) == mid + strings_view(new@).take(k as int),
                    decreases new@.len() - k,
                {
                    let ghost rb = strings_view(results@);
                    results.push(new[k].clone());
                    assert(strings_view(results@) =~= rb.push(new@[k as int]@));
                    assert(strings_view(new@).take(k + 1) =~= strings_view(new@).take(k as int).push(new@[k as int]@));
                    k += 1;
                }
                assert(strings_view(new@).take(new@.len() as int) == strings_view(new@));
            }
            i += 1;
        }
        results
    }

    /// Abbreviated spellings (abbrev rules only).
    pub fn abbreviations(&self, input: &str) -> (r: Vec<String>)
        ensures
            strings_view(r@) == abbreviations_spec(self@, input@),
    {
        let mut results: Vec<String> = Vec::new();
        let mut i: usize = 0;
        while i < self.rules.len()
            invariant
                i <= self@.len(),
                self@.len() == self.rules@.len(),
                strings_view(results@) == abbreviations_spec(self@.take(i as int), input@),
            decreases self.rules@.len() - i,
        {
            proof {
                assert(self@.take(i + 1).drop_last() == self@.take(i as int));
                assert(self@.take(i + 1).last() == self.rules@[i as int]@);
            }
            if let AlgebraRule::Abbrev { pattern, replacement } = &self.rules[i] {
                if pattern_is_match(pattern, input) {
                    let abbr = pattern_replace(pattern, input, replacement.as_str());
                    if !str_eq(abbr.as_str(), input) {
                        let ghost rb = strings_view(results@);
                        results.push(abbr);
                        assert(strings_view(results@) =~= rb.push(abbr@));
                    }
                }
            }
            i += 1;
        }
        assert(self@.take(self@.len() as int) == self@);
        results
    }

    /// Display formatting (`translator.preedit_format`): the same rewriting
    /// as `transform`, applied for display.
    pub fn preedit_format(&self, input: &str) -> (r: String)
        ensures
            r@ == transform_spec(self@, input@),
    {
        self.transform(input)
    }

    /// The rules, in order.
    pub fn rules(&self) -> (r: &[AlgebraRule])
        ensures
            r@.map_values(|x: AlgebraRule| x@) == self@,
    {
        self.rules.as_slice()
    }

    /// The Natural Code double-pinyin preset, turning a full-pinyin syllable
    /// into exactly two keys. Should the regex crate refuse one of the preset
    /// patterns, the rule set is empty.
    #[verifier::spinoff_prover]
    #[verifier::rlimit(40)]
    pub fn natural_code() -> (a: Algebra)
        ensures
            (forall|i: int| 0 <= i < natural_code_texts().len() ==> rule_parses(#[trigger] natural_code_texts()[i]))
                ==> a@.len() == natural_code_texts().len()
                && forall|i: int| 0 <= i < natural_code_texts().len() ==> rule_shape(#[trigger] natural_code_texts()[i]) == Some(a@[i]),
            !(forall|i: int| 0 <= i < natural_code_texts().len() ==> rule_parses(#[trigger] natural_code_texts()[i]))
                ==> a@.len() == 0,
    {
        let texts = natural_code_rule_texts();
        match Algebra::from_strings(texts.as_slice()) {
            Ok(a) => a,
            Err(_) => Algebra::new(),
        }
    }
}

/// The Natural Code preset rule texts.
pub fn natural_code_rule_texts() -> (v: Vec<String>)
    ensures
        strings_view(v@) == natural_code_texts(),
{
    let v = vec![
            string_from("erase/^xx$/"),
            string_from("derive/^([jqxy])u$/$1v/"),
            string_from("derive/^([aoe])([ioun])$/$1$1$2/"),
            string_from("xform/^([aoe])(ng)?$/$1$1$2/"),
            string_from("xform/iu$/Q/"),
            string_from("xform/[iu]a$/W/"),
            string_from("xform/[uv]an$/R/"),
            string_from("xform/[uv]e$/T/"),
            string_from("xform/ing$|uai$/Y/"),
            string_from("xform/^sh/U/"),
            string_from("xform/^ch/I/"),
            string_from("xform/^zh/V/"),
            string_from("xform/uo$/O/"),
            string_from("xform/[uv]n$/P/"),
            string_from("xform/i?ong$/S/"),
            string_from("xform/[iu]ang$/D/"),
            string_from("xform/(.)en$/$1F/"),
            string_from("xform/(.)eng$/$1G/"),
            string_from("xform/(.)ang$/$1H/"),
            string_from("xform/ian$/M/"),
            string_from("xform/(.)an$/$1J/"),
            string_from("xform/iao$/C/"),
            string_from("xform/(.)ao$/$1K/"),
            string_from("xform/(.)ai$/$1L/"),
            string_from("xform/(.)ei$/$1Z/"),
            string_from("xform/ie$/X/"),
            string_from("xform/ui$/V/"),
            string_from("xform/(.)ou$/$1B/"),
            string_from("xform/in$/N/"),
            string_from("xlit/QWRTYUIOPSDFGHMJCKLZXVBN/qwrtyuiopsdfghmjcklzxvbn/")
    ];
    assert(strings_view(v@) =~= natural_code_texts());
    v
}

} // verus!
