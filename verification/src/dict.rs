//! Shape-code table: a code of one to four letters `a`..`z` maps to a list of
//! words.
//!
//! A code is stored as a big-endian base-27 number (a=1 .. z=26, 0 = end),
//! padded to four digits, so that all codes sharing a prefix form one numeric
//! interval and a prefix query is two binary searches.
//!
//! Binary format "ZMD1" (little endian):
//! ```text
//! u32 magic      = 0x31444D5A ("ZMD1")
//! u32 version    = 1
//! u32 entry_count
//! u32 blob_len
//! entry_count x { u32 code, u32 word_off, u16 word_len }   // by code, ascending
//! blob_len x u8  // UTF-8 of all words, concatenated
//! ```
use vstd::prelude::*;
use vstd::string::StringSliceAdditionalSpecFns;
use crate::codec::{le32, le16, rd32, rd16, utf8, utf8_concat, push_u32, push_u16, append_bytes, read_u32, read_u16, utf8_to_string, is_valid_utf8,
    lemma_sub_add, lemma_rd32, lemma_rd16, lemma_le_lens, lemma_concat_take, lemma_concat_valid, lemma_piece_of_concat};
use crate::text::{chars_of, string_of, string_from, str_eq, is_ascii_lower};

verus! {

pub const MAX_CODE_LEN: usize = 4;

/// Number of distinct four-digit base-27 values; every encoded code is below it.
pub const CODE_SPACE: u32 = 531441;

pub const DICT_MAGIC: u32 = 0x31444D5A;

pub const DICT_VERSION: u32 = 1;

/// Digit of a code letter: `a` is 1, `z` is 26.
pub open spec fn letter_digit(c: char) -> int {
    (c as int) - ('a' as int) + 1
}

/// A well-formed code: one to four lower-case ASCII letters.
pub open spec fn valid_code(s: Seq<char>) -> bool {
    1 <= s.len() <= 4 && forall|i: int| 0 <= i < s.len() ==> is_ascii_lower(#[trigger] s[i])
}

pub open spec fn digit_at(s: Seq<char>, i: int) -> int {
    if 0 <= i < s.len() {
        letter_digit(s[i])
    } else {
        0
    }
}

/// Base-27 value of a code, padded on the right to four digits.
pub open spec fn code_value(s: Seq<char>) -> int {
    digit_at(s, 0) * 19683 + digit_at(s, 1) * 729 + digit_at(s, 2) * 27 + digit_at(s, 3)
}

/// What `encode_code` computes.
pub open spec fn encode_spec(s: Seq<char>) -> Option<u32> {
    if valid_code(s) {
        Some(code_value(s) as u32)
    } else {
        None
    }
}

/// The `i`-th base-27 digit of `v`, most significant first.
pub open spec fn value_digit(v: int, i: int) -> int {
    if i == 0 {
        v / 19683
    } else if i == 1 {
        (v / 729) % 27
    } else if i == 2 {
        (v / 27) % 27
    } else {
        v % 27
    }
}

/// Number of leading non-zero digits of `v`.
pub open spec fn decoded_len(v: int) -> int {
    if value_digit(v, 0) == 0 {
        0
    } else if value_digit(v, 1) == 0 {
        1
    } else if value_digit(v, 2) == 0 {
        2
    } else if value_digit(v, 3) == 0 {
        3
    } else {
        4
    }
}

pub open spec fn digit_letter(d: int) -> char {
    (d - 1 + ('a' as int)) as char
}

/// The character for the leading digit `d` as a byte `0x60 + d` (the byte
/// wraps at 256): that ASCII character, or U+FFFD where the byte is not
/// ASCII and so not UTF-8 on its own. For a digit below 27 it is the letter.
pub open spec fn lead_letter(d: int) -> char {
    if 96 + d % 256 < 128 { (96 + d % 256) as char } else { '\u{FFFD}' }
}

/// What `decode_code` computes: the letters of the leading non-zero digits.
pub open spec fn decode_spec(v: int) -> Seq<char> {
    Seq::new(decoded_len(v) as nat, |i: int| if i == 0 { lead_letter(value_digit(v, 0)) } else { digit_letter(value_digit(v, i)) })
}

/// Code -> base-27 value; `None` for anything that is not one to four
/// lower-case ASCII letters.
pub fn encode_code(s: &str) -> (r: Option<u32>)
    ensures
        r == encode_spec(s@),
{
    let cs = chars_of(s);
    if cs.len() == 0 || cs.len() > MAX_CODE_LEN {
        return None;
    }
    let mut v: u32 = 0;
    let mut i: usize = 0;
    while i < cs.len()
        invariant
            cs@ == s@,
            1 <= cs@.len() <= 4,
            i <= cs@.len(),
            forall|k: int| 0 <= k < i ==> is_ascii_lower(#[trigger] cs@[k]),
            v == partial_value(cs@, i as int),
            0 <= v <= max_partial(i as int),
        decreases cs@.len() - i,
    {
        let c = cs[i];
        if !('a' <= c && c <= 'z') {
            return None;
        }
        let d: u32 = (c as u32) - ('a' as u32) + 1;
        let w: u32 = if i == 0 {
            19683
        } else if i == 1 {
            729
        } else if i == 2 {
            27
        } else {
            1
        };
        assert(d as int == digit_at(cs@, i as int));
        assert(w as int == place_weight(i as int));
        v = v + d * w;
        i += 1;
    }
    proof {
        lemma_partial_value_full(cs@);
    }
    Some(v)
}

/// Sum of the first `n` weighted digits of `s`.
pub open spec fn partial_value(s: Seq<char>, n: int) -> int
    decreases n,
{
    if n <= 0 {
        0
    } else {
        partial_value(s, n - 1) + digit_at(s, n - 1) * place_weight(n - 1)
    }
}

pub open spec fn place_weight(i: int) -> int {
    if i == 0 {
        19683
    } else if i == 1 {
        729
    } else if i == 2 {
        27
    } else {
        1
    }
}

pub open spec fn max_partial(n: int) -> int {
    if n <= 0 {
        0
    } else if n == 1 {
        511758
    } else if n == 2 {
        530712
    } else if n == 3 {
        531414
    } else {
        531440
    }
}

proof fn lemma_partial_value_full(s: Seq<char>)
    requires
        1 <= s.len() <= 4,
    ensures
        partial_value(s, s.len() as int) == code_value(s),
{
    assert(partial_value(s, 0) == 0);
    assert(partial_value(s, 1) == digit_at(s, 0) * 19683);
    assert(partial_value(s, 2) == digit_at(s, 0) * 19683 + digit_at(s, 1) * 729);
    assert(partial_value(s, 3) == digit_at(s, 0) * 19683 + digit_at(s, 1) * 729 + digit_at(s, 2) * 27);
    assert(partial_value(s, 4) == code_value(s));
}

/// Base-27 value -> code letters (display form). Digits after the first zero
/// digit are not read. A value past the four-letter codes has a leading
/// digit of 27 or more, written as the byte `0x60 + digit`; that byte must
/// not wrap past 255 or fall to 0x60.
pub fn decode_code(v: u32) -> (s: String)
    requires
        v >= CODE_SPACE ==> 1 <= (v / 19683) % 256 <= 159,
    ensures
        s@ == decode_spec(v as int),
{
    let mut out: Vec<char> = Vec::new();
    let d0 = v / 19683;
    let d1 = (v / 729) % 27;
    let d2 = (v / 27) % 27;
    let d3 = v % 27;
    let ghost vi = v as int;
    assert(d0 as int == value_digit(vi, 0));
    assert(d1 as int == value_digit(vi, 1));
    assert(d2 as int == value_digit(vi, 2));
    assert(d3 as int == value_digit(vi, 3));
    if d0 != 0 {
        out.push(lead_char(d0));
        if d1 != 0 {
            out.push(letter_of_digit(d1));
            if d2 != 0 {
                out.push(letter_of_digit(d2));
                if d3 != 0 {
                    out.push(letter_of_digit(d3));
                }
            }
        }
    }
    assert(out@ =~= decode_spec(vi));
    string_of(&out)
}

fn lead_char(d: u32) -> (c: char)
    requires
        1 <= d % 256,
    ensures
        c == lead_letter(d as int),
{
    let b: u32 = d % 256 + 96;
    if b < 128 {
        let x: u8 = b as u8;
        x as char
    } else {
        '\u{FFFD}'
    }
}

fn letter_of_digit(d: u32) -> (c: char)
    requires
        1 <= d < 27,
    ensures
        c == digit_letter(d as int),
{
    let b: u8 = (d as u8) - 1 + 97;
    b as char
}

/// Decoding an encoded code gives the code back.
pub proof fn lemma_decode_encode(s: Seq<char>)
    requires
        valid_code(s),
    ensures
        encode_spec(s) is Some,
        decode_spec(encode_spec(s)->0 as int) == s,
{
    let v = code_value(s);
    let a = digit_at(s, 0);
    let b = digit_at(s, 1);
    let c = digit_at(s, 2);
    let d = digit_at(s, 3);
    assert forall|i: int| 0 <= i < s.len() implies 1 <= #[trigger] digit_at(s, i) <= 26 by {
        assert(is_ascii_lower(s[i]));
    }
    assert(0 <= a <= 26 && 0 <= b <= 26 && 0 <= c <= 26 && 0 <= d <= 26);
    lemma_digits(a, b, c, d);
    assert(value_digit(v, 0) == a);
    assert(value_digit(v, 1) == b);
    assert(value_digit(v, 2) == c);
    assert(value_digit(v, 3) == d);
    assert(decoded_len(v) == s.len());
    assert forall|i: int| 0 <= i < s.len() implies decode_spec(v)[i] == s[i] by {
        assert(value_digit(v, i) == digit_at(s, i));
    }
    assert(decode_spec(v) =~= s);
}

proof fn lemma_digits(a: int, b: int, c: int, d: int)
    requires
        0 <= a < 27,
        0 <= b < 27,
        0 <= c < 27,
        0 <= d < 27,
    ensures
        (a * 19683 + b * 729 + c * 27 + d) / 19683 == a,
        ((a * 19683 + b * 729 + c * 27 + d) / 729) % 27 == b,
        ((a * 19683 + b * 729 + c * 27 + d) / 27) % 27 == c,
        (a * 19683 + b * 729 + c * 27 + d) % 27 == d,
{
    let v = a * 19683 + b * 729 + c * 27 + d;
    assert(b * 729 + c * 27 + d < 19683) by (nonlinear_arith)
        requires 0 <= b < 27, 0 <= c < 27, 0 <= d < 27;
    assert(c * 27 + d < 729) by (nonlinear_arith)
        requires 0 <= c < 27, 0 <= d < 27;
    assert(v / 19683 == a) by (nonlinear_arith)
        requires v == a * 19683 + (b * 729 + c * 27 + d), 0 <= b * 729 + c * 27 + d < 19683;
    assert(v / 729 == a * 27 + b) by (nonlinear_arith)
        requires v == (a * 27 + b) * 729 + (c * 27 + d), 0 <= c * 27 + d < 729;
    assert((a * 27 + b) % 27 == b) by (nonlinear_arith)
        requires 0 <= b < 27, 0 <= a;
    assert(v / 27 == a * 729 + b * 27 + c) by (nonlinear_arith)
        requires v == (a * 729 + b * 27 + c) * 27 + d, 0 <= d < 27;
    assert((a * 729 + b * 27 + c) % 27 == c) by (nonlinear_arith)
        requires 0 <= c < 27, 0 <= a, 0 <= b;
    assert(v % 27 == d) by (nonlinear_arith)
        requires v == (a * 729 + b * 27 + c) * 27 + d, 0 <= d < 27, 0 <= a, 0 <= b, 0 <= c;
}

} // verus!

verus! {

/// One table entry as seen by the contracts: (code value, word).
pub type TableEntry = (u32, Seq<char>);

pub open spec fn codes_sorted(c: Seq<u32>) -> bool {
    forall|i: int, j: int| 0 <= i <= j < c.len() ==> c[i] <= c[j]
}

pub open spec fn entries_sorted(s: Seq<TableEntry>) -> bool {
    forall|i: int, j: int| 0 <= i <= j < s.len() ==> s[i].0 <= s[j].0
}

/// Position after the last entry whose code is at most `k`.
pub open spec fn upper_pos(s: Seq<TableEntry>, k: u32) -> int
    decreases s.len(),
{
    if s.len() == 0 {
        0
    } else if s.last().0 <= k {
        s.len() as int
    } else {
        upper_pos(s.drop_last(), k)
    }
}

/// Stable sort by code: each entry, in input order, is placed after every
/// entry already placed whose code is not larger.
pub open spec fn sort_by_code(s: Seq<TableEntry>) -> Seq<TableEntry>
    decreases s.len(),
{
    if s.len() == 0 {
        s
    } else {
        let t = sort_by_code(s.drop_last());
        t.insert(upper_pos(t, s.last().0), s.last())
    }
}

pub open spec fn entries_view(e: Seq<(u32, String)>) -> Seq<TableEntry> {
    e.map_values(|x: (u32, String)| (x.0, x.1@))
}

pub open spec fn code_is(v: u32) -> spec_fn(TableEntry) -> bool {
    |e: TableEntry| e.0 == v
}

pub open spec fn code_in(lo: int, hi: int) -> spec_fn(TableEntry) -> bool {
    |e: TableEntry| lo <= e.0 && e.0 < hi
}

pub open spec fn word_is(w: Seq<char>) -> spec_fn(TableEntry) -> bool {
    |e: TableEntry| e.1 == w
}

/// Width of the value interval of all codes that extend a prefix of `n` letters.
pub open spec fn prefix_span(n: int) -> int {
    if n <= 0 {
        531441
    } else if n == 1 {
        19683
    } else if n == 2 {
        729
    } else if n == 3 {
        27
    } else {
        1
    }
}

proof fn lemma_upper_pos(s: Seq<TableEntry>, k: u32, r: int)
    requires
        entries_sorted(s),
        0 <= r <= s.len(),
        forall|i: int| 0 <= i < r ==> s[i].0 <= k,
        forall|i: int| r <= i < s.len() ==> s[i].0 > k,
    ensures
        upper_pos(s, k) == r,
    decreases s.len(),
{
    if s.len() > 0 {
        if s.last().0 <= k {
            assert(r == s.len());
        } else {
            lemma_upper_pos(s.drop_last(), k, r);
        }
    }
}

proof fn lemma_sort_by_code(s: Seq<TableEntry>)
    ensures
        entries_sorted(sort_by_code(s)),
        sort_by_code(s).len() == s.len(),
        sort_by_code(s).to_multiset() == s.to_multiset(),
    decreases s.len(),
{
    broadcast use vstd::seq_lib::group_to_multiset_ensures;
    if s.len() > 0 {
        let t = sort_by_code(s.drop_last());
        lemma_sort_by_code(s.drop_last());
        let k = s.last().0;
        let p = upper_pos(t, k);
        lemma_upper_pos_bounds(t, k);
        let u = t.insert(p, s.last());
        assert forall|i: int, j: int| 0 <= i <= j < u.len() implies u[i].0 <= u[j].0 by {
            if i < p && j < p {
            } else if i < p && j == p {
            } else if i < p {
                assert(u[j] == t[j - 1]);
            } else if i == p && j == p {
            } else if i == p {
                assert(u[j] == t[j - 1]);
            } else {
                assert(u[i] == t[i - 1]);
                assert(u[j] == t[j - 1]);
            }
        }
        t.insert_ensures(p, s.last());
        assert(s == s.drop_last().push(s.last()));
        s.drop_last().to_multiset_ensures();
    }
}

proof fn lemma_upper_pos_bounds(s: Seq<TableEntry>, k: u32)
    requires
        entries_sorted(s),
    ensures
        0 <= upper_pos(s, k) <= s.len(),
        forall|i: int| 0 <= i < upper_pos(s, k) ==> s[i].0 <= k,
        forall|i: int| upper_pos(s, k) <= i < s.len() ==> s[i].0 > k,
    decreases s.len(),
{
    if s.len() > 0 {
        if s.last().0 <= k {
            assert forall|i: int| 0 <= i < upper_pos(s, k) implies s[i].0 <= k by {
                assert(s[i].0 <= s[s.len() - 1].0);
            }
        } else {
            let t = s.drop_last();
            assert(entries_sorted(t));
            lemma_upper_pos_bounds(t, k);
            assert forall|i: int| 0 <= i < upper_pos(s, k) implies s[i].0 <= k by {
                assert(s[i] == t[i]);
            }
            assert forall|i: int| upper_pos(s, k) <= i < s.len() implies s[i].0 > k by {
                if i < t.len() {
                    assert(s[i] == t[i]);
                }
            }
        }
    }
}

/// Index of the first code that is not below `k`.
fn lower_bound(codes: &Vec<u32>, k: u32) -> (r: usize)
    requires
        codes_sorted(codes@),
    ensures
        r <= codes@.len(),
        forall|i: int| 0 <= i < r ==> codes@[i] < k,
        forall|i: int| r <= i < codes@.len() ==> codes@[i] >= k,
{
    let mut lo: usize = 0;
    let mut hi: usize = codes.len();
    while lo < hi
        invariant
            lo <= hi <= codes@.len(),
            codes_sorted(codes@),
            forall|i: int| 0 <= i < lo ==> codes@[i] < k,
            forall|i: int| hi <= i < codes@.len() ==> codes@[i] >= k,
        decreases hi - lo,
    {
        let mid = lo + (hi - lo) / 2;
        if codes[mid] < k {
            lo = mid + 1;
        } else {
            hi = mid;
        }
    }
    lo
}

/// Index of the first code that is above `k`.
fn upper_bound(codes: &Vec<u32>, k: u32) -> (r: usize)
    requires
        codes_sorted(codes@),
    ensures
        r <= codes@.len(),
        forall|i: int| 0 <= i < r ==> codes@[i] <= k,
        forall|i: int| r <= i < codes@.len() ==> codes@[i] > k,
{
    let mut lo: usize = 0;
    let mut hi: usize = codes.len();
    while lo < hi
        invariant
            lo <= hi <= codes@.len(),
            codes_sorted(codes@),
            forall|i: int| 0 <= i < lo ==> codes@[i] <= k,
            forall|i: int| hi <= i < codes@.len() ==> codes@[i] > k,
        decreases hi - lo,
    {
        let mid = lo + (hi - lo) / 2;
        if codes[mid] <= k {
            lo = mid + 1;
        } else {
            hi = mid;
        }
    }
    lo
}

/// A candidate of the shape-code table.
#[derive(Debug, Clone)]
pub struct Candidate<'a> {
    pub word: &'a str,
    pub code: String,
}

/// The shape-code table, sorted by code (entries with one code keep the
/// order in which they were given).
pub struct Dict {
    codes: Vec<u32>,
    words: Vec<String>,
}

impl View for Dict {
    type V = Seq<TableEntry>;

    closed spec fn view(&self) -> Seq<TableEntry> {
        Seq::new(self.codes@.len(), |i: int| (self.codes@[i], self.words@[i]@))
    }
}

impl Dict {
    #[verifier::type_invariant]
    closed spec fn inv(self) -> bool {
        &&& self.codes@.len() == self.words@.len()
        &&& codes_sorted(self.codes@)
        &&& forall|i: int| 0 <= i < self.codes@.len() ==> self.codes@[i] < CODE_SPACE
    }

    /// Builds the table from (code value, word) pairs; pairs are sorted by
    /// code, and pairs sharing a code keep their given order.
    pub fn from_entries(entries: Vec<(u32, String)>) -> (d: Dict)
        requires
            forall|i: int| 0 <= i < entries@.len() ==> #[trigger] entries@[i].0 < CODE_SPACE,
        ensures
            d@ == sort_by_code(entries_view(entries@)),
    {
        let ghost ev = entries_view(entries@);
        let mut codes: Vec<u32> = Vec::new();
        let mut words: Vec<String> = Vec::new();
        let mut i: usize = 0;
        while i < entries.len()
            invariant
                i <= entries@.len(),
                ev == entries_view(entries@),
                codes@.len() == words@.len(),
                codes_sorted(codes@),
                forall|j: int| 0 <= j < codes@.len() ==> codes@[j] < CODE_SPACE,
                Seq::new(codes@.len(), |j: int| (codes@[j], words@[j]@)) == sort_by_code(ev.take(i as int)),
                forall|j: int| 0 <= j < entries@.len() ==> #[trigger] entries@[j].0 < CODE_SPACE,
            decreases entries@.len() - i,
        {
            let ghost t = Seq::new(codes@.len(), |j: int| (codes@[j], words@[j]@));
            let k = entries[i].0;
            let w = entries[i].1.clone();
            let p = upper_bound(&codes, k);
            proof {
                assert(entries_sorted(t));
                lemma_upper_pos(t, k, p as int);
                assert(ev.take(i + 1).drop_last() == ev.take(i as int));
                assert(ev.take(i + 1).last() == (k, w@));
            }
            codes.insert(p, k);
            words.insert(p, w);
            proof {
                let u = Seq::new(codes@.len(), |j: int| (codes@[j], words@[j]@));
                assert(u =~= t.insert(p as int, (k, w@)));
                lemma_sort_by_code(ev.take(i + 1));
                assert(codes_sorted(codes@)) by {
                    assert forall|a: int, b: int| 0 <= a <= b < codes@.len() implies codes@[a] <= codes@[b] by {
                        assert(u[a].0 == codes@[a]);
                        assert(u[b].0 == codes@[b]);
                    }
                }
            }
            i += 1;
        }
        assert(ev.take(entries@.len() as int) == ev);
        Dict { codes, words }
    }

    pub fn len(&self) -> (n: usize)
        ensures
            n == self@.len(),
    {
        proof { use_type_invariant(self); }
        self.codes.len()
    }

    pub fn is_empty(&self) -> (b: bool)
        ensures
            b == (self@.len() == 0),
    {
        proof { use_type_invariant(self); }
        self.codes.len() == 0
    }

    /// The index interval of the entries whose code equals `v`.
    pub fn exact_range(&self, v: u32) -> (r: std::ops::Range<usize>)
        ensures
            r.start <= r.end <= self@.len(),
            forall|i: int| 0 <= i < r.start ==> self@[i].0 < v,
            forall|i: int| r.start <= i < r.end ==> self@[i].0 == v,
            forall|i: int| r.end <= i < self@.len() ==> self@[i].0 > v,
    {
        proof { use_type_invariant(self); }
        let lo = lower_bound(&self.codes, v);
        let hi = upper_bound(&self.codes, v);
        proof {
            if hi < lo {
                assert(self.codes@[hi as int] > v);
            }
        }
        lo..hi
    }

    /// The index interval of the entries whose code starts with the prefix
    /// value `prefix` of `prefix_len` letters.
    pub fn prefix_range(&self, prefix: u32, prefix_len: usize) -> (r: std::ops::Range<usize>)
        requires
            prefix_len <= MAX_CODE_LEN,
            prefix + prefix_span(prefix_len as int) <= u32::MAX,
        ensures
            r.start <= r.end <= self@.len(),
            forall|i: int| 0 <= i < r.start ==> self@[i].0 < prefix,
            forall|i: int| r.start <= i < r.end ==> prefix <= #[trigger] self@[i].0 < prefix + prefix_span(prefix_len as int),
            forall|i: int| r.end <= i < self@.len() ==> self@[i].0 >= prefix + prefix_span(prefix_len as int),
    {
        proof { use_type_invariant(self); }
        let shift: u32 = if prefix_len == 0 {
            531441
        } else if prefix_len == 1 {
            19683
        } else if prefix_len == 2 {
            729
        } else if prefix_len == 3 {
            27
        } else {
            1
        };
        let hi_v = prefix + shift;
        let lo = lower_bound(&self.codes, prefix);
        let hi = lower_bound(&self.codes, hi_v);
        proof {
            if hi < lo {
                assert(self.codes@[hi as int] >= hi_v);
            }
        }
        lo..hi
    }

    /// Candidates whose code is exactly `code`, in table order.
    pub fn exact(&self, code: &str) -> (res: Vec<Candidate<'_>>)
        ensures
            match encode_spec(code@) {
                None => res@.len() == 0,
                Some(v) => {
                    &&& res@.len() == self@.filter(code_is(v)).len()
                    &&& forall|i: int| 0 <= i < res@.len() ==> {
                        &&& (#[trigger] res@[i]).word@ == self@.filter(code_is(v))[i].1
                        &&& res@[i].code@ == code@
                    }
                },
            },
    {
        proof { use_type_invariant(self); }
        let v = match encode_code(code) {
            Some(v) => v,
            None => return Vec::new(),
        };
        let r = self.exact_range(v);
        proof {
            crate::seqs::lemma_filter_range(self@, code_is(v), r.start as int, r.end as int);
        }
        let ghost sel = self@.subrange(r.start as int, r.end as int);
        let mut out: Vec<Candidate<'_>> = Vec::new();
        let mut i = r.start;
        while i < r.end
            invariant
                r.start <= i <= r.end <= self@.len(),
                self.codes@.len() == self.words@.len(),
                sel == self@.subrange(r.start as int, r.end as int),
                out@.len() == i - r.start,
                forall|j: int| 0 <= j < out@.len() ==> {
                    &&& (#[trigger] out@[j]).word@ == sel[j].1
                    &&& out@[j].code@ == code@
                },
            decreases r.end - i,
        {
            out.push(Candidate { word: self.words[i].as_str(), code: string_from(code) });
            i += 1;
        }
        out
    }

    /// Candidates whose code starts with `input`, in table order (so shorter
    /// codes of one prefix chain come first); `limit == 0` means no limit.
    pub fn prefix(&self, input: &str, limit: usize) -> (res: Vec<Candidate<'_>>)
        ensures
            match encode_spec(input@) {
                None => res@.len() == 0,
                Some(v) => {
                    let sel = self@.filter(code_in(v as int, v + prefix_span(input@.len() as int)));
                    &&& res@.len() == (if limit == 0 || limit >= sel.len() { sel.len() as int } else { limit as int })
                    &&& forall|i: int| 0 <= i < res@.len() ==> {
                        &&& (#[trigger] res@[i]).word@ == sel[i].1
                        &&& res@[i].code@ == decode_spec(sel[i].0 as int)
                    }
                },
            },
    {
        proof { use_type_invariant(self); }
        let v = match encode_code(input) {
            Some(v) => v,
            None => return Vec::new(),
        };
        let n = input.len();
        let ghost cn = input@.len();
        proof {
            assert(valid_code(input@));
            lemma_ascii_byte_len(input@);
            lemma_code_value_bound(input@);
        }
        let r = self.prefix_range(v, n);
        let ghost hi_v = v + prefix_span(cn as int);
        proof {
            crate::seqs::lemma_filter_range(self@, code_in(v as int, hi_v), r.start as int, r.end as int);
        }
        let ghost sel = self@.subrange(r.start as int, r.end as int);
        let avail = r.end - r.start;
        let take = if limit == 0 || limit >= avail { avail } else { limit };
        let mut out: Vec<Candidate<'_>> = Vec::new();
        let mut i = r.start;
        while i < r.start + take
            invariant
                r.start <= i <= r.start + take,
                take <= avail,
                avail == r.end - r.start,
                r.end <= self@.len(),
                self.codes@.len() == self.words@.len(),
                forall|j: int| 0 <= j < self.codes@.len() ==> self.codes@[j] < CODE_SPACE,
                sel == self@.subrange(r.start as int, r.end as int),
                out@.len() == i - r.start,
                forall|j: int| 0 <= j < out@.len() ==> {
                    &&& (#[trigger] out@[j]).word@ == sel[j].1
                    &&& out@[j].code@ == decode_spec(sel[j].0 as int)
                },
            decreases r.start + take - i,
        {
            let code = decode_code(self.codes[i]);
            out.push(Candidate { word: self.words[i].as_str(), code });
            i += 1;
        }
        out
    }

    /// All codes of `word` in this table, in table order (reverse lookup).
    pub fn codes_for_word(&self, word: &str) -> (res: Vec<String>)
        ensures
            res@.len() == self@.filter(word_is(word@)).len(),
            forall|i: int| 0 <= i < res@.len() ==> (#[trigger] res@[i])@ == decode_spec(self@.filter(word_is(word@))[i].0 as int),
    {
        proof { use_type_invariant(self); }
        let mut out: Vec<String> = Vec::new();
        let mut i: usize = 0;
        while i < self.codes.len()
            invariant
                i <= self.codes@.len(),
                self.codes@.len() == self.words@.len(),
                forall|j: int| 0 <= j < self.codes@.len() ==> self.codes@[j] < CODE_SPACE,
                out@.len() == self@.take(i as int).filter(word_is(word@)).len(),
                forall|j: int| 0 <= j < out@.len() ==> (#[trigger] out@[j])@ == decode_spec(self@.take(i as int).filter(word_is(word@))[j].0 as int),
            decreases self.codes@.len() - i,
        {
            proof {
                reveal(Seq::filter);
                assert(self@.take(i + 1).drop_last() == self@.take(i as int));
                assert(self@.take(i + 1).last() == self@[i as int]);
            }
            if str_eq(self.words[i].as_str(), word) {
                let c = decode_code(self.codes[i]);
                out.push(c);
            }
            i += 1;
        }
        assert(self@.take(self@.len() as int) == self@);
        out
    }
}

/// A code of ASCII letters has as many bytes as characters.
pub proof fn lemma_ascii_byte_len(s: Seq<char>)
    requires
        forall|i: int| 0 <= i < s.len() ==> is_ascii_lower(#[trigger] s[i]),
    ensures
        vstd::utf8::encode_utf8(s).len() == s.len(),
{
    assert(vstd::utf8::is_ascii_chars(s));
    vstd::utf8::is_ascii_chars_encode_utf8(s);
}

proof fn lemma_code_value_bound(s: Seq<char>)
    requires
        valid_code(s),
    ensures
        0 <= code_value(s),
        code_value(s) + prefix_span(s.len() as int) <= 531441,
{
    assert forall|i: int| 0 <= i < s.len() implies 1 <= #[trigger] digit_at(s, i) <= 26 by {
        assert(is_ascii_lower(s[i]));
    }
}


/// UTF-8 of all words, concatenated in table order.
pub open spec fn table_blob(e: Seq<TableEntry>) -> Seq<u8>
    decreases e.len(),
{
    if e.len() == 0 {
        Seq::empty()
    } else {
        table_blob(e.drop_last()) + utf8(e.last().1)
    }
}

/// One 10-byte record per entry: code, offset of the word in the blob, and
/// its byte length.
pub open spec fn table_records(e: Seq<TableEntry>) -> Seq<u8>
    decreases e.len(),
{
    if e.len() == 0 {
        Seq::empty()
    } else {
        table_records(e.drop_last()) + le32(e.last().0) + le32(table_blob(e.drop_last()).len() as u32)
            + le16(utf8(e.last().1).len() as u16)
    }
}

/// The table fits the format's field widths.
pub open spec fn table_fits(e: Seq<TableEntry>) -> bool {
    &&& e.len() <= u32::MAX
    &&& table_blob(e).len() <= u32::MAX
    &&& forall|i: int| 0 <= i < e.len() ==> utf8(#[trigger] e[i].1).len() <= u16::MAX
}

/// The "ZMD1" serialization of a table.
pub open spec fn table_bytes(e: Seq<TableEntry>) -> Seq<u8> {
    le32(DICT_MAGIC) + le32(DICT_VERSION) + le32(e.len() as u32) + le32(table_blob(e).len() as u32)
        + table_records(e) + table_blob(e)
}

/// Header of a "ZMD1" file: magic, version, and a length that holds every
/// record and the whole blob.
pub open spec fn table_header_ok(d: Seq<u8>) -> bool {
    &&& d.len() >= 16
    &&& rd32(d, 0) == DICT_MAGIC
    &&& rd32(d, 4) == DICT_VERSION
    &&& d.len() >= 16 + 10 * (rd32(d, 8) as int) + (rd32(d, 12) as int)
}

pub open spec fn table_blob_start(d: Seq<u8>) -> int {
    16 + 10 * (rd32(d, 8) as int)
}

pub open spec fn table_blob_of(d: Seq<u8>) -> Seq<u8> {
    d.subrange(table_blob_start(d), table_blob_start(d) + rd32(d, 12) as int)
}

pub open spec fn record_code(d: Seq<u8>, i: int) -> u32 {
    rd32(d, 16 + 10 * i)
}

pub open spec fn record_off(d: Seq<u8>, i: int) -> int {
    rd32(d, 20 + 10 * i) as int
}

pub open spec fn record_len(d: Seq<u8>, i: int) -> int {
    rd16(d, 24 + 10 * i) as int
}

/// Record `i` is usable: its word lies inside the blob and is valid UTF-8,
/// and its code is an encodable value.
pub open spec fn record_ok(d: Seq<u8>, i: int) -> bool {
    &&& record_off(d, i) + record_len(d, i) <= rd32(d, 12)
    &&& vstd::utf8::valid_utf8(table_blob_of(d).subrange(record_off(d, i), record_off(d, i) + record_len(d, i)))
    &&& record_code(d, i) < CODE_SPACE
}

/// Sorting a table already sorted by code leaves it as it is.
pub proof fn lemma_sort_by_code_sorted(s: Seq<TableEntry>)
    requires
        entries_sorted(s),
    ensures
        sort_by_code(s) == s,
    decreases s.len(),
{
    if s.len() > 0 {
        let d = s.drop_last();
        assert forall|i: int, j: int| 0 <= i <= j < d.len() implies d[i].0 <= d[j].0 by {
            assert(d[i] == s[i] && d[j] == s[j]);
        }
        lemma_sort_by_code_sorted(d);
        if d.len() > 0 {
            assert(d.last().0 <= s.last().0) by {
                assert(d.last() == s[d.len() - 1]);
            }
        }
        assert(d.insert(d.len() as int, s.last()) =~= s);
    }
}

/// A word whose UTF-8 is `b`.
pub open spec fn word_of_bytes(b: Seq<u8>) -> Seq<char> {
    vstd::utf8::decode_utf8(b)
}

/// The table a "ZMD1" file holds, when it is well formed.
pub open spec fn parse_table(d: Seq<u8>) -> Option<Seq<TableEntry>> {
    if table_header_ok(d) && vstd::utf8::valid_utf8(table_blob_of(d))
        && forall|i: int| 0 <= i < rd32(d, 8) ==> #[trigger] record_ok(d, i) {
        Some(Seq::new(rd32(d, 8) as nat, |i: int| (record_code(d, i),
            word_of_bytes(table_blob_of(d).subrange(record_off(d, i), record_off(d, i) + record_len(d, i))))))
    } else {
        None
    }
}

/// The words of a table, in order.
pub open spec fn table_words(e: Seq<TableEntry>) -> Seq<Seq<char>> {
    e.map_values(|x: TableEntry| x.1)
}

/// The record `table_records` writes for entry `i`.
pub open spec fn table_rec(e: Seq<TableEntry>, i: int) -> Seq<u8> {
    le32(e[i].0) + le32(table_blob(e.take(i)).len() as u32) + le16(utf8(e[i].1).len() as u16)
}

proof fn lemma_table_blob_words(e: Seq<TableEntry>)
    ensures
        table_blob(e) == utf8_concat(table_words(e)),
    decreases e.len(),
{
    if e.len() > 0 {
        lemma_table_blob_words(e.drop_last());
        assert(table_words(e).drop_last() =~= table_words(e.drop_last()));
    } else {
        assert(table_words(e) =~= Seq::<Seq<char>>::empty());
    }
}

proof fn lemma_table_records(e: Seq<TableEntry>)
    ensures
        table_records(e).len() == 10 * e.len(),
        forall|i: int| 0 <= i < e.len() ==> table_records(e).subrange(10 * i, 10 * i + 10) == #[trigger] table_rec(e, i),
    decreases e.len(),
{
    if e.len() > 0 {
        let t = e.drop_last();
        lemma_table_records(t);
        let n = e.len() - 1;
        lemma_le_lens(e[n].0, utf8(e[n].1).len() as u16);
        lemma_le_lens(table_blob(t).len() as u32, 0);
        assert(e.take(n) == t);
        assert forall|i: int| 0 <= i < e.len() implies table_records(e).subrange(10 * i, 10 * i + 10) == #[trigger] table_rec(e, i) by {
            if i < n {
                assert(t.take(i) == e.take(i));
                assert(t[i] == e[i]);
                assert(table_rec(t, i) == table_rec(e, i));
                lemma_sub_add(table_records(t), table_rec(e, n), 10 * i, 10 * i + 10);
            } else {
                lemma_sub_add(table_records(t), table_rec(e, n), 10 * i, 10 * i + 10);
                assert(table_rec(e, n).subrange(0, 10) =~= table_rec(e, n));
            }
        }
        assert(table_records(e) =~= table_records(t) + table_rec(e, n));
    }
}

/// Loading what `save` writes gives the table back: the "ZMD1" bytes of a
/// table sorted by code, with encodable codes, that fits the format parse
/// to that very table, which the loader's sort leaves in place.
pub proof fn lemma_table_roundtrip(e: Seq<TableEntry>)
    requires
        entries_sorted(e),
        forall|i: int| 0 <= i < e.len() ==> (#[trigger] e[i]).0 < CODE_SPACE,
        table_fits(e),
    ensures
        parse_table(table_bytes(e)) == Some(e),
        sort_by_code(e) == e,
{
    assert(sort_by_code(e) == e) by {
        lemma_sort_by_code_sorted(e);
    }
    let n = e.len() as int;
    let blob = table_blob(e);
    let recs = table_records(e);
    let ws = table_words(e);
    lemma_table_records(e);
    lemma_table_blob_words(e);
    lemma_le_lens(0, 0);
    let h0 = le32(DICT_MAGIC);
    let h1 = le32(DICT_VERSION);
    let h2 = le32(n as u32);
    let h3 = le32(blob.len() as u32);
    lemma_le_lens(DICT_MAGIC, 0);
    lemma_le_lens(DICT_VERSION, 0);
    lemma_le_lens(n as u32, 0);
    lemma_le_lens(blob.len() as u32, 0);
    let d = table_bytes(e);
    let head = h0 + h1 + h2 + h3;
    assert(d =~= head + recs + blob);
    assert(head.len() == 16);
    lemma_sub_add(head + recs, blob, 0, 4);
    lemma_sub_add(head, recs, 0, 4);
    assert(head.subrange(0, 4) =~= h0);
    lemma_rd32(d, 0, DICT_MAGIC);
    lemma_sub_add(head + recs, blob, 4, 8);
    lemma_sub_add(head, recs, 4, 8);
    assert(head.subrange(4, 8) =~= h1);
    lemma_rd32(d, 4, DICT_VERSION);
    lemma_sub_add(head + recs, blob, 8, 12);
    lemma_sub_add(head, recs, 8, 12);
    assert(head.subrange(8, 12) =~= h2);
    lemma_rd32(d, 8, n as u32);
    lemma_sub_add(head + recs, blob, 12, 16);
    lemma_sub_add(head, recs, 12, 16);
    assert(head.subrange(12, 16) =~= h3);
    lemma_rd32(d, 12, blob.len() as u32);
    assert(rd32(d, 8) as int == n);
    assert(rd32(d, 12) as int == blob.len());
    assert(table_header_ok(d));
    lemma_sub_add(head + recs, blob, 16 + 10 * n, 16 + 10 * n + blob.len());
    assert(blob.subrange(0, blob.len() as int) =~= blob);
    assert(table_blob_of(d) == blob);
    lemma_concat_valid(ws);
    assert forall|i: int| 0 <= i < n implies {
        &&& record_code(d, i) == e[i].0
        &&& record_off(d, i) == utf8_concat(ws.take(i)).len()
        &&& record_len(d, i) == utf8(ws[i]).len()
    } by {
        let r = table_rec(e, i);
        lemma_le_lens(e[i].0, utf8(e[i].1).len() as u16);
        lemma_le_lens(table_blob(e.take(i)).len() as u32, 0);
        lemma_table_blob_words(e.take(i));
        assert(table_words(e.take(i)) =~= ws.take(i));
        lemma_concat_take(ws, i);
        assert(ws[i] == e[i].1);
        lemma_piece_of_concat(blob, ws, i);
        lemma_sub_add(head + recs, blob, 16 + 10 * i, 16 + 10 * i + 10);
        lemma_sub_add(head, recs, 16 + 10 * i, 16 + 10 * i + 10);
        let rr = d.subrange(16 + 10 * i, 16 + 10 * i + 10);
        assert(rr == r);
        assert(d.subrange(16 + 10 * i, 20 + 10 * i) =~= rr.subrange(0, 4));
        assert(r.subrange(0, 4) =~= le32(e[i].0));
        lemma_rd32(d, 16 + 10 * i, e[i].0);
        assert(d.subrange(20 + 10 * i, 24 + 10 * i) =~= rr.subrange(4, 8));
        assert(r.subrange(4, 8) =~= le32(table_blob(e.take(i)).len() as u32));
        lemma_rd32(d, 20 + 10 * i, table_blob(e.take(i)).len() as u32);
        assert(d.subrange(24 + 10 * i, 26 + 10 * i) =~= rr.subrange(8, 10));
        assert(r.subrange(8, 10) =~= le16(utf8(e[i].1).len() as u16));
        lemma_rd16(d, 24 + 10 * i, utf8(e[i].1).len() as u16);
    }
    assert forall|i: int| 0 <= i < rd32(d, 8) implies #[trigger] record_ok(d, i) by {
        lemma_piece_of_concat(blob, ws, i);
        if i > 0 {
            assert(record_code(d, i - 1) == e[i - 1].0);
        }
    }
    let parsed = Seq::new(rd32(d, 8) as nat, |i: int| (record_code(d, i),
        word_of_bytes(table_blob_of(d).subrange(record_off(d, i), record_off(d, i) + record_len(d, i)))));
    assert forall|i: int| 0 <= i < n implies parsed[i] == e[i] by {
        lemma_piece_of_concat(blob, ws, i);
        assert(ws[i] == e[i].1);
    }
    assert(parsed =~= e);
}

impl Dict {
    /// Appends the "ZMD1" serialization to `w`; fails, writing nothing, when
    /// the table does not fit the format's field widths.
    pub fn save(&self, w: &mut Vec<u8>) -> (r: Result<(), String>)
        ensures
            r is Ok <==> table_fits(self@),
            r is Ok ==> final(w)@ == old(w)@ + table_bytes(self@),
            r is Ok ==> parse_table(table_bytes(self@)) == Some(self@),
            r is Err ==> final(w)@ == old(w)@,
    {
        proof {
            use_type_invariant(self);
            if table_fits(self@) {
                lemma_table_roundtrip(self@);
            }
        }
        let n = self.codes.len();
        // Pass 1: the blob length and the field widths.
        let mut total: u64 = 0;
        let mut i: usize = 0;
        while i < n
            invariant
                n == self.codes@.len() == self.words@.len(),
                i <= n,
                total == table_blob(self@.take(i as int)).len(),
                total <= u32::MAX,
                forall|j: int| 0 <= j < i ==> utf8(#[trigger] self@[j].1).len() <= u16::MAX,
            decreases n - i,
        {
            let ws = self.words[i].as_str();
            let len = ws.as_bytes().len();
            proof {
                assert(ws.spec_bytes() == utf8(ws@));
                assert(ws@ == self.words@[i as int]@);
                assert(self@.take(i + 1).drop_last() == self@.take(i as int));
                assert(self@.take(i + 1).last() == self@[i as int]);
                assert(self@[i as int].1 == self.words@[i as int]@);
                assert(len == utf8(self@[i as int].1).len());
            }
            if len > 65535 {
                proof {
                    assert(utf8(self@[i as int].1).len() > u16::MAX);
                }
                return Err(string_from("字词过长，超出码表格式"));
            }
            if total + len as u64 > 0xFFFF_FFFF {
                proof {
                    lemma_blob_prefix_len(self@, i as int + 1);
                }
                return Err(string_from("字词区超出码表格式"));
            }
            total = total + len as u64;
            i += 1;
        }
        proof {
            assert(self@.take(n as int) == self@);
        }
        if n > 0xFFFF_FFFF {
            return Err(string_from("条目过多，超出码表格式"));
        }
        let ghost e = self@;
        let ghost w0 = w@;
        push_u32(w, DICT_MAGIC);
        push_u32(w, DICT_VERSION);
        push_u32(w, n as u32);
        push_u32(w, total as u32);
        let ghost head = le32(DICT_MAGIC) + le32(DICT_VERSION) + le32(n as u32) + le32(total as u32);
        assert(w@ =~= w0 + head);
        // Pass 2: the records.
        let mut off: u32 = 0;
        let mut i: usize = 0;
        while i < n
            invariant
                e == self@,
                n == self.codes@.len() == self.words@.len(),
                i <= n,
                table_fits(e),
                off == table_blob(e.take(i as int)).len(),
                w@ == w0 + head + table_records(e.take(i as int)),
            decreases n - i,
        {
            let ws = self.words[i].as_str();
            let len = ws.as_bytes().len();
            proof {
                assert(ws.spec_bytes() == utf8(ws@));
                assert(e[i as int].1 == self.words@[i as int]@);
                assert(e[i as int].0 == self.codes@[i as int]);
                assert(len == utf8(e[i as int].1).len());
                assert(e.take(i + 1).drop_last() == e.take(i as int));
                assert(e.take(i + 1).last() == e[i as int]);
                lemma_blob_prefix_len(e, i as int + 1);
            }
            push_u32(w, self.codes[i]);
            push_u32(w, off);
            push_u16(w, len as u16);
            off = off + len as u32;
            i += 1;
        }
        proof {
            assert(e.take(n as int) == e);
        }
        // Pass 3: the blob.
        let ghost w1 = w@;
        let mut i: usize = 0;
        while i < n
            invariant
                e == self@,
                n == self.codes@.len() == self.words@.len(),
                i <= n,
                w@ == w1 + table_blob(e.take(i as int)),
            decreases n - i,
        {
            append_bytes(w, self.words[i].as_str().as_bytes());
            proof {
                assert(e[i as int].1 == self.words@[i as int]@);
                assert(e.take(i + 1).drop_last() == e.take(i as int));
                assert(e.take(i + 1).last() == e[i as int]);
            }
            i += 1;
        }
        proof {
            assert(e.take(n as int) == e);
            assert(w@ =~= w0 + table_bytes(e));
        }
        Ok(())
    }

    /// Reads a "ZMD1" file, sorting its records by code (a file written by
    /// `save` is sorted already); fails on any malformed or truncated data.
    pub fn load(data: &[u8]) -> (r: Result<Dict, String>)
        ensures
            match parse_table(data@) {
                Some(e) => r matches Ok(d) && d@ == sort_by_code(e),
                None => r is Err,
            },
    {
        let magic = match read_u32(data, 0) {
            Some(x) => x,
            None => return Err(string_from("文件截断")),
        };
        if magic != DICT_MAGIC {
            return Err(string_from("魔数不对（不是 ZMD1 码表）"));
        }
        let version = match read_u32(data, 4) {
            Some(x) => x,
            None => return Err(string_from("文件截断")),
        };
        if version != DICT_VERSION {
            return Err(string_from("版本不支持"));
        }
        let n = match read_u32(data, 8) {
            Some(x) => x,
            None => return Err(string_from("文件截断")),
        };
        let blob_len = match read_u32(data, 12) {
            Some(x) => x,
            None => return Err(string_from("文件截断")),
        };
        let ent_end: u64 = 16 + 10 * (n as u64);
        if (data.len() as u64) < ent_end + blob_len as u64 {
            return Err(string_from("文件截断（条目或字词区不完整）"));
        }
        let ent_end = ent_end as usize;
        let blob = vstd::slice::slice_subrange(data, ent_end, ent_end + blob_len as usize);
        assert(blob@ == table_blob_of(data@));
        if !is_valid_utf8(blob) {
            return Err(string_from("字词区不是合法 UTF-8"));
        }
        let ghost fe = Seq::new(n as nat, |j: int| (record_code(data@, j),
            word_of_bytes(table_blob_of(data@).subrange(record_off(data@, j), record_off(data@, j) + record_len(data@, j)))));
        let mut codes: Vec<u32> = Vec::new();
        let mut words: Vec<String> = Vec::new();
        let mut i: usize = 0;
        while i < n as usize
            invariant
                table_header_ok(data@),
                n == rd32(data@, 8),
                blob_len == rd32(data@, 12),
                blob@ == table_blob_of(data@),
                i <= n,
                data@.len() >= 16 + 10 * (n as int) + blob_len,
                codes@.len() == i,
                words@.len() == i,
                codes_sorted(codes@),
                forall|j: int| 0 <= j < codes@.len() ==> codes@[j] < CODE_SPACE,
                forall|j: int| 0 <= j < i ==> #[trigger] record_ok(data@, j),
                fe == Seq::new(n as nat, |j: int| (record_code(data@, j),
                    word_of_bytes(table_blob_of(data@).subrange(record_off(data@, j), record_off(data@, j) + record_len(data@, j))))),
                Seq::new(codes@.len(), |j: int| (codes@[j], words@[j]@)) == sort_by_code(fe.take(i as int)),
            decreases n - i,
        {
            proof {
                assert(16 + (i as int) * 10 + 10 <= 16 + 10 * (n as int)) by (nonlinear_arith)
                    requires i < n;
                assert(data@.len() == data.len());
            }
            let o = 16 + i * 10;
            let code = read_u32(data, o).unwrap();
            let off = read_u32(data, o + 4).unwrap();
            let len = read_u16(data, o + 8).unwrap();
            proof {
                assert(code == record_code(data@, i as int));
                assert(off as int == record_off(data@, i as int));
                assert(len as int == record_len(data@, i as int));
            }
            if off as u64 + len as u64 > blob_len as u64 {
                proof { assert(!record_ok(data@, i as int)); }
                return Err(string_from("字词偏移越界"));
            }
            let wb = vstd::slice::slice_subrange(blob, off as usize, off as usize + len as usize);
            let word = match utf8_to_string(wb) {
                Some(s) => s,
                None => {
                    proof { assert(!record_ok(data@, i as int)); }
                    return Err(string_from("字词不是合法 UTF-8"));
                },
            };
            if code >= CODE_SPACE {
                proof { assert(!record_ok(data@, i as int)); }
                return Err(string_from("编码越界"));
            }
            proof {
                vstd::utf8::decode_utf8_encode_utf8(wb@);
                vstd::utf8::encode_utf8_decode_utf8(word@);
                assert(record_ok(data@, i as int));
            }
            let ghost t = Seq::new(codes@.len(), |j: int| (codes@[j], words@[j]@));
            let ghost x = (code, word@);
            let p = upper_bound(&codes, code);
            proof {
                assert(entries_sorted(t));
                lemma_upper_pos(t, code, p as int);
                assert(fe.take(i + 1).drop_last() =~= fe.take(i as int));
                assert(fe.take(i + 1).last() == x);
            }
            codes.insert(p, code);
            words.insert(p, word);
            proof {
                let u = Seq::new(codes@.len(), |j: int| (codes@[j], words@[j]@));
                assert(u =~= t.insert(p as int, x));
                lemma_sort_by_code(fe.take(i + 1));
                assert(codes_sorted(codes@)) by {
                    assert forall|a: int, b: int| 0 <= a <= b < codes@.len() implies codes@[a] <= codes@[b] by {
                        assert(u[a].0 == codes@[a]);
                        assert(u[b].0 == codes@[b]);
                    }
                }
            }
            i += 1;
        }
        proof {
            assert(fe.take(n as int) =~= fe);
            assert(fe =~= parse_table(data@)->0);
        }
        let d = Dict { codes, words };
        Ok(d)
    }
}

proof fn lemma_blob_prefix_len(e: Seq<TableEntry>, k: int)
    requires
        0 <= k <= e.len(),
    ensures
        table_blob(e.take(k)).len() <= table_blob(e).len(),
    decreases e.len() - k,
{
    if k < e.len() {
        lemma_blob_prefix_len(e, k + 1);
        assert(e.take(k + 1).drop_last() == e.take(k));
    } else {
        assert(e.take(k) == e);
    }
}

} // verus!
