//! Little-endian integer fields and UTF-8 text for the binary dictionary
//! formats.
use vstd::prelude::*;
use vstd::string::StringSliceAdditionalSpecFns;
use vstd::bytes::{spec_u16_from_le_bytes, spec_u16_to_le_bytes, spec_u32_from_le_bytes, spec_u32_to_le_bytes};

verus! {

pub open spec fn le32(x: u32) -> Seq<u8> {
    spec_u32_to_le_bytes(x)
}

pub open spec fn le16(x: u16) -> Seq<u8> {
    spec_u16_to_le_bytes(x)
}

/// The `u32` stored little-endian at `off`.
pub open spec fn rd32(d: Seq<u8>, off: int) -> u32 {
    spec_u32_from_le_bytes(d.subrange(off, off + 4))
}

/// The `u16` stored little-endian at `off`.
pub open spec fn rd16(d: Seq<u8>, off: int) -> u16 {
    spec_u16_from_le_bytes(d.subrange(off, off + 2))
}

/// UTF-8 bytes of a character sequence.
pub open spec fn utf8(s: Seq<char>) -> Seq<u8> {
    vstd::utf8::encode_utf8(s)
}

pub fn append_bytes(w: &mut Vec<u8>, b: &[u8])
    ensures
        final(w)@ == old(w)@ + b@,
{
    let ghost w0 = w@;
    let mut i: usize = 0;
    while i < b.len()
        invariant
            i <= b@.len(),
            w@ == w0 + b@.take(i as int),
        decreases b@.len() - i,
    {
        w.push(b[i]);
        i += 1;
        assert(b@.take(i as int) == b@.take(i - 1).push(b@[i - 1]));
    }
    assert(b@.take(b@.len() as int) == b@);
}

pub fn push_u32(w: &mut Vec<u8>, x: u32)
    ensures
        final(w)@ == old(w)@ + le32(x),
{
    let b = vstd::bytes::u32_to_le_bytes(x);
    append_bytes(w, b.as_slice());
}

pub fn push_u16(w: &mut Vec<u8>, x: u16)
    ensures
        final(w)@ == old(w)@ + le16(x),
{
    let b = vstd::bytes::u16_to_le_bytes(x);
    append_bytes(w, b.as_slice());
}

/// The `u32` at `off`, or `None` when the data ends before it.
pub fn read_u32(d: &[u8], off: usize) -> (r: Option<u32>)
    ensures
        r == (if off + 4 <= d@.len() { Some(rd32(d@, off as int)) } else { None::<u32> }),
{
    if off > d.len() || d.len() - off < 4 {
        return None;
    }
    let s = vstd::slice::slice_subrange(d, off, off + 4);
    Some(vstd::bytes::u32_from_le_bytes(s))
}

/// The `u16` at `off`, or `None` when the data ends before it.
pub fn read_u16(d: &[u8], off: usize) -> (r: Option<u16>)
    ensures
        r == (if off + 2 <= d@.len() { Some(rd16(d@, off as int)) } else { None::<u16> }),
{
    if off > d.len() || d.len() - off < 2 {
        return None;
    }
    let s = vstd::slice::slice_subrange(d, off, off + 2);
    Some(vstd::bytes::u16_from_le_bytes(s))
}

/// `std::str::from_utf8` followed by an owned copy: `Some` exactly when the
/// bytes are valid UTF-8, and then the string whose UTF-8 encoding they are.
#[verifier::external_body]
pub(crate) fn utf8_to_string(bytes: &[u8]) -> (r: Option<String>)
    ensures
        r is Some <==> vstd::utf8::valid_utf8(bytes@),
        r matches Some(s) ==> utf8(s@) == bytes@,
{
    std::str::from_utf8(bytes).ok().map(|s| s.to_owned())
}

/// `std::str::from_utf8` as a validity check.
pub fn is_valid_utf8(bytes: &[u8]) -> (r: bool)
    ensures
        r == vstd::utf8::valid_utf8(bytes@),
{
    utf8_to_string(bytes).is_some()
}

/// UTF-8 of all the sequences, concatenated in order.
pub open spec fn utf8_concat(ss: Seq<Seq<char>>) -> Seq<u8>
    decreases ss.len(),
{
    if ss.len() == 0 {
        Seq::empty()
    } else {
        utf8_concat(ss.drop_last()) + utf8(ss.last())
    }
}

pub proof fn lemma_utf8_concat_prefix(ss: Seq<Seq<char>>, k: int)
    requires
        0 <= k <= ss.len(),
    ensures
        utf8_concat(ss.take(k)).len() <= utf8_concat(ss).len(),
    decreases ss.len() - k,
{
    if k < ss.len() {
        lemma_utf8_concat_prefix(ss, k + 1);
        assert(ss.take(k + 1).drop_last() == ss.take(k));
    } else {
        assert(ss.take(k) == ss);
    }
}

pub proof fn lemma_utf8_concat_step(ss: Seq<Seq<char>>, k: int)
    requires
        0 <= k < ss.len(),
    ensures
        utf8_concat(ss.take(k + 1)) == utf8_concat(ss.take(k)) + utf8(ss[k]),
{
    assert(ss.take(k + 1).drop_last() == ss.take(k));
    assert(ss.take(k + 1).last() == ss[k]);
}

/// Bytes `off .. off + len` of a blob hold a well-formed UTF-8 string.
pub open spec fn piece_ok(b: Seq<u8>, off: int, len: int) -> bool {
    off + len <= b.len() && vstd::utf8::valid_utf8(b.subrange(off, off + len))
}

/// The string held by bytes `off .. off + len` of a blob.
pub open spec fn piece(b: Seq<u8>, off: int, len: int) -> Seq<char> {
    vstd::utf8::decode_utf8(b.subrange(off, off + len))
}

/// The string at `off .. off + len` of a blob, or `None` when the range
/// leaves the blob or is not well-formed UTF-8.
pub fn read_piece(blob: &[u8], off: u32, len: u16) -> (r: Option<String>)
    ensures
        r is Some <==> piece_ok(blob@, off as int, len as int),
        r matches Some(s) ==> s@ == piece(blob@, off as int, len as int),
{
    if off as u64 + len as u64 > blob.len() as u64 {
        return None;
    }
    let wb = vstd::slice::slice_subrange(blob, off as usize, off as usize + len as usize);
    match utf8_to_string(wb) {
        Some(s) => {
            proof {
                vstd::utf8::decode_utf8_encode_utf8(wb@);
                vstd::utf8::encode_utf8_decode_utf8(s@);
            }
            Some(s)
        },
        None => None,
    }
}

/// Appends the UTF-8 of a string slice.
pub fn push_str_bytes(w: &mut Vec<u8>, s: &str)
    ensures
        final(w)@ == old(w)@ + utf8(s@),
{
    proof {
        assert(s.spec_bytes() == utf8(s@));
    }
    append_bytes(w, s.as_bytes());
}

/// The UTF-8 length of a string slice.
pub fn utf8_len(s: &str) -> (n: usize)
    ensures
        n == utf8(s@).len(),
{
    proof {
        assert(s.spec_bytes() == utf8(s@));
    }
    s.as_bytes().len()
}

} // verus!

verus! {

/// A slice of a concatenation that lies in one part is a slice of that part.
pub proof fn lemma_sub_add<A>(a: Seq<A>, b: Seq<A>, lo: int, hi: int)
    requires
        0 <= lo <= hi <= a.len() + b.len(),
    ensures
        hi <= a.len() ==> (a + b).subrange(lo, hi) == a.subrange(lo, hi),
        lo >= a.len() ==> (a + b).subrange(lo, hi) == b.subrange(lo - a.len(), hi - a.len()),
{
    if hi <= a.len() {
        assert((a + b).subrange(lo, hi) =~= a.subrange(lo, hi));
    }
    if lo >= a.len() {
        assert((a + b).subrange(lo, hi) =~= b.subrange(lo - a.len(), hi - a.len()));
    }
}

/// Reading back a written `u32`.
pub proof fn lemma_rd32(d: Seq<u8>, off: int, x: u32)
    requires
        0 <= off,
        off + 4 <= d.len(),
        d.subrange(off, off + 4) == le32(x),
    ensures
        rd32(d, off) == x,
{
    vstd::bytes::lemma_auto_spec_u32_to_from_le_bytes();
    assert(spec_u32_to_le_bytes(x).len() == 4);
    assert(spec_u32_from_le_bytes(spec_u32_to_le_bytes(x)) == x);
}

/// Reading back a written `u16`.
pub proof fn lemma_rd16(d: Seq<u8>, off: int, x: u16)
    requires
        0 <= off,
        off + 2 <= d.len(),
        d.subrange(off, off + 2) == le16(x),
    ensures
        rd16(d, off) == x,
{
    vstd::bytes::lemma_auto_spec_u16_to_from_le_bytes();
    assert(spec_u16_to_le_bytes(x).len() == 2);
    assert(spec_u16_from_le_bytes(spec_u16_to_le_bytes(x)) == x);
}

pub proof fn lemma_le_lens(x: u32, y: u16)
    ensures
        le32(x).len() == 4,
        le16(y).len() == 2,
{
    vstd::bytes::lemma_auto_spec_u32_to_from_le_bytes();
    vstd::bytes::lemma_auto_spec_u16_to_from_le_bytes();
    assert(spec_u32_to_le_bytes(x).len() == 4);
    assert(spec_u16_to_le_bytes(y).len() == 2);
}

/// The concatenated UTF-8 of the first `k` sequences starts the whole.
pub proof fn lemma_concat_take(ss: Seq<Seq<char>>, k: int)
    requires
        0 <= k <= ss.len(),
    ensures
        utf8_concat(ss.take(k)).len() <= utf8_concat(ss).len(),
        utf8_concat(ss).subrange(0, utf8_concat(ss.take(k)).len() as int) == utf8_concat(ss.take(k)),
    decreases ss.len(),
{
    if k == ss.len() {
        assert(ss.take(k) == ss);
        assert(utf8_concat(ss).subrange(0, utf8_concat(ss).len() as int) =~= utf8_concat(ss));
    } else {
        let t = ss.drop_last();
        assert(t.take(k) == ss.take(k));
        lemma_concat_take(t, k);
        lemma_sub_add(utf8_concat(t), utf8(ss.last()), 0, utf8_concat(ss.take(k)).len() as int);
    }
}

/// Sequence `i` sits right after the first `i` in the concatenated UTF-8.
pub proof fn lemma_concat_piece(ss: Seq<Seq<char>>, i: int)
    requires
        0 <= i < ss.len(),
    ensures
        utf8_concat(ss.take(i)).len() + utf8(ss[i]).len() <= utf8_concat(ss).len(),
        utf8_concat(ss).subrange(utf8_concat(ss.take(i)).len() as int,
            (utf8_concat(ss.take(i)).len() + utf8(ss[i]).len()) as int) == utf8(ss[i]),
{
    lemma_utf8_concat_step(ss, i);
    lemma_concat_take(ss, i + 1);
    let a = utf8_concat(ss.take(i));
    let p = utf8_concat(ss.take(i + 1));
    assert(utf8_concat(ss).subrange(a.len() as int, (a.len() + utf8(ss[i]).len()) as int)
        =~= p.subrange(a.len() as int, (a.len() + utf8(ss[i]).len()) as int));
    lemma_sub_add(a, utf8(ss[i]), a.len() as int, (a.len() + utf8(ss[i]).len()) as int);
    assert(utf8(ss[i]).subrange(0, utf8(ss[i]).len() as int) =~= utf8(ss[i]));
}

/// Concatenated UTF-8 is well formed.
pub proof fn lemma_concat_valid(ss: Seq<Seq<char>>)
    ensures
        vstd::utf8::valid_utf8(utf8_concat(ss)),
    decreases ss.len(),
{
    if ss.len() > 0 {
        lemma_concat_valid(ss.drop_last());
        vstd::utf8::encode_utf8_valid_utf8(ss.last());
        vstd::utf8::valid_utf8_concat(utf8_concat(ss.drop_last()), utf8(ss.last()));
    } else {
        assert(vstd::utf8::valid_utf8(Seq::<u8>::empty())) by {
            reveal_with_fuel(vstd::utf8::valid_utf8, 1);
        }
    }
}

/// A piece cut out at the right place decodes to its sequence.
pub proof fn lemma_piece_of_concat(b: Seq<u8>, ss: Seq<Seq<char>>, i: int)
    requires
        0 <= i < ss.len(),
        b == utf8_concat(ss),
    ensures
        utf8_concat(ss.take(i)).len() + utf8(ss[i]).len() <= b.len(),
        b.subrange(utf8_concat(ss.take(i)).len() as int, (utf8_concat(ss.take(i)).len() + utf8(ss[i]).len()) as int)
            == utf8(ss[i]),
        piece_ok(b, utf8_concat(ss.take(i)).len() as int, utf8(ss[i]).len() as int),
        piece(b, utf8_concat(ss.take(i)).len() as int, utf8(ss[i]).len() as int) == ss[i],
{
    lemma_concat_piece(ss, i);
    vstd::utf8::encode_utf8_valid_utf8(ss[i]);
    vstd::utf8::encode_utf8_decode_utf8(ss[i]);
}

} // verus!
