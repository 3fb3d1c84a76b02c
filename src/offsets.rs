//! Translation between scalar-value offsets and UTF-8 storage offsets.
use vstd::prelude::*;
use vstd::string::*;
use vstd::utf8::*;
use std::ops::Range;

verus! {

broadcast use vstd::utf8::encode_utf8_decode_utf8, vstd::utf8::encode_utf8_valid_utf8;

/// Number of storage bytes that the UTF-8 encoding of `c` takes.
pub open spec fn char_width(c: char) -> nat {
    encode_scalar(c as u32).len()
}

/// Storage offset of the scalar value at index `k` of `s`: the length of the
/// encoding of the first `k` scalar values.
pub open spec fn storage_offset(s: Seq<char>, k: int) -> nat {
    encode_utf8(s.subrange(0, k)).len()
}

/// How many of the prefixes `s[..1]`, ..., `s[..n]` are encoded within `b` bytes.
pub open spec fn prefixes_within(s: Seq<char>, b: int, n: int) -> nat
    decreases n,
{
    if n <= 0 {
        0
    } else {
        prefixes_within(s, b, n - 1) + if storage_offset(s, n) <= b {
            1nat
        } else {
            0nat
        }
    }
}

/// Scalar-value index of the storage offset `b` of `s`: the number of whole
/// scalar values whose encoding ends at or before `b`.
pub open spec fn char_index(s: Seq<char>, b: int) -> nat {
    prefixes_within(s, b, s.len() as int)
}

pub proof fn lemma_encode_concat(a: Seq<char>, b: Seq<char>)
    ensures
        encode_utf8(a + b) == encode_utf8(a) + encode_utf8(b),
    decreases a.len(),
{
    if a.len() == 0 {
        assert(a + b =~= b);
        assert(encode_utf8(a) + encode_utf8(b) =~= encode_utf8(b));
    } else {
        assert((a + b).drop_first() =~= a.drop_first() + b);
        lemma_encode_concat(a.drop_first(), b);
        assert((a + b)[0] == a[0]);
        assert(encode_utf8(a + b) =~= encode_utf8(a) + encode_utf8(b));
    }
}

proof fn lemma_encode_single(c: char)
    ensures
        encode_utf8(seq![c]) == encode_scalar(c as u32),
{
    let s = seq![c];
    assert(s.drop_first() =~= Seq::<char>::empty());
    assert(encode_utf8(Seq::<char>::empty()) =~= Seq::<u8>::empty());
    assert(encode_utf8(s) == encode_scalar(s[0] as u32) + encode_utf8(s.drop_first()));
    assert(encode_utf8(s) =~= encode_scalar(c as u32));
}

pub proof fn lemma_storage_step(s: Seq<char>, k: int)
    requires
        0 <= k < s.len(),
    ensures
        storage_offset(s, k + 1) == storage_offset(s, k) + char_width(s[k]),
        char_width(s[k]) >= 1,
{
    let c = seq![s[k]];
    assert(s.subrange(0, k + 1) =~= s.subrange(0, k) + c);
    lemma_encode_concat(s.subrange(0, k), c);
    lemma_encode_single(s[k]);
}

/// Storage offsets grow strictly with the scalar-value index.
pub proof fn lemma_storage_monotone(s: Seq<char>, i: int, j: int)
    requires
        0 <= i <= j <= s.len(),
    ensures
        storage_offset(s, i) <= storage_offset(s, j),
        i < j ==> storage_offset(s, i) + (j - i) <= storage_offset(s, j),
    decreases j - i,
{
    if i < j {
        lemma_storage_step(s, j - 1);
        lemma_storage_monotone(s, i, j - 1);
    }
}

pub proof fn lemma_storage_full(s: Seq<char>)
    ensures
        storage_offset(s, s.len() as int) == encode_utf8(s).len(),
{
    assert(s.subrange(0, s.len() as int) =~= s);
}

proof fn lemma_prefixes_within(s: Seq<char>, k: int, n: int)
    requires
        0 <= k <= s.len(),
        0 <= n <= s.len(),
    ensures
        prefixes_within(s, storage_offset(s, k) as int, n) == if n < k {
            n
        } else {
            k
        },
    decreases n,
{
    if n > 0 {
        lemma_prefixes_within(s, k, n - 1);
        if n <= k {
            lemma_storage_monotone(s, n, k);
        } else {
            lemma_storage_monotone(s, k, n);
        }
    }
}

/// Translating a scalar-value index to storage and back gives the index again.
pub proof fn lemma_index_round_trip(s: Seq<char>, k: int)
    requires
        0 <= k <= s.len(),
    ensures
        char_index(s, storage_offset(s, k) as int) == k,
{
    lemma_prefixes_within(s, k, s.len() as int);
}

/// Every storage offset of a scalar-value index is a character boundary of the
/// encoding.
pub proof fn lemma_boundary(s: Seq<char>, k: int)
    requires
        0 <= k <= s.len(),
    ensures
        is_char_boundary(encode_utf8(s), storage_offset(s, k) as int),
    decreases s.len(),
{
    if k > 0 {
        let bytes = encode_utf8(s);
        let rest = s.drop_first();
        encode_utf8_first_scalar(s);
        assert(pop_first_scalar(bytes) =~= encode_utf8(rest));
        assert(s.subrange(0, k) =~= seq![s[0]] + rest.subrange(0, k - 1));
        lemma_encode_concat(seq![s[0]], rest.subrange(0, k - 1));
        lemma_encode_single(s[0]);
        lemma_storage_monotone(s, k, s.len() as int);
        lemma_storage_full(s);
        lemma_boundary(rest, k - 1);
    }
}

/// The storage width of a scalar value, read off the first byte of its
/// encoding.
pub open spec fn lead_width(byte: u8) -> nat {
    if byte < 0x80 {
        1
    } else if byte < 0xE0 {
        2
    } else if byte < 0xF0 {
        3
    } else {
        4
    }
}

proof fn lemma_lead_bits(v: u32)
    ensures
        ((v & 0x7F) as u8) < 0x80,
        0xC0 <= (0xC0u8 | ((v >> 6u32) & 0x1F) as u8) < 0xE0,
        0xE0 <= (0xE0u8 | ((v >> 12u32) & 0x0F) as u8) < 0xF0,
        0xF0 <= (0xF0u8 | ((v >> 18u32) & 0x7) as u8),
{
    assert(((v & 0x7F) as u8) < 0x80) by (bit_vector);
    assert(0xC0 <= (0xC0u8 | ((v >> 6u32) & 0x1F) as u8) < 0xE0) by (bit_vector);
    assert(0xE0 <= (0xE0u8 | ((v >> 12u32) & 0x0F) as u8) < 0xF0) by (bit_vector);
    assert(0xF0 <= (0xF0u8 | ((v >> 18u32) & 0x7) as u8)) by (bit_vector);
}

/// The byte at the storage offset of index `i` leads the encoding of `s[i]`,
/// and tells its width.
proof fn lemma_lead_byte(s: Seq<char>, i: int)
    requires
        0 <= i < s.len(),
    ensures
        storage_offset(s, i) < encode_utf8(s).len(),
        lead_width(encode_utf8(s)[storage_offset(s, i) as int]) == char_width(s[i]),
{
    let head = s.subrange(0, i);
    let tail = s.subrange(i, s.len() as int);
    assert(s =~= head + tail);
    lemma_encode_concat(head, tail);
    assert(tail[0] == s[i]);
    assert(encode_utf8(tail) == encode_scalar(tail[0] as u32) + encode_utf8(tail.drop_first()));
    let v = s[i] as u32;
    char_is_scalar(s[i]);
    lemma_lead_bits(v);
    assert(encode_scalar(v).len() >= 1);
    assert(encode_utf8(s)[storage_offset(s, i) as int] == encode_scalar(v)[0]);
}

/// Width of the scalar value whose encoding starts with `byte`.
fn lead_byte_width(byte: u8) -> (w: usize)
    ensures
        w as nat == lead_width(byte),
{
    if byte < 0x80 {
        1
    } else if byte < 0xE0 {
        2
    } else if byte < 0xF0 {
        3
    } else {
        4
    }
}

/// Storage offset of the scalar-value index `k` of `s`.
pub fn storage_index(s: &str, k: usize) -> (b: usize)
    requires
        k <= s@.len(),
    ensures
        b as nat == storage_offset(s@, k as int),
{
    let bytes = s.as_bytes();
    let total = bytes.len();
    proof {
        lemma_storage_full(s@);
    }
    let mut b: usize = 0;
    let mut i: usize = 0;
    while i < k
        invariant
            k <= s@.len(),
            i <= k,
            b as nat == storage_offset(s@, i as int),
            total as nat == storage_offset(s@, s@.len() as int),
            bytes@ == encode_utf8(s@),
        decreases k - i,
    {
        proof {
            lemma_lead_byte(s@, i as int);
        }
        let w = lead_byte_width(bytes[b]);
        proof {
            lemma_storage_step(s@, i as int);
            lemma_storage_monotone(s@, i as int + 1, s@.len() as int);
        }
        b = b + w;
        i = i + 1;
    }
    b
}

/// Scalar-value index of the storage offset `b` of `s`.
pub fn char_position(s: &str, b: usize) -> (k: usize)
    ensures
        k as nat == char_index(s@, b as int),
{
    let n = s.unicode_len();
    let bytes = s.as_bytes();
    let total = bytes.len();
    proof {
        lemma_storage_full(s@);
    }
    let mut off: usize = 0;
    let mut count: usize = 0;
    let mut i: usize = 0;
    while i < n
        invariant
            n as nat == s@.len(),
            i <= n,
            off as nat == storage_offset(s@, i as int),
            count as nat == prefixes_within(s@, b as int, i as int),
            count <= i,
            total as nat == storage_offset(s@, s@.len() as int),
            bytes@ == encode_utf8(s@),
        decreases n - i,
    {
        proof {
            lemma_lead_byte(s@, i as int);
        }
        let w = lead_byte_width(bytes[off]);
        proof {
            lemma_storage_step(s@, i as int);
            lemma_storage_monotone(s@, i as int + 1, s@.len() as int);
        }
        off = off + w;
        i = i + 1;
        if off <= b {
            count = count + 1;
        }
    }
    count
}

/// Splits `s` before its scalar value at index `k`.
pub fn split_chars<'a>(s: &'a str, k: usize) -> (r: (&'a str, &'a str))
    requires
        k <= s@.len(),
    ensures
        r.0@ == s@.subrange(0, k as int),
        r.1@ == s@.subrange(k as int, s@.len() as int),
{
    let b = storage_index(s, k);
    let ghost head = s@.subrange(0, k as int);
    let ghost tail = s@.subrange(k as int, s@.len() as int);
    proof {
        lemma_boundary(s@, k as int);
        assert(s@ =~= head + tail);
        lemma_encode_concat(head, tail);
    }
    let (x, y) = s.split_at(b);
    proof {
        assert(encode_utf8(x@) =~= encode_utf8(head));
        assert(encode_utf8(y@) =~= encode_utf8(tail));
        assert(decode_utf8(encode_utf8(x@)) == x@);
        assert(decode_utf8(encode_utf8(head)) == head);
        assert(decode_utf8(encode_utf8(y@)) == y@);
        assert(decode_utf8(encode_utf8(tail)) == tail);
    }
    (x, y)
}

/// Translating a scalar-value range to storage coordinates and back recovers
/// the range.
pub proof fn lemma_translation_round_trip(s: Seq<char>, start: int, end: int)
    requires
        0 <= start <= end <= s.len(),
    ensures
        char_index(s, storage_offset(s, start) as int) == start,
        char_index(s, storage_offset(s, end) as int) == end,
{
    lemma_index_round_trip(s, start);
    lemma_index_round_trip(s, end);
}

/// Storage range of the scalar-value range `[start, end)` of `string`.
pub fn range_utf8(string: &String, start: usize, end: usize) -> (r: Range<usize>)
    requires
        start <= end <= string@.len(),
    ensures
        r.start as nat == storage_offset(string@, start as int),
        r.end as nat == storage_offset(string@, end as int),
        r.start <= r.end,
{
    let s = string.as_str();
    let b0 = storage_index(s, start);
    let b1 = storage_index(s, end);
    proof {
        lemma_storage_monotone(string@, start as int, end as int);
    }
    Range { start: b0, end: b1 }
}

/// Scalar-value range of the storage range `[start, end)` of `string`.
pub fn range_chars(string: &String, start: usize, end: usize) -> (r: Range<usize>)
    ensures
        r.start as nat == char_index(string@, start as int),
        r.end as nat == char_index(string@, end as int),
{
    let s = string.as_str();
    let k0 = char_position(s, start);
    let k1 = char_position(s, end);
    Range { start: k0, end: k1 }
}

/// The scalar values `[start, end)` of `string`, cut at their storage offsets.
pub fn get_range(string: &String, start: usize, end: usize) -> (r: String)
    requires
        start <= end <= string@.len(),
    ensures
        r@ == string@.subrange(start as int, end as int),
{
    let (left, _right) = split_chars(string.as_str(), end);
    let (_head, mid) = split_chars(left, start);
    proof {
        assert(mid@ =~= string@.subrange(start as int, end as int));
    }
    String::from_str(mid)
}

/// Replaces the scalar values `[start, end)` of `string` by `with`.
pub fn replace_range(string: &mut String, start: usize, end: usize, with: String)
    requires
        start <= end <= old(string)@.len(),
    ensures
        final(string)@ == old(string)@.subrange(0, start as int) + with@ + old(string)@.subrange(
            end as int,
            old(string)@.len() as int,
        ),
{
    let mut out = String::new();
    {
        let (left, right) = split_chars(string.as_str(), end);
        let (head, _mid) = split_chars(left, start);
        out.append(head);
        out.append(with.as_str());
        out.append(right);
        proof {
            assert(head@ =~= string@.subrange(0, start as int));
        }
    }
    *string = out;
}

/// The scalar values of `s`, cut off one at a time at their storage offsets.
pub fn chars_of(s: &str) -> (r: Vec<char>)
    ensures
        r@ == s@,
{
    let mut out: Vec<char> = Vec::new();
    let mut rest = s;
    while !rest.is_empty()
        invariant
            out@ + rest@ == s@,
        decreases rest@.len(),
    {
        let (head, tail) = split_chars(rest, 1);
        let c = head.get_char(0);
        proof {
            assert(rest@ =~= head@ + tail@);
            assert(out@.push(c) + tail@ =~= out@ + rest@);
        }
        out.push(c);
        rest = tail;
    }
    proof {
        assert(out@ + rest@ =~= out@);
    }
    out
}

} // verus!
