//! Counting of adjacent duplicate elements in text, under two element
//! models: decoded Unicode code points and raw UTF-8 storage bytes.
//!
//! [`count_doubles`] counts positions where a code point equals its
//! immediate successor; [`count_doubles_bytes`] performs the same count
//! over the UTF-8 byte representation. For ASCII-only text the two
//! always agree; for text holding a multi-byte code point they may
//! diverge, and each is computed over its own representation.
use vstd::prelude::*;

verus! {

use vstd::string::StrSliceExecFns;
use vstd::utf8::{encode_utf8, is_ascii_chars, is_ascii_chars_encode_utf8, char_u32_cast};

/// Number of positions `i` at which `s[i] == s[i + 1]`.
pub open spec fn double_count<T>(s: Seq<T>) -> nat
    decreases s.len(),
{
    if s.len() < 2 {
        0
    } else {
        double_count(s.drop_last()) + if s[s.len() - 2] == s[s.len() - 1] {
            1nat
        } else {
            0nat
        }
    }
}

/// A sequence of length `n` has at most `n - 1` adjacent pairs, so the
/// count of adjacent duplicates never exceeds `n - 1` (and is zero when
/// no pair exists at all).
pub proof fn lemma_double_count_bound<T>(s: Seq<T>)
    ensures
        s.len() < 2 ==> double_count(s) == 0,
        s.len() >= 1 ==> double_count(s) <= s.len() - 1,
    decreases s.len(),
{
    if s.len() >= 2 {
        lemma_double_count_bound(s.drop_last());
    }
}

/// Extending a prefix by one element adds exactly the new final pair to
/// the count.
proof fn lemma_double_count_step<T>(s: Seq<T>, k: int)
    requires
        2 <= k <= s.len(),
    ensures
        double_count(s.take(k)) == double_count(s.take(k - 1)) + if s[k - 2] == s[k - 1] {
            1nat
        } else {
            0nat
        },
{
    assert(s.take(k).drop_last() =~= s.take(k - 1));
}

/// Two sequences whose adjacent pairs match or differ at exactly the
/// same positions hold the same number of adjacent duplicates.
proof fn lemma_double_count_pointwise<A, B>(s: Seq<A>, t: Seq<B>)
    requires
        s.len() == t.len(),
        forall|i: int| 0 <= i < s.len() - 1 ==> ((#[trigger] s[i] == s[i + 1]) <==> (t[i] == t[i
            + 1])),
    ensures
        double_count(s) == double_count(t),
    decreases s.len(),
{
    if s.len() >= 2 {
        assert forall|i: int| 0 <= i < s.drop_last().len() - 1 implies ((#[trigger] s.drop_last()[i]
            == s.drop_last()[i + 1]) <==> (t.drop_last()[i] == t.drop_last()[i + 1])) by {
            assert(s[i] == s[i + 1] <==> t[i] == t[i + 1]);
        }
        lemma_double_count_pointwise(s.drop_last(), t.drop_last());
    }
}

/// For ASCII-only text the code-point count and the byte count agree:
/// each ASCII code point is encoded as the single byte holding its own
/// value, so the two views pair up identically.
pub proof fn lemma_ascii_double_count(s: Seq<char>)
    requires
        is_ascii_chars(s),
    ensures
        double_count(encode_utf8(s)) == double_count(s),
{
    let t = encode_utf8(s);
    is_ascii_chars_encode_utf8(s);
    assert forall|i: int| 0 <= i < s.len() - 1 implies ((#[trigger] s[i] == s[i + 1]) <==> (t[i]
        == t[i + 1])) by {
        assert(t[i] == s[i] as u8);
        assert(t[i + 1] == s[i + 1] as u8);
        let a = s[i] as u32;
        let b = s[i + 1] as u32;
        assert(a < 128 && b < 128);
        assert(a as u8 == b as u8 ==> a == b) by (bit_vector)
            requires
                a < 128 && b < 128,
        ;
        char_u32_cast(s[i], a);
        char_u32_cast(s[i + 1], b);
    }
    lemma_double_count_pointwise(s, t);
}

/// Count of adjacent equal code points in `val`.
pub fn count_doubles(val: &str) -> (count: u64)
    ensures
        count == double_count(val@),
        val@.len() < 2 ==> count == 0,
        val@.len() >= 1 ==> count <= val@.len() - 1,
{
    let n = val.unicode_len();
    let mut total: u64 = 0;
    let mut i: usize = 1;
    while i < n
        invariant
            1 <= i,
            i <= n || n == 0,
            n == val@.len(),
            total == double_count(val@.take(if i <= n { i as int } else { 0 })),
            total <= i - 1,
        decreases n - i,
    {
        let c1 = val.get_char(i - 1);
        let c2 = val.get_char(i);
        if c1 == c2 {
            total = total + 1;
        }
        proof {
            lemma_double_count_step(val@, i + 1);
        }
        i = i + 1;
    }
    proof {
        if n != 0 {
            assert(val@.take(n as int) =~= val@);
        }
        lemma_double_count_bound(val@);
    }
    total
}

/// Count of adjacent equal bytes in the UTF-8 representation of `val`.
pub fn count_doubles_bytes(val: &str) -> (count: u64)
    ensures
        count == double_count(encode_utf8(val@)),
        encode_utf8(val@).len() < 2 ==> count == 0,
        encode_utf8(val@).len() >= 1 ==> count <= encode_utf8(val@).len() - 1,
{
    let bytes = val.as_bytes_vec();
    let n = bytes.len();
    let mut total: u64 = 0;
    let mut i: usize = 1;
    while i < n
        invariant
            1 <= i,
            i <= n || n == 0,
            n == bytes@.len(),
            bytes@ == encode_utf8(val@),
            total == double_count(bytes@.take(if i <= n { i as int } else { 0 })),
            total <= i - 1,
        decreases n - i,
    {
        let b1 = bytes[i - 1];
        let b2 = bytes[i];
        if b1 == b2 {
            total = total + 1;
        }
        proof {
            lemma_double_count_step(bytes@, i + 1);
        }
        i = i + 1;
    }
    proof {
        if n != 0 {
            assert(bytes@.take(n as int) =~= bytes@);
        }
        lemma_double_count_bound(bytes@);
    }
    total
}

/// Both operations are pure: each contract pins the returned count to a
/// function of the input sequence alone, so two calls on the same text
/// return the same count.
pub proof fn lemma_count_determined<T>(s: Seq<T>, r1: u64, r2: u64)
    requires
        r1 == double_count(s),
        r2 == double_count(s),
    ensures
        r1 == r2,
{
}

} // verus!
