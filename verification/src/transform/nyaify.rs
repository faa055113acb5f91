//! "n" after a space becomes "ny".
use super::text::{
    concat_pieces, count, is_space, is_space_byte, lemma_count_concat, lemma_count_pieces,
    lemma_count_single, puncts, spaces, ascii_lower, lemma_concat_pieces_grow, lemma_concat_pieces_agree, same_but_case, lemma_same_but_case_pieces,
};
use crate::keep::{all_ascii, keeps_non_ascii, lemma_ascii_valid, lemma_bytewise_keeps};
use vstd::prelude::*;

verus! {

/// An `n` or an `N`.
pub open spec fn is_n(b: u8) -> bool {
    b == 78 || b == 110
}

/// A `y` goes after byte `i` of `s`: it is an `n` or `N` that follows a space
/// in the same 16-byte block.
pub open spec fn nya_at(s: Seq<u8>, i: int) -> bool {
    i % 16 != 0 && is_n(s[i]) && is_space(s[i - 1])
}

/// Byte `i` of `s` and the `y` that goes after it, if any.
pub open spec fn nya_piece(s: Seq<u8>, i: int) -> Seq<u8> {
    if nya_at(s, i) {
        seq![s[i], 121u8]
    } else {
        seq![s[i]]
    }
}

/// `s` with a `y` after each `n` or `N` that follows a space in its 16-byte
/// block.
pub open spec fn nyaify_spec(s: Seq<u8>) -> Seq<u8> {
    concat_pieces(|i: int| nya_piece(s, i), s.len() as int)
}

/// Puts a `y` after each `n` or `N` that follows a space, tab or line feed
/// within the same 16-byte block of `in_bytes`. The output goes to the front
/// of `out_bytes`, which needs room for it; its length is returned.
pub fn nyaify(in_bytes: &[u8], out_bytes: &mut [u8]) -> (r: usize)
    requires
        old(out_bytes)@.len() >= nyaify_spec(in_bytes@).len(),
    ensures
        r == nyaify_spec(in_bytes@).len(),
        final(out_bytes)@.len() == old(out_bytes)@.len(),
        final(out_bytes)@.take(r as int) == nyaify_spec(in_bytes@),
{
    let ghost s = in_bytes@;
    let ghost f = |i: int| nya_piece(s, i);
    let mut len: usize = 0;
    let mut i: usize = 0;
    while i < in_bytes.len()
        invariant
            s == in_bytes@,
            f == (|i: int| nya_piece(s, i)),
            i <= s.len(),
            out_bytes@.len() == old(out_bytes)@.len(),
            out_bytes@.len() >= concat_pieces(f, s.len() as int).len(),
            len == concat_pieces(f, i as int).len(),
            out_bytes@.take(len as int) == concat_pieces(f, i as int),
        decreases s.len() - i,
    {
        let ghost before = out_bytes@.take(len as int);
        proof {
            lemma_concat_pieces_grow(f, i + 1, s.len() as int);
        }
        let b = in_bytes[i];
        out_bytes[len] = b;
        len = len + 1;
        assert((b | 0x20u8 == 110u8) == (b == 78u8 || b == 110u8)) by (bit_vector);
        if i % 16 != 0 && b | 0x20 == 110 && is_space_byte(in_bytes[i - 1]) {
            out_bytes[len] = 121u8;
            len = len + 1;
            assert(out_bytes@.take(len as int) =~= before + f(i as int));
        } else {
            assert(out_bytes@.take(len as int) =~= before + f(i as int));
        }
        i = i + 1;
    }
    len
}

/// The `y` pass keeps every byte outside ASCII as it is.
pub proof fn lemma_nyaify_keeps_non_ascii(s: Seq<u8>)
    ensures
        keeps_non_ascii(s, nyaify_spec(s)),
{
    let f = |i: int| nya_piece(s, i);
    assert forall|i: int| 0 <= i < s.len() implies (s[i] >= 128 ==> #[trigger] f(i) == seq![s[i]])
        && (s[i] < 128 ==> vstd::utf8::valid_utf8(f(i))) by {
        if s[i] < 128 {
            assert(all_ascii(f(i)));
            lemma_ascii_valid(f(i));
        }
    }
    lemma_bytewise_keeps(s, f);
}

/// Whether byte `k - 1` of `s` is a space, as a number.
spec fn space_before(s: Seq<u8>, k: int) -> int {
    if k >= 1 && is_space(s[k - 1]) {
        1
    } else {
        0
    }
}

/// The first `k` pieces: each `y` follows a space of its own, and only bytes
/// that are neither spaces nor punctuation marks get one.
proof fn lemma_nyaify_prefix_len(s: Seq<u8>, k: int)
    requires
        0 <= k <= s.len(),
    ensures
        concat_pieces(|i: int| nya_piece(s, i), k).len() + space_before(s, k) <= k + spaces(
            s.take(k),
        ),
        concat_pieces(|i: int| nya_piece(s, i), k).len() + spaces(s.take(k)) + puncts(s.take(k))
            <= 2 * k,
    decreases k,
{
    let f = |i: int| nya_piece(s, i);
    if k == 0 {
        assert(s.take(0) =~= Seq::<u8>::empty());
    } else {
        lemma_nyaify_prefix_len(s, k - 1);
        assert(concat_pieces(f, k) == concat_pieces(f, k - 1) + f(k - 1));
        assert(s.take(k) =~= s.take(k - 1) + seq![s[k - 1]]);
        lemma_count_concat(s.take(k - 1), seq![s[k - 1]], 0);
        lemma_count_concat(s.take(k - 1), seq![s[k - 1]], 1);
        lemma_count_single(s[k - 1], 0);
        lemma_count_single(s[k - 1], 1);
    }
}

/// The `y` pass adds at most one byte per space and at most one per byte that
/// is neither a space nor a punctuation mark, and keeps the punctuation marks.
pub proof fn lemma_nyaify_len(s: Seq<u8>)
    ensures
        nyaify_spec(s).len() <= s.len() + spaces(s),
        nyaify_spec(s).len() + spaces(s) + puncts(s) <= 2 * s.len(),
        puncts(nyaify_spec(s)) == puncts(s),
{
    let f = |i: int| nya_piece(s, i);
    lemma_nyaify_prefix_len(s, s.len() as int);
    assert(s.take(s.len() as int) =~= s);
    assert forall|j: int| 0 <= j < s.len() implies count(#[trigger] f(j), 1) == count(seq![s[j]], 1) by {
        if nya_at(s, j) {
            assert(f(j) =~= seq![s[j]] + seq![121u8]);
            lemma_count_concat(seq![s[j]], seq![121u8], 1);
            lemma_count_single(121u8, 1);
        }
    }
    lemma_count_pieces(s, f, 1, s.len() as int);
}

/// Inputs that are the same up to ASCII case give outputs that are the same
/// up to ASCII case: `n` and `N` both take a `y`.
pub proof fn lemma_nyaify_ignores_case(s: Seq<u8>, t: Seq<u8>)
    requires
        same_but_case(s, t),
    ensures
        same_but_case(nyaify_spec(s), nyaify_spec(t)),
{
    let f = |i: int| nya_piece(s, i);
    let g = |i: int| nya_piece(t, i);
    assert forall|i: int| 0 <= i < s.len() implies same_but_case(#[trigger] f(i), g(i)) by {
        assert(ascii_lower(s[i]) == ascii_lower(t[i]));
        if i >= 1 {
            assert(ascii_lower(s[i - 1]) == ascii_lower(t[i - 1]));
        }
        assert(nya_at(s, i) == nya_at(t, i));
        assert(ascii_lower(f(i)[0]) == ascii_lower(g(i)[0]));
    }
    lemma_same_but_case_pieces(f, g, s.len() as int);
}

/// Where a `y` goes: after byte `i` exactly when `i` is not the first byte of
/// a 16-byte block, byte `i` is `n` or `N`, and the byte before it is a space,
/// a tab or a line feed.
pub proof fn lemma_nya_at_bytes(s: Seq<u8>, i: int)
    requires
        0 <= i < s.len(),
    ensures
        nya_at(s, i) <==> (i % 16 != 0 && (s[i] == 78 || s[i] == 110) && (s[i - 1] == 32
            || s[i - 1] == 9 || s[i - 1] == 10)),
{
}

/// The `y` pass of nothing is nothing.
pub proof fn lemma_nyaify_empty()
    ensures
        nyaify_spec(Seq::<u8>::empty()) == Seq::<u8>::empty(),
{
}

/// One more input byte adds that byte to the output, followed by a `y` when
/// it is an `n` or `N` that is not the first byte of its 16-byte block and
/// comes after a space, a tab or a line feed; the output before it stays.
pub proof fn lemma_nyaify_step(s: Seq<u8>, k: int)
    requires
        0 <= k < s.len(),
    ensures
        nyaify_spec(s.take(k + 1)) == nyaify_spec(s.take(k)) + if k % 16 != 0 && (s[k] == 78
            || s[k] == 110) && (s[k - 1] == 32 || s[k - 1] == 9 || s[k - 1] == 10) {
            seq![s[k], 121u8]
        } else {
            seq![s[k]]
        },
{
    let a = s.take(k + 1);
    let b = s.take(k);
    let f = |i: int| nya_piece(a, i);
    let g = |i: int| nya_piece(b, i);
    assert forall|i: int| 0 <= i < k implies #[trigger] f(i) == g(i) by {
        assert(a[i] == b[i]);
        if i >= 1 {
            assert(a[i - 1] == b[i - 1]);
        }
        assert(nya_at(a, i) == nya_at(b, i));
    }
    lemma_concat_pieces_agree(f, g, k);
    assert(a[k] == s[k]);
    if k >= 1 {
        assert(a[k - 1] == s[k - 1]);
    }
}

} // verus!
