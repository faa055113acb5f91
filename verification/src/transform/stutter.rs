//! Letters go to lower case, "l" and "r" become "w", and in each 16-byte
//! block the first word may stutter ("you" becomes "y-you").
use super::text::{
    ascii_lower, concat_pieces, count, lemma_count_concat, lemma_count_pieces, lemma_count_single,
    puncts, first_from, is_letter, same_but_case, lemma_same_but_case_take, is_space, is_space_byte, lemma_first_from};
use crate::keep::{
    all_ascii, bytewise, keeps_non_ascii, lemma_ascii_valid, lemma_bytewise_keeps,
    lemma_sources_results_concat, results, segments_ok, sources,
};
use crate::xorshift::{rng_advance, rng_bits, XorShift32};
use vstd::prelude::*;

verus! {

/// Byte `b` after the letter rewrite: letters in lower case, with `l` and `r`
/// (either case) becoming `w`.
pub open spec fn stutter_byte(b: u8) -> u8 {
    if is_letter(b) {
        if ascii_lower(b) == 108 || ascii_lower(b) == 114 {
            119u8
        } else {
            ascii_lower(b)
        }
    } else {
        b
    }
}

/// Byte `k` of `ch` is a letter that follows a space.
pub open spec fn stutter_at(ch: Seq<u8>, k: int) -> bool {
    1 <= k < ch.len() && is_letter(ch[k]) && is_space(ch[k - 1])
}

/// The first letter of `ch` that follows a space.
pub open spec fn first_stutter(ch: Seq<u8>) -> Option<int> {
    first_from(|k: int| stutter_at(ch, k), 0, ch.len() as int)
}

/// One block: its bytes rewritten; when a letter in it follows a space, one
/// bit is drawn from `g`, and on a 1 the first such letter `c` becomes `c-c`.
/// Also the generator state after the block.
pub open spec fn stutter_block(ch: Seq<u8>, g: (u32, u32)) -> (Seq<u8>, (u32, u32)) {
    let r = ch.map_values(|b: u8| stutter_byte(b));
    match first_stutter(ch) {
        None => (r, g),
        Some(k) => (
            if rng_bits(g, 1) == 1 {
                r.take(k + 1) + seq![45u8] + r.skip(k)
            } else {
                r
            },
            rng_advance(g),
        ),
    }
}

/// `s` taken in blocks of 16 bytes (the last may be shorter), each rewritten
/// by `stutter_block` with the generator carried from block to block; the
/// output and the final generator state.
pub open spec fn stutter_run(s: Seq<u8>, g: (u32, u32)) -> (Seq<u8>, (u32, u32))
    decreases s.len(),
{
    if s.len() == 0 {
        (Seq::empty(), g)
    } else {
        let n = if s.len() < 16 {
            s.len() as int
        } else {
            16
        };
        let (o1, g1) = stutter_block(s.take(n), g);
        let (o2, g2) = stutter_run(s.skip(n), g1);
        (o1 + o2, g2)
    }
}

/// Byte `b` after the letter rewrite.
fn stutter_byte_exec(b: u8) -> (r: u8)
    ensures
        r == stutter_byte(b),
{
    let lower = b | 0x20;
    assert((97u8 <= (b | 0x20u8) && (b | 0x20u8) <= 122u8) == ((65u8 <= b && b <= 90u8) || (97u8
        <= b && b <= 122u8))) by (bit_vector);
    assert((65u8 <= b && b <= 90u8) ==> (b | 0x20u8) == b + 32) by (bit_vector);
    assert((97u8 <= b && b <= 122u8) ==> (b | 0x20u8) == b) by (bit_vector);
    if 97 <= lower && lower <= 122 {
        if lower == 108 || lower == 114 {
            119
        } else {
            lower
        }
    } else {
        b
    }
}

/// Whether byte `k` of the block `in_bytes[start..end]` is a letter that
/// follows a space.
fn letter_after_space(in_bytes: &[u8], start: usize, end: usize, k: usize) -> (r: bool)
    requires
        start <= end <= in_bytes@.len(),
        k < end - start,
    ensures
        r == stutter_at(in_bytes@.subrange(start as int, end as int), k as int),
{
    if k >= 1 && is_space_byte(in_bytes[start + k - 1]) {
        let b = in_bytes[start + k];
        let lower = b | 0x20;
        assert((97u8 <= (b | 0x20u8) && (b | 0x20u8) <= 122u8) == ((65u8 <= b && b <= 90u8) || (97u8
            <= b && b <= 122u8))) by (bit_vector);
        97 <= lower && lower <= 122
    } else {
        false
    }
}

/// Rewrites the letters of `in_bytes` (lower case, with `l` and `r` becoming
/// `w`) and, block by block of 16 bytes, makes the first letter that follows a
/// space stutter when a bit drawn from `rng` is 1. The output goes to the
/// front of `out_bytes`, which needs room for it; its length is returned.
pub fn stutter(in_bytes: &[u8], out_bytes: &mut [u8], rng: &mut XorShift32) -> (r: usize)
    requires
        old(out_bytes)@.len() >= stutter_run(in_bytes@, old(rng)@).0.len(),
    ensures
        r == stutter_run(in_bytes@, old(rng)@).0.len(),
        final(out_bytes)@.len() == old(out_bytes)@.len(),
        final(out_bytes)@.take(r as int) == stutter_run(in_bytes@, old(rng)@).0,
        final(rng)@ == stutter_run(in_bytes@, old(rng)@).1,
{
    let ghost s = in_bytes@;
    let ghost total = stutter_run(s, rng@).0;
    let n = in_bytes.len();
    let mut len: usize = 0;
    let mut start: usize = 0;
    assert(s.skip(0) =~= s);
    assert(out_bytes@.take(0) + stutter_run(s, rng@).0 =~= stutter_run(s, rng@).0);
    while start < n
        invariant
            s == in_bytes@,
            n == s.len(),
            start <= n,
            total == stutter_run(s, old(rng)@).0,
            total.len() <= out_bytes@.len(),
            out_bytes@.len() == old(out_bytes)@.len(),
            len <= out_bytes@.len(),
            out_bytes@.take(len as int) + stutter_run(s.skip(start as int), rng@).0 == total,
            stutter_run(s.skip(start as int), rng@).1 == stutter_run(s, old(rng)@).1,
        decreases n - start,
    {
        let end: usize = if n - start < 16 {
            n
        } else {
            start + 16
        };
        let ghost rest = s.skip(start as int);
        let ghost ch = rest.take(end - start);
        let ghost g = rng@;
        assert(ch =~= s.subrange(start as int, end as int));
        assert(rest.skip(end - start) =~= s.skip(end as int));
        let ghost blk = stutter_block(ch, g).0;
        assert(len + blk.len() <= total.len()) by {
            assert(stutter_run(rest, g).0 == blk + stutter_run(s.skip(end as int), stutter_block(ch, g).1).0);
            assert((out_bytes@.take(len as int) + stutter_run(rest, g).0).len() == total.len());
        }
        // the first letter that follows a space
        let ghost pred = |k: int| stutter_at(ch, k);
        let mut k: usize = 0;
        while k < end - start && !letter_after_space(in_bytes, start, end, k)
            invariant
                ch == s.subrange(start as int, end as int),
                s == in_bytes@,
                start < end <= s.len(),
                k <= end - start,
                pred == (|k: int| stutter_at(ch, k)),
                first_stutter(ch) == first_from(pred, k as int, ch.len() as int),
            decreases end - start - k,
        {
            k = k + 1;
        }
        let found = k < end - start;
        let mut stutters = false;
        if found {
            let bit = rng.gen_bits(1);
            stutters = bit == 1;
        }
        proof {
            lemma_first_from(pred, 0, ch.len() as int);
        }
        let ghost r = ch.map_values(|b: u8| stutter_byte(b));
        let ghost base = out_bytes@.take(len as int);
        let ghost blen = len;
        assert(blk == if stutters {
            r.take(k + 1) + seq![45u8] + r.skip(k as int)
        } else {
            r
        });
        let mut j: usize = start;
        while j < end
            invariant
                ch == s.subrange(start as int, end as int),
                r == ch.map_values(|b: u8| stutter_byte(b)),
                s == in_bytes@,
                start < end <= s.len(),
                start <= j <= end,
                found ==> start + k < end,
                k <= end - start,
                stutters ==> found,
                blk == if stutters {
                    r.take(k + 1) + seq![45u8] + r.skip(k as int)
                } else {
                    r
                },
                blen + blk.len() <= out_bytes@.len(),
                out_bytes@.len() == old(out_bytes)@.len(),
                base.len() == blen,
                r.len() == end - start,
                blk.len() == if stutters {
                    end - start + 2
                } else {
                    end - start
                },
                len == blen + if stutters && j > start + k {
                    j - start + 2
                } else {
                    j - start
                },
                out_bytes@.take(len as int) == base + if stutters && j > start + k {
                    r.take(k + 1) + seq![45u8] + r.subrange(k as int, j - start)
                } else {
                    r.take(j - start)
                },
            decreases end - j,
        {
            let ghost pre = out_bytes@.take(len as int);
            let c = stutter_byte_exec(in_bytes[j]);
            if stutters && j == start + k {
                out_bytes[len] = c;
                out_bytes[len + 1] = 45u8;
                out_bytes[len + 2] = c;
                len = len + 3;
                assert(out_bytes@.take(len as int) =~= pre.push(c).push(45u8).push(c));
                assert(r.take(k + 1) + seq![45u8] + r.subrange(k as int, k + 1) =~= r.take(
                    (j - start) as int,
                ).push(c).push(45u8).push(c));
            } else {
                out_bytes[len] = c;
                len = len + 1;
                assert(out_bytes@.take(len as int) =~= pre.push(c));
                if stutters && j > start + k {
                    assert(r.subrange(k as int, j + 1 - start) =~= r.subrange(k as int, j - start).push(
                        c,
                    ));
                } else {
                    assert(r.take(j + 1 - start) =~= r.take(j - start).push(c));
                }
            }
            j = j + 1;
        }
        proof {
            if stutters {
                assert(r.subrange(k as int, end - start) =~= r.skip(k as int));
            } else {
                assert(r.take(end - start) =~= r);
            }
            assert(out_bytes@.take(len as int) =~= base + stutter_block(ch, g).0);
            assert(rng@ == stutter_block(ch, g).1);
        }
        start = end;
    }
    assert(s.skip(n as int) =~= Seq::<u8>::empty());
    assert(out_bytes@.take(len as int) + Seq::<u8>::empty() =~= out_bytes@.take(len as int));
    len
}

/// Where the block `ch` stutters, if it does: the letter and whether the
/// drawn bit was 1.
pub open spec fn stutter_choice(ch: Seq<u8>, g: (u32, u32)) -> (int, bool) {
    match first_stutter(ch) {
        Some(k) => (k, rng_bits(g, 1) == 1),
        None => (0, false),
    }
}

/// Byte `j` of the block `ch` in the output: rewritten, and written out three
/// times (`c-c`) where the block stutters.
pub open spec fn stutter_piece(ch: Seq<u8>, g: (u32, u32), j: int) -> Seq<u8> {
    let (k, st) = stutter_choice(ch, g);
    if st && j == k {
        seq![stutter_byte(ch[j]), 45u8, stutter_byte(ch[j])]
    } else {
        seq![stutter_byte(ch[j])]
    }
}

/// The first `m` pieces of a block.
proof fn lemma_stutter_pieces_prefix(ch: Seq<u8>, g: (u32, u32), m: int)
    requires
        0 <= m <= ch.len(),
    ensures
        ({
            let r = ch.map_values(|b: u8| stutter_byte(b));
            let (k, st) = stutter_choice(ch, g);
            concat_pieces(|j: int| stutter_piece(ch, g, j), m) == if st && m > k {
                r.take(k + 1) + seq![45u8] + r.subrange(k, m)
            } else {
                r.take(m)
            }
        }),
    decreases m,
{
    let r = ch.map_values(|b: u8| stutter_byte(b));
    let (k, st) = stutter_choice(ch, g);
    let f = |j: int| stutter_piece(ch, g, j);
    lemma_first_from(|k: int| stutter_at(ch, k), 0, ch.len() as int);
    if m == 0 {
        assert(r.take(0) =~= Seq::<u8>::empty());
    } else {
        lemma_stutter_pieces_prefix(ch, g, m - 1);
        assert(concat_pieces(f, m) == concat_pieces(f, m - 1) + f(m - 1));
        if st && m - 1 == k {
            assert(r.take(k) + seq![r[k], 45u8, r[k]] =~= r.take(k + 1) + seq![45u8] + r.subrange(k, m));
        } else if st && m - 1 > k {
            assert(r.subrange(k, m) =~= r.subrange(k, m - 1).push(r[m - 1]));
        } else {
            assert(r.take(m) =~= r.take(m - 1).push(r[m - 1]));
        }
    }
}

/// A block is its pieces one after another.
proof fn lemma_stutter_block_pieces(ch: Seq<u8>, g: (u32, u32))
    ensures
        stutter_block(ch, g).0 == concat_pieces(|j: int| stutter_piece(ch, g, j), ch.len() as int),
{
    let r = ch.map_values(|b: u8| stutter_byte(b));
    lemma_stutter_pieces_prefix(ch, g, ch.len() as int);
    lemma_first_from(|k: int| stutter_at(ch, k), 0, ch.len() as int);
    assert(r.take(ch.len() as int) =~= r);
    assert(r.subrange(stutter_choice(ch, g).0, ch.len() as int) =~= r.skip(stutter_choice(ch, g).0));
}

/// The pieces of `s` in the stutter pass, block by block.
pub open spec fn stutter_segments(s: Seq<u8>, g: (u32, u32)) -> Seq<(Seq<u8>, Seq<u8>)>
    decreases s.len(),
{
    if s.len() == 0 {
        Seq::empty()
    } else {
        let n = if s.len() < 16 {
            s.len() as int
        } else {
            16
        };
        let ch = s.take(n);
        bytewise(ch, |j: int| stutter_piece(ch, g, j)) + stutter_segments(
            s.skip(n),
            stutter_block(ch, g).1,
        )
    }
}

/// The pieces of one block keep the bytes outside ASCII.
proof fn lemma_stutter_block_keeps(ch: Seq<u8>, g: (u32, u32))
    ensures
        segments_ok(bytewise(ch, |j: int| stutter_piece(ch, g, j))),
        sources(bytewise(ch, |j: int| stutter_piece(ch, g, j))) == ch,
        results(bytewise(ch, |j: int| stutter_piece(ch, g, j))) == stutter_block(ch, g).0,
{
    let f = |j: int| stutter_piece(ch, g, j);
    lemma_first_from(|k: int| stutter_at(ch, k), 0, ch.len() as int);
    assert forall|i: int| 0 <= i < ch.len() implies (ch[i] >= 128 ==> #[trigger] f(i) == seq![
        ch[i],
    ]) && (ch[i] < 128 ==> vstd::utf8::valid_utf8(f(i))) by {
        if ch[i] < 128 {
            assert(all_ascii(f(i)));
            lemma_ascii_valid(f(i));
        }
    }
    lemma_bytewise_keeps(ch, f);
    lemma_stutter_block_pieces(ch, g);
}

/// The pieces of the whole pass.
proof fn lemma_stutter_segments(s: Seq<u8>, g: (u32, u32))
    ensures
        segments_ok(stutter_segments(s, g)),
        sources(stutter_segments(s, g)) == s,
        results(stutter_segments(s, g)) == stutter_run(s, g).0,
    decreases s.len(),
{
    if s.len() > 0 {
        let n = if s.len() < 16 {
            s.len() as int
        } else {
            16
        };
        let ch = s.take(n);
        let a = bytewise(ch, |j: int| stutter_piece(ch, g, j));
        let b = stutter_segments(s.skip(n), stutter_block(ch, g).1);
        lemma_stutter_block_keeps(ch, g);
        lemma_stutter_segments(s.skip(n), stutter_block(ch, g).1);
        lemma_sources_results_concat(a, b);
        assert(ch + s.skip(n) =~= s);
        assert forall|i: int| 0 <= i < (a + b).len() implies crate::keep::segment_ok(
            #[trigger] (a + b)[i],
        ) by {
            if i < a.len() {
                assert((a + b)[i] == a[i]);
            } else {
                assert((a + b)[i] == b[i - a.len()]);
            }
        }
    } else {
        assert(sources(Seq::<(Seq<u8>, Seq<u8>)>::empty()) == Seq::<u8>::empty());
    }
}

/// The stutter pass keeps every byte outside ASCII as it is.
pub proof fn lemma_stutter_keeps_non_ascii(s: Seq<u8>, g: (u32, u32))
    ensures
        keeps_non_ascii(s, stutter_run(s, g).0),
{
    lemma_stutter_segments(s, g);
}

/// One block grows by at most two bytes and keeps its punctuation marks.
proof fn lemma_stutter_block_len(ch: Seq<u8>, g: (u32, u32))
    ensures
        stutter_block(ch, g).0.len() <= ch.len() + 2,
        puncts(stutter_block(ch, g).0) == puncts(ch),
{
    let f = |j: int| stutter_piece(ch, g, j);
    lemma_first_from(|k: int| stutter_at(ch, k), 0, ch.len() as int);
    lemma_stutter_block_pieces(ch, g);
    assert forall|j: int| 0 <= j < ch.len() implies count(#[trigger] f(j), 1) == count(seq![ch[j]], 1) by {
        let b = ch[j];
        lemma_count_single(b, 1);
        lemma_count_single(stutter_byte(b), 1);
        let (k, st) = stutter_choice(ch, g);
        if st && j == k {
            assert(f(j) =~= seq![stutter_byte(b)] + seq![45u8] + seq![stutter_byte(b)]);
            lemma_count_concat(seq![stutter_byte(b)], seq![45u8], 1);
            lemma_count_concat(seq![stutter_byte(b)] + seq![45u8], seq![stutter_byte(b)], 1);
            lemma_count_single(45u8, 1);
        }
    }
    lemma_count_pieces(ch, f, 1, ch.len() as int);
    assert(ch.take(ch.len() as int) =~= ch);
}

/// The stutter pass adds at most two bytes per block of 16 and keeps the
/// punctuation marks.
pub proof fn lemma_stutter_len(s: Seq<u8>, g: (u32, u32))
    ensures
        8 * stutter_run(s, g).0.len() <= 9 * s.len() + 15,
        puncts(stutter_run(s, g).0) == puncts(s),
    decreases s.len(),
{
    if s.len() == 0 {
        assert(stutter_run(s, g).0 =~= Seq::<u8>::empty());
        assert(s =~= Seq::<u8>::empty());
    } else {
        let n = if s.len() < 16 {
            s.len() as int
        } else {
            16
        };
        let ch = s.take(n);
        let (o1, g1) = stutter_block(ch, g);
        lemma_stutter_block_len(ch, g);
        lemma_stutter_len(s.skip(n), g1);
        assert(ch + s.skip(n) =~= s);
        lemma_count_concat(ch, s.skip(n), 1);
        lemma_count_concat(o1, stutter_run(s.skip(n), g1).0, 1);
        if s.len() <= 16 {
            assert(s.skip(n) =~= Seq::<u8>::empty());
            assert(stutter_run(s.skip(n), g1).0 =~= Seq::<u8>::empty());
        }
    }
}

/// A block that is the same up to ASCII case gives the same output: its
/// letters are lowered, and which letters follow a space does not depend on
/// case.
proof fn lemma_stutter_block_case(ch: Seq<u8>, ch2: Seq<u8>, g: (u32, u32))
    requires
        same_but_case(ch, ch2),
    ensures
        stutter_block(ch, g) == stutter_block(ch2, g),
{
    assert forall|k: int| 0 <= k < ch.len() implies stutter_byte(#[trigger] ch[k]) == stutter_byte(
        ch2[k],
    ) by {
        assert(ascii_lower(ch[k]) == ascii_lower(ch2[k]));
    }
    assert(ch.map_values(|b: u8| stutter_byte(b)) =~= ch2.map_values(|b: u8| stutter_byte(b)));
    assert forall|k: int| #[trigger] stutter_at(ch, k) == stutter_at(ch2, k) by {
        if 1 <= k < ch.len() {
            assert(ascii_lower(ch[k]) == ascii_lower(ch2[k]));
            assert(ascii_lower(ch[k - 1]) == ascii_lower(ch2[k - 1]));
        }
    }
    assert((|k: int| stutter_at(ch, k)) =~= (|k: int| stutter_at(ch2, k)));
}

/// Inputs that are the same up to ASCII case give the same output and the
/// same generator state.
pub proof fn lemma_stutter_ignores_case(s: Seq<u8>, t: Seq<u8>, g: (u32, u32))
    requires
        same_but_case(s, t),
    ensures
        stutter_run(s, g) == stutter_run(t, g),
    decreases s.len(),
{
    if s.len() > 0 {
        let n = if s.len() < 16 {
            s.len() as int
        } else {
            16
        };
        lemma_same_but_case_take(s, t, n);
        lemma_stutter_block_case(s.take(n), t.take(n), g);
        assert forall|i: int| 0 <= i < s.skip(n).len() implies #[trigger] ascii_lower(s.skip(n)[i])
            == ascii_lower(t.skip(n)[i]) by {
            assert(ascii_lower(s[n + i]) == ascii_lower(t[n + i]));
        }
        lemma_stutter_ignores_case(s.skip(n), t.skip(n), stutter_block(s.take(n), g).1);
    }
}

/// The letter rewrite: bytes other than ASCII letters stay as they are, `l`,
/// `L`, `r` and `R` become `w`, other lower-case letters stay, and other
/// upper-case letters go to lower case.
pub proof fn lemma_stutter_byte_rewrite(b: u8)
    ensures
        !(65 <= b <= 90 || 97 <= b <= 122) ==> stutter_byte(b) == b,
        (b == 76 || b == 108 || b == 82 || b == 114) ==> stutter_byte(b) == 119,
        (97 <= b <= 122 && b != 108 && b != 114) ==> stutter_byte(b) == b,
        (65 <= b <= 90 && b != 76 && b != 82) ==> stutter_byte(b) == b + 32,
{
}

/// Where a block may stutter: at an ASCII letter right after a space, a tab
/// or a line feed of the same block.
pub proof fn lemma_stutter_at_bytes(ch: Seq<u8>, k: int)
    ensures
        stutter_at(ch, k) <==> (1 <= k < ch.len() && (65 <= ch[k] <= 90 || 97 <= ch[k] <= 122)
            && (ch[k - 1] == 32 || ch[k - 1] == 9 || ch[k - 1] == 10)),
{
}

/// Input of one block goes through that block alone.
proof fn lemma_stutter_run_one_block(s: Seq<u8>, g: (u32, u32))
    requires
        0 < s.len() <= 16,
    ensures
        stutter_run(s, g) == stutter_block(s, g),
{
    let n = s.len() as int;
    let e = Seq::<u8>::empty();
    assert(s.take(n) =~= s);
    assert(s.skip(n) =~= e);
    let g1 = stutter_block(s, g).1;
    assert(stutter_run(e, g1) == (e, g1));
    assert(stutter_block(s, g).0 + e =~= stutter_block(s, g).0);
}

/// A block of at most 16 bytes with no letter right after a space, a tab or
/// a line feed: each byte goes through the letter rewrite, and nothing is
/// drawn from `g`.
pub proof fn lemma_stutter_block_plain(s: Seq<u8>, g: (u32, u32))
    requires
        s.len() <= 16,
        forall|k: int|
            1 <= k < s.len() ==> !(65 <= #[trigger] s[k] <= 90 || 97 <= s[k] <= 122) || !(s[k - 1]
                == 32 || s[k - 1] == 9 || s[k - 1] == 10),
    ensures
        stutter_run(s, g).0.len() == s.len(),
        forall|k: int| 0 <= k < s.len() ==> stutter_run(s, g).0[k] == stutter_byte(#[trigger] s[k]),
        stutter_run(s, g).1 == g,
{
    if s.len() > 0 {
        let pred = |k: int| stutter_at(s, k);
        lemma_first_from(pred, 0, s.len() as int);
        assert forall|k: int| 0 <= k < s.len() implies !#[trigger] pred(k) by {
            if k >= 1 {
                assert(!(65 <= s[k] <= 90 || 97 <= s[k] <= 122) || !(s[k - 1] == 32 || s[k - 1] == 9
                    || s[k - 1] == 10));
            }
        }
        assert(first_stutter(s) is None);
        lemma_stutter_run_one_block(s, g);
    }
}

/// A block of at most 16 bytes whose first letter right after a space, a tab
/// or a line feed is byte `k`: one bit is drawn from `g`; every byte goes
/// through the letter rewrite, and when the bit is 1 byte `k` is followed by
/// `-` and itself again.
pub proof fn lemma_stutter_block_at(s: Seq<u8>, g: (u32, u32), k: int)
    requires
        s.len() <= 16,
        1 <= k < s.len(),
        65 <= s[k] <= 90 || 97 <= s[k] <= 122,
        s[k - 1] == 32 || s[k - 1] == 9 || s[k - 1] == 10,
        forall|j: int|
            1 <= j < k ==> !(65 <= #[trigger] s[j] <= 90 || 97 <= s[j] <= 122) || !(s[j - 1] == 32
                || s[j - 1] == 9 || s[j - 1] == 10),
    ensures
        stutter_run(s, g).1 == rng_advance(g),
        rng_bits(g, 1) != 1 ==> stutter_run(s, g).0.len() == s.len() && forall|j: int|
            0 <= j < s.len() ==> stutter_run(s, g).0[j] == stutter_byte(#[trigger] s[j]),
        rng_bits(g, 1) == 1 ==> {
            &&& stutter_run(s, g).0.len() == s.len() + 2
            &&& forall|j: int| 0 <= j <= k ==> stutter_run(s, g).0[j] == stutter_byte(#[trigger] s[j])
            &&& stutter_run(s, g).0[k + 1] == 45
            &&& forall|j: int|
                k <= j < s.len() ==> stutter_run(s, g).0[j + 2] == stutter_byte(#[trigger] s[j])
        },
{
    let pred = |j: int| stutter_at(s, j);
    lemma_first_from(pred, 0, s.len() as int);
    assert(pred(k));
    assert forall|j: int| 0 <= j < k implies !#[trigger] pred(j) by {
        if j >= 1 {
            assert(!(65 <= s[j] <= 90 || 97 <= s[j] <= 122) || !(s[j - 1] == 32 || s[j - 1] == 9
                || s[j - 1] == 10));
        }
    }
    assert(first_stutter(s) == Some(k));
    lemma_stutter_run_one_block(s, g);
}

/// Input longer than a block: the first 16 bytes go through on their own,
/// and the rest follows with the generator where the first block left it.
pub proof fn lemma_stutter_blocks(s: Seq<u8>, g: (u32, u32))
    requires
        s.len() > 16,
    ensures
        stutter_run(s, g).0 == stutter_run(s.take(16), g).0 + stutter_run(
            s.skip(16),
            stutter_run(s.take(16), g).1,
        ).0,
        stutter_run(s, g).1 == stutter_run(s.skip(16), stutter_run(s.take(16), g).1).1,
{
    lemma_stutter_run_one_block(s.take(16), g);
}

} // verus!
