//! In each 16-byte block, an emoticon goes after the first punctuation mark
//! that ends a sentence or clause.
use super::text::{
    concat_pieces, lemma_count_concat, lemma_count_some, puncts, first_from, is_punct, is_punct_byte, is_space, is_space_byte, lemma_first_from};
use crate::keep::{
    all_ascii, bytewise, keeps_non_ascii, lemma_ascii_valid, lemma_bytewise_keeps,
    lemma_sources_results_concat, results, segments_ok, sources,
};
use crate::xorshift::{rng_advance, rng_bits, XorShift32};
use vstd::arithmetic::power2::{lemma2_to64, pow2};
use vstd::prelude::*;
use vstd::string::*;

verus! {

/// The emoticons; a 5-bit draw picks one.
pub const LUT: [&'static str; 32] = [
    " rawr x3",
    " OwO",
    " UwU",
    " o.O",
    " -.-",
    " >w<",
    " (⑅˘꒳˘)",
    " (ꈍᴗꈍ)",
    " (˘ω˘)",
    " (U ᵕ U❁)",
    " σωσ",
    " òωó",
    " (///ˬ///✿)",
    " (U ﹏ U)",
    " ( ͡o ω ͡o )",
    " ʘwʘ",
    " :3",
    " :3",
    " XD",
    " nyaa~~",
    " mya",
    " >_<",
    " 😳",
    " 🥺",
    " 😳😳😳",
    " rawr",
    " ^^",
    " ^^;;",
    " (ˆ ﻌ ˆ)♡",
    " ^•ﻌ•^",
    " /(^•ω•^)",
    " (✿oωo)",
];

/// The UTF-8 bytes of emoticon `i`.
pub open spec fn emoticon(i: int) -> Seq<u8> {
    LUT@[i].spec_bytes()
}

/// Byte `i` of `ch` is a punctuation mark, not right after another one, and
/// followed by a space within the block.
pub open spec fn emoji_at(ch: Seq<u8>, i: int) -> bool {
    &&& 0 <= i
    &&& i + 1 < ch.len()
    &&& is_punct(ch[i])
    &&& (i == 0 || !is_punct(ch[i - 1]))
    &&& is_space(ch[i + 1])
}

/// The first place in `ch` for an emoticon.
pub open spec fn first_emoji(ch: Seq<u8>) -> Option<int> {
    first_from(|i: int| emoji_at(ch, i), 0, ch.len() as int)
}

/// One block: when it has a place for an emoticon, five bits drawn from `g`
/// pick the emoticon that goes right after the first such punctuation mark.
/// Also the generator state after the block.
pub open spec fn emoji_block(ch: Seq<u8>, g: (u32, u32)) -> (Seq<u8>, (u32, u32)) {
    match first_emoji(ch) {
        None => (ch, g),
        Some(i) => (
            ch.take(i + 1) + emoticon(rng_bits(g, 5)) + ch.skip(i + 1),
            rng_advance(g),
        ),
    }
}

/// `s` taken in blocks of 16 bytes (the last may be shorter), each passed
/// through `emoji_block` with the generator carried from block to block; the
/// output and the final generator state.
pub open spec fn emoji_run(s: Seq<u8>, g: (u32, u32)) -> (Seq<u8>, (u32, u32))
    decreases s.len(),
{
    if s.len() == 0 {
        (Seq::empty(), g)
    } else {
        let n = if s.len() < 16 {
            s.len() as int
        } else {
            16
        };
        let (o1, g1) = emoji_block(s.take(n), g);
        let (o2, g2) = emoji_run(s.skip(n), g1);
        (o1 + o2, g2)
    }
}

/// Whether byte `i` of the block `in_bytes[start..end]` is a place for an
/// emoticon.
fn emoji_here(in_bytes: &[u8], start: usize, end: usize, i: usize) -> (r: bool)
    requires
        start <= end <= in_bytes@.len(),
        i < end - start,
    ensures
        r == emoji_at(in_bytes@.subrange(start as int, end as int), i as int),
{
    i + 1 < end - start && is_punct_byte(in_bytes[start + i]) && (i == 0 || !is_punct_byte(
        in_bytes[start + i - 1],
    )) && is_space_byte(in_bytes[start + i + 1])
}

/// Writes `in_bytes[from..to]` into `out` from index `w` on; returns the index
/// after it. Nothing else in `out` changes.
fn write_range(in_bytes: &[u8], from: usize, to: usize, out: &mut [u8], w: usize) -> (r: usize)
    requires
        from <= to <= in_bytes@.len(),
        w + (to - from) <= old(out)@.len(),
    ensures
        r == w + (to - from),
        final(out)@.len() == old(out)@.len(),
        final(out)@.take(r as int) == old(out)@.take(w as int) + in_bytes@.subrange(
            from as int,
            to as int,
        ),
        forall|q: int| r <= q < final(out)@.len() ==> final(out)@[q] == old(out)@[q],
{
    let mut j: usize = from;
    let mut p: usize = w;
    while j < to
        invariant
            from <= j <= to <= in_bytes@.len(),
            p == w + (j - from),
            w + (to - from) <= out@.len(),
            out@.len() == old(out)@.len(),
            out@.take(p as int) == old(out)@.take(w as int) + in_bytes@.subrange(
                from as int,
                j as int,
            ),
            forall|q: int| p <= q < out@.len() ==> out@[q] == old(out)@[q],
        decreases to - j,
    {
        let ghost pre = out@.take(p as int);
        out[p] = in_bytes[j];
        assert(out@.take(p + 1) =~= pre.push(in_bytes@[j as int]));
        assert(in_bytes@.subrange(from as int, j + 1) =~= in_bytes@.subrange(
            from as int,
            j as int,
        ).push(in_bytes@[j as int]));
        j = j + 1;
        p = p + 1;
    }
    p
}

/// Writes the block `in_bytes[start..end]`, with its emoticon if it gets one,
/// into `out` from index `w` on; returns the index after it. Nothing else in
/// `out` changes.
fn emoji_block_into(
    in_bytes: &[u8],
    start: usize,
    end: usize,
    rng: &mut XorShift32,
    out: &mut [u8],
    w: usize,
) -> (r: usize)
    requires
        start < end <= in_bytes@.len(),
        w + emoji_block(in_bytes@.subrange(start as int, end as int), old(rng)@).0.len()
            <= old(out)@.len(),
    ensures
        r == w + emoji_block(in_bytes@.subrange(start as int, end as int), old(rng)@).0.len(),
        final(out)@.len() == old(out)@.len(),
        final(out)@.take(r as int) == old(out)@.take(w as int) + emoji_block(
            in_bytes@.subrange(start as int, end as int),
            old(rng)@,
        ).0,
        forall|q: int| r <= q < final(out)@.len() ==> final(out)@[q] == old(out)@[q],
        final(rng)@ == emoji_block(in_bytes@.subrange(start as int, end as int), old(rng)@).1,
{
    let ghost s = in_bytes@;
    let ghost ch = s.subrange(start as int, end as int);
    let ghost g = rng@;
    let ghost pred = |i: int| emoji_at(ch, i);
    let mut i: usize = 0;
    while i < end - start && !emoji_here(in_bytes, start, end, i)
        invariant
            ch == s.subrange(start as int, end as int),
            s == in_bytes@,
            start < end <= s.len(),
            i <= end - start,
            pred == (|i: int| emoji_at(ch, i)),
            first_emoji(ch) == first_from(pred, i as int, ch.len() as int),
        decreases end - start - i,
    {
        i = i + 1;
    }
    proof {
        lemma_first_from(pred, 0, ch.len() as int);
    }
    if i < end - start {
        let pick = rng.gen_bits(5);
        proof {
            lemma2_to64();
        }
        let ghost ins = emoticon(pick as int);
        assert(emoji_block(ch, g).0 == ch.take(i + 1) + ins + ch.skip(i + 1));
        let p = write_range(in_bytes, start, start + i + 1, out, w);
        let insert = LUT[pick as usize].as_bytes();
        let ghost mid = out@;
        let mut t: usize = 0;
        while t < insert.len()
            invariant
                insert@ == ins,
                t <= ins.len(),
                i < end - start,
                p + ins.len() + (end - start - i - 1) <= out.len(),
                out@.len() == mid.len(),
                out@.take(p + t) == mid.take(p as int) + ins.take(t as int),
                forall|q: int| p + t <= q < out@.len() ==> out@[q] == mid[q],
            decreases ins.len() - t,
        {
            let ghost pre = out@.take(p + t);
            out[p + t] = insert[t];
            assert(out@.take(p + t + 1) =~= pre.push(insert@[t as int]));
            assert(ins.take(t + 1) =~= ins.take(t as int).push(insert@[t as int]));
            t = t + 1;
        }
        let r = write_range(in_bytes, start + i + 1, end, out, p + insert.len());
        proof {
            assert(ins.take(ins.len() as int) =~= ins);
            assert(ch.take(i + 1) =~= s.subrange(start as int, start + i + 1));
            assert(ch.skip(i + 1) =~= s.subrange(start + i + 1, end as int));
            assert(mid.take(p as int) =~= old(out)@.take(w as int) + ch.take(i + 1));
            assert(final(out)@.take(r as int) =~= old(out)@.take(w as int) + emoji_block(ch, g).0);
        }
        r
    } else {
        assert(emoji_block(ch, g).0 == ch);
        write_range(in_bytes, start, end, out, w)
    }
}

/// The emoticon pass never shortens its input.
pub proof fn lemma_emoji_run_grows(s: Seq<u8>, g: (u32, u32))
    ensures
        emoji_run(s, g).0.len() >= s.len(),
    decreases s.len(),
{
    if s.len() > 0 {
        let n = if s.len() < 16 {
            s.len() as int
        } else {
            16
        };
        let ch = s.take(n);
        lemma_first_from(|i: int| emoji_at(ch, i), 0, ch.len() as int);
        lemma_emoji_run_grows(s.skip(n), emoji_block(ch, g).1);
    }
}

/// Block by block of 16 bytes, puts an emoticon drawn from `rng` right after
/// the first punctuation mark that follows no other one and comes before a
/// space in the block. The input is `buf[start..start + len]`; the output
/// goes to the front of `buf`, over the input as it is consumed, and its
/// length is returned. The output must fit in `buf[..start + len]`, so that
/// it never overtakes the input still to be read.
pub fn emoji(buf: &mut [u8], start: usize, len: usize, rng: &mut XorShift32) -> (r: usize)
    requires
        start + len <= old(buf)@.len(),
        emoji_run(old(buf)@.subrange(start as int, start + len), old(rng)@).0.len() <= start + len,
    ensures
        r == emoji_run(old(buf)@.subrange(start as int, start + len), old(rng)@).0.len(),
        final(buf)@.len() == old(buf)@.len(),
        final(buf)@.take(r as int) == emoji_run(
            old(buf)@.subrange(start as int, start + len),
            old(rng)@,
        ).0,
        final(rng)@ == emoji_run(old(buf)@.subrange(start as int, start + len), old(rng)@).1,
{
    let ghost s = buf@.subrange(start as int, start + len);
    let ghost total = emoji_run(s, rng@).0;
    let mut w: usize = 0;
    let mut pos: usize = 0;
    assert(s.skip(0) =~= s);
    assert(buf@.take(0) + emoji_run(s, rng@).0 =~= emoji_run(s, rng@).0);
    while pos < len
        invariant
            s.len() == len,
            start + len <= buf.len(),
            buf@.len() == old(buf)@.len(),
            w <= start + pos,
            total == emoji_run(s, old(rng)@).0,
            total.len() <= start + len,
            pos <= len,
            buf@.subrange(start + pos, start + len) == s.skip(pos as int),
            buf@.take(w as int) + emoji_run(s.skip(pos as int), rng@).0 == total,
            emoji_run(s.skip(pos as int), rng@).1 == emoji_run(s, old(rng)@).1,
        decreases len - pos,
    {
        let end: usize = if len - pos < 16 {
            len
        } else {
            pos + 16
        };
        let bl = end - pos;
        let ghost rest = s.skip(pos as int);
        let ghost ch = rest.take(bl as int);
        let ghost g = rng@;
        assert(ch =~= s.subrange(pos as int, end as int));
        assert(rest.skip(bl as int) =~= s.skip(end as int));
        let mut blk: [u8; 16] = [0u8; 16];
        let mut t: usize = 0;
        while t < bl
            invariant
                t <= bl <= 16,
                pos + bl <= len,
                start + len <= buf.len(),
                buf@.subrange(start + pos, start + len) == rest,
                rest.len() == len - pos,
                forall|q: int| 0 <= q < t ==> blk@[q] == rest[q],
            decreases bl - t,
        {
            assert(buf@[start + pos + t] == rest[t as int]);
            blk[t] = buf[start + pos + t];
            t = t + 1;
        }
        let blk_slice = blk.as_slice();
        assert(blk_slice@.subrange(0, bl as int) =~= ch);
        proof {
            lemma_emoji_run_grows(s.skip(end as int), emoji_block(ch, g).1);
            assert(emoji_run(rest, g).0 == emoji_block(ch, g).0 + emoji_run(
                s.skip(end as int),
                emoji_block(ch, g).1,
            ).0);
            assert((buf@.take(w as int) + emoji_run(rest, g).0).len() == total.len());
            assert(w + emoji_block(ch, g).0.len() <= start + end);
        }
        let ghost before = buf@;
        let ghost w0 = w;
        let ghost before_take = buf@.take(w as int);
        w = emoji_block_into(blk_slice, 0, bl, rng, buf, w);
        assert(w <= start + end);
        assert forall|q: int| 0 <= q < len - end implies #[trigger] buf@.subrange(
            start + end,
            start + len,
        )[q] == before.subrange(start + end, start + len)[q] by {
            assert(buf@[start + end + q] == before[start + end + q]);
        }
        assert(buf@.subrange(start + end, start + len) =~= before.subrange(start + end, start + len));
        assert(before.subrange(start + end, start + len) =~= rest.skip(bl as int));
        assert(buf@.take(w as int) == before_take + emoji_block(ch, g).0);
        assert(buf@.take(w as int) + emoji_run(s.skip(end as int), rng@).0 =~= total);
        pos = end;
    }
    assert(s.skip(len as int) =~= Seq::<u8>::empty());
    assert(buf@.take(w as int) + Seq::<u8>::empty() =~= buf@.take(w as int));
    w
}

/// Byte `j` of the block `ch` in the output, followed by the emoticon when
/// it is the place for one.
pub open spec fn emoji_piece(ch: Seq<u8>, g: (u32, u32), j: int) -> Seq<u8> {
    if first_emoji(ch) == Some(j) {
        seq![ch[j]] + emoticon(rng_bits(g, 5))
    } else {
        seq![ch[j]]
    }
}

/// The first `m` pieces of a block.
proof fn lemma_emoji_pieces_prefix(ch: Seq<u8>, g: (u32, u32), m: int)
    requires
        0 <= m <= ch.len(),
    ensures
        concat_pieces(|j: int| emoji_piece(ch, g, j), m) == match first_emoji(ch) {
            Some(i) => if m > i {
                ch.take(i + 1) + emoticon(rng_bits(g, 5)) + ch.subrange(i + 1, m)
            } else {
                ch.take(m)
            },
            None => ch.take(m),
        },
    decreases m,
{
    let f = |j: int| emoji_piece(ch, g, j);
    let e = emoticon(rng_bits(g, 5));
    lemma_first_from(|i: int| emoji_at(ch, i), 0, ch.len() as int);
    if m == 0 {
        assert(ch.take(0) =~= Seq::<u8>::empty());
    } else {
        lemma_emoji_pieces_prefix(ch, g, m - 1);
        assert(concat_pieces(f, m) == concat_pieces(f, m - 1) + f(m - 1));
        match first_emoji(ch) {
            Some(i) => {
                if m - 1 == i {
                    assert(ch.take(i) + (seq![ch[i]] + e) =~= ch.take(i + 1) + e + ch.subrange(
                        i + 1,
                        m,
                    ));
                } else if m - 1 > i {
                    assert(ch.subrange(i + 1, m) =~= ch.subrange(i + 1, m - 1).push(ch[m - 1]));
                } else {
                    assert(ch.take(m) =~= ch.take(m - 1).push(ch[m - 1]));
                }
            },
            None => {
                assert(ch.take(m) =~= ch.take(m - 1).push(ch[m - 1]));
            },
        }
    }
}

/// The pieces of one block keep the bytes outside ASCII.
proof fn lemma_emoji_block_keeps(ch: Seq<u8>, g: (u32, u32))
    ensures
        segments_ok(bytewise(ch, |j: int| emoji_piece(ch, g, j))),
        sources(bytewise(ch, |j: int| emoji_piece(ch, g, j))) == ch,
        results(bytewise(ch, |j: int| emoji_piece(ch, g, j))) == emoji_block(ch, g).0,
{
    let f = |j: int| emoji_piece(ch, g, j);
    let e = emoticon(rng_bits(g, 5));
    lemma_first_from(|i: int| emoji_at(ch, i), 0, ch.len() as int);
    assert(vstd::utf8::valid_utf8(e)) by {
        vstd::utf8::encode_utf8_valid_utf8(LUT@[rng_bits(g, 5)]@);
    }
    assert forall|i: int| 0 <= i < ch.len() implies (ch[i] >= 128 ==> #[trigger] f(i) == seq![
        ch[i],
    ]) && (ch[i] < 128 ==> vstd::utf8::valid_utf8(f(i))) by {
        if ch[i] < 128 {
            assert(all_ascii(seq![ch[i]]));
            lemma_ascii_valid(seq![ch[i]]);
            vstd::utf8::valid_utf8_concat(seq![ch[i]], e);
        }
    }
    lemma_bytewise_keeps(ch, f);
    lemma_emoji_pieces_prefix(ch, g, ch.len() as int);
    assert(ch.take(ch.len() as int) =~= ch);
    if let Some(i) = first_emoji(ch) {
        assert(ch.subrange(i + 1, ch.len() as int) =~= ch.skip(i + 1));
    }
}

/// The pieces of `s` in the emoticon pass, block by block.
pub open spec fn emoji_segments(s: Seq<u8>, g: (u32, u32)) -> Seq<(Seq<u8>, Seq<u8>)>
    decreases s.len(),
{
    if s.len() == 0 {
        Seq::empty()
    } else {
        let n = if s.len() < 16 {
            s.len() as int
        } else {
            16
        };
        let ch = s.take(n);
        bytewise(ch, |j: int| emoji_piece(ch, g, j)) + emoji_segments(s.skip(n), emoji_block(ch, g).1)
    }
}

/// The pieces of the whole pass.
proof fn lemma_emoji_segments(s: Seq<u8>, g: (u32, u32))
    ensures
        segments_ok(emoji_segments(s, g)),
        sources(emoji_segments(s, g)) == s,
        results(emoji_segments(s, g)) == emoji_run(s, g).0,
    decreases s.len(),
{
    if s.len() > 0 {
        let n = if s.len() < 16 {
            s.len() as int
        } else {
            16
        };
        let ch = s.take(n);
        let a = bytewise(ch, |j: int| emoji_piece(ch, g, j));
        let b = emoji_segments(s.skip(n), emoji_block(ch, g).1);
        lemma_emoji_block_keeps(ch, g);
        lemma_emoji_segments(s.skip(n), emoji_block(ch, g).1);
        lemma_sources_results_concat(a, b);
        assert(ch + s.skip(n) =~= s);
        assert forall|i: int| 0 <= i < (a + b).len() implies crate::keep::segment_ok(
            #[trigger] (a + b)[i],
        ) by {
            if i < a.len() {
                assert((a + b)[i] == a[i]);
            } else {
                assert((a + b)[i] == b[i - a.len()]);
            }
        }
    } else {
        assert(sources(Seq::<(Seq<u8>, Seq<u8>)>::empty()) == Seq::<u8>::empty());
    }
}

/// The emoticon pass keeps every byte outside ASCII as it is.
pub proof fn lemma_emoji_keeps_non_ascii(s: Seq<u8>, g: (u32, u32))
    ensures
        keeps_non_ascii(s, emoji_run(s, g).0),
{
    lemma_emoji_segments(s, g);
}

/// No emoticon is longer than 15 bytes.
pub proof fn lemma_emoticons_short()
    ensures
        forall|i: int| 0 <= i < 32 ==> #[trigger] emoticon(i).len() <= 15,
{
    reveal_with_fuel(vstd::utf8::encode_utf8, 13);
    reveal_strlit(" rawr x3");
    reveal_strlit(" OwO");
    reveal_strlit(" UwU");
    reveal_strlit(" o.O");
    reveal_strlit(" -.-");
    reveal_strlit(" >w<");
    reveal_strlit(" (⑅˘꒳˘)");
    reveal_strlit(" (ꈍᴗꈍ)");
    reveal_strlit(" (˘ω˘)");
    reveal_strlit(" (U ᵕ U❁)");
    reveal_strlit(" σωσ");
    reveal_strlit(" òωó");
    reveal_strlit(" (///ˬ///✿)");
    reveal_strlit(" (U ﹏ U)");
    reveal_strlit(" ( ͡o ω ͡o )");
    reveal_strlit(" ʘwʘ");
    reveal_strlit(" :3");
    reveal_strlit(" XD");
    reveal_strlit(" nyaa~~");
    reveal_strlit(" mya");
    reveal_strlit(" >_<");
    reveal_strlit(" 😳");
    reveal_strlit(" 🥺");
    reveal_strlit(" 😳😳😳");
    reveal_strlit(" rawr");
    reveal_strlit(" ^^");
    reveal_strlit(" ^^;;");
    reveal_strlit(" (ˆ ﻌ ˆ)♡");
    reveal_strlit(" ^•ﻌ•^");
    reveal_strlit(" /(^•ω•^)");
    reveal_strlit(" (✿oωo)");
    assert(emoticon(0).len() <= 15);
    assert(emoticon(1).len() <= 15);
    assert(emoticon(2).len() <= 15);
    assert(emoticon(3).len() <= 15);
    assert(emoticon(4).len() <= 15);
    assert(emoticon(5).len() <= 15);
    assert(emoticon(6).len() <= 15);
    assert(emoticon(7).len() <= 15);
    assert(emoticon(8).len() <= 15);
    assert(emoticon(9).len() <= 15);
    assert(emoticon(10).len() <= 15);
    assert(emoticon(11).len() <= 15);
    assert(emoticon(12).len() <= 15);
    assert(emoticon(13).len() <= 15);
    assert(emoticon(14).len() <= 15);
    assert(emoticon(15).len() <= 15);
    assert(emoticon(16).len() <= 15);
    assert(emoticon(17).len() <= 15);
    assert(emoticon(18).len() <= 15);
    assert(emoticon(19).len() <= 15);
    assert(emoticon(20).len() <= 15);
    assert(emoticon(21).len() <= 15);
    assert(emoticon(22).len() <= 15);
    assert(emoticon(23).len() <= 15);
    assert(emoticon(24).len() <= 15);
    assert(emoticon(25).len() <= 15);
    assert(emoticon(26).len() <= 15);
    assert(emoticon(27).len() <= 15);
    assert(emoticon(28).len() <= 15);
    assert(emoticon(29).len() <= 15);
    assert(emoticon(30).len() <= 15);
    assert(emoticon(31).len() <= 15);
}

/// One block grows by at most 15 bytes, and only when it has a punctuation
/// mark.
proof fn lemma_emoji_block_len(ch: Seq<u8>, g: (u32, u32))
    ensures
        emoji_block(ch, g).0.len() <= ch.len() + 15,
        emoji_block(ch, g).0.len() <= ch.len() + 15 * puncts(ch),
{
    lemma_first_from(|i: int| emoji_at(ch, i), 0, ch.len() as int);
    if let Some(i) = first_emoji(ch) {
        lemma2_to64();
        lemma_emoticons_short();
        let pick = rng_bits(g, 5);
        assert(0 <= pick < 32);
        assert(emoticon(pick).len() <= 15);
        lemma_count_some(ch, 1, i);
    }
}

/// The emoticon pass adds at most 15 bytes per block of 16 and per
/// punctuation mark.
pub proof fn lemma_emoji_len(s: Seq<u8>, g: (u32, u32))
    ensures
        emoji_run(s, g).0.len() <= s.len() + 15 * puncts(s),
        16 * emoji_run(s, g).0.len() <= 31 * s.len() + 225,
    decreases s.len(),
{
    if s.len() == 0 {
        assert(emoji_run(s, g).0 =~= Seq::<u8>::empty());
    } else {
        let n = if s.len() < 16 {
            s.len() as int
        } else {
            16
        };
        let ch = s.take(n);
        let (o1, g1) = emoji_block(ch, g);
        lemma_emoji_block_len(ch, g);
        lemma_emoji_len(s.skip(n), g1);
        assert(ch + s.skip(n) =~= s);
        lemma_count_concat(ch, s.skip(n), 1);
        if s.len() <= 16 {
            assert(s.skip(n) =~= Seq::<u8>::empty());
            assert(emoji_run(s.skip(n), g1).0 =~= Seq::<u8>::empty());
        }
    }
}

/// Input of one block goes through that block alone.
proof fn lemma_emoji_run_one_block(s: Seq<u8>, g: (u32, u32))
    requires
        0 < s.len() <= 16,
    ensures
        emoji_run(s, g) == emoji_block(s, g),
{
    let n = s.len() as int;
    let e = Seq::<u8>::empty();
    assert(s.take(n) =~= s);
    assert(s.skip(n) =~= e);
    let g1 = emoji_block(s, g).1;
    assert(emoji_run(e, g1) == (e, g1));
    assert(emoji_block(s, g).0 + e =~= emoji_block(s, g).0);
}

/// A place for an emoticon: byte `i` is a comma, a full stop or an
/// exclamation mark, the byte before it (if any) is none of these, and the
/// byte after it, in the same block, is a space, a tab or a line feed.
pub proof fn lemma_emoji_at_bytes(ch: Seq<u8>, i: int)
    ensures
        emoji_at(ch, i) <==> (0 <= i && i + 1 < ch.len() && (ch[i] == 44 || ch[i] == 46 || ch[i]
            == 33) && (i == 0 || !(ch[i - 1] == 44 || ch[i - 1] == 46 || ch[i - 1] == 33)) && (ch[i
            + 1] == 32 || ch[i + 1] == 9 || ch[i + 1] == 10)),
{
}

/// A block of at most 16 bytes whose first place for an emoticon is `i`
/// gets, right after byte `i`, the emoticon that five bits drawn from `g`
/// pick, and the generator moves on by one draw.
pub proof fn lemma_emoji_block_place(s: Seq<u8>, g: (u32, u32), i: int)
    requires
        s.len() <= 16,
        0 <= i,
        i + 1 < s.len(),
        s[i] == 44 || s[i] == 46 || s[i] == 33,
        i == 0 || !(s[i - 1] == 44 || s[i - 1] == 46 || s[i - 1] == 33),
        s[i + 1] == 32 || s[i + 1] == 9 || s[i + 1] == 10,
        forall|j: int|
            0 <= j < i ==> !(#[trigger] s[j] == 44 || s[j] == 46 || s[j] == 33) || (j > 0 && (s[j
                - 1] == 44 || s[j - 1] == 46 || s[j - 1] == 33)) || !(s[j + 1] == 32 || s[j + 1]
                == 9 || s[j + 1] == 10),
    ensures
        emoji_run(s, g).0 == s.take(i + 1) + LUT@[rng_bits(g, 5) as int].spec_bytes() + s.skip(
            i + 1,
        ),
        emoji_run(s, g).1 == rng_advance(g),
{
    let pred = |k: int| emoji_at(s, k);
    lemma_first_from(pred, 0, s.len() as int);
    assert(pred(i));
    assert forall|j: int| 0 <= j < i implies !#[trigger] pred(j) by {
        assert(s[j] == 44 || s[j] == 46 || s[j] == 33 ==> (j > 0 && (s[j - 1] == 44 || s[j - 1]
            == 46 || s[j - 1] == 33)) || !(s[j + 1] == 32 || s[j + 1] == 9 || s[j + 1] == 10));
    }
    assert(first_emoji(s) == Some(i));
    lemma_emoji_run_one_block(s, g);
}

/// A block of at most 16 bytes with no place for an emoticon comes out as it
/// went in, and nothing is drawn from `g`.
pub proof fn lemma_emoji_block_none(s: Seq<u8>, g: (u32, u32))
    requires
        s.len() <= 16,
        forall|j: int|
            0 <= j && j + 1 < s.len() ==> !(#[trigger] s[j] == 44 || s[j] == 46 || s[j] == 33) || (
            j > 0 && (s[j - 1] == 44 || s[j - 1] == 46 || s[j - 1] == 33)) || !(s[j + 1] == 32
                || s[j + 1] == 9 || s[j + 1] == 10),
    ensures
        emoji_run(s, g) == (s, g),
{
    if s.len() > 0 {
        let pred = |k: int| emoji_at(s, k);
        lemma_first_from(pred, 0, s.len() as int);
        assert forall|j: int| 0 <= j < s.len() implies !#[trigger] pred(j) by {
            if j + 1 < s.len() {
                assert(s[j] == 44 || s[j] == 46 || s[j] == 33 ==> (j > 0 && (s[j - 1] == 44 || s[j
                    - 1] == 46 || s[j - 1] == 33)) || !(s[j + 1] == 32 || s[j + 1] == 9 || s[j + 1]
                    == 10));
            }
        }
        assert(first_emoji(s) is None);
        lemma_emoji_run_one_block(s, g);
    }
}

/// Input longer than a block: the first 16 bytes go through on their own,
/// and the rest follows with the generator where the first block left it.
pub proof fn lemma_emoji_blocks(s: Seq<u8>, g: (u32, u32))
    requires
        s.len() > 16,
    ensures
        emoji_run(s, g).0 == emoji_run(s.take(16), g).0 + emoji_run(
            s.skip(16),
            emoji_run(s.take(16), g).1,
        ).0,
        emoji_run(s, g).1 == emoji_run(s.skip(16), emoji_run(s.take(16), g).1).1,
{
    lemma_emoji_run_one_block(s.take(16), g);
}

} // verus!
