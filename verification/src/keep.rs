//! Rewrites that keep every byte outside ASCII as it is, and what they do to
//! UTF-8 text.
use crate::transform::text::concat_pieces;
use vstd::prelude::*;
use vstd::utf8::*;

verus! {

/// Every byte of `s` is ASCII.
pub open spec fn all_ascii(s: Seq<u8>) -> bool {
    forall|i: int| 0 <= i < s.len() ==> #[trigger] s[i] < 128
}

/// A piece of a rewrite, from `seg.0` (input bytes) to `seg.1` (output
/// bytes): either one byte outside ASCII kept as it is, or one or more ASCII
/// bytes rewritten into valid UTF-8.
pub open spec fn segment_ok(seg: (Seq<u8>, Seq<u8>)) -> bool {
    ||| (seg.0.len() == 1 && seg.0[0] >= 128 && seg.1 == seg.0)
    ||| (seg.0.len() >= 1 && all_ascii(seg.0) && valid_utf8(seg.1))
}

/// The input bytes of the pieces, one after another.
pub open spec fn sources(segs: Seq<(Seq<u8>, Seq<u8>)>) -> Seq<u8>
    decreases segs.len(),
{
    if segs.len() == 0 {
        Seq::empty()
    } else {
        segs[0].0 + sources(segs.drop_first())
    }
}

/// The output bytes of the pieces, one after another.
pub open spec fn results(segs: Seq<(Seq<u8>, Seq<u8>)>) -> Seq<u8>
    decreases segs.len(),
{
    if segs.len() == 0 {
        Seq::empty()
    } else {
        segs[0].1 + results(segs.drop_first())
    }
}

/// Every piece is a well-formed piece of a rewrite.
pub open spec fn segments_ok(segs: Seq<(Seq<u8>, Seq<u8>)>) -> bool {
    forall|i: int| 0 <= i < segs.len() ==> segment_ok(#[trigger] segs[i])
}

/// `o` is `s` with each byte outside ASCII kept as it is and each run of ASCII
/// bytes (in some division of the ASCII bytes into runs) rewritten into valid
/// UTF-8.
pub open spec fn keeps_non_ascii(s: Seq<u8>, o: Seq<u8>) -> bool {
    exists|segs: Seq<(Seq<u8>, Seq<u8>)>|
        segments_ok(segs) && sources(segs) == s && #[trigger] results(segs) == o
}

/// The sources and results of pieces placed one after another.
pub proof fn lemma_sources_results_concat(a: Seq<(Seq<u8>, Seq<u8>)>, b: Seq<(Seq<u8>, Seq<u8>)>)
    ensures
        sources(a + b) == sources(a) + sources(b),
        results(a + b) == results(a) + results(b),
    decreases a.len(),
{
    if a.len() == 0 {
        assert(a + b =~= b);
    } else {
        assert((a + b).drop_first() =~= a.drop_first() + b);
        lemma_sources_results_concat(a.drop_first(), b);
    }
}

/// A sequence of ASCII bytes is valid UTF-8.
pub proof fn lemma_ascii_valid(s: Seq<u8>)
    requires
        all_ascii(s),
    ensures
        valid_utf8(s),
    decreases s.len(),
{
    if s.len() > 0 {
        assert(pop_first_scalar(s) =~= s.drop_first());
        lemma_ascii_valid(s.drop_first());
    }
}

/// Valid UTF-8 stays valid when ASCII bytes in front of it are taken away.
proof fn lemma_drop_ascii_prefix(a: Seq<u8>, r: Seq<u8>)
    requires
        all_ascii(a),
        valid_utf8(a + r),
    ensures
        valid_utf8(r),
    decreases a.len(),
{
    if a.len() > 0 {
        assert((a + r)[0] == a[0]);
        assert(pop_first_scalar(a + r) =~= a.drop_first() + r);
        lemma_drop_ascii_prefix(a.drop_first(), r);
    }
}

/// The result of a rewrite is valid UTF-8 when `p` (a proper beginning of one
/// character's encoding) followed by its input is.
proof fn lemma_keep_valid_from(p: Seq<u8>, segs: Seq<(Seq<u8>, Seq<u8>)>)
    requires
        segments_ok(segs),
        valid_utf8(p + sources(segs)),
        p.len() == 0 || p.len() < length_of_first_scalar(p + sources(segs)),
    ensures
        valid_utf8(p + results(segs)),
    decreases segs.len(),
{
    let x = p + sources(segs);
    if segs.len() == 0 {
        assert(x =~= p);
        assert(p + results(segs) =~= p);
    } else {
        let seg = segs[0];
        let rest = segs.drop_first();
        assert(segment_ok(segs[0]));
        assert(x =~= p + seg.0 + sources(rest));
        if seg.0.len() == 1 && seg.0[0] >= 128 {
            let q = p.push(seg.0[0]);
            assert(q + sources(rest) =~= x);
            assert(q + results(rest) =~= p + results(segs));
            assert(valid_first_scalar(x));
            let len = length_of_first_scalar(x);
            if q.len() < len {
                lemma_keep_valid_from(q, rest);
            } else {
                // `q` is one whole character
                assert(q.len() == len);
                assert(x[0] >= 128);
                assert(q =~= x.subrange(0, len));
                assert(valid_first_scalar(q));
                assert(pop_first_scalar(q) =~= Seq::<u8>::empty());
                assert(valid_utf8(q)) by {
                    reveal_with_fuel(valid_utf8, 2);
                }
                assert(pop_first_scalar(x) =~= sources(rest));
                assert(valid_utf8(sources(rest)));
                lemma_keep_valid_from(Seq::empty(), rest);
                assert(Seq::<u8>::empty() + results(rest) =~= results(rest));
                assert(Seq::<u8>::empty() + sources(rest) =~= sources(rest));
                valid_utf8_concat(q, results(rest));
            }
        } else {
            assert(all_ascii(seg.0) && seg.0.len() >= 1);
            if p.len() > 0 {
                // the byte after `p` continues its character, so it is not ASCII
                assert(valid_first_scalar(x));
                assert(x[p.len() as int] == seg.0[0]);
                assert(seg.0[0] < 128);
                assert(false);
            }
            assert(x =~= seg.0 + sources(rest));
            lemma_drop_ascii_prefix(seg.0, sources(rest));
            assert(Seq::<u8>::empty() + sources(rest) =~= sources(rest));
            lemma_keep_valid_from(Seq::empty(), rest);
            assert(Seq::<u8>::empty() + results(rest) =~= results(rest));
            valid_utf8_concat(seg.1, results(rest));
            assert(p + results(segs) =~= seg.1 + results(rest));
        }
    }
}

/// A rewrite that keeps the bytes outside ASCII turns valid UTF-8 into valid
/// UTF-8.
pub proof fn lemma_keeps_valid_utf8(s: Seq<u8>, o: Seq<u8>)
    requires
        keeps_non_ascii(s, o),
        valid_utf8(s),
    ensures
        valid_utf8(o),
{
    let segs = choose|segs: Seq<(Seq<u8>, Seq<u8>)>|
        segments_ok(segs) && sources(segs) == s && #[trigger] results(segs) == o;
    assert(Seq::<u8>::empty() + s =~= s);
    assert(Seq::<u8>::empty() + o =~= o);
    lemma_keep_valid_from(Seq::empty(), segs);
}

/// One piece per byte of `s`: byte `i` becomes `f(i)`.
pub open spec fn bytewise(s: Seq<u8>, f: spec_fn(int) -> Seq<u8>) -> Seq<(Seq<u8>, Seq<u8>)> {
    Seq::new(s.len(), |i: int| (seq![s[i]], f(i)))
}

/// The pieces of one piece.
proof fn lemma_single_segment(x: (Seq<u8>, Seq<u8>))
    ensures
        sources(seq![x]) == x.0,
        results(seq![x]) == x.1,
{
    reveal_with_fuel(sources, 2);
    reveal_with_fuel(results, 2);
    assert(seq![x].drop_first() =~= Seq::<(Seq<u8>, Seq<u8>)>::empty());
    assert(x.0 + Seq::<u8>::empty() =~= x.0);
    assert(x.1 + Seq::<u8>::empty() =~= x.1);
}

/// The first `k` pieces of `bytewise(s, f)`.
proof fn lemma_bytewise_prefix(s: Seq<u8>, f: spec_fn(int) -> Seq<u8>, k: int)
    requires
        0 <= k <= s.len(),
    ensures
        sources(bytewise(s, f).take(k)) == s.take(k),
        results(bytewise(s, f).take(k)) == concat_pieces(f, k),
    decreases k,
{
    let segs = bytewise(s, f);
    if k == 0 {
        assert(segs.take(0) =~= Seq::<(Seq<u8>, Seq<u8>)>::empty());
        assert(s.take(0) =~= Seq::<u8>::empty());
    } else {
        lemma_bytewise_prefix(s, f, k - 1);
        assert(segs.take(k) =~= segs.take(k - 1) + seq![segs[k - 1]]);
        lemma_sources_results_concat(segs.take(k - 1), seq![segs[k - 1]]);
        lemma_single_segment(segs[k - 1]);
        assert(s.take(k) =~= s.take(k - 1) + seq![s[k - 1]]);
    }
}

/// A rewrite that turns each byte `i` of `s` into `f(i)`, keeping the bytes
/// outside ASCII and rewriting each ASCII byte into valid UTF-8, keeps the
/// bytes outside ASCII.
pub proof fn lemma_bytewise_keeps(s: Seq<u8>, f: spec_fn(int) -> Seq<u8>)
    requires
        forall|i: int|
            0 <= i < s.len() ==> (s[i] >= 128 ==> #[trigger] f(i) == seq![s[i]]) && (s[i] < 128
                ==> valid_utf8(f(i))),
    ensures
        segments_ok(bytewise(s, f)),
        sources(bytewise(s, f)) == s,
        results(bytewise(s, f)) == concat_pieces(f, s.len() as int),
        keeps_non_ascii(s, concat_pieces(f, s.len() as int)),
{
    let segs = bytewise(s, f);
    assert forall|i: int| 0 <= i < segs.len() implies segment_ok(#[trigger] segs[i]) by {
        if s[i] < 128 {
            assert(all_ascii(seq![s[i]]));
        }
    }
    lemma_bytewise_prefix(s, f, s.len() as int);
    assert(segs.take(s.len() as int) =~= segs);
    assert(s.take(s.len() as int) =~= s);
}

} // verus!
