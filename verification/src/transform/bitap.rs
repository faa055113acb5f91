//! Word replacement ("cute" becomes "kawaii~") with a bit-parallel
//! shift-and matcher that runs eight patterns side by side, one per 16-bit
//! lane.
use super::text::{
    ascii_lower, ascii_upper, in_class, is_letter, is_punct, is_space, lemma_count_concat,
    lemma_count_none, lemma_count_single, padded, puncts, same_but_case, lemma_same_but_case_concat, lemma_same_but_case_take,
    spaces, str_to_vec, to_ascii_lower,
    to_ascii_upper,
};
use crate::keep::{
    all_ascii, keeps_non_ascii, lemma_ascii_valid, lemma_sources_results_concat, results,
    segment_ok, segments_ok, sources,
};
use vstd::prelude::*;
use vstd::string::*;

verus! {

/// The words that are replaced.
pub const PATTERNS: [&'static str; 8] = [
    "small",
    "cute",
    "fluff",
    "love",
    "stupid",
    "what",
    "meow",
    "meow",
];

/// What each word of `PATTERNS` is replaced by.
pub const REPLACE: [&'static str; 8] = [
    "smol",
    "kawaii~",
    "floof",
    "luv",
    "baka",
    "nani",
    "nya~",
    "nya~",
];

/// The bytes of pattern `i`.
pub open spec fn pattern(i: int) -> Seq<u8> {
    PATTERNS@[i].spec_bytes()
}

/// The bytes of the replacement of pattern `i`.
pub open spec fn replacement(i: int) -> Seq<u8> {
    REPLACE@[i].spec_bytes()
}

/// Bit `k` of `x`.
pub open spec fn bit16(x: u16, k: u16) -> bool {
    (x >> k) & 1u16 == 1u16
}

/// Byte `c` equals byte `p` up to ASCII case.
pub open spec fn byte_matches(c: u8, p: u8) -> bool {
    c == ascii_lower(p) || c == ascii_upper(p)
}

/// `w` ends with `p`, up to ASCII case.
pub open spec fn ends_with_ci(w: Seq<u8>, p: Seq<u8>) -> bool {
    &&& p.len() <= w.len()
    &&& forall|j: int| 0 <= j < p.len() ==> byte_matches(#[trigger] w[w.len() - p.len() + j], p[j])
}

/// The lane offset of a pattern: its last byte sits in bit 15.
pub open spec fn lane_offset(p: Seq<u8>) -> int {
    16 - p.len()
}

/// Bit `k` of the character mask of `c` in the lane of pattern `p`: set when
/// `c` matches the byte of `p` that bit `k` stands for.
pub open spec fn mask_bit(p: Seq<u8>, c: u8, k: int) -> bool {
    lane_offset(p) <= k < 16 && byte_matches(c, p[k - lane_offset(p)])
}

/// Bit `k` of the matcher state in the lane of `p` after reading `w`: set
/// when `w` ends with the first `k - offset + 1` bytes of `p`.
pub open spec fn state_bit(w: Seq<u8>, p: Seq<u8>, k: int) -> bool {
    lane_offset(p) <= k < 16 && ends_with_ci(w, p.take(k - lane_offset(p) + 1))
}

/// The first pattern with index at least `i` that `w` ends with.
pub open spec fn first_match_from(w: Seq<u8>, i: int) -> Option<int>
    decreases 8 - i,
{
    if i >= 8 {
        None
    } else if ends_with_ci(w, pattern(i)) {
        Some(i)
    } else {
        first_match_from(w, i + 1)
    }
}

/// The first pattern that `w` ends with.
pub open spec fn first_match(w: Seq<u8>) -> Option<int> {
    first_match_from(w, 0)
}

/// Every pattern is 1 to 16 bytes long.
pub open spec fn patterns_fit(ps: Seq<&str>) -> bool {
    forall|i: int| 0 <= i < ps.len() ==> 0 < #[trigger] ps[i].spec_bytes().len() <= 16
}

/// Scanning `s` from the left and replacing each pattern as soon as it has
/// been read (with matching started afresh after each replacement), the output
/// and the bytes read since the last replacement.
pub open spec fn bitap_run(s: Seq<u8>) -> (Seq<u8>, Seq<u8>)
    decreases s.len(),
{
    if s.len() == 0 {
        (Seq::empty(), Seq::empty())
    } else {
        let (o, w) = bitap_run(s.drop_last());
        let c = s.last();
        let w2 = w.push(c);
        match first_match(w2) {
            Some(i) => (
                o.push(c).take(o.len() + 1 - pattern(i).len()) + replacement(i),
                Seq::empty(),
            ),
            None => (o.push(c), w2),
        }
    }
}

/// `s` with its patterns replaced.
pub open spec fn bitap_spec(s: Seq<u8>) -> Seq<u8> {
    bitap_run(s).0
}

/// A completed match.
#[derive(Debug, PartialEq, Eq)]
pub struct Match {
    pub match_len: usize,
    pub replace_len: usize,
    pub replace_vec: [u8; 16],
}

/// The shift-and matcher for the eight patterns.
pub struct Bitap8x16 {
    state: [u16; 8],
    masks: Vec<[u16; 8]>,
    start_mask: [u16; 8],
    pattern_len: [usize; 8],
    replace_len: [usize; 8],
    replace_vec: [[u8; 16]; 8],
    read: Ghost<Seq<u8>>,
}

/// Bit `k` of `((x << 1) | s) & m`.
proof fn lemma_step_bit(x: u16, s: u16, m: u16, k: u16)
    requires
        k < 16,
    ensures
        bit16(((x << 1u16) | s) & m, k) == (((k >= 1 && bit16(x, (k - 1) as u16)) || bit16(s, k))
            && bit16(m, k)),
{
    assert(bit16(((x << 1u16) | s) & m, k) == (((k >= 1 && bit16(x, (k - 1) as u16)) || bit16(
        s,
        k,
    )) && bit16(m, k))) by (bit_vector)
        requires
            k < 16,
    ;
}

/// Bit `k` of `x | (1 << t)`.
proof fn lemma_or_bit(x: u16, t: u16, k: u16)
    requires
        k < 16,
        t < 16,
    ensures
        bit16(x | (1u16 << t), k) == (bit16(x, k) || k == t),
{
    assert(bit16(x | (1u16 << t), k) == (bit16(x, k) || k == t)) by (bit_vector)
        requires
            k < 16,
            t < 16,
    ;
}

/// No bit of zero is set.
proof fn lemma_zero_bits()
    ensures
        forall|k: u16| k < 16 ==> !#[trigger] bit16(0u16, k),
{
    assert forall|k: u16| k < 16 implies !#[trigger] bit16(0u16, k) by {
        assert(!bit16(0u16, k)) by (bit_vector);
    }
}

/// Appending `c` to `w`: `w.push(c)` ends with the first `j + 1` bytes of `p`
/// exactly when `c` matches `p[j]` and `w` ends with the first `j` bytes.
proof fn lemma_ends_with_push(w: Seq<u8>, c: u8, p: Seq<u8>, j: int)
    requires
        0 <= j < p.len(),
    ensures
        ends_with_ci(w.push(c), p.take(j + 1)) == (byte_matches(c, p[j]) && (j == 0
            || ends_with_ci(w, p.take(j)))),
{
    let w2 = w.push(c);
    let q = p.take(j + 1);
    if ends_with_ci(w2, q) {
        assert(w2[w2.len() - q.len() + j] == c);
        if j > 0 {
            assert forall|t: int| 0 <= t < j implies byte_matches(
                #[trigger] w[w.len() - p.take(j).len() + t],
                p.take(j)[t],
            ) by {
                assert(w2[w2.len() - q.len() + t] == w[w.len() - j + t]);
            }
        }
    }
    if byte_matches(c, p[j]) && (j == 0 || ends_with_ci(w, p.take(j))) {
        assert forall|t: int| 0 <= t < q.len() implies byte_matches(
            #[trigger] w2[w2.len() - q.len() + t],
            q[t],
        ) by {
            if t < j {
                assert(w2[w2.len() - q.len() + t] == w[w.len() - p.take(j).len() + t]);
            }
        }
    }
}

/// The patterns and replacements are short enough for a lane and a vector.
proof fn lemma_tables_fit()
    ensures
        patterns_fit(PATTERNS@),
        forall|i: int| 0 <= i < 8 ==> #[trigger] replacement(i).len() <= 16,
        forall|i: int| 0 <= i < 8 ==> all_ascii(#[trigger] pattern(i)),
        forall|i: int| 0 <= i < 8 ==> all_ascii(#[trigger] replacement(i)),
{
    reveal_strlit("small");
    reveal_strlit("cute");
    reveal_strlit("fluff");
    reveal_strlit("love");
    reveal_strlit("stupid");
    reveal_strlit("what");
    reveal_strlit("meow");
    reveal_strlit("smol");
    reveal_strlit("kawaii~");
    reveal_strlit("floof");
    reveal_strlit("luv");
    reveal_strlit("baka");
    reveal_strlit("nani");
    reveal_strlit("nya~");
    assert(is_ascii("small"));
    assert(is_ascii("cute"));
    assert(is_ascii("fluff"));
    assert(is_ascii("love"));
    assert(is_ascii("stupid"));
    assert(is_ascii("what"));
    assert(is_ascii("meow"));
    assert(is_ascii("smol"));
    assert(is_ascii("kawaii~"));
    assert(is_ascii("floof"));
    assert(is_ascii("luv"));
    assert(is_ascii("baka"));
    assert(is_ascii("nani"));
    assert(is_ascii("nya~"));
}

/// The 256 character masks of `patterns`: row `c`, lane `i` has bit `k` set
/// when `c` matches, up to ASCII case, the byte of pattern `i` that bit `k`
/// stands for (the last byte of each pattern sits in bit 15).
pub fn get_masks(patterns: &[&str; 8]) -> (r: Vec<[u16; 8]>)
    requires
        patterns_fit(patterns@),
    ensures
        r@.len() == 256,
        forall|c: int, i: int, k: u16|
            0 <= c < 256 && 0 <= i < 8 && k < 16 ==> #[trigger] bit16(r@[c][i], k) == mask_bit(
                patterns@[i].spec_bytes(),
                c as u8,
                k as int,
            ),
{
    let zero: [u16; 8] = [0u16; 8];
    assert(forall|l: int| 0 <= l < 8 ==> zero@[l] == 0u16);
    let mut res: Vec<[u16; 8]> = Vec::new();
    let mut c: usize = 0;
    while c < 256
        invariant
            c <= 256,
            res@.len() == c,
            forall|d: int| 0 <= d < c ==> #[trigger] res@[d] == zero,
        decreases 256 - c,
    {
        res.push(zero);
        c = c + 1;
    }
    proof {
        lemma_zero_bits();
    }
    let mut i: usize = 0;
    while i < 8
        invariant
            i <= 8,
            patterns_fit(patterns@),
            res@.len() == 256,
            forall|d: int, l: int, k: u16|
                0 <= d < 256 && 0 <= l < 8 && k < 16 ==> #[trigger] bit16(res@[d][l], k) == (l < i
                    && mask_bit(patterns@[l].spec_bytes(), d as u8, k as int)),
        decreases 8 - i,
    {
        let bytes = patterns[i].as_bytes();
        let len = bytes.len();
        assert(0 < patterns@[i as int].spec_bytes().len() <= 16);
        let offset = 16 - len;
        let ghost p = bytes@;
        let mut j: usize = 0;
        while j < len
            invariant
                i < 8,
                len == p.len(),
                0 < len <= 16,
                offset == 16 - len,
                bytes@ == p,
                p == patterns@[i as int].spec_bytes(),
                j <= len,
                res@.len() == 256,
                forall|d: int, l: int, k: u16|
                    0 <= d < 256 && 0 <= l < 8 && k < 16 ==> #[trigger] bit16(res@[d][l], k) == if l
                        == i {
                        offset <= k < offset + j && byte_matches(d as u8, p[k - offset])
                    } else {
                        l < i && mask_bit(patterns@[l].spec_bytes(), d as u8, k as int)
                    },
            decreases len - j,
        {
            let t: u16 = (offset + j) as u16;
            let b = bytes[j];
            let lo = to_ascii_lower(b) as usize;
            let up = to_ascii_upper(b) as usize;
            let ghost before = res@;
            let mut row = res[lo];
            row[i] = row[i] | (1u16 << t);
            res.set(lo, row);
            let ghost middle = res@;
            let mut row = res[up];
            row[i] = row[i] | (1u16 << t);
            res.set(up, row);
            proof {
                assert forall|d: int, l: int, k: u16|
                    0 <= d < 256 && 0 <= l < 8 && k < 16 implies #[trigger] bit16(res@[d][l], k)
                    == if l == i {
                    offset <= k < offset + j + 1 && byte_matches(d as u8, p[k - offset])
                } else {
                    l < i && mask_bit(patterns@[l].spec_bytes(), d as u8, k as int)
                } by {
                    lemma_or_bit(before[lo as int][i as int], t, k);
                    lemma_or_bit(middle[up as int][i as int], t, k);
                    assert(bit16(before[d][l], k) == if l == i {
                        offset <= k < offset + j && byte_matches(d as u8, p[k - offset])
                    } else {
                        l < i && mask_bit(patterns@[l].spec_bytes(), d as u8, k as int)
                    });
                    if k == t {
                        assert(k - offset == j);
                    }
                }
            }
            j = j + 1;
        }
        proof {
            assert forall|d: int, l: int, k: u16|
                0 <= d < 256 && 0 <= l < 8 && k < 16 implies #[trigger] bit16(res@[d][l], k) == (l
                < i + 1 && mask_bit(patterns@[l].spec_bytes(), d as u8, k as int)) by {
                if l == i {
                    assert(lane_offset(patterns@[l].spec_bytes()) == offset);
                }
            }
        }
        i = i + 1;
    }
    res
}

/// The start masks of `patterns`: lane `i` has only the bit of the first byte
/// of pattern `i` set.
pub fn get_start_mask(patterns: &[&str; 8]) -> (r: [u16; 8])
    requires
        patterns_fit(patterns@),
    ensures
        forall|i: int, k: u16|
            0 <= i < 8 && k < 16 ==> #[trigger] bit16(r@[i], k) == (k == lane_offset(
                patterns@[i].spec_bytes(),
            )),
{
    let mut res: [u16; 8] = [0u16; 8];
    proof {
        lemma_zero_bits();
    }
    let mut i: usize = 0;
    while i < 8
        invariant
            i <= 8,
            patterns_fit(patterns@),
            forall|l: int, k: u16|
                0 <= l < 8 && k < 16 ==> #[trigger] bit16(res@[l], k) == (l < i && k == lane_offset(
                    patterns@[l].spec_bytes(),
                )),
        decreases 8 - i,
    {
        let len = patterns[i].len();
        assert(0 < patterns@[i as int].spec_bytes().len() <= 16);
        let offset = (16 - len) as u16;
        let ghost before = res@;
        res[i] = res[i] | (1u16 << offset);
        proof {
            assert forall|l: int, k: u16| 0 <= l < 8 && k < 16 implies #[trigger] bit16(res@[l], k)
                == (l < i + 1 && k == lane_offset(patterns@[l].spec_bytes())) by {
                lemma_or_bit(before[i as int], offset, k);
            }
        }
        i = i + 1;
    }
    res
}

impl Bitap8x16 {
    /// The bytes read since the matcher was made.
    pub closed spec fn read(&self) -> Seq<u8> {
        self.read@
    }

    /// The tables describe the eight patterns and the state describes the
    /// bytes read.
    pub closed spec fn wf(&self) -> bool {
        &&& self.masks@.len() == 256
        &&& forall|c: int, i: int, k: u16|
            0 <= c < 256 && 0 <= i < 8 && k < 16 ==> #[trigger] bit16(self.masks@[c][i], k)
                == mask_bit(pattern(i), c as u8, k as int)
        &&& forall|i: int, k: u16|
            0 <= i < 8 && k < 16 ==> #[trigger] bit16(self.start_mask@[i], k) == (k == lane_offset(
                pattern(i),
            ))
        &&& forall|i: int, k: u16|
            0 <= i < 8 && k < 16 ==> #[trigger] bit16(self.state@[i], k) == state_bit(
                self.read@,
                pattern(i),
                k as int,
            )
        &&& forall|i: int|
            0 <= i < 8 ==> {
                &&& #[trigger] self.pattern_len@[i] == pattern(i).len()
                &&& self.replace_len@[i] == replacement(i).len()
                &&& self.replace_vec@[i]@ == padded(replacement(i), 16)
            }
        &&& patterns_fit(PATTERNS@)
    }

    /// A matcher that has read nothing.
    pub fn new() -> (r: Self)
        ensures
            r.wf(),
            r.read() == Seq::<u8>::empty(),
    {
        proof {
            lemma_tables_fit();
            lemma_zero_bits();
        }
        let patterns = PATTERNS;
        let masks = get_masks(&patterns);
        let start_mask = get_start_mask(&patterns);
        let mut pattern_len: [usize; 8] = [0usize; 8];
        let mut replace_len: [usize; 8] = [0usize; 8];
        let mut replace_vec: [[u8; 16]; 8] = [[0u8; 16]; 8];
        let mut i: usize = 0;
        while i < 8
            invariant
                i <= 8,
                patterns == PATTERNS,
                patterns_fit(PATTERNS@),
                forall|l: int| 0 <= l < 8 ==> #[trigger] replacement(l).len() <= 16,
                forall|l: int|
                    0 <= l < i ==> {
                        &&& #[trigger] pattern_len@[l] == pattern(l).len()
                        &&& replace_len@[l] == replacement(l).len()
                        &&& replace_vec@[l]@ == padded(replacement(l), 16)
                    },
            decreases 8 - i,
        {
            let ghost before = (pattern_len@, replace_len@, replace_vec@);
            assert(patterns@[i as int] == PATTERNS@[i as int]);
            assert(0 < pattern(i as int).len() <= 16);
            pattern_len[i] = patterns[i].len();
            let r = REPLACE[i];
            assert(r == REPLACE@[i as int]);
            assert(replacement(i as int).len() <= 16);
            replace_len[i] = r.len();
            replace_vec[i] = str_to_vec(r);
            assert forall|l: int| 0 <= l < i + 1 implies {
                &&& #[trigger] pattern_len@[l] == pattern(l).len()
                &&& replace_len@[l] == replacement(l).len()
                &&& replace_vec@[l]@ == padded(replacement(l), 16)
            } by {
                if l < i {
                    assert(before.0[l] == pattern(l).len());
                    assert(before.1[l] == replacement(l).len());
                }
            }
            i = i + 1;
        }
        Bitap8x16 {
            state: [0u16; 8],
            masks,
            start_mask,
            pattern_len,
            replace_len,
            replace_vec,
            read: Ghost(Seq::empty()),
        }
    }

    /// Forgets the bytes read, keeping the tables.
    pub fn reset(&mut self)
        requires
            old(self).wf(),
        ensures
            final(self).wf(),
            final(self).read() == Seq::<u8>::empty(),
    {
        proof {
            lemma_zero_bits();
        }
        self.state = [0u16; 8];
        self.read = Ghost(Seq::empty());
    }

    /// Reads the byte `c`; returns the first pattern (in lane order) that the
    /// bytes read now end with, if there is one.
    pub fn next(&mut self, c: u8) -> (r: Option<Match>)
        requires
            old(self).wf(),
        ensures
            final(self).wf(),
            final(self).read() == old(self).read().push(c),
            r is Some <==> first_match(final(self).read()) is Some,
            r matches Some(m) ==> {
                let i = first_match(final(self).read())->0;
                &&& m.match_len == pattern(i).len()
                &&& m.replace_len == replacement(i).len()
                &&& m.replace_vec@ == padded(replacement(i), 16)
            },
    {
        let ghost w = self.read@;
        let ghost w2 = w.push(c);
        let row = self.masks[c as usize];
        let mut i: usize = 0;
        while i < 8
            invariant
                i <= 8,
                row == old(self).masks@[c as int],
                self.masks == old(self).masks,
                self.start_mask == old(self).start_mask,
                self.pattern_len == old(self).pattern_len,
                self.replace_len == old(self).replace_len,
                self.replace_vec == old(self).replace_vec,
                self.read == old(self).read,
                old(self).wf(),
                w == old(self).read@,
                w2 == w.push(c),
                forall|l: int, k: u16|
                    0 <= l < 8 && k < 16 ==> #[trigger] bit16(self.state@[l], k) == if l < i {
                        state_bit(w2, pattern(l), k as int)
                    } else {
                        state_bit(w, pattern(l), k as int)
                    },
            decreases 8 - i,
        {
            let ghost x = self.state@[i as int];
            let s = self.start_mask[i];
            let m = row[i];
            self.state[i] = ((self.state[i] << 1u16) | s) & m;
            proof {
                let p = pattern(i as int);
                assert forall|k: u16| k < 16 implies #[trigger] bit16(self.state@[i as int], k)
                    == state_bit(w2, p, k as int) by {
                    lemma_step_bit(x, s, m, k);
                    assert(bit16(m, k) == mask_bit(p, c, k as int));
                    assert(bit16(s, k) == (k == lane_offset(p)));
                    if lane_offset(p) <= k {
                        lemma_ends_with_push(w, c, p, k - lane_offset(p));
                        if k > lane_offset(p) {
                            assert(bit16(x, (k - 1) as u16) == state_bit(w, p, k - 1));
                            assert(p.take(k - lane_offset(p)) == p.take((k - 1) - lane_offset(p)
                                + 1));
                        }
                    } else if k >= 1 {
                        assert(bit16(x, (k - 1) as u16) == state_bit(w, p, k - 1));
                    }
                }
            }
            i = i + 1;
        }
        self.read = Ghost(w2);
        let mut i: usize = 0;
        while i < 8
            invariant
                i <= 8,
                self.wf(),
                self.read() == w2,
                w == old(self).read@,
                w2 == w.push(c),
                first_match(w2) == first_match_from(w2, i as int),
            decreases 8 - i,
        {
            let x = self.state[i];
            assert((x & 0x8000u16 != 0u16) == bit16(x, 15u16)) by (bit_vector);
            assert(state_bit(w2, pattern(i as int), 15) == ends_with_ci(w2, pattern(i as int))) by {
                assert(pattern(i as int).take(pattern(i as int).len() as int) == pattern(
                    i as int,
                ));
            }
            if x & 0x8000u16 != 0 {
                return Some(
                    Match {
                        match_len: self.pattern_len[i],
                        replace_len: self.replace_len[i],
                        replace_vec: self.replace_vec[i],
                    },
                );
            }
            i = i + 1;
        }
        None
    }
}

/// What `first_match_from` finds is a pattern that `w` ends with.
proof fn lemma_first_match_from(w: Seq<u8>, j: int)
    requires
        0 <= j,
    ensures
        first_match_from(w, j) matches Some(i) ==> j <= i < 8 && ends_with_ci(w, pattern(i)),
        first_match_from(w, j) is None ==> forall|i: int|
            j <= i < 8 ==> !ends_with_ci(w, #[trigger] pattern(i)),
    decreases 8 - j,
{
    if j < 8 {
        lemma_first_match_from(w, j + 1);
    }
}

/// The bytes read since the last replacement are never more than the output.
proof fn lemma_bitap_run_len(s: Seq<u8>)
    ensures
        bitap_run(s).1.len() <= bitap_run(s).0.len(),
    decreases s.len(),
{
    if s.len() > 0 {
        lemma_bitap_run_len(s.drop_last());
    }
}

/// Replaces the patterns in `in_bytes`, scanning from the left; matching starts
/// afresh after each replacement. The output goes to the front of `out_bytes`
/// (which needs two bytes for each input byte); its length is returned.
pub fn bitap(in_bytes: &[u8], out_bytes: &mut [u8]) -> (r: usize)
    requires
        old(out_bytes)@.len() >= 2 * in_bytes@.len(),
    ensures
        r == bitap_spec(in_bytes@).len(),
        final(out_bytes)@.len() == old(out_bytes)@.len(),
        final(out_bytes)@.take(r as int) == bitap_spec(in_bytes@),
{
    let mut len: usize = 0;
    let mut matcher = Bitap8x16::new();
    let mut k: usize = 0;
    while k < in_bytes.len()
        invariant
            k <= in_bytes@.len(),
            out_bytes@.len() == old(out_bytes)@.len(),
            out_bytes@.len() >= 2 * in_bytes@.len(),
            matcher.wf(),
            len == bitap_run(in_bytes@.take(k as int)).0.len(),
            out_bytes@.take(len as int) == bitap_run(in_bytes@.take(k as int)).0,
            matcher.read() == bitap_run(in_bytes@.take(k as int)).1,
        decreases in_bytes@.len() - k,
    {
        let ghost s = in_bytes@.take(k as int + 1);
        assert(s.drop_last() == in_bytes@.take(k as int));
        proof {
            lemma_bitap_run_len(s.drop_last());
            lemma_bitap_len(s.drop_last());
            lemma_bitap_len(s);
        }
        let ghost before = out_bytes@.take(len as int);
        let c = in_bytes[k];
        out_bytes[len] = c;
        len = len + 1;
        assert(out_bytes@.take(len as int) =~= before.push(c));
        match matcher.next(c) {
            Some(m) => {
                let ghost i = first_match(matcher.read())->0;
                proof {
                    lemma_first_match_from(matcher.read(), 0);
                    lemma_tables_fit();
                }
                let ghost kept = out_bytes@.take(len - m.match_len);
                assert(kept =~= before.push(c).take(len - m.match_len));
                len = len - m.match_len;
                let mut t: usize = 0;
                while t < m.replace_len
                    invariant
                        t <= m.replace_len,
                        m.replace_len <= 16,
                        m.replace_len == replacement(i).len(),
                        m.replace_vec@ == padded(replacement(i), 16),
                        len + m.replace_len <= out_bytes.len(),
                        out_bytes@.len() == old(out_bytes)@.len(),
                        kept.len() == len,
                        out_bytes@.take(len + t) == kept + replacement(i).take(t as int),
                    decreases m.replace_len - t,
                {
                    let ghost pre = out_bytes@.take(len + t);
                    out_bytes[len + t] = m.replace_vec[t];
                    assert(out_bytes@.take(len + t + 1) =~= pre.push(m.replace_vec@[t as int]));
                    assert(replacement(i).take(t + 1) =~= replacement(i).take(t as int).push(
                        replacement(i)[t as int],
                    ));
                    t = t + 1;
                }
                assert(replacement(i).take(m.replace_len as int) == replacement(i));
                len = len + m.replace_len;
                matcher.reset();
            },
            None => {},
        }
        k = k + 1;
    }
    assert(in_bytes@.take(in_bytes@.len() as int) == in_bytes@);
    len
}

/// The pieces of `s` in the word pass: each byte that is not part of a
/// replaced word on its own, and each replaced word with its replacement.
pub open spec fn bitap_segments(s: Seq<u8>) -> Seq<(Seq<u8>, Seq<u8>)>
    decreases s.len(),
{
    if s.len() == 0 {
        Seq::empty()
    } else {
        let segs = bitap_segments(s.drop_last());
        let w = bitap_run(s.drop_last()).1;
        let c = s.last();
        let w2 = w.push(c);
        match first_match(w2) {
            Some(i) => {
                let l = pattern(i).len() as int;
                segs.take(segs.len() - (l - 1)).push((w2.skip(w2.len() - l), replacement(i)))
            },
            None => segs.push((seq![c], seq![c])),
        }
    }
}

/// Pieces that each keep one byte of `b`.
proof fn lemma_identity_segments(t: Seq<(Seq<u8>, Seq<u8>)>, b: Seq<u8>)
    requires
        t.len() == b.len(),
        forall|j: int| 0 <= j < t.len() ==> #[trigger] t[j] == (seq![b[j]], seq![b[j]]),
    ensures
        sources(t) == b,
        results(t) == b,
    decreases t.len(),
{
    if t.len() > 0 {
        lemma_identity_segments(t.drop_first(), b.drop_first());
        assert(seq![b[0]] + b.drop_first() =~= b);
    }
}

/// Bytes that match an ASCII byte up to case are ASCII.
proof fn lemma_matching_ascii(w: Seq<u8>, p: Seq<u8>)
    requires
        all_ascii(p),
        ends_with_ci(w, p),
    ensures
        all_ascii(w.skip(w.len() - p.len())),
{
    assert forall|j: int| 0 <= j < p.len() implies #[trigger] w.skip(w.len() - p.len())[j] < 128 by {
        assert(byte_matches(w[w.len() - p.len() + j], p[j]));
        assert(p[j] < 128);
    }
}

/// A piece of the word pass: one byte kept, or a word of at least four
/// letters replaced by at most seven bytes that are neither spaces nor
/// punctuation marks.
pub open spec fn bitap_piece_shape(seg: (Seq<u8>, Seq<u8>)) -> bool {
    ||| (seg.0.len() == 1 && seg.1 == seg.0)
    ||| {
        &&& 4 <= seg.0.len()
        &&& seg.1.len() <= 7
        &&& forall|k: int| 0 <= k < seg.0.len() ==> is_letter(#[trigger] seg.0[k])
        &&& forall|k: int|
            0 <= k < seg.1.len() ==> !is_space(#[trigger] seg.1[k]) && !is_punct(seg.1[k])
    }
}

/// The patterns are words of four to six letters; the replacements have at
/// most seven bytes, none a space or a punctuation mark.
proof fn lemma_tables_shape()
    ensures
        forall|i: int| 0 <= i < 8 ==> 4 <= #[trigger] pattern(i).len(),
        forall|i: int| 0 <= i < 8 ==> #[trigger] replacement(i).len() <= 7,
        forall|i: int, k: int|
            0 <= i < 8 && 0 <= k < pattern(i).len() ==> is_letter(#[trigger] pattern(i)[k]),
        forall|i: int, k: int|
            0 <= i < 8 && 0 <= k < replacement(i).len() ==> !is_space(#[trigger] replacement(i)[k])
                && !is_punct(replacement(i)[k]),
{
    reveal_strlit("small");
    reveal_strlit("cute");
    reveal_strlit("fluff");
    reveal_strlit("love");
    reveal_strlit("stupid");
    reveal_strlit("what");
    reveal_strlit("meow");
    reveal_strlit("smol");
    reveal_strlit("kawaii~");
    reveal_strlit("floof");
    reveal_strlit("luv");
    reveal_strlit("baka");
    reveal_strlit("nani");
    reveal_strlit("nya~");
    assert(is_ascii("small"));
    assert(is_ascii("cute"));
    assert(is_ascii("fluff"));
    assert(is_ascii("love"));
    assert(is_ascii("stupid"));
    assert(is_ascii("what"));
    assert(is_ascii("meow"));
    assert(is_ascii("smol"));
    assert(is_ascii("kawaii~"));
    assert(is_ascii("floof"));
    assert(is_ascii("luv"));
    assert(is_ascii("baka"));
    assert(is_ascii("nani"));
    assert(is_ascii("nya~"));
}

/// The pieces of the word pass keep the bytes outside ASCII, and the bytes
/// read since the last replacement are the last pieces, each on its own.
pub open spec fn bitap_segments_inv(s: Seq<u8>) -> bool {
    &&& segments_ok(bitap_segments(s))
    &&& forall|j: int|
        0 <= j < bitap_segments(s).len() ==> bitap_piece_shape(#[trigger] bitap_segments(s)[j])
    &&& sources(bitap_segments(s)) == s
    &&& results(bitap_segments(s)) == bitap_run(s).0
    &&& bitap_run(s).1.len() <= bitap_segments(s).len()
    &&& forall|j: int|
        0 <= j < bitap_run(s).1.len() ==> #[trigger] bitap_segments(s)[bitap_segments(s).len()
            - bitap_run(s).1.len() + j] == (seq![bitap_run(s).1[j]], seq![bitap_run(s).1[j]])
}

/// A byte that completes a word keeps the pieces well formed.
proof fn lemma_bitap_segments_match(t: Seq<u8>, c: u8)
    requires
        bitap_segments_inv(t),
        first_match(bitap_run(t).1.push(c)) is Some,
    ensures
        bitap_segments_inv(t.push(c)),
{
    let s = t.push(c);
    assert(s.drop_last() =~= t);
    let segs = bitap_segments(t);
    let (o, w) = bitap_run(t);
    let w2 = w.push(c);
    let i = first_match(w2)->0;
    lemma_first_match_from(w2, 0);
    lemma_tables_fit();
    let l = pattern(i).len() as int;
    let n = segs.len();
    let head = segs.take(n - (l - 1));
    let tail = segs.skip(n - (l - 1));
    let m = w2.skip(w2.len() - l);
    let wt = w.skip(w.len() - (l - 1));
    assert(head + tail =~= segs);
    lemma_sources_results_concat(head, tail);
    assert forall|j: int| 0 <= j < tail.len() implies #[trigger] tail[j] == (seq![wt[j]], seq![wt[j]]) by {
        assert(tail[j] == segs[n - w.len() + (w.len() - (l - 1) + j)]);
    }
    lemma_identity_segments(tail, wt);
    assert(m =~= wt.push(c));
    lemma_matching_ascii(w2, pattern(i));
    lemma_ascii_valid(replacement(i));
    let segs2 = head.push((m, replacement(i)));
    assert(bitap_segments(s) == segs2);
    assert(segs2 =~= head + seq![(m, replacement(i))]);
    lemma_sources_results_concat(head, seq![(m, replacement(i))]);
    lemma_single_piece(m, replacement(i));
    assert(t =~= sources(head) + wt);
    assert(o =~= results(head) + wt);
    assert(o.push(c).take(o.len() + 1 - l) =~= results(head));
    assert forall|j: int| 0 <= j < segs2.len() implies segment_ok(#[trigger] segs2[j]) by {
        if j < head.len() {
            assert(segs2[j] == segs[j]);
        }
    }
    lemma_tables_shape();
    assert forall|k: int| 0 <= k < m.len() implies is_letter(#[trigger] m[k]) by {
        assert(byte_matches(w2[w2.len() - l + k], pattern(i)[k]));
        assert(is_letter(pattern(i)[k]));
    }
    assert(bitap_piece_shape((m, replacement(i))));
    assert forall|j: int| 0 <= j < segs2.len() implies bitap_piece_shape(#[trigger] segs2[j]) by {
        if j < head.len() {
            assert(segs2[j] == segs[j]);
        }
    }
}

/// A byte that completes no word keeps the pieces well formed.
proof fn lemma_bitap_segments_no_match(t: Seq<u8>, c: u8)
    requires
        bitap_segments_inv(t),
        first_match(bitap_run(t).1.push(c)) is None,
    ensures
        bitap_segments_inv(t.push(c)),
{
    let s = t.push(c);
    assert(s.drop_last() =~= t);
    let segs = bitap_segments(t);
    let (o, w) = bitap_run(t);
    let w2 = w.push(c);
    let segs2 = segs.push((seq![c], seq![c]));
    assert(bitap_segments(s) == segs2);
    assert(bitap_run(s) == (o.push(c), w2));
    assert(segs2 =~= segs + seq![(seq![c], seq![c])]);
    lemma_sources_results_concat(segs, seq![(seq![c], seq![c])]);
    lemma_single_piece(seq![c], seq![c]);
    if c < 128 {
        assert(all_ascii(seq![c]));
        lemma_ascii_valid(seq![c]);
    }
    assert(segment_ok(segs2[segs2.len() - 1]));
    assert forall|j: int| 0 <= j < segs2.len() implies segment_ok(#[trigger] segs2[j]) by {
        if j < segs.len() {
            assert(segs2[j] == segs[j]);
        }
    }
    assert forall|j: int| 0 <= j < w2.len() implies #[trigger] segs2[segs2.len() - w2.len() + j]
        == (seq![w2[j]], seq![w2[j]]) by {
        if j < w.len() {
            assert(segs2[segs2.len() - w2.len() + j] == segs[segs.len() - w.len() + j]);
        }
    }
    assert forall|j: int| 0 <= j < segs2.len() implies bitap_piece_shape(#[trigger] segs2[j]) by {
        if j < segs.len() {
            assert(segs2[j] == segs[j]);
        }
    }
    assert(segments_ok(segs2));
    assert(sources(segs2) == s);
    assert(results(segs2) == o.push(c));
    assert(w2.len() <= segs2.len());
}

/// The sources and results of a single piece.
proof fn lemma_single_piece(a: Seq<u8>, b: Seq<u8>)
    ensures
        sources(seq![(a, b)]) == a,
        results(seq![(a, b)]) == b,
{
    reveal_with_fuel(sources, 2);
    reveal_with_fuel(results, 2);
    assert(sources(seq![(a, b)]) =~= a);
    assert(results(seq![(a, b)]) =~= b);
}

/// The pieces of the word pass are well formed for every input.
proof fn lemma_bitap_segments(s: Seq<u8>)
    ensures
        bitap_segments_inv(s),
    decreases s.len(),
{
    if s.len() > 0 {
        let t = s.drop_last();
        lemma_bitap_segments(t);
        assert(t.push(s.last()) =~= s);
        if first_match(bitap_run(t).1.push(s.last())) is Some {
            lemma_bitap_segments_match(t, s.last());
        } else {
            lemma_bitap_segments_no_match(t, s.last());
        }
    } else {
        assert(sources(Seq::<(Seq<u8>, Seq<u8>)>::empty()) == Seq::<u8>::empty());
        assert(results(Seq::<(Seq<u8>, Seq<u8>)>::empty()) == Seq::<u8>::empty());
        assert(bitap_segments(s) == Seq::<(Seq<u8>, Seq<u8>)>::empty());
        assert(s =~= Seq::<u8>::empty());
    }
}

/// The word pass keeps every byte outside ASCII as it is.
pub proof fn lemma_bitap_keeps_non_ascii(s: Seq<u8>)
    ensures
        keeps_non_ascii(s, bitap_spec(s)),
{
    lemma_bitap_segments(s);
}

/// Counting over the pieces of the word pass: each byte weighs 4 in the
/// output and 7 in the input, and 4 in the input when it is neither a space
/// nor a punctuation mark; the spaces and punctuation marks are those of the
/// input.
proof fn lemma_bitap_pieces_count(segs: Seq<(Seq<u8>, Seq<u8>)>)
    requires
        forall|j: int| 0 <= j < segs.len() ==> bitap_piece_shape(#[trigger] segs[j]),
    ensures
        4 * results(segs).len() + 3 * (spaces(sources(segs)) + puncts(sources(segs))) <= 7
            * sources(segs).len(),
        spaces(results(segs)) == spaces(sources(segs)),
        puncts(results(segs)) == puncts(sources(segs)),
    decreases segs.len(),
{
    if segs.len() > 0 {
        let seg = segs[0];
        let rest = segs.drop_first();
        assert(bitap_piece_shape(segs[0]));
        assert forall|j: int| 0 <= j < rest.len() implies bitap_piece_shape(#[trigger] rest[j]) by {
            assert(rest[j] == segs[j + 1]);
        }
        lemma_bitap_pieces_count(rest);
        lemma_count_concat(seg.0, sources(rest), 0);
        lemma_count_concat(seg.0, sources(rest), 1);
        lemma_count_concat(seg.1, results(rest), 0);
        lemma_count_concat(seg.1, results(rest), 1);
        if seg.0.len() == 1 && seg.1 == seg.0 {
            assert(seg.0 =~= seq![seg.0[0]]);
            lemma_count_single(seg.0[0], 0);
            lemma_count_single(seg.0[0], 1);
        } else {
            assert forall|k: int| 0 <= k < seg.0.len() implies !in_class(#[trigger] seg.0[k], 0) by {
                assert(is_letter(seg.0[k]));
            }
            assert forall|k: int| 0 <= k < seg.0.len() implies !in_class(#[trigger] seg.0[k], 1) by {
                assert(is_letter(seg.0[k]));
            }
            assert forall|k: int| 0 <= k < seg.1.len() implies !in_class(#[trigger] seg.1[k], 0) by {
            }
            assert forall|k: int| 0 <= k < seg.1.len() implies !in_class(#[trigger] seg.1[k], 1) by {
            }
            lemma_count_none(seg.0, 0);
            lemma_count_none(seg.0, 1);
            lemma_count_none(seg.1, 0);
            lemma_count_none(seg.1, 1);
        }
    }
}

/// The word pass grows the text by at most three quarters of its bytes other
/// than spaces and punctuation marks, and keeps its spaces and punctuation
/// marks.
pub proof fn lemma_bitap_len(s: Seq<u8>)
    ensures
        4 * bitap_spec(s).len() + 3 * (spaces(s) + puncts(s)) <= 7 * s.len(),
        spaces(bitap_spec(s)) == spaces(s),
        puncts(bitap_spec(s)) == puncts(s),
{
    lemma_bitap_segments(s);
    lemma_bitap_pieces_count(bitap_segments(s));
}

/// Whether bytes end with a pattern does not depend on their ASCII case.
proof fn lemma_ends_with_ci_case(w: Seq<u8>, v: Seq<u8>, p: Seq<u8>)
    requires
        same_but_case(w, v),
    ensures
        ends_with_ci(w, p) == ends_with_ci(v, p),
{
    if p.len() <= w.len() {
        assert forall|j: int| 0 <= j < p.len() implies byte_matches(
            #[trigger] w[w.len() - p.len() + j],
            p[j],
        ) == byte_matches(v[v.len() - p.len() + j], p[j]) by {
            assert(ascii_lower(w[w.len() - p.len() + j]) == ascii_lower(v[v.len() - p.len() + j]));
        }
        if ends_with_ci(w, p) {
            assert forall|j: int| 0 <= j < p.len() implies byte_matches(
                #[trigger] v[v.len() - p.len() + j],
                p[j],
            ) by {
                assert(byte_matches(w[w.len() - p.len() + j], p[j]));
            }
        }
        if ends_with_ci(v, p) {
            assert forall|j: int| 0 <= j < p.len() implies byte_matches(
                #[trigger] w[w.len() - p.len() + j],
                p[j],
            ) by {
                assert(byte_matches(v[v.len() - p.len() + j], p[j]));
            }
        }
    }
}

/// The first pattern matched does not depend on ASCII case.
proof fn lemma_first_match_case(w: Seq<u8>, v: Seq<u8>, i: int)
    requires
        same_but_case(w, v),
    ensures
        first_match_from(w, i) == first_match_from(v, i),
    decreases 8 - i,
{
    if i < 8 {
        lemma_ends_with_ci_case(w, v, pattern(i));
        lemma_first_match_case(w, v, i + 1);
    }
}

/// Inputs that are the same up to ASCII case give outputs (and pending bytes)
/// that are the same up to ASCII case: matching ignores case, and the
/// replacements are fixed.
pub proof fn lemma_bitap_ignores_case(s: Seq<u8>, t: Seq<u8>)
    requires
        same_but_case(s, t),
    ensures
        same_but_case(bitap_run(s).0, bitap_run(t).0),
        same_but_case(bitap_run(s).1, bitap_run(t).1),
    decreases s.len(),
{
    if s.len() > 0 {
        lemma_same_but_case_take(s, t, s.len() - 1);
        assert(s.drop_last() =~= s.take(s.len() - 1));
        assert(t.drop_last() =~= t.take(t.len() - 1));
        lemma_bitap_ignores_case(s.drop_last(), t.drop_last());
        let (o, w) = bitap_run(s.drop_last());
        let (o2, w2) = bitap_run(t.drop_last());
        assert(ascii_lower(s[s.len() - 1]) == ascii_lower(t[t.len() - 1]));
        let c = seq![s.last()];
        let d = seq![t.last()];
        assert(same_but_case(c, d));
        lemma_same_but_case_concat(o, o2, c, d);
        lemma_same_but_case_concat(w, w2, c, d);
        assert(o.push(s.last()) =~= o + c);
        assert(o2.push(t.last()) =~= o2 + d);
        assert(w.push(s.last()) =~= w + c);
        assert(w2.push(t.last()) =~= w2 + d);
        lemma_first_match_case(w.push(s.last()), w2.push(t.last()), 0);
        match first_match(w.push(s.last())) {
            Some(i) => {
                let n = o.len() + 1 - pattern(i).len();
                lemma_bitap_run_len(s.drop_last());
                lemma_first_match_from(w.push(s.last()), 0);
                lemma_same_but_case_take(o + c, o2 + d, n);
                lemma_same_but_case_concat(
                    (o + c).take(n),
                    (o2 + d).take(n),
                    replacement(i),
                    replacement(i),
                );
                assert(same_but_case(Seq::<u8>::empty(), Seq::<u8>::empty()));
            },
            None => {},
        }
    }
}

/// A byte matches a pattern byte when it is that byte, or the same ASCII
/// letter in the other case.
pub proof fn lemma_byte_matches_bytes(c: u8, p: u8)
    ensures
        byte_matches(c, p) <==> (c == p || (97 <= p <= 122 && c == p - 32) || (65 <= p <= 90 && c
            == p + 32)),
{
}

} // verus!
