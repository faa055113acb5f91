//! Byte classes and fixed-width byte vectors.
use vstd::prelude::*;
use vstd::string::*;

verus! {

/// ASCII `A`..`Z` mapped to `a`..`z`; every other byte unchanged.
pub open spec fn ascii_lower(b: u8) -> u8 {
    if 65 <= b <= 90 {
        (b + 32) as u8
    } else {
        b
    }
}

/// ASCII `a`..`z` mapped to `A`..`Z`; every other byte unchanged.
pub open spec fn ascii_upper(b: u8) -> u8 {
    if 97 <= b <= 122 {
        (b - 32) as u8
    } else {
        b
    }
}

/// The byte `b` in ASCII lower case.
pub fn to_ascii_lower(b: u8) -> (r: u8)
    ensures
        r == ascii_lower(b),
{
    if 65 <= b && b <= 90 {
        b + 32
    } else {
        b
    }
}

/// The byte `b` in ASCII upper case.
pub fn to_ascii_upper(b: u8) -> (r: u8)
    ensures
        r == ascii_upper(b),
{
    if 97 <= b && b <= 122 {
        b - 32
    } else {
        b
    }
}

/// The bytes of `s` followed by zeros up to `width` bytes.
pub open spec fn padded(s: Seq<u8>, width: nat) -> Seq<u8> {
    s + Seq::new((width - s.len()) as nat, |i: int| 0u8)
}

/// The UTF-8 bytes of `s`, zero-padded to `MAX_LEN` bytes.
pub fn str_to_vec<const MAX_LEN: usize>(s: &str) -> (r: [u8; MAX_LEN])
    requires
        s.spec_bytes().len() <= MAX_LEN,
    ensures
        r@ == padded(s.spec_bytes(), MAX_LEN as nat),
{
    let bytes = s.as_bytes();
    let len = bytes.len();
    let mut res: [u8; MAX_LEN] = [0u8; MAX_LEN];
    let mut i: usize = 0;
    while i < len
        invariant
            len == bytes@.len(),
            bytes@ == s.spec_bytes(),
            len <= MAX_LEN,
            i <= len,
            res@.len() == MAX_LEN,
            forall|k: int| 0 <= k < i ==> res@[k] == bytes@[k],
            forall|k: int| i <= k < MAX_LEN ==> res@[k] == 0u8,
        decreases len - i,
    {
        res[i] = bytes[i];
        i = i + 1;
    }
    assert(res@ =~= padded(s.spec_bytes(), MAX_LEN as nat));
    res
}

/// A space, a tab or a line feed.
pub open spec fn is_space(b: u8) -> bool {
    b == 32 || b == 9 || b == 10
}

/// A comma, a full stop or an exclamation mark.
pub open spec fn is_punct(b: u8) -> bool {
    b == 44 || b == 46 || b == 33
}

/// An ASCII letter.
pub open spec fn is_letter(b: u8) -> bool {
    (65 <= b <= 90) || (97 <= b <= 122)
}

/// Whether `b` is a space, a tab or a line feed.
pub fn is_space_byte(b: u8) -> (r: bool)
    ensures
        r == is_space(b),
{
    b == 32 || b == 9 || b == 10
}

/// Whether `b` is a comma, a full stop or an exclamation mark.
pub fn is_punct_byte(b: u8) -> (r: bool)
    ensures
        r == is_punct(b),
{
    b == 44 || b == 46 || b == 33
}

/// The pieces `f(0)`, ..., `f(n - 1)` one after another.
pub open spec fn concat_pieces(f: spec_fn(int) -> Seq<u8>, n: int) -> Seq<u8>
    decreases n,
{
    if n <= 0 {
        Seq::empty()
    } else {
        concat_pieces(f, n - 1) + f(n - 1)
    }
}

/// The least `k` with `j <= k < n` and `pred(k)`, if there is one.
pub open spec fn first_from(pred: spec_fn(int) -> bool, j: int, n: int) -> Option<int>
    decreases n - j,
{
    if j >= n {
        None
    } else if pred(j) {
        Some(j)
    } else {
        first_from(pred, j + 1, n)
    }
}

/// What `first_from` finds is the least index that satisfies `pred`.
pub proof fn lemma_first_from(pred: spec_fn(int) -> bool, j: int, n: int)
    ensures
        first_from(pred, j, n) matches Some(k) ==> j <= k < n && pred(k) && forall|l: int|
            j <= l < k ==> !#[trigger] pred(l),
        first_from(pred, j, n) is None ==> forall|l: int| j <= l < n ==> !#[trigger] pred(l),
    decreases n - j,
{
    if j < n {
        lemma_first_from(pred, j + 1, n);
    }
}

/// Byte class `cls`: 0 for a space, tab or line feed; 1 for a punctuation
/// mark.
pub open spec fn in_class(b: u8, cls: int) -> bool {
    if cls == 0 {
        is_space(b)
    } else {
        is_punct(b)
    }
}

/// How many bytes of `s` are in class `cls`.
pub open spec fn count(s: Seq<u8>, cls: int) -> nat
    decreases s.len(),
{
    if s.len() == 0 {
        0
    } else {
        count(s.drop_last(), cls) + if in_class(s.last(), cls) {
            1nat
        } else {
            0nat
        }
    }
}

/// The spaces, tabs and line feeds of `s`.
pub open spec fn spaces(s: Seq<u8>) -> nat {
    count(s, 0)
}

/// The punctuation marks of `s`.
pub open spec fn puncts(s: Seq<u8>) -> nat {
    count(s, 1)
}

/// Counting over two sequences one after another.
pub proof fn lemma_count_concat(a: Seq<u8>, b: Seq<u8>, cls: int)
    ensures
        count(a + b, cls) == count(a, cls) + count(b, cls),
    decreases b.len(),
{
    if b.len() == 0 {
        assert(a + b =~= a);
    } else {
        assert((a + b).drop_last() =~= a + b.drop_last());
        lemma_count_concat(a, b.drop_last(), cls);
    }
}

/// The count of a single byte.
pub proof fn lemma_count_single(b: u8, cls: int)
    ensures
        count(seq![b], cls) == if in_class(b, cls) {
            1nat
        } else {
            0nat
        },
{
    reveal_with_fuel(count, 2);
    assert(seq![b].drop_last() =~= Seq::<u8>::empty());
    assert(seq![b].last() == b);
}

/// No byte of `s` is in class `cls`.
pub proof fn lemma_count_none(s: Seq<u8>, cls: int)
    requires
        forall|i: int| 0 <= i < s.len() ==> !in_class(#[trigger] s[i], cls),
    ensures
        count(s, cls) == 0,
    decreases s.len(),
{
    if s.len() > 0 {
        lemma_count_none(s.drop_last(), cls);
    }
}

/// A byte of `s` in class `cls` makes the count positive.
pub proof fn lemma_count_some(s: Seq<u8>, cls: int, i: int)
    requires
        0 <= i < s.len(),
        in_class(s[i], cls),
    ensures
        count(s, cls) >= 1,
    decreases s.len(),
{
    if i < s.len() - 1 {
        lemma_count_some(s.drop_last(), cls, i);
    }
}

/// Spaces and punctuation marks are different bytes.
pub proof fn lemma_spaces_puncts_le_len(s: Seq<u8>)
    ensures
        spaces(s) + puncts(s) <= s.len(),
    decreases s.len(),
{
    if s.len() > 0 {
        lemma_spaces_puncts_le_len(s.drop_last());
    }
}

/// Counting over pieces: when piece `j` has as many bytes of class `cls` as
/// byte `j` of `s`, the pieces together have as many as `s`.
pub proof fn lemma_count_pieces(s: Seq<u8>, f: spec_fn(int) -> Seq<u8>, cls: int, k: int)
    requires
        0 <= k <= s.len(),
        forall|j: int| 0 <= j < s.len() ==> count(#[trigger] f(j), cls) == count(seq![s[j]], cls),
    ensures
        count(concat_pieces(f, k), cls) == count(s.take(k), cls),
    decreases k,
{
    if k == 0 {
        assert(s.take(0) =~= Seq::<u8>::empty());
    } else {
        lemma_count_pieces(s, f, cls, k - 1);
        lemma_count_concat(concat_pieces(f, k - 1), f(k - 1), cls);
        assert(s.take(k) =~= s.take(k - 1) + seq![s[k - 1]]);
        lemma_count_concat(s.take(k - 1), seq![s[k - 1]], cls);
    }
}

/// `a` and `b` are the same bytes up to ASCII case.
pub open spec fn same_but_case(a: Seq<u8>, b: Seq<u8>) -> bool {
    &&& a.len() == b.len()
    &&& forall|i: int| 0 <= i < a.len() ==> #[trigger] ascii_lower(a[i]) == ascii_lower(b[i])
}

/// Joining pieces that are the same up to case gives bytes that are the same
/// up to case.
pub proof fn lemma_same_but_case_concat(a: Seq<u8>, b: Seq<u8>, c: Seq<u8>, d: Seq<u8>)
    requires
        same_but_case(a, b),
        same_but_case(c, d),
    ensures
        same_but_case(a + c, b + d),
{
    assert forall|i: int| 0 <= i < (a + c).len() implies #[trigger] ascii_lower((a + c)[i])
        == ascii_lower((b + d)[i]) by {
        if i < a.len() {
            assert(ascii_lower(a[i]) == ascii_lower(b[i]));
        } else {
            assert(ascii_lower(c[i - a.len()]) == ascii_lower(d[i - a.len()]));
        }
    }
}

/// A prefix of bytes that are the same up to case.
pub proof fn lemma_same_but_case_take(a: Seq<u8>, b: Seq<u8>, n: int)
    requires
        same_but_case(a, b),
        0 <= n <= a.len(),
    ensures
        same_but_case(a.take(n), b.take(n)),
{
    assert forall|i: int| 0 <= i < n implies #[trigger] ascii_lower(a.take(n)[i]) == ascii_lower(
        b.take(n)[i],
    ) by {
        assert(ascii_lower(a[i]) == ascii_lower(b[i]));
    }
}

/// Pieces that are pairwise the same up to case, joined.
pub proof fn lemma_same_but_case_pieces(f: spec_fn(int) -> Seq<u8>, g: spec_fn(int) -> Seq<u8>, n: int)
    requires
        forall|i: int| 0 <= i < n ==> same_but_case(#[trigger] f(i), g(i)),
    ensures
        same_but_case(concat_pieces(f, n), concat_pieces(g, n)),
    decreases n,
{
    if n > 0 {
        lemma_same_but_case_pieces(f, g, n - 1);
        lemma_same_but_case_concat(concat_pieces(f, n - 1), concat_pieces(g, n - 1), f(n - 1), g(n - 1));
    }
}

/// Joining more pieces never gives fewer bytes.
pub proof fn lemma_concat_pieces_grow(f: spec_fn(int) -> Seq<u8>, m: int, n: int)
    requires
        0 <= m <= n,
    ensures
        concat_pieces(f, m).len() <= concat_pieces(f, n).len(),
    decreases n - m,
{
    if m < n {
        lemma_concat_pieces_grow(f, m, n - 1);
    }
}

/// Joining pieces that agree below `n` gives the same bytes.
pub proof fn lemma_concat_pieces_agree(f: spec_fn(int) -> Seq<u8>, g: spec_fn(int) -> Seq<u8>, n: int)
    requires
        forall|i: int| 0 <= i < n ==> #[trigger] f(i) == g(i),
    ensures
        concat_pieces(f, n) == concat_pieces(g, n),
    decreases n,
{
    if n > 0 {
        lemma_concat_pieces_agree(f, g, n - 1);
    }
}

} // verus!
