//! Turns text into its uwu-speak rendition.
//!
//! The rendition is made in four passes over the bytes: words are replaced
//! ("cute" becomes "kawaii~"), "n" after a space becomes "ny", letters are
//! lowered with "l" and "r" becoming "w" and some words stutter, and emoticons
//! follow some punctuation. Bytes outside ASCII pass through unchanged.
pub mod keep;
pub mod read_loop;
pub mod transform;
pub mod xorshift;

use keep::{keeps_non_ascii, lemma_keeps_valid_utf8};
use transform::bitap::{
    bitap, bitap_spec, lemma_bitap_ignores_case, lemma_bitap_keeps_non_ascii, lemma_bitap_len,
};
use transform::emoji::{
    emoji, emoji_run, lemma_emoji_keeps_non_ascii, lemma_emoji_len, lemma_emoji_run_grows,
};
use transform::nyaify::{
    lemma_nyaify_ignores_case, lemma_nyaify_keeps_non_ascii, lemma_nyaify_len, nyaify, nyaify_spec,
};
use transform::stutter::{
    lemma_stutter_ignores_case, lemma_stutter_keeps_non_ascii, lemma_stutter_len, stutter,
    stutter_run,
};
use transform::text::{
    ascii_lower, ascii_upper, lemma_spaces_puncts_le_len, puncts, same_but_case, spaces,
};
use vstd::prelude::*;
use vstd::string::*;
use vstd::utf8::{decode_utf8, encode_utf8_valid_utf8, valid_utf8};
use xorshift::{rng_seeded, XorShift32};

verus! {

/// The seed of the generator that decides stutters and emoticons: the bytes
/// of `uwu!`.
pub const SEED: [u8; 4] = [117u8, 119u8, 117u8, 33u8];

/// The uwu rendition of the bytes `s`: the four passes in turn, the last two
/// drawing from one generator seeded with `SEED`.
pub open spec fn uwuify_spec(s: Seq<u8>) -> Seq<u8> {
    let words = bitap_spec(s);
    let nya = nyaify_spec(words);
    let (stuttered, g) = stutter_run(nya, rng_seeded(SEED@));
    emoji_run(stuttered, g).0
}

/// Uwuifies some bytes; bytes outside ASCII are unchanged.
pub fn uwuify_bytes(v: &[u8]) -> (r: Vec<u8>)
    requires
        v@.len() <= (usize::MAX - 24) / 4,
    ensures
        r@ == uwuify_spec(v@),
{
    let mut out_buf: Vec<u8> = vec![0u8; v.len() * 4 + 24];
    let mut aux_buf: Vec<u8> = vec![0u8; v.len() * 2 + 15];
    let result = uwuify_into(v, out_buf.as_mut_slice(), aux_buf.as_mut_slice());
    vstd::slice::slice_to_vec(result)
}

/// Each of the four passes keeps every byte outside ASCII as it is: it only
/// rewrites runs of ASCII bytes, into valid UTF-8.
pub proof fn lemma_uwuify_keeps_non_ascii(s: Seq<u8>)
    ensures
        ({
            let words = bitap_spec(s);
            let nya = nyaify_spec(words);
            let (stuttered, g) = stutter_run(nya, rng_seeded(SEED@));
            &&& keeps_non_ascii(s, words)
            &&& keeps_non_ascii(words, nya)
            &&& keeps_non_ascii(nya, stuttered)
            &&& keeps_non_ascii(stuttered, uwuify_spec(s))
        }),
{
    let words = bitap_spec(s);
    let nya = nyaify_spec(words);
    let (stuttered, g) = stutter_run(nya, rng_seeded(SEED@));
    lemma_bitap_keeps_non_ascii(s);
    lemma_nyaify_keeps_non_ascii(words);
    lemma_stutter_keeps_non_ascii(nya, rng_seeded(SEED@));
    lemma_emoji_keeps_non_ascii(stuttered, g);
}

/// The rendition of valid UTF-8 is valid UTF-8.
pub proof fn lemma_uwuify_valid_utf8(s: Seq<u8>)
    requires
        valid_utf8(s),
    ensures
        valid_utf8(uwuify_spec(s)),
{
    let words = bitap_spec(s);
    let nya = nyaify_spec(words);
    let (stuttered, g) = stutter_run(nya, rng_seeded(SEED@));
    lemma_uwuify_keeps_non_ascii(s);
    lemma_keeps_valid_utf8(s, words);
    lemma_keeps_valid_utf8(words, nya);
    lemma_keeps_valid_utf8(nya, stuttered);
    lemma_keeps_valid_utf8(stuttered, uwuify_spec(s));
}

/// The rendition of `n` bytes is at most `4 * n + 24` bytes long.
pub proof fn lemma_uwuify_len(s: Seq<u8>)
    ensures
        uwuify_spec(s).len() <= 4 * s.len() + 24,
{
    let words = bitap_spec(s);
    let nya = nyaify_spec(words);
    let (stuttered, g) = stutter_run(nya, rng_seeded(SEED@));
    lemma_spaces_puncts_le_len(s);
    lemma_bitap_len(s);
    lemma_nyaify_len(words);
    lemma_stutter_len(nya, rng_seeded(SEED@));
    lemma_emoji_len(stuttered, g);
    let n = s.len() as int;
    let sp = spaces(s) as int;
    let pu = puncts(s) as int;
    let a = words.len() as int;
    let b = nya.len() as int;
    let c = stuttered.len() as int;
    let d = uwuify_spec(s).len() as int;
    assert(4 * a + 3 * (sp + pu) <= 7 * n);
    assert(b <= a + sp);
    assert(b + sp + pu <= 2 * a);
    assert(8 * c <= 9 * b + 15);
    assert(d <= c + 15 * pu);
    assert(16 * d <= 31 * c + 225);
    assert(d <= 4 * n + 24);
}

/// The rendition does not depend on ASCII case: inputs that differ only in
/// the case of their letters give the same output.
pub proof fn lemma_uwuify_ignores_case(s: Seq<u8>, t: Seq<u8>)
    requires
        same_but_case(s, t),
    ensures
        uwuify_spec(s) == uwuify_spec(t),
{
    lemma_bitap_ignores_case(s, t);
    lemma_nyaify_ignores_case(bitap_spec(s), bitap_spec(t));
    lemma_stutter_ignores_case(
        nyaify_spec(bitap_spec(s)),
        nyaify_spec(bitap_spec(t)),
        rng_seeded(SEED@),
    );
}

/// The rendition of the input in lower case, and of the input in upper case,
/// is the rendition of the input.
pub proof fn lemma_uwuify_lower_upper(s: Seq<u8>)
    ensures
        uwuify_spec(s.map_values(|b: u8| ascii_lower(b))) == uwuify_spec(s),
        uwuify_spec(s.map_values(|b: u8| ascii_upper(b))) == uwuify_spec(s),
{
    let lo = s.map_values(|b: u8| ascii_lower(b));
    let up = s.map_values(|b: u8| ascii_upper(b));
    assert(same_but_case(lo, s));
    assert(same_but_case(up, s));
    lemma_uwuify_ignores_case(lo, s);
    lemma_uwuify_ignores_case(up, s);
}

/// `String::from_utf8`, on bytes that are valid UTF-8, gives the string whose
/// characters those bytes encode; the error case cannot arise here.
#[verifier::external_body]
fn string_from_utf8(bytes: Vec<u8>) -> (r: String)
    requires
        valid_utf8(bytes@),
    ensures
        r@ == decode_utf8(bytes@),
{
    String::from_utf8(bytes).unwrap()
}

/// Moves `buf[0..len]` to the end of `buf`; returns where it now starts.
fn move_to_end(buf: &mut [u8], len: usize) -> (start: usize)
    requires
        len <= old(buf)@.len(),
    ensures
        start == old(buf)@.len() - len,
        final(buf)@.len() == old(buf)@.len(),
        final(buf)@.subrange(start as int, final(buf)@.len() as int) == old(buf)@.take(len as int),
{
    let n = buf.len();
    let start = n - len;
    let mut j: usize = len;
    while j > 0
        invariant
            n == buf@.len(),
            n == old(buf)@.len(),
            start == n - len,
            j <= len,
            forall|q: int| 0 <= q < j ==> buf@[q] == old(buf)@[q],
            forall|q: int| j <= q < len ==> buf@[start + q] == old(buf)@[q],
        decreases j,
    {
        j = j - 1;
        let b = buf[j];
        buf[start + j] = b;
    }
    assert(buf@.subrange(start as int, n as int) =~= old(buf)@.take(len as int));
    start
}

/// Uwuifies some bytes into `out_buf`, using `aux_buf` on the way; bytes
/// outside ASCII are unchanged. The result is a prefix of `out_buf`.
pub fn uwuify_into<'a>(bytes: &[u8], out_buf: &'a mut [u8], aux_buf: &mut [u8]) -> (r: &'a [u8])
    requires
        bytes@.len() <= (usize::MAX - 24) / 4,
        old(out_buf)@.len() >= bytes@.len() * 4 + 24,
        old(aux_buf)@.len() >= bytes@.len() * 2 + 15,
    ensures
        r@ == uwuify_spec(bytes@),
        final(out_buf)@.len() == old(out_buf)@.len(),
        final(out_buf)@.take(r@.len() as int) == r@,
        final(aux_buf)@.len() == old(aux_buf)@.len(),
{
    let ghost s = bytes@;
    let ghost words = bitap_spec(s);
    let ghost nya = nyaify_spec(words);
    let ghost g0 = rng_seeded(SEED@);
    let ghost stuttered = stutter_run(nya, g0).0;
    let ghost g1 = stutter_run(nya, g0).1;
    proof {
        lemma_spaces_puncts_le_len(s);
        lemma_bitap_len(s);
        lemma_nyaify_len(words);
        lemma_uwuify_len(s);
        lemma_emoji_run_grows(stuttered, g1);
    }
    let mut rng = XorShift32::new(SEED);
    // the words, at the front of `out_buf`
    let a = bitap(bytes, out_buf);
    // the `y`s, at the front of `aux_buf`
    let b = nyaify(vstd::slice::slice_subrange(out_buf, 0, a), aux_buf);
    // the letters, at the front of `out_buf`
    let c = stutter(vstd::slice::slice_subrange(aux_buf, 0, b), out_buf, &mut rng);
    // the emoticons, in `out_buf`: its output overtakes none of its input
    let start = move_to_end(out_buf, c);
    let d = emoji(out_buf, start, c, &mut rng);
    let out: &'a [u8] = out_buf;
    vstd::slice::slice_subrange(out, 0, d)
}

/// Uwuifies a string.
pub fn uwuify(s: &str) -> (r: String)
    requires
        s.spec_bytes().len() <= (usize::MAX - 24) / 4,
    ensures
        valid_utf8(uwuify_spec(s.spec_bytes())),
        r@ == decode_utf8(uwuify_spec(s.spec_bytes())),
{
    let result = uwuify_bytes(s.as_bytes());
    proof {
        encode_utf8_valid_utf8(s@);
        lemma_uwuify_valid_utf8(s.spec_bytes());
    }
    string_from_utf8(result)
}

} // verus!
