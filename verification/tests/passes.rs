use portable_uwu::transform::bitap::{bitap, get_masks, get_start_mask, Bitap8x16, PATTERNS};
use portable_uwu::transform::emoji::emoji;
use portable_uwu::transform::nyaify::nyaify;
use portable_uwu::transform::stutter::stutter;
use portable_uwu::transform::text::str_to_vec;
use portable_uwu::read_loop::{read_step, ReadAction, ReadEvent};
use portable_uwu::xorshift::XorShift32;

fn run_bitap(input: &[u8]) -> Vec<u8> {
    let mut out = vec![0u8; 2 * input.len()];
    let n = bitap(input, &mut out);
    out.truncate(n);
    out
}

fn run_nyaify(input: &[u8]) -> Vec<u8> {
    let mut out = vec![0u8; 2 * input.len()];
    let n = nyaify(input, &mut out);
    out.truncate(n);
    out
}

fn run_stutter(input: &[u8], rng: &mut XorShift32) -> Vec<u8> {
    let mut out = vec![0u8; 2 * input.len() + 15];
    let n = stutter(input, &mut out, rng);
    out.truncate(n);
    out
}

fn run_emoji(input: &[u8], rng: &mut XorShift32) -> Vec<u8> {
    // the input at the end of the buffer, with room for an emoticon per byte
    let mut buf = vec![0u8; 16 * input.len()];
    let start = buf.len() - input.len();
    buf[start..].copy_from_slice(input);
    let n = emoji(&mut buf, start, input.len(), rng);
    buf.truncate(n);
    buf
}

#[test]
fn xorshift_words() {
    let mut rng = XorShift32::new(*b"uwu!");
    assert_eq!(rng.gen_u32(), 3891593728);
    assert_eq!(rng.gen_u32(), 2221675634);
    assert_eq!(rng.gen_u32(), 928940309);
}

#[test]
fn xorshift_bits() {
    let mut rng = XorShift32::new(*b"uwu!");
    let got: Vec<u32> = (0..5).map(|_| rng.gen_bits(5)).collect();
    assert_eq!(got, vec![0, 18, 21, 7, 29]);
    let mut rng = XorShift32::new(*b"uwu!");
    let got: Vec<u32> = (0..8).map(|_| rng.gen_bits(1)).collect();
    assert_eq!(got, vec![0, 0, 1, 1, 1, 1, 1, 1]);
}

#[test]
fn xorshift_bits_edges() {
    let mut a = XorShift32::new(*b"uwu!");
    let mut b = XorShift32::new(*b"uwu!");
    assert_eq!(a.gen_bits(32), b.gen_u32());
    assert_eq!(a.gen_bits(0), 0);
    assert_eq!(a.gen_u32(), {
        b.gen_u32();
        b.gen_u32()
    });
}

#[test]
fn str_to_vec_pads_with_zeros() {
    let v: [u8; 16] = str_to_vec("nani");
    assert_eq!(v, [b'n', b'a', b'n', b'i', 0, 0, 0, 0, 0, 0, 0, 0, 0, 0, 0, 0]);
    let w: [u8; 4] = str_to_vec("baka");
    assert_eq!(w, *b"baka");
}

#[test]
fn start_mask_marks_first_bytes() {
    let start = get_start_mask(&PATTERNS);
    assert_eq!(start, [1 << 11, 1 << 12, 1 << 11, 1 << 12, 1 << 10, 1 << 12, 1 << 12, 1 << 12]);
}

#[test]
fn masks_mark_pattern_bytes_in_both_cases() {
    let masks = get_masks(&PATTERNS);
    assert_eq!(masks.len(), 256);
    // "cute" is lane 1 at offset 12: c=12, u=13, t=14, e=15
    assert_eq!(masks[b'c' as usize][1], 1 << 12);
    assert_eq!(masks[b'E' as usize][1], 1 << 15);
    // 'l' in "small" (bits 14 and 15), "fluff" (bit 12), "love" (bit 12)
    assert_eq!(masks[b'l' as usize][0], (1 << 14) | (1 << 15));
    assert_eq!(masks[b'L' as usize][2], 1 << 12);
    assert_eq!(masks[b'l' as usize][3], 1 << 12);
    assert_eq!(masks[b'z' as usize], [0; 8]);
    assert_eq!(masks[b' ' as usize], [0; 8]);
}

#[test]
fn bitap_replaces_words() {
    assert_eq!(run_bitap(b"I love cute cats"), b"I luv kawaii~ cats".to_vec());
    assert_eq!(
        run_bitap(b"smallove CUTE MeOw stupid what fluff"),
        b"smolove kawaii~ nya~ baka nani floof".to_vec()
    );
    assert_eq!(run_bitap(b""), Vec::<u8>::new());
}

#[test]
fn bitap8x16_no_match_after_other_bytes() {
    let mut bitap = Bitap8x16::new();
    for &c in b"cu te" {
        assert_eq!(bitap.next(c), None);
    }
}

#[test]
fn nyaify_after_space() {
    assert_eq!(run_nyaify(b"a n N"), b"a ny Ny".to_vec());
    // the `n` at offset 16 starts a block, so the space before it does not count
    assert_eq!(run_nyaify(b"abcdefghijklmn n no"), b"abcdefghijklmn ny nyo".to_vec());
    assert_eq!(run_nyaify(b"nine"), b"nine".to_vec());
}

#[test]
fn stutter_lowers_and_stutters() {
    let mut rng = XorShift32::new(*b"uwu!");
    assert_eq!(
        run_stutter(b"hello world, are you there? yes it is really me", &mut rng),
        b"hewwo wowwd, awe you thewe? yes it i-is weawwy me".to_vec()
    );
    let mut rng = XorShift32::new(*b"uwu!");
    assert_eq!(run_stutter(b"HELLO", &mut rng), b"hewwo".to_vec());
}

#[test]
fn emoji_after_punctuation() {
    let mut rng = XorShift32::new(*b"uwu!");
    assert_eq!(
        String::from_utf8(run_emoji(b"Hi. Ok! Fine, sure. End.", &mut rng)).unwrap(),
        "Hi. rawr x3 Ok! Fine, sure. XD End."
    );
    let mut rng = XorShift32::new(*b"uwu!");
    assert_eq!(run_emoji(b"Wait... no", &mut rng), b"Wait... no".to_vec());
}

#[test]
fn passes_keep_non_ascii_bytes() {
    let text = "cüte småll né ñ. ü! Ça va, naïve";
    let words = run_bitap(text.as_bytes());
    assert_eq!(String::from_utf8(words.clone()).unwrap(), "cüte småll né ñ. ü! Ça va, naïve");
    let nya = run_nyaify(&words);
    assert_eq!(String::from_utf8(nya.clone()).unwrap(), "cüte småll nyé ñ. ü! Ça va, nyaïve");
    let mut rng = XorShift32::new(*b"uwu!");
    let stuttered = run_stutter(&nya, &mut rng);
    let stuttered_text = String::from_utf8(stuttered.clone()).unwrap();
    let emojis = run_emoji(&stuttered, &mut rng);
    let emoji_text = String::from_utf8(emojis).unwrap();
    for word in ["ü", "å", "é", "ñ", "Ç", "ï"] {
        assert!(stuttered_text.contains(word));
        assert!(emoji_text.contains(word));
    }
}

#[test]
fn generator_does_not_stall() {
    let mut rng = XorShift32::new([0, 0, 0, 0]);
    let mut prev = rng.gen_u32();
    let mut steps_all_equal = true;
    for _ in 0..64 {
        let next = rng.gen_u32();
        if next.wrapping_sub(prev) != 1234567891 {
            steps_all_equal = false;
        }
        prev = next;
    }
    assert!(!steps_all_equal);
}

#[test]
fn bitap8x16_reset_forgets_bytes() {
    let mut bitap = Bitap8x16::new();
    for &c in b"cut" {
        assert_eq!(bitap.next(c), None);
    }
    bitap.reset();
    assert_eq!(bitap.next(b'e'), None);
    for &c in b"cut" {
        assert_eq!(bitap.next(c), None);
    }
    assert!(bitap.next(b'E').is_some());
}

#[test]
fn bitap_writes_prefix_only() {
    let mut out = vec![7u8; 40];
    let n = bitap(b"what is love", &mut out);
    assert_eq!(&out[..n], b"nani is luv");
    assert_eq!(n, 11);
}

#[test]
fn emoji_in_place_over_its_input() {
    // the input right at the front of its buffer, when it needs no emoticon
    let mut rng = XorShift32::new(*b"uwu!");
    let mut buf = b"no marks here".to_vec();
    let n = emoji(&mut buf, 0, 13, &mut rng);
    assert_eq!(&buf[..n], b"no marks here");
    // the input in the middle of a buffer, with the room just enough
    let mut rng = XorShift32::new(*b"uwu!");
    let mut buf = vec![0u8; 9 + 3];
    buf[9..].copy_from_slice(b"a. ");
    let n = emoji(&mut buf, 9, 3, &mut rng);
    assert_eq!(&buf[..n], b"a. rawr x3 ");
}

#[test]
fn read_step_decisions() {
    assert_eq!(read_step(0, 10, ReadEvent::Got(4)), ReadAction::Continue(4));
    assert_eq!(read_step(4, 10, ReadEvent::Got(6)), ReadAction::Done(10));
    assert_eq!(read_step(4, 10, ReadEvent::Got(0)), ReadAction::Done(4));
    assert_eq!(read_step(4, 10, ReadEvent::End), ReadAction::Done(4));
    assert_eq!(read_step(4, 10, ReadEvent::Interrupted), ReadAction::Continue(4));
    assert_eq!(read_step(4, 10, ReadEvent::Failed), ReadAction::Fail);
}
