use portable_uwu::transform::bitap::{Bitap8x16, Match};
use portable_uwu::transform::text::str_to_vec;
use portable_uwu::{uwuify, uwuify_bytes, uwuify_into};

const INPUT: &str = "Hey, I think I really love you. Do you want a headpat?";
const EXPECTED: &str = "hey, (ꈍᴗꈍ) i think i weawwy wuv you. ^•ﻌ•^ do y-you want a headpat?";

#[test]
fn uwuify_works() {
    let actual = uwuify(INPUT);
    assert_eq!(actual, EXPECTED);
}

#[test]
fn uwuify_bytes_works() {
    let actual = uwuify_bytes(INPUT.as_bytes());
    assert_eq!(actual, EXPECTED.as_bytes());
}

#[test]
fn uwuify_into_works() {
    let bytes = INPUT.as_bytes();
    let mut out_buf = vec![0u8; bytes.len() * 4 + 24];
    let mut aux_buf = vec![0u8; bytes.len() * 2 + 15];
    let actual = uwuify_into(bytes, &mut out_buf, &mut aux_buf);
    assert_eq!(actual, EXPECTED.as_bytes());
}

#[test]
fn uwuify_paragraph() {
    let input = "Once upon a time, in a small village, there lived a really cute cat named Fluff. \nEvery morning she would say: \"Meow! What a lovely day.\" and then she ran, ran, ran.\nNobody knew why; nobody cared... Still, the stupid dog loved her!!! The end. Right?\n\tTabs and new lines, numbers 12345, and UTF-8 like naïve café or 日本語 stay intact.";
    let expected = "once upon a time, (⑅˘꒳˘) in a smow viwwage, (U ᵕ U❁) t-thewe wived a-a weawwy kawaii~ c-cat nyamed fwoof. -.- \ne-evewy mowning s-she wouwd say: \"nya~! ^^;; n-nyani a w-wuvwy day.\" and t-then she wan, >_< wan, mya wan.\nnyobody knew why; nyobody cawed... stiww, mya the baka dog wuvd h-hew!!! the end. 😳 wight?\n\ttabs and nyew wines, XD n-nyumbews 12345, :3 and utf-8 wike n-nyaïve café ow 日本語 stay intact.";
    assert_eq!(uwuify(input), expected);
    let mut out_buf = vec![0u8; input.len() * 4 + 24];
    let mut aux_buf = vec![0u8; input.len() * 2 + 15];
    assert_eq!(uwuify_into(input.as_bytes(), &mut out_buf, &mut aux_buf), expected.as_bytes());
    assert!(expected.len() <= input.len() * 4 + 24);
}

#[test]
fn uwuify_into_tight_buffers() {
    // the rendition fits in the smallest buffers allowed, here for the
    // longest emoticon after a lone punctuation mark
    let input = b". ";
    let mut out_buf = vec![0u8; input.len() * 4 + 24];
    let mut aux_buf = vec![0u8; input.len() * 2 + 15];
    let got = uwuify_into(input, &mut out_buf, &mut aux_buf).to_vec();
    assert_eq!(got, b". rawr x3 ".to_vec());
    assert_eq!(out_buf.len(), input.len() * 4 + 24);
    assert_eq!(aux_buf.len(), input.len() * 2 + 15);
}

#[test]
fn uwuify_into_reuses_buffers() {
    // a second rendition into the same buffers is not disturbed by the first
    let mut out_buf = vec![0xffu8; INPUT.len() * 4 + 24];
    let mut aux_buf = vec![0xffu8; INPUT.len() * 2 + 15];
    assert_eq!(uwuify_into(b"cute cute cute!! ", &mut out_buf, &mut aux_buf), uwuify_bytes(b"cute cute cute!! ").as_slice());
    assert_eq!(uwuify_into(INPUT.as_bytes(), &mut out_buf, &mut aux_buf), EXPECTED.as_bytes());
}

#[test]
fn uwuify_ignores_case() {
    let upper = INPUT.to_ascii_uppercase();
    let lower = INPUT.to_ascii_lowercase();
    assert_eq!(uwuify(&upper), EXPECTED);
    assert_eq!(uwuify(&lower), EXPECTED);
    let mixed = "ThE SMALL cUtE dOg SaId: nO. MEOW, what?";
    assert_eq!(uwuify_bytes(mixed.as_bytes()), uwuify_bytes(mixed.to_ascii_lowercase().as_bytes()));
    assert_eq!(uwuify_bytes(mixed.as_bytes()), uwuify_bytes(mixed.to_ascii_uppercase().as_bytes()));
}

#[test]
fn bitap8x16_works() {
    let mut bitap = Bitap8x16::new();

    assert_eq!(bitap.next(b'c'), None);
    assert_eq!(bitap.next(b'u'), None);
    assert_eq!(bitap.next(b't'), None);
    assert_eq!(
        bitap.next(b'e'),
        Some(Match {
            match_len: 4,
            replace_len: 7,
            replace_vec: str_to_vec("kawaii~"),
        })
    );

    assert_eq!(bitap.next(b'w'), None);
    assert_eq!(bitap.next(b'h'), None);
    assert_eq!(bitap.next(b'a'), None);
    assert_eq!(
        bitap.next(b't'),
        Some(Match {
            match_len: 4,
            replace_len: 4,
            replace_vec: str_to_vec("nani"),
        })
    );

    assert_eq!(bitap.next(b'w'), None);
    assert_eq!(bitap.next(b'h'), None);
    assert_eq!(bitap.next(b'a'), None);
    assert_eq!(bitap.next(b'a'), None);

    assert_eq!(bitap.next(b'W'), None);
    assert_eq!(bitap.next(b'h'), None);
    assert_eq!(bitap.next(b'A'), None);
    assert_eq!(
        bitap.next(b't'),
        Some(Match {
            match_len: 4,
            replace_len: 4,
            replace_vec: str_to_vec("nani"),
        })
    );
}

#[test]
fn uwuify_bytes_empty() {
    assert_eq!(uwuify_bytes(b""), Vec::<u8>::new());
}

#[test]
fn uwuify_string_example() {
    assert_eq!(
        uwuify("Hey, I think I really love you. Do you want a headpat?"),
        "hey, (ꈍᴗꈍ) i think i weawwy wuv you. ^•ﻌ•^ do y-you want a headpat?",
    );
}

#[test]
fn uwuify_keeps_non_ascii_text() {
    assert_eq!(
        uwuify("héllo wörld. Nice to see you, my love!"),
        "héwwo wöwwd. (ꈍᴗꈍ) nyice to see you, m-my wuv!",
    );
}

#[test]
fn uwuify_all_passes() {
    assert_eq!(
        uwuify("Meow... what a cute small kitten!!! I'm so stupid, fluff it."),
        "nya~... nyani a kawaii~ smow kitten!!! i-i'm so baka, ^•ﻌ•^ f-fwoof it.",
    );
}
