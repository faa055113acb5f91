# portable_uwu

Turns text into uwu-speak, with every pass specified and proved in Verus.

The rendition runs four passes over the bytes of the text:

1. `transform::bitap` replaces words ("cute" becomes "kawaii~") with a
   shift-and matcher that keeps one 16-bit lane per word;
2. `transform::nyaify` puts a `y` after each `n` that follows a space;
3. `transform::stutter` lowers letters, turns `l` and `r` into `w`, and in each
   block of 16 bytes may make the first word stutter;
4. `transform::emoji` may put an emoticon after the first suitable punctuation
   mark of each block of 16 bytes.

The last two passes draw from `xorshift::XorShift32`, seeded with `uwu!`.

`uwuify_into` runs the four passes in two buffers of the caller's, passing the
text back and forth between them (the emoticon pass works within one buffer,
writing its output over the input it has read); `uwuify_bytes` and `uwuify`
allocate those buffers. Besides their exact contracts, the library proves that
each pass keeps every byte outside ASCII as it is (`keep.rs`), that the
rendition of valid UTF-8 is valid UTF-8, that the rendition of `n` bytes fits
in `4 * n + 24` bytes, and that the rendition does not depend on ASCII case.

`read_loop::read_step` holds the decisions of the loop that fills a buffer
from a reader. `app/main.rs` is the command-line program: it runs that loop on
standard input, in chunks, and writes the rendition of each to standard
output.
