//! Packed 16-bit texels to RGBA with 8 bits per channel.

use vstd::prelude::*;

verus! {

/// The upper four bits of a byte.
pub open spec fn high_nibble(byte: u8) -> u8 {
    byte >> 4
}

/// The lower four bits of a byte.
pub open spec fn low_nibble(byte: u8) -> u8 {
    byte & 0xF
}

/// A 4-bit channel as an 8-bit one: the nibble stands in both halves of the
/// byte, so 0 stays 0 and 15 becomes 255.
pub open spec fn widen(nibble: u8) -> u8 {
    (nibble << 4) | nibble
}

/// A colour channel scaled by `alpha / 255`, rounded towards zero.
///
/// For all 8-bit `channel` and `alpha` this is also what single-precision
/// arithmetic gives for `channel * (alpha / 255.0)` cut off to an integer.
pub open spec fn premultiply(channel: u8, alpha: u8) -> u8 {
    ((channel as int * alpha as int) / 255) as u8
}

/// The four bytes red, green, blue, alpha of one RGBA4444 texel. Its first
/// byte holds blue above alpha, its second byte red above green.
pub open spec fn rgba4444_texel(first: u8, second: u8, premultiplied: bool) -> Seq<u8> {
    let red = widen(high_nibble(second));
    let green = widen(low_nibble(second));
    let blue = widen(high_nibble(first));
    let alpha = widen(low_nibble(first));
    if premultiplied {
        seq![premultiply(red, alpha), premultiply(green, alpha), premultiply(blue, alpha), alpha]
    } else {
        seq![red, green, blue, alpha]
    }
}

/// The four bytes red, green, blue, alpha of one LA88 texel. Its first byte
/// is alpha, its second the luminance that all three colours take.
pub open spec fn la88_texel(first: u8, second: u8) -> Seq<u8> {
    seq![second, second, second, first]
}

/// The RGBA image of an RGBA4444 buffer: four bytes for each whole texel, in
/// order. A single byte left over at the end has no share in it.
pub open spec fn rgba4444_image(input: Seq<u8>, premultiplied: bool) -> Seq<u8> {
    Seq::new(
        (4 * (input.len() / 2)) as nat,
        |k: int| rgba4444_texel(input[2 * (k / 4)], input[2 * (k / 4) + 1], premultiplied)[k % 4],
    )
}

/// The RGBA image of an LA88 buffer: four bytes for each whole texel, in
/// order. A single byte left over at the end has no share in it.
pub open spec fn la88_image(input: Seq<u8>) -> Seq<u8> {
    Seq::new(
        (4 * (input.len() / 2)) as nat,
        |k: int| la88_texel(input[2 * (k / 4)], input[2 * (k / 4) + 1])[k % 4],
    )
}

/// Doubling a nibble into a byte multiplies it by 17.
pub proof fn lemma_widen_is_times_17(nibble: u8)
    requires
        nibble < 16,
    ensures
        widen(nibble) == 17 * nibble,
{
    assert((nibble << 4) | nibble == 17 * nibble) by (bit_vector)
        requires
            nibble < 16,
    ;
}

/// The two nibbles of a byte are its quotient and remainder by 16.
pub proof fn lemma_nibbles(byte: u8)
    ensures
        high_nibble(byte) == byte / 16,
        low_nibble(byte) == byte % 16,
{
    assert(byte >> 4 == byte / 16) by (bit_vector);
    assert(byte & 0xF == byte % 16) by (bit_vector);
}

/// A channel times alpha over 255, rounded towards zero.
fn scale(channel: u8, alpha: u8) -> (scaled: u8)
    ensures
        scaled == premultiply(channel, alpha),
{
    assert(channel * alpha <= 255 * 255) by (nonlinear_arith)
        requires
            channel <= 255,
            alpha <= 255,
    ;
    let product: u16 = channel as u16 * alpha as u16;
    (product / 255) as u8
}

/// Expands RGBA4444 texels, two bytes each, to RGBA with 8 bits per channel.
///
/// With `premultiplied` set, red, green and blue are scaled by alpha over
/// 255 after the expansion. A trailing odd byte is dropped.
pub fn rgba4444_to_rgba8888(input: Vec<u8>, premultiplied: bool) -> (output: Vec<u8>)
    ensures
        output@ == rgba4444_image(input@, premultiplied),
{
    let mut output: Vec<u8> = Vec::new();
    let texels: usize = input.len() / 2;
    let mut i: usize = 0;
    while i < texels
        invariant
            i <= texels,
            texels == input.len() / 2,
            output.len() == 4 * i,
            forall|k: int|
                0 <= k < 4 * i ==> output[k] == #[trigger] rgba4444_image(input@, premultiplied)[k],
        decreases texels - i,
    {
        let first: u8 = input[2 * i];
        let second: u8 = input[2 * i + 1];
        let r: u8 = (second >> 4) & 0xF;
        let g: u8 = second & 0xF;
        let b: u8 = (first >> 4) & 0xF;
        let a: u8 = first & 0xF;
        assert((second >> 4) & 0xF == second >> 4) by (bit_vector);
        assert((first >> 4) & 0xF == first >> 4) by (bit_vector);
        let mut r: u8 = (r << 4) | r;
        let mut g: u8 = (g << 4) | g;
        let mut b: u8 = (b << 4) | b;
        let a: u8 = (a << 4) | a;
        if premultiplied {
            r = scale(r, a);
            g = scale(g, a);
            b = scale(b, a);
        }
        let ghost before = output@;
        output.push(r);
        output.push(g);
        output.push(b);
        output.push(a);
        proof {
            let texel = rgba4444_texel(first, second, premultiplied);
            assert(output@ == before + texel);
            assert forall|k: int| 0 <= k < 4 * (i + 1) implies
                output[k] == #[trigger] rgba4444_image(
                input@,
                premultiplied,
            )[k] by {
                if k >= 4 * i {
                    assert(k / 4 == i);
                    assert(output[k] == texel[k - 4 * i]);
                    assert(k % 4 == k - 4 * i);
                }
            }
        }
        i = i + 1;
    }
    assert(output@ =~= rgba4444_image(input@, premultiplied));
    output
}

/// Expands LA88 texels, an alpha byte and a luminance byte each, to RGBA
/// with 8 bits per channel.
///
/// `premultiplied` changes nothing: the colours are the luminance as it is.
/// A trailing odd byte is dropped.
pub fn la88_to_rgba8888(input: Vec<u8>, premultiplied: bool) -> (output: Vec<u8>)
    ensures
        output@ == la88_image(input@),
{
    let mut output: Vec<u8> = Vec::new();
    let texels: usize = input.len() / 2;
    let mut i: usize = 0;
    while i < texels
        invariant
            i <= texels,
            texels == input.len() / 2,
            output.len() == 4 * i,
            forall|k: int| 0 <= k < 4 * i ==> output[k] == #[trigger] la88_image(input@)[k],
        decreases texels - i,
    {
        let a: u8 = input[2 * i];
        let l: u8 = input[2 * i + 1];
        let ghost before = output@;
        output.push(l);
        output.push(l);
        output.push(l);
        output.push(a);
        proof {
            let texel = la88_texel(a, l);
            assert(output@ == before + texel);
            assert forall|k: int| 0 <= k < 4 * (i + 1) implies output[k] == #[trigger] la88_image(
                input@,
            )[k] by {
                if k >= 4 * i {
                    assert(k / 4 == i);
                    assert(output[k] == texel[k - 4 * i]);
                    assert(k % 4 == k - 4 * i);
                }
            }
        }
        i = i + 1;
    }
    assert(output@ =~= la88_image(input@));
    output
}

} // verus!
