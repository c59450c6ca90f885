use vstd::prelude::*;

verus! {

/// The `0x00RRGGBB` word of a colour.
pub open spec fn rgb_word(r: u8, g: u8, b: u8) -> int {
    r * 65536 + g * 256 + b
}

/// The channels of a packed colour sit where the word layout puts them:
/// red in bits 16 to 23, green in bits 8 to 15, blue in bits 0 to 7, and
/// nothing above; an opaque word adds all ones in bits 24 to 31.
pub proof fn lemma_rgb_word_channels(r: u8, g: u8, b: u8)
    ensures
        rgb_word(r, g, b) == r * 65536 + g * 256 + b,
        0 <= rgb_word(r, g, b) < 0x0100_0000,
        ((rgb_word(r, g, b) as u32) >> 16u32) & 0xFFu32 == r as u32,
        ((rgb_word(r, g, b) as u32) >> 8u32) & 0xFFu32 == g as u32,
        (rgb_word(r, g, b) as u32) & 0xFFu32 == b as u32,
        ((0xFF00_0000 + rgb_word(r, g, b)) as u32) >> 24u32 == 0xFFu32,
        (((0xFF00_0000 + rgb_word(r, g, b)) as u32) >> 16u32) & 0xFFu32 == r as u32,
        (((0xFF00_0000 + rgb_word(r, g, b)) as u32) >> 8u32) & 0xFFu32 == g as u32,
        ((0xFF00_0000 + rgb_word(r, g, b)) as u32) & 0xFFu32 == b as u32,
{
    let w: u32 = (r as u32 * 65536 + g as u32 * 256 + b as u32) as u32;
    assert(w == r as u32 * 65536 + g as u32 * 256 + b as u32 && w < 0x0100_0000);
    assert((w >> 16u32) & 0xFFu32 == r as u32 && (w >> 8u32) & 0xFFu32 == g as u32 && w & 0xFFu32 == b as u32)
        by (bit_vector)
        requires
            w == r as u32 * 65536 + g as u32 * 256 + b as u32,
    ;
    let o: u32 = (0xFF00_0000u32 + w) as u32;
    assert(o >> 24u32 == 0xFFu32 && (o >> 16u32) & 0xFFu32 == r as u32 && (o >> 8u32) & 0xFFu32 == g as u32 && o
        & 0xFFu32 == b as u32) by (bit_vector)
        requires
            w == r as u32 * 65536 + g as u32 * 256 + b as u32,
            o == 0xFF00_0000u32 + w,
    ;
}

/// Packs three 8-bit channels into a `0x00RRGGBB` word.
pub fn pack_rgb(r: u8, g: u8, b: u8) -> (w: u32)
    ensures
        w == rgb_word(r, g, b),
        w == r * 65536 + g * 256 + b,
        (w >> 16u32) & 0xFFu32 == r as u32,
        (w >> 8u32) & 0xFFu32 == g as u32,
        w & 0xFFu32 == b as u32,
{
    let w = ((r as u32) << 16u32) | ((g as u32) << 8u32) | (b as u32);
    assert(w == r as u32 * 65536 + g as u32 * 256 + b as u32) by (bit_vector)
        requires
            w == ((r as u32) << 16u32) | ((g as u32) << 8u32) | (b as u32),
    ;
    proof {
        lemma_rgb_word_channels(r, g, b);
    }
    w
}

/// Packs three 8-bit channels into an opaque `0xFFRRGGBB` word.
pub fn pack_opaque(r: u8, g: u8, b: u8) -> (w: u32)
    ensures
        w == 0xFF00_0000 + rgb_word(r, g, b),
        w == 0xFF00_0000 + r * 65536 + g * 256 + b,
        w >> 24u32 == 0xFFu32,
        (w >> 16u32) & 0xFFu32 == r as u32,
        (w >> 8u32) & 0xFFu32 == g as u32,
        w & 0xFFu32 == b as u32,
{
    let rgb = pack_rgb(r, g, b);
    let w = 0xFF00_0000u32 | rgb;
    assert(w == 0xFF00_0000u32 + rgb) by (bit_vector)
        requires
            w == 0xFF00_0000u32 | rgb,
            rgb < 0x0100_0000,
    ;
    proof {
        lemma_rgb_word_channels(r, g, b);
    }
    w
}

} // verus!
