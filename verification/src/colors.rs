//! Colors: the color of a label, derived from a hash of its text, and the
//! color that a hex string names.

use std::collections::hash_map::DefaultHasher;
use std::hash::Hasher;
use vstd::prelude::*;
use vstd::std_specs::hash::DefaultHasherAdditionalSpecFns;
use vstd::utf8::encode_utf8;
use crate::text::chars_of;

verus! {

/// A terminal color: a red-green-blue triple or a named color.
#[derive(Clone, Copy, Debug, PartialEq, Eq, Structural)]
pub enum Color {
    Rgb { r: u8, g: u8, b: u8 },
    White,
    DarkGrey,
    Yellow,
    Green,
    Cyan,
}

/// The distance in degrees of the hue `h` from the middle of its pair of
/// sectors: 60 at a primary color, 0 halfway between two.
pub open spec fn hue_offset(h: int) -> int {
    let r = h % 120;
    if r >= 60 {
        r - 60
    } else {
        60 - r
    }
}

/// One channel's 8-bit level. `part` is the channel's share of the chroma in
/// units of 1/600000; the match value `v - v*s` is added to it, the sum is
/// scaled to 255 and cut off to a whole number within 0 and 255.
pub open spec fn channel(part: int, s: int, v: int) -> int {
    let total = 255 * (part + 60 * v * (100 - s));
    if total <= 0 {
        0
    } else if total / 600000 > 255 {
        255
    } else {
        total / 600000
    }
}

/// The red, green and blue levels of the color with hue `h` in degrees and
/// saturation `s` and value `v` in percent, by the piecewise sector formula:
/// chroma `c = v*s`, second component `x = c*(1 - |(h/60 mod 2) - 1|)`, match
/// value `m = v - c`, in sectors of 60 degrees.
pub open spec fn hsv_channels(h: int, s: int, v: int) -> (int, int, int) {
    let c = 60 * (v * s);
    let x = (v * s) * (60 - hue_offset(h));
    let parts = if h < 60 {
        (c, x, 0int)
    } else if h < 120 {
        (x, c, 0int)
    } else if h < 180 {
        (0int, c, x)
    } else if h < 240 {
        (0int, x, c)
    } else if h < 300 {
        (x, 0int, c)
    } else {
        (c, 0int, x)
    };
    (channel(parts.0, s, v), channel(parts.1, s, v), channel(parts.2, s, v))
}

fn channel_level(part: i64, s: u8, v: u8) -> (level: u8)
    requires
        0 <= part <= 60 * 255 * 255,
    ensures
        level == channel(part as int, s as int, v as int),
{
    let floor: i64 = 100 - (s as i64);
    assert(-155 * 255 <= (v as i64) * floor <= 100 * 255) by (nonlinear_arith)
        requires
            0 <= v <= 255,
            -155 <= floor <= 100,
    ;
    let lift: i64 = 60 * ((v as i64) * floor);
    assert(lift == 60 * v * (100 - s)) by (nonlinear_arith)
        requires
            lift == 60 * ((v as i64) * floor),
            floor == 100 - s,
    ;
    let total: i64 = 255 * (part + lift);
    if total <= 0 {
        0
    } else if total / 600000 > 255 {
        255
    } else {
        (total / 600000) as u8
    }
}

/// Converts a hue in degrees and a saturation and value in percent to red,
/// green and blue levels.
pub fn hsv_to_rgb(h: u16, s: u8, v: u8) -> (rgb: (u8, u8, u8))
    ensures
        rgb.0 == hsv_channels(h as int, s as int, v as int).0,
        rgb.1 == hsv_channels(h as int, s as int, v as int).1,
        rgb.2 == hsv_channels(h as int, s as int, v as int).2,
{
    let r: i64 = (h % 120) as i64;
    let offset: i64 = if r >= 60 {
        r - 60
    } else {
        60 - r
    };
    assert(0 <= (v as i64) * (s as i64) <= 255 * 255) by (nonlinear_arith)
        requires
            0 <= v <= 255,
            0 <= s <= 255,
    ;
    let chroma: i64 = (v as i64) * (s as i64);
    let c: i64 = 60 * chroma;
    assert(0 <= chroma * (60 - offset) <= 60 * 255 * 255) by (nonlinear_arith)
        requires
            0 <= chroma <= 255 * 255,
            0 <= offset <= 60,
    ;
    let x: i64 = chroma * (60 - offset);
    let parts: (i64, i64, i64) = if h < 60 {
        (c, x, 0)
    } else if h < 120 {
        (x, c, 0)
    } else if h < 180 {
        (0, c, x)
    } else if h < 240 {
        (0, x, c)
    } else if h < 300 {
        (x, 0, c)
    } else {
        (c, 0, x)
    };
    (channel_level(parts.0, s, v), channel_level(parts.1, s, v), channel_level(parts.2, s, v))
}

/// The 64-bit hash of a label: its UTF-8 bytes, then one byte that no text
/// holds, written to the standard hasher.
pub open spec fn label_hash(text: Seq<char>) -> u64 {
    DefaultHasher::spec_finish(seq![encode_utf8(text), seq![0xffu8]])
}

/// The saturation and value, in percent, for labels on a dark or on a light
/// background: muted on dark, so that white text on the label stays legible,
/// vibrant on light.
pub open spec fn label_tone(is_dark_theme: bool) -> (int, int) {
    if is_dark_theme {
        (50, 50)
    } else {
        (70, 80)
    }
}

/// The background color of the label `text`: the hue is the label's hash
/// modulo 360, the tone depends on the background alone.
pub open spec fn label_color(text: Seq<char>, is_dark_theme: bool) -> Color {
    let tone = label_tone(is_dark_theme);
    let levels = hsv_channels(label_hash(text) as int % 360, tone.0, tone.1);
    Color::Rgb { r: levels.0 as u8, g: levels.1 as u8, b: levels.2 as u8 }
}

/// The background color for a label. The color is a function of the text and
/// of the background mode: the same label always gets the same color.
pub fn hash_to_background_color(text: &str, is_dark_theme: bool) -> (color: Color)
    ensures
        color == label_color(text@, is_dark_theme),
{
    let mut hasher = DefaultHasher::new();
    let bytes = text.as_bytes();
    assert(bytes@ == encode_utf8(text@));
    hasher.write(bytes);
    let end: [u8; 1] = [0xff];
    let mark = end.as_slice();
    assert(mark@ =~= seq![0xffu8]);
    hasher.write(mark);
    let hash = hasher.finish();
    assert(hasher@ =~= seq![encode_utf8(text@), seq![0xffu8]]);
    let hue = (hash % 360) as u16;
    let (r, g, b) = if is_dark_theme {
        hsv_to_rgb(hue, 50, 50)
    } else {
        hsv_to_rgb(hue, 70, 80)
    };
    Color::Rgb { r, g, b }
}

/// Two labels with the same text, on the same background, have the same
/// color.
pub proof fn lemma_label_color_is_stable(a: Seq<char>, b: Seq<char>, is_dark_theme: bool)
    requires
        a =~= b,
    ensures
        label_color(a, is_dark_theme) == label_color(b, is_dark_theme),
{
}

/// The value of a hexadecimal digit, in either case.
pub open spec fn hex_digit(c: char) -> Option<int> {
    let n = c as u32 as int;
    if 48 <= n <= 57 {
        Some(n - 48)
    } else if 97 <= n <= 102 {
        Some(n - 87)
    } else if 65 <= n <= 70 {
        Some(n - 55)
    } else {
        None
    }
}

/// The digits of a hex color: the text without its one leading `#`, if it has
/// one.
pub open spec fn hex_body(hex: Seq<char>) -> Seq<char> {
    if hex.len() > 0 && hex[0] == '#' {
        hex.drop_first()
    } else {
        hex
    }
}

/// Whether `hex` is six hex digits, after a `#` or without one.
pub open spec fn is_hex_color(hex: Seq<char>) -> bool {
    let body = hex_body(hex);
    body.len() == 6 && forall|i: int| 0 <= i < 6 ==> hex_digit(#[trigger] body[i]) is Some
}

/// The level that the two digits at `i` and `i + 1` give.
pub open spec fn hex_pair(body: Seq<char>, i: int) -> int {
    16 * hex_digit(body[i]).unwrap() + hex_digit(body[i + 1]).unwrap()
}

/// The color that `hex` names: red, green and blue from its three pairs of
/// digits, or white where it is not six hex digits.
pub open spec fn hex_color(hex: Seq<char>) -> Color {
    if is_hex_color(hex) {
        let body = hex_body(hex);
        Color::Rgb {
            r: hex_pair(body, 0) as u8,
            g: hex_pair(body, 2) as u8,
            b: hex_pair(body, 4) as u8,
        }
    } else {
        Color::White
    }
}

/// The lower-case hexadecimal digit of a value below 16.
pub open spec fn hex_char(value: int) -> char {
    if value < 10 {
        (48 + value) as char
    } else {
        (87 + value) as char
    }
}

/// The six hex digits of a red-green-blue triple, after a `#` or without one.
pub open spec fn hex_text(r: u8, g: u8, b: u8, with_hash: bool) -> Seq<char> {
    let digits = seq![
        hex_char(r as int / 16),
        hex_char(r as int % 16),
        hex_char(g as int / 16),
        hex_char(g as int % 16),
        hex_char(b as int / 16),
        hex_char(b as int % 16),
    ];
    if with_hash {
        seq!['#'] + digits
    } else {
        digits
    }
}

proof fn lemma_hex_char(value: int)
    requires
        0 <= value < 16,
    ensures
        hex_digit(hex_char(value)) == Some(value),
        hex_char(value) != '#',
{
}

/// A color written as six hex digits, with or without a leading `#`, is read
/// back with the same three levels.
pub proof fn lemma_hex_round_trip(r: u8, g: u8, b: u8, with_hash: bool)
    ensures
        hex_color(hex_text(r, g, b, with_hash)) == (Color::Rgb { r, g, b }),
{
    let text = hex_text(r, g, b, with_hash);
    let body = hex_body(text);
    lemma_hex_char(r as int / 16);
    lemma_hex_char(r as int % 16);
    lemma_hex_char(g as int / 16);
    lemma_hex_char(g as int % 16);
    lemma_hex_char(b as int / 16);
    lemma_hex_char(b as int % 16);
    assert(body =~= hex_text(r, g, b, false));
    assert(is_hex_color(text));
    assert(hex_pair(body, 0) == r);
    assert(hex_pair(body, 2) == g);
    assert(hex_pair(body, 4) == b);
}

/// A text that is not six hex digits, after a `#` or without one, is read as
/// white.
pub proof fn lemma_hex_malformed(hex: Seq<char>)
    requires
        !is_hex_color(hex),
    ensures
        hex_color(hex) == Color::White,
{
}

fn hex_value(c: char) -> (d: Option<u8>)
    ensures
        d is Some <==> hex_digit(c) is Some,
        d matches Some(n) ==> n == hex_digit(c).unwrap() && n < 16,
{
    let n = c as u32;
    if 48 <= n && n <= 57 {
        Some((n - 48) as u8)
    } else if 97 <= n && n <= 102 {
        Some((n - 87) as u8)
    } else if 65 <= n && n <= 70 {
        Some((n - 55) as u8)
    } else {
        None
    }
}

/// Reads a color written as `RRGGBB` or `#RRGGBB`. Anything else gives white:
/// a malformed color never fails.
pub fn hex_to_rgb(hex: &str) -> (color: Color)
    ensures
        color == hex_color(hex@),
{
    let chars = chars_of(hex);
    let skip: usize = if chars.len() > 0 && chars[0] == '#' {
        1
    } else {
        0
    };
    let ghost body = hex_body(hex@);
    assert(body =~= hex@.skip(skip as int));
    if chars.len() - skip != 6 {
        return Color::White;
    }
    let mut levels: Vec<u8> = Vec::new();
    let mut i: usize = 0;
    while i < 6
        invariant
            chars@ == hex@,
            body == hex@.skip(skip as int),
            body.len() == 6,
            chars.len() == skip + 6,
            skip <= 1,
            i <= 6,
            levels.len() == i,
            forall|k: int| 0 <= k < i ==> hex_digit(#[trigger] body[k]) is Some,
            forall|k: int| 0 <= k < i ==> levels[k] == hex_digit(body[k]).unwrap() && levels[k] < 16,
        decreases 6 - i,
    {
        assert(body[i as int] == chars[skip + i]);
        match hex_value(chars[skip + i]) {
            Some(d) => {
                levels.push(d);
            },
            None => {
                assert(hex_digit(body[i as int]) is None);
                return Color::White;
            },
        }
        i += 1;
    }
    Color::Rgb {
        r: 16 * levels[0] + levels[1],
        g: 16 * levels[2] + levels[3],
        b: 16 * levels[4] + levels[5],
    }
}

} // verus!
