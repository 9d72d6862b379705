//! Display colors and the hex color-specification parser used by script
//! commands: `#RGB`, `#RRGGBB` and `#RRGGBBAA` forms, with or without any
//! number of leading `#` marks; anything else is rejected.
use vstd::prelude::*;

verus! {

/// A display color: red, green, blue and alpha channels, each 0 to 255.
#[derive(Clone, Copy, PartialEq, Eq, Structural, Debug)]
pub struct Color {
    pub r: u8,
    pub g: u8,
    pub b: u8,
    pub a: u8,
}

impl Color {
    /// The neutral base color a node shows before any script painted it:
    /// opaque black.
    pub open spec fn spec_black() -> Color {
        Color { r: 0, g: 0, b: 0, a: 255 }
    }

    /// The neutral base color, executable form.
    pub fn black() -> (c: Color)
        ensures
            c == Color::spec_black(),
    {
        Color { r: 0, g: 0, b: 0, a: 255 }
    }
}

/// Whether `c` is an ASCII hexadecimal digit.
pub open spec fn is_hex_digit(c: char) -> bool {
    ('0' as u32 <= c as u32 && c as u32 <= '9' as u32) || ('a' as u32 <= c as u32 && c as u32
        <= 'f' as u32) || ('A' as u32 <= c as u32 && c as u32 <= 'F' as u32)
}

/// The numeric value of a hexadecimal digit.
pub open spec fn hex_val(c: char) -> u32
    recommends
        is_hex_digit(c),
{
    if '0' as u32 <= c as u32 && c as u32 <= '9' as u32 {
        (c as u32 - '0' as u32) as u32
    } else if 'a' as u32 <= c as u32 && c as u32 <= 'f' as u32 {
        (c as u32 - 'a' as u32 + 10) as u32
    } else {
        (c as u32 - 'A' as u32 + 10) as u32
    }
}

/// `s` without its leading `#` marks.
pub open spec fn strip_hashes(s: Seq<char>) -> Seq<char>
    decreases s.len(),
{
    if s.len() > 0 && s[0] == '#' {
        strip_hashes(s.drop_first())
    } else {
        s
    }
}

/// What a color specification string denotes: a doubled-digit short form,
/// a six-digit opaque form, or an eight-digit form with an alpha channel;
/// anything else denotes nothing.
pub open spec fn spec_color_from_hex(s: Seq<char>) -> Option<Color> {
    let t = strip_hashes(s);
    if t.len() == 3 && is_hex_digit(t[0]) && is_hex_digit(t[1]) && is_hex_digit(t[2]) {
        Some(
            Color {
                r: (hex_val(t[0]) * 17) as u8,
                g: (hex_val(t[1]) * 17) as u8,
                b: (hex_val(t[2]) * 17) as u8,
                a: 255,
            },
        )
    } else if t.len() == 6 && is_hex_digit(t[0]) && is_hex_digit(t[1]) && is_hex_digit(t[2])
        && is_hex_digit(t[3]) && is_hex_digit(t[4]) && is_hex_digit(t[5]) {
        Some(
            Color {
                r: (hex_val(t[0]) * 16 + hex_val(t[1])) as u8,
                g: (hex_val(t[2]) * 16 + hex_val(t[3])) as u8,
                b: (hex_val(t[4]) * 16 + hex_val(t[5])) as u8,
                a: 255,
            },
        )
    } else if t.len() == 8 && is_hex_digit(t[0]) && is_hex_digit(t[1]) && is_hex_digit(t[2])
        && is_hex_digit(t[3]) && is_hex_digit(t[4]) && is_hex_digit(t[5]) && is_hex_digit(t[6])
        && is_hex_digit(t[7]) {
        Some(
            Color {
                r: (hex_val(t[0]) * 16 + hex_val(t[1])) as u8,
                g: (hex_val(t[2]) * 16 + hex_val(t[3])) as u8,
                b: (hex_val(t[4]) * 16 + hex_val(t[5])) as u8,
                a: (hex_val(t[6]) * 16 + hex_val(t[7])) as u8,
            },
        )
    } else {
        None
    }
}

/// The value of one hexadecimal digit character, or `None`.
fn hex_digit(c: char) -> (r: Option<u32>)
    ensures
        r is Some <==> is_hex_digit(c),
        r matches Some(v) ==> v == hex_val(c) && v < 16,
{
    let v = c as u32;
    if 48 <= v && v <= 57 {
        Some(v - 48)
    } else if 97 <= v && v <= 102 {
        Some(v - 97 + 10)
    } else if 65 <= v && v <= 70 {
        Some(v - 65 + 10)
    } else {
        None
    }
}

/// Parse a color specification. Exactly the strings that
/// `spec_color_from_hex` accepts parse; all others yield `None`.
pub fn color_from_hex(hex: &str) -> (r: Option<Color>)
    ensures
        r == spec_color_from_hex(hex@),
{
    let n = hex.unicode_len();
    proof {
        assert(hex@.subrange(0, n as int) =~= hex@);
    }
    let mut start: usize = 0;
    while start < n && hex.get_char(start) == '#'
        invariant
            start <= n,
            n == hex@.len(),
            strip_hashes(hex@) == strip_hashes(hex@.subrange(start as int, n as int)),
        decreases n - start,
    {
        proof {
            let suf = hex@.subrange(start as int, n as int);
            assert(suf[0] == '#');
            assert(suf.drop_first() =~= hex@.subrange(start + 1 as int, n as int));
        }
        start += 1;
    }
    proof {
        let suf = hex@.subrange(start as int, n as int);
        assert(strip_hashes(suf) == suf);
        assert(strip_hashes(hex@) == suf);
    }
    let m = n - start;
    if m == 3 {
        let d0 = hex_digit(hex.get_char(start));
        let d1 = hex_digit(hex.get_char(start + 1));
        let d2 = hex_digit(hex.get_char(start + 2));
        match (d0, d1, d2) {
            (Some(v0), Some(v1), Some(v2)) => Some(
                Color {
                    r: (v0 * 17) as u8,
                    g: (v1 * 17) as u8,
                    b: (v2 * 17) as u8,
                    a: 255,
                },
            ),
            _ => None,
        }
    } else if m == 6 {
        let d0 = hex_digit(hex.get_char(start));
        let d1 = hex_digit(hex.get_char(start + 1));
        let d2 = hex_digit(hex.get_char(start + 2));
        let d3 = hex_digit(hex.get_char(start + 3));
        let d4 = hex_digit(hex.get_char(start + 4));
        let d5 = hex_digit(hex.get_char(start + 5));
        match (d0, d1, d2, d3, d4, d5) {
            (Some(v0), Some(v1), Some(v2), Some(v3), Some(v4), Some(v5)) => Some(
                Color {
                    r: (v0 * 16 + v1) as u8,
                    g: (v2 * 16 + v3) as u8,
                    b: (v4 * 16 + v5) as u8,
                    a: 255,
                },
            ),
            _ => None,
        }
    } else if m == 8 {
        let d0 = hex_digit(hex.get_char(start));
        let d1 = hex_digit(hex.get_char(start + 1));
        let d2 = hex_digit(hex.get_char(start + 2));
        let d3 = hex_digit(hex.get_char(start + 3));
        let d4 = hex_digit(hex.get_char(start + 4));
        let d5 = hex_digit(hex.get_char(start + 5));
        let d6 = hex_digit(hex.get_char(start + 6));
        let d7 = hex_digit(hex.get_char(start + 7));
        match (d0, d1, d2, d3, d4, d5, d6, d7) {
            (Some(v0), Some(v1), Some(v2), Some(v3), Some(v4), Some(v5), Some(v6), Some(v7)) => Some(
                Color {
                    r: (v0 * 16 + v1) as u8,
                    g: (v2 * 16 + v3) as u8,
                    b: (v4 * 16 + v5) as u8,
                    a: (v6 * 16 + v7) as u8,
                },
            ),
            _ => None,
        }
    } else {
        None
    }
}

/// A short `RGB` form denotes the same color as the six-digit form with
/// every digit doubled.
pub proof fn lemma_short_form_doubles(c1: char, c2: char, c3: char)
    requires
        is_hex_digit(c1),
        is_hex_digit(c2),
        is_hex_digit(c3),
    ensures
        spec_color_from_hex(seq![c1, c2, c3]) == spec_color_from_hex(
            seq![c1, c1, c2, c2, c3, c3],
        ),
{
    let s3 = seq![c1, c2, c3];
    let s6 = seq![c1, c1, c2, c2, c3, c3];
    assert(s3[0] != '#' && s6[0] != '#');
    assert(strip_hashes(s3) == s3);
    assert(strip_hashes(s6) == s6);
}

/// A six-digit form denotes the same color as the eight-digit form with a
/// full `ff` alpha channel appended.
pub proof fn lemma_opaque_alpha_appended(s: Seq<char>)
    requires
        s.len() == 6,
        forall|i: int| 0 <= i < 6 ==> is_hex_digit(#[trigger] s[i]),
        s[0] != '#',
    ensures
        spec_color_from_hex(s) == spec_color_from_hex(s.push('f').push('f')),
{
    let s8 = s.push('f').push('f');
    assert(strip_hashes(s) == s);
    assert(s8[0] == s[0]);
    assert(strip_hashes(s8) == s8);
    assert(is_hex_digit('f') && hex_val('f') == 15);
    assert(s8[6] == 'f' && s8[7] == 'f');
    assert(forall|i: int| 0 <= i < 6 ==> s8[i] == s[i]);
}

/// Leading `#` marks do not change what a specification denotes.
pub proof fn lemma_leading_hash_ignored(s: Seq<char>)
    ensures
        spec_color_from_hex(seq!['#'] + s) == spec_color_from_hex(s),
{
    let h = seq!['#'] + s;
    assert(h[0] == '#');
    assert(h.drop_first() =~= s);
}

} // verus!
