//! Colours, exactly. An HSL colour is held as a rational hue in
//! degrees plus fixed-point saturation and lightness; the textbook
//! HSL to RGB conversion is carried out in exact integer arithmetic
//! over a common denominator, rounding only once per channel at the
//! very end, half away from zero.

use vstd::prelude::*;
use crate::fixed::{Fixed, FIXED_HUNDRED};
use crate::common::Fraction;

verus! {

/// Default saturation: one hundred percent, in fixed-point units.
pub const DEFAULT_SATURATION_UNITS: u64 = 1_000_000_000;

/// Default lightness: fifty percent, in fixed-point units.
pub const DEFAULT_LIGHTNESS_UNITS: u64 = 500_000_000;

/// An HSL colour. The hue is the exact rational `hue_num / hue_den`
/// in degrees, within [0, 360]; saturation and lightness are percents
/// in fixed-point units, within [0, 100].
#[derive(Clone, Copy, Debug, PartialEq, Eq, Structural)]
pub struct Hsl {
    pub hue_num: u64,
    pub hue_den: u64,
    pub sat: u64,
    pub light: u64,
}

impl Hsl {
    pub open spec fn wf(&self) -> bool {
        &&& 0 < self.hue_den <= 0xFFFF_FFFFu64
        &&& self.hue_num <= 360 * self.hue_den
        &&& self.sat <= FIXED_HUNDRED
        &&& self.light <= FIXED_HUNDRED
    }

    /// An HSL colour from whole degrees and whole percents.
    pub fn from_whole(hue: u32, sat: u32, light: u32) -> (r: Hsl)
        requires
            hue <= 360,
            sat <= 100,
            light <= 100,
        ensures
            r == (Hsl {
                hue_num: hue as u64,
                hue_den: 1u64,
                sat: (sat * 10_000_000) as u64,
                light: (light * 10_000_000) as u64,
            }),
            r.wf(),
    {
        Hsl {
            hue_num: hue as u64,
            hue_den: 1,
            sat: sat as u64 * 10_000_000,
            light: light as u64 * 10_000_000,
        }
    }
}

/// An RGB colour, eight bits per channel.
#[derive(Clone, Copy, Debug, PartialEq, Eq, Structural)]
pub struct Rgb {
    pub r: u8,
    pub g: u8,
    pub b: u8,
}

// ----- the conversion, as mathematics -----
//
// With S = sat/10^9 and L = light/10^9 in [0,1] and H = hue_num/hue_den
// in degrees, the textbook conversion is
//   C = (1 - |2L - 1|) * S
//   X = C * (1 - |(H/60) mod 2 - 1|)
//   m = L - C/2
// and per 60-degree sector the channels (R', G', B') are a permutation
// of (C, X, 0); each output channel is round(255 * (channel + m)).
// Everything below carries these values as integer numerators over the
// common denominator `q_den`.

pub open spec fn abs_of(x: int) -> int {
    if x >= 0 {
        x
    } else {
        -x
    }
}

/// C, scaled by 10^18: (10^9 - |2 light - 10^9|) * sat.
pub open spec fn chroma_num(s: int, l: int) -> int {
    (1_000_000_000 - abs_of(2 * l - 1_000_000_000)) * s
}

/// m, scaled by 2 * 10^18: 2 * light * 10^9 - chroma_num.
pub open spec fn m_num(s: int, l: int) -> int {
    2 * l * 1_000_000_000 - chroma_num(s, l)
}

/// X / C, scaled by 60 * hue_den: the triangular wave of the hue.
pub open spec fn hue_x_num(hn: int, hd: int) -> int {
    60 * hd - abs_of(hn % (120 * hd) - 60 * hd)
}

/// Which 60-degree sector the hue lies in (0 through 5; exactly 360
/// degrees gives 6, which behaves as hue 0).
pub open spec fn sector(hn: int, hd: int) -> int {
    hn / (60 * hd)
}

/// The common denominator all channel numerators are scaled by.
pub open spec fn q_den(hd: int) -> int {
    120 * 1_000_000_000 * 1_000_000_000 * hd
}

/// C over `q_den`.
pub open spec fn chan_c(hd: int, s: int, l: int) -> int {
    chroma_num(s, l) * 120 * hd
}

/// X over `q_den`.
pub open spec fn chan_x(hn: int, hd: int, s: int, l: int) -> int {
    2 * chroma_num(s, l) * hue_x_num(hn, hd)
}

/// The sector's base value (C, X or 0) of one channel over `q_den`;
/// `idx` is 0 for red, 1 for green, 2 for blue.
pub open spec fn base_num(hn: int, hd: int, s: int, l: int, idx: int) -> int {
    let k = sector(hn, hd);
    let c = chan_c(hd, s, l);
    let x = chan_x(hn, hd, s, l);
    if idx == 0 {
        if k == 1 || k == 4 {
            x
        } else if k == 2 || k == 3 {
            0
        } else {
            c
        }
    } else if idx == 1 {
        if k == 0 || k == 3 || k >= 6 {
            x
        } else if k == 1 || k == 2 {
            c
        } else {
            0
        }
    } else {
        if k == 2 || k == 5 {
            x
        } else if k == 3 || k == 4 {
            c
        } else {
            0
        }
    }
}

/// One output channel: 255 times (base + m) over `q_den`, rounded
/// half away from zero.
pub open spec fn channel_val(hn: int, hd: int, s: int, l: int, idx: int) -> int {
    let num = base_num(hn, hd, s, l, idx) + m_num(s, l) * 60 * hd;
    (510 * num + q_den(hd)) / (2 * q_den(hd))
}

/// The bounds that make the conversion well-defined.
pub open spec fn hsl_wf_ints(hn: int, hd: int, s: int, l: int) -> bool {
    &&& 0 < hd <= 0xFFFF_FFFF
    &&& 0 <= hn <= 360 * hd
    &&& 0 <= s <= 1_000_000_000
    &&& 0 <= l <= 1_000_000_000
}

/// Every channel numerator lies between 0 and the denominator: each
/// channel value is a fraction of one before scaling by 255.
pub proof fn lemma_channel_in_range(hn: int, hd: int, s: int, l: int, idx: int)
    requires
        hsl_wf_ints(hn, hd, s, l),
    ensures
        0 <= chroma_num(s, l) <= 1_000_000_000_000_000_000,
        0 <= m_num(s, l) <= 2_000_000_000_000_000_000,
        0 <= hue_x_num(hn, hd) <= 60 * hd,
        0 <= sector(hn, hd) <= 6,
        0 <= base_num(hn, hd, s, l, idx),
        base_num(hn, hd, s, l, idx) + m_num(s, l) * 60 * hd <= q_den(hd),
        chan_x(hn, hd, s, l) <= chan_c(hd, s, l),
        0 < q_den(hd) <= 600_000_000_000_000_000_000_000_000_000,
{
    let ds: int = 1_000_000_000;
    let dev = abs_of(2 * l - ds);
    let cn = chroma_num(s, l);
    assert(0 <= ds - dev <= ds);
    assert(0 <= cn <= ds * ds) by (nonlinear_arith)
        requires
            0 <= ds - dev <= ds,
            0 <= s <= ds,
            cn == (ds - dev) * s,
    ;
    // C is at most 2 L and at most 2 (1 - L), scaled
    assert(ds - dev <= 2 * l);
    assert(ds - dev <= 2 * (ds - l));
    assert(cn <= 2 * l * ds) by (nonlinear_arith)
        requires
            0 <= ds - dev <= 2 * l,
            0 <= s <= ds,
            0 <= l,
            cn == (ds - dev) * s,
    ;
    assert(cn <= 2 * (ds - l) * ds) by (nonlinear_arith)
        requires
            0 <= ds - dev <= 2 * (ds - l),
            0 <= s <= ds,
            0 <= ds - l,
            cn == (ds - dev) * s,
    ;
    let t = hn % (120 * hd);
    assert(0 <= t < 120 * hd);
    assert(0 <= hue_x_num(hn, hd) <= 60 * hd);
    assert(0 <= sector(hn, hd) <= 6) by (nonlinear_arith)
        requires
            0 <= hn <= 360 * hd,
            0 < hd,
    ;
    let xn = hue_x_num(hn, hd);
    assert(chan_x(hn, hd, s, l) <= chan_c(hd, s, l)) by (nonlinear_arith)
        requires
            0 <= xn <= 60 * hd,
            0 <= cn,
            0 < hd,
            chan_x(hn, hd, s, l) == 2 * cn * xn,
            chan_c(hd, s, l) == cn * 120 * hd,
    ;
    assert(0 <= chan_x(hn, hd, s, l)) by (nonlinear_arith)
        requires
            0 <= xn,
            0 <= cn,
            chan_x(hn, hd, s, l) == 2 * cn * xn,
    ;
    assert(0 <= chan_c(hd, s, l)) by (nonlinear_arith)
        requires
            0 <= cn,
            0 < hd,
            chan_c(hd, s, l) == cn * 120 * hd,
    ;
    // base + m stays below the common denominator
    assert(cn + 2 * l * ds <= 2 * ds * ds) by {
        assert(cn <= 2 * (ds - l) * ds);
        assert(2 * (ds - l) * ds == 2 * ds * ds - 2 * l * ds) by (nonlinear_arith);
    }
    assert(chan_c(hd, s, l) + m_num(s, l) * 60 * hd <= q_den(hd)) by (nonlinear_arith)
        requires
            0 < hd,
            cn == chroma_num(s, l),
            cn + 2 * l * ds <= 2 * ds * ds,
            m_num(s, l) == 2 * l * ds - cn,
            chan_c(hd, s, l) == cn * 120 * hd,
            q_den(hd) == 120 * ds * ds * hd,
            ds == 1_000_000_000,
    ;
    assert(0 <= m_num(s, l) * 60 * hd) by (nonlinear_arith)
        requires
            0 <= m_num(s, l),
            0 < hd,
    ;
    assert(0 < q_den(hd) <= 600_000_000_000_000_000_000_000_000_000) by (nonlinear_arith)
        requires
            0 < hd <= 0xFFFF_FFFF,
            q_den(hd) == 120 * ds * ds * hd,
            ds == 1_000_000_000,
    ;
}

/// Round one channel: 255 times the fraction `num / q`, half away
/// from zero. `num` never exceeds `q`, so the result fits a byte.
fn round_channel(num: u128, q: u128) -> (v: u8)
    requires
        num <= q,
        0 < q <= 600_000_000_000_000_000_000_000_000_000u128,
    ensures
        v as int == (510 * num + q) / (2 * q),
{
    let v = (510 * num + q) / (2 * q);
    proof {
        assert((510 * num + q) as int <= 511 * q);
        assert(511 * q == 255 * (2 * q) + q);
        vstd::arithmetic::div_mod::lemma_div_is_ordered(
            (510 * num + q) as int,
            (511 * q) as int,
            (2 * q) as int,
        );
        assert((511 * q) as int / (2 * q) as int == 255) by {
            vstd::arithmetic::div_mod::lemma_fundamental_div_mod_converse(
                (511 * q) as int,
                (2 * q) as int,
                255,
                q as int,
            );
        }
    }
    v as u8
}

/// Convert an HSL colour to RGB: the textbook conversion, carried out
/// exactly, each channel rounded half away from zero at the end.
pub fn hsl_to_rgb(c: &Hsl) -> (r: Rgb)
    requires
        c.wf(),
    ensures
        r.r as int == channel_val(c.hue_num as int, c.hue_den as int, c.sat as int, c.light as int, 0),
        r.g as int == channel_val(c.hue_num as int, c.hue_den as int, c.sat as int, c.light as int, 1),
        r.b as int == channel_val(c.hue_num as int, c.hue_den as int, c.sat as int, c.light as int, 2),
{
    let ghost hn_i = c.hue_num as int;
    let ghost hd_i = c.hue_den as int;
    let ghost s_i = c.sat as int;
    let ghost l_i = c.light as int;
    proof {
        lemma_channel_in_range(hn_i, hd_i, s_i, l_i, 0);
        lemma_channel_in_range(hn_i, hd_i, s_i, l_i, 1);
        lemma_channel_in_range(hn_i, hd_i, s_i, l_i, 2);
    }
    let hn = c.hue_num as u128;
    let hd = c.hue_den as u128;
    let s = c.sat as u128;
    let l = c.light as u128;
    let ds: u128 = 1_000_000_000;
    let two_l = 2 * l;
    let dev = if two_l >= ds {
        two_l - ds
    } else {
        ds - two_l
    };
    proof {
        assert((ds - dev) as int * s as int <= 1_000_000_000_000_000_000) by (nonlinear_arith)
            requires
                0 <= (ds - dev) as int <= 1_000_000_000,
                0 <= s as int <= 1_000_000_000,
        ;
    }
    let cn = (ds - dev) * s;
    proof {
        assert(cn == chroma_num(s_i, l_i));
        assert((2 * l) as int * ds as int <= 2_000_000_000_000_000_000) by (nonlinear_arith)
            requires
                0 <= (2 * l) as int <= 2_000_000_000,
                ds == 1_000_000_000u128,
        ;
    }
    let mn = 2 * l * ds - cn;
    let t = hn % (120 * hd);
    let xdev = if t >= 60 * hd {
        t - 60 * hd
    } else {
        60 * hd - t
    };
    let xn = 60 * hd - xdev;
    let k = hn / (60 * hd);
    proof {
        assert(mn == m_num(s_i, l_i));
        assert(xn == hue_x_num(hn_i, hd_i));
        assert(k == sector(hn_i, hd_i));
    }
    proof {
        let big: int = 0x1_0000_0000;
        assert((cn * 120) as int * hd as int <= 120_000_000_000_000_000_000 * big)
            by (nonlinear_arith)
            requires
                0 <= (cn * 120) as int <= 120_000_000_000_000_000_000,
                0 <= hd as int <= 0x1_0000_0000,
                big == 0x1_0000_0000,
        ;
        assert((2 * cn) as int * xn as int <= 2_000_000_000_000_000_000 * (60 * big))
            by (nonlinear_arith)
            requires
                0 <= (2 * cn) as int <= 2_000_000_000_000_000_000,
                0 <= xn as int <= 60 * 0x1_0000_0000,
                big == 0x1_0000_0000,
        ;
        assert((mn * 60) as int * hd as int <= 120_000_000_000_000_000_000 * big)
            by (nonlinear_arith)
            requires
                0 <= (mn * 60) as int <= 120_000_000_000_000_000_000,
                0 <= hd as int <= 0x1_0000_0000,
                big == 0x1_0000_0000,
        ;
        assert((120 * ds * ds) as int * hd as int <= 120_000_000_000_000_000_000 * big)
            by (nonlinear_arith)
            requires
                (120 * ds * ds) as int == 120_000_000_000_000_000_000,
                0 <= hd as int <= 0x1_0000_0000,
                big == 0x1_0000_0000,
        ;
    }
    let c_num: u128 = cn * 120 * hd;
    let x_num: u128 = 2 * cn * xn;
    let m_part: u128 = mn * 60 * hd;
    let q: u128 = 120 * ds * ds * hd;
    proof {
        assert(c_num == chan_c(hd_i, s_i, l_i));
        assert(x_num == chan_x(hn_i, hd_i, s_i, l_i));
        assert(m_part == m_num(s_i, l_i) * 60 * hd_i);
        assert(q == q_den(hd_i));
    }
    let r_base: u128 = if k == 1 || k == 4 {
        x_num
    } else if k == 2 || k == 3 {
        0
    } else {
        c_num
    };
    let g_base: u128 = if k == 0 || k == 3 || k >= 6 {
        x_num
    } else if k == 1 || k == 2 {
        c_num
    } else {
        0
    };
    let b_base: u128 = if k == 2 || k == 5 {
        x_num
    } else if k == 3 || k == 4 {
        c_num
    } else {
        0
    };
    proof {
        assert(r_base == base_num(hn_i, hd_i, s_i, l_i, 0));
        assert(g_base == base_num(hn_i, hd_i, s_i, l_i, 1));
        assert(b_base == base_num(hn_i, hd_i, s_i, l_i, 2));
    }
    let rr = round_channel(r_base + m_part, q);
    let gg = round_channel(g_base + m_part, q);
    let bb = round_channel(b_base + m_part, q);
    Rgb { r: rr, g: gg, b: bb }
}

// ----- hexadecimal rendering -----

/// The lowercase hexadecimal digit for a value below sixteen.
pub open spec fn hex_digit(d: int) -> char {
    if d == 0 {
        '0'
    } else if d == 1 {
        '1'
    } else if d == 2 {
        '2'
    } else if d == 3 {
        '3'
    } else if d == 4 {
        '4'
    } else if d == 5 {
        '5'
    } else if d == 6 {
        '6'
    } else if d == 7 {
        '7'
    } else if d == 8 {
        '8'
    } else if d == 9 {
        '9'
    } else if d == 10 {
        'a'
    } else if d == 11 {
        'b'
    } else if d == 12 {
        'c'
    } else if d == 13 {
        'd'
    } else if d == 14 {
        'e'
    } else {
        'f'
    }
}

/// Two hexadecimal digits of one byte, high digit first.
pub open spec fn hex_byte(v: int) -> Seq<char> {
    seq![hex_digit(v / 16), hex_digit(v % 16)]
}

/// The six-digit lowercase hexadecimal form of a colour.
pub open spec fn spec_hex(c: Rgb) -> Seq<char> {
    hex_byte(c.r as int) + hex_byte(c.g as int) + hex_byte(c.b as int)
}

/// One lowercase hexadecimal digit, as a string slice.
fn hex_digit_str(d: u8) -> (r: &'static str)
    requires
        d < 16,
    ensures
        r@ == seq![hex_digit(d as int)],
{
    proof {
        reveal_strlit("0");
        reveal_strlit("1");
        reveal_strlit("2");
        reveal_strlit("3");
        reveal_strlit("4");
        reveal_strlit("5");
        reveal_strlit("6");
        reveal_strlit("7");
        reveal_strlit("8");
        reveal_strlit("9");
        reveal_strlit("a");
        reveal_strlit("b");
        reveal_strlit("c");
        reveal_strlit("d");
        reveal_strlit("e");
        reveal_strlit("f");
    }
    let r = match d {
        0 => "0",
        1 => "1",
        2 => "2",
        3 => "3",
        4 => "4",
        5 => "5",
        6 => "6",
        7 => "7",
        8 => "8",
        9 => "9",
        10 => "a",
        11 => "b",
        12 => "c",
        13 => "d",
        14 => "e",
        _ => "f",
    };
    proof {
        assert(r@ =~= seq![hex_digit(d as int)]);
    }
    r
}

/// Append the two hexadecimal digits of one byte.
fn push_hex_byte(out: &mut String, v: u8)
    ensures
        final(out)@ == old(out)@ + hex_byte(v as int),
{
    out.append(hex_digit_str(v / 16));
    out.append(hex_digit_str(v % 16));
    proof {
        assert(final(out)@ =~= old(out)@ + hex_byte(v as int));
    }
}

impl Rgb {
    /// The colour as exactly six lowercase hexadecimal digits, two
    /// per channel, zero padded.
    pub fn to_hex_string(&self) -> (r: String)
        ensures
            r@ == spec_hex(*self),
    {
        let mut out = String::new();
        push_hex_byte(&mut out, self.r);
        push_hex_byte(&mut out, self.g);
        push_hex_byte(&mut out, self.b);
        proof {
            assert(out@ =~= spec_hex(*self));
        }
        out
    }
}

// ----- status-line markup -----

/// The opening of a background-colour markup item.
pub open spec fn markup_bg(hex: Seq<char>) -> Seq<char> {
    seq!['#', '[', 'b', 'g', '='] + hex + seq![']']
}

/// The markup item that resets the colours.
pub open spec fn markup_default() -> Seq<char> {
    seq!['#', '[', 'd', 'e', 'f', 'a', 'u', 'l', 't', ']']
}

/// The blank two-space cell a block holds by default.
pub open spec fn cell_blank() -> Seq<char> {
    seq![' ', ' ']
}

/// A whole percentage as cell text, right-aligned to two characters
/// (one hundred takes three).
pub open spec fn pct_cell(p: int) -> Seq<char> {
    if p >= 100 {
        seq!['1', '0', '0']
    } else if p >= 10 {
        seq![hex_digit(p / 10), hex_digit(p % 10)]
    } else {
        seq![' ', hex_digit(p)]
    }
}

/// Append `#[bg=` with the colour's hex digits and the closing bracket.
pub fn append_markup_bg(out: &mut String, c: &Rgb)
    ensures
        final(out)@ == old(out)@ + markup_bg(spec_hex(*c)),
{
    proof {
        reveal_strlit("#[bg=");
        reveal_strlit("]");
    }
    out.append("#[bg=");
    let hex = c.to_hex_string();
    out.append(hex.as_str());
    out.append("]");
    proof {
        assert(final(out)@ =~= old(out)@ + markup_bg(spec_hex(*c)));
    }
}

/// Append the colour-resetting markup item.
pub fn append_markup_default(out: &mut String)
    ensures
        final(out)@ == old(out)@ + markup_default(),
{
    proof {
        reveal_strlit("#[default]");
    }
    out.append("#[default]");
    proof {
        assert(final(out)@ =~= old(out)@ + markup_default());
    }
}

/// Append the cell: a rounded percentage when given, else two blanks.
pub fn append_cell(out: &mut String, pct: Option<u32>)
    requires
        pct is Some ==> pct->0 <= 100,
    ensures
        final(out)@ == old(out)@ + (match pct {
            Some(p) => pct_cell(p as int),
            None => cell_blank(),
        }),
{
    proof {
        reveal_strlit("  ");
        reveal_strlit(" ");
        reveal_strlit("100");
    }
    match pct {
        None => {
            out.append("  ");
            proof {
                assert(final(out)@ =~= old(out)@ + cell_blank());
            }
        },
        Some(p) => {
            if p >= 100 {
                out.append("100");
                proof {
                    assert(final(out)@ =~= old(out)@ + pct_cell(p as int));
                }
            } else if p >= 10 {
                out.append(hex_digit_str((p / 10) as u8));
                out.append(hex_digit_str((p % 10) as u8));
                proof {
                    assert(final(out)@ =~= old(out)@ + pct_cell(p as int));
                }
            } else {
                out.append(" ");
                out.append(hex_digit_str(p as u8));
                proof {
                    assert(final(out)@ =~= old(out)@ + pct_cell(p as int));
                }
            }
        },
    }
}

} // verus!
