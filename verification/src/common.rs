//! The shared half of every applet: normalized metric fractions,
//! colour-parameter parsing over CLI tokens, and the options they
//! accumulate into.

use vstd::prelude::*;
use vstd::arithmetic::div_mod::lemma_fundamental_div_mod_converse;
use crate::colour::{channel_val, Hsl, Rgb, DEFAULT_LIGHTNESS_UNITS, DEFAULT_SATURATION_UNITS};
use crate::fixed::{digits_val, is_digit, Fixed, find_char, lemma_find_char_unique, parse_decimal,
    spec_decimal};

verus! {

/// A normalized metric severity: the exact fraction `num / den`,
/// constrained to [0, 1]. `0` renders green, `1` renders red.
#[derive(Clone, Copy, Debug, PartialEq, Eq, Structural)]
pub struct Fraction {
    pub num: u32,
    pub den: u32,
}

impl Fraction {
    /// The fraction is a well-formed value in [0, 1].
    pub open spec fn wf(&self) -> bool {
        0 < self.den && self.num <= self.den
    }

    /// Build a fraction, checking the bounds.
    pub fn new(num: u32, den: u32) -> (r: Option<Fraction>)
        ensures
            r is Some <==> 0 < den && num <= den,
            r is Some ==> r->0.num == num && r->0.den == den && r->0.wf(),
    {
        if 0 < den && num <= den {
            Some(Fraction { num, den })
        } else {
            None
        }
    }
}

/// The percentage a fraction rounds to: `num / den` times one hundred,
/// rounded half up.
pub open spec fn spec_pct_round(f: Fraction) -> int {
    (200 * f.num + f.den) / (2 * f.den)
}

/// Round a fraction to a whole percentage.
pub fn pct_round(f: &Fraction) -> (r: u32)
    requires
        f.wf(),
    ensures
        r == spec_pct_round(*f),
        r <= 100,
{
    let num: u64 = f.num as u64;
    let den: u64 = f.den as u64;
    let r: u64 = (200 * num + den) / (2 * den);
    proof {
        assert(200 * num + den <= 201 * den);
        assert((201 * den) / (2 * den) <= 100) by (nonlinear_arith)
            requires
                den > 0,
        ;
        vstd::arithmetic::div_mod::lemma_div_is_ordered(
            (200 * num + den) as int,
            (201 * den) as int,
            (2 * den) as int,
        );
    }
    r as u32
}

// ----- string helpers -----

/// Whether the characters of `s` between `from` and `to` spell exactly `t`.
pub fn str_range_eq(s: &str, from: usize, to: usize, t: &str) -> (r: bool)
    requires
        from <= to <= s@.len(),
    ensures
        r == (s@.subrange(from as int, to as int) == t@),
{
    let tn = t.unicode_len();
    if to - from != tn {
        proof {
            assert(s@.subrange(from as int, to as int).len() != t@.len());
        }
        return false;
    }
    let mut k: usize = 0;
    while k < tn
        invariant
            0 <= k <= tn,
            tn == t@.len(),
            from <= to <= s@.len(),
            to - from == tn,
            forall|j: int| 0 <= j < k ==> s@[from + j] == t@[j],
        decreases tn - k,
    {
        if s.get_char(from + k) != t.get_char(k) {
            proof {
                assert(s@.subrange(from as int, to as int)[k as int] == s@[from + k]);
            }
            return false;
        }
        k = k + 1;
    }
    proof {
        assert(s@.subrange(from as int, to as int) =~= t@);
    }
    true
}

/// Whether two strings hold the same characters.
pub fn str_is(s: &str, t: &str) -> (r: bool)
    ensures
        r == (s@ == t@),
{
    let n = s.unicode_len();
    let r = str_range_eq(s, 0, n, t);
    proof {
        assert(s@.subrange(0, n as int) =~= s@);
    }
    r
}

// ----- whitespace and unsigned integers -----

/// The character is ASCII whitespace.
pub open spec fn is_space(c: char) -> bool {
    c == ' ' || c == '\t' || c == '\n' || c == '\r' || c as u32 == 11 || c as u32 == 12
}

/// Whether the character counts as whitespace.
pub fn is_space_char(c: char) -> (r: bool)
    ensures
        r == is_space(c),
{
    let u = c as u32;
    u == 32 || u == 9 || u == 10 || u == 13 || u == 11 || u == 12
}

/// The token with one optional leading plus sign removed.
pub open spec fn u32_body(s: Seq<char>) -> Seq<char> {
    if s.len() > 0 && s.first() == '+' {
        s.drop_first()
    } else {
        s
    }
}

/// Every character is an ASCII decimal digit.
pub open spec fn all_digits(b: Seq<char>) -> bool {
    forall|j: int| 0 <= j < b.len() ==> is_digit(b[j])
}

/// What an unsigned decimal token parses to: `None` unless, after one
/// optional leading plus sign, the token is all digits with a value
/// that fits.
pub open spec fn spec_parse_u32(s: Seq<char>) -> Option<u32> {
    let b = u32_body(s);
    if b.len() > 0 && all_digits(b) && digits_val(b) <= u32::MAX {
        Some(digits_val(b) as u32)
    } else {
        None
    }
}

/// Parse an unsigned decimal integer, with an optional leading plus.
pub fn parse_u32(s: &str) -> (r: Option<u32>)
    ensures
        r == spec_parse_u32(s@),
{
    let n = s.unicode_len();
    if n == 0 {
        return None;
    }
    let start: usize = if s.get_char(0) == '+' {
        1
    } else {
        0
    };
    let ghost b = u32_body(s@);
    proof {
        assert(b =~= s@.subrange(start as int, n as int));
    }
    if start == n {
        return None;
    }
    let mut acc: u64 = 0;
    let mut over: bool = false;
    let mut i: usize = start;
    while i < n
        invariant
            start <= i <= n,
            start < n,
            start <= 1,
            n == s@.len(),
            b == s@.subrange(start as int, n as int),
            b == u32_body(s@),
            forall|j: int| start <= j < i ==> is_digit(s@[j]),
            !over ==> acc == digits_val(s@.subrange(start as int, i as int)) && acc <= u32::MAX,
            over ==> digits_val(s@.subrange(start as int, i as int)) > u32::MAX,
        decreases n - i,
    {
        let c = s.get_char(i);
        let cu = c as u32;
        if !(48 <= cu && cu <= 57) {
            proof {
                assert(b.len() == n - start);
                assert(b[i - start] == s@[i as int]);
                assert(!is_digit(b[i - start]));
                assert(!all_digits(b));
            }
            return None;
        }
        let d: u64 = (cu - 48) as u64;
        proof {
            assert(s@.subrange(start as int, i + 1).drop_last() =~= s@.subrange(
                start as int,
                i as int,
            ));
            assert(digits_val(s@.subrange(start as int, i + 1)) == 10 * digits_val(
                s@.subrange(start as int, i as int),
            ) + d);
        }
        if !over {
            let next: u64 = acc * 10 + d;
            if next > u32::MAX as u64 {
                over = true;
            } else {
                acc = next;
            }
        }
        i = i + 1;
    }
    proof {
        assert(s@.subrange(start as int, n as int) == b);
        assert forall|j: int| 0 <= j < b.len() implies is_digit(b[j]) by {
            assert(b[j] == s@[j + start]);
        }
        assert(all_digits(b));
    }
    if over {
        return None;
    }
    Some(acc as u32)
}

// ----- the colour parameter grammar -----

/// What scanning one token against one key yields. The token matches
/// when it splits on a single colon into exactly the key and a finite
/// decimal number; everything else is not a colour parameter.
pub open spec fn spec_colour_param(p: Seq<char>, key: Seq<char>) -> Option<Fixed> {
    let i = find_char(p, ':');
    if i < p.len() && find_char(p.skip(i + 1), ':') == p.len() - i - 1 && p.take(i) == key {
        spec_decimal(p.skip(i + 1))
    } else {
        None
    }
}

/// Parse a colour parameter of the form `key:value`, where `value` is
/// a finite decimal number. Any other shape yields `None`: such a
/// token may mean something else to the caller.
pub fn parse_colour_param(p: &str, key: &str) -> (r: Option<Fixed>)
    ensures
        r == spec_colour_param(p@, key@),
{
    let n = p.unicode_len();
    // the first colon
    let i = crate::fixed::find_char_in(p, ':');
    if i == n {
        // no colon at all
        return None;
    }
    // refuse a second colon
    let mut j: usize = i + 1;
    while j < n
        invariant
            i + 1 <= j <= n,
            i < n,
            n == p@.len(),
            i as int == find_char(p@, ':'),
            forall|k: int| i + 1 <= k < j ==> p@[k] != ':',
        decreases n - j,
    {
        if p.get_char(j) == ':' {
            proof {
                let rest = p@.skip(i + 1);
                assert(rest[j - i - 1] == p@[j as int]);
                crate::fixed::lemma_find_char_props(rest, ':');
                assert(find_char(rest, ':') <= j - i - 1) by {
                    if find_char(rest, ':') > j - i - 1 {
                        assert(rest[j - i - 1] != ':');
                    }
                }
            }
            return None;
        }
        j = j + 1;
    }
    proof {
        let rest = p@.skip(i + 1);
        assert forall|k: int| 0 <= k < rest.len() implies rest[k] != ':' by {
            assert(rest[k] == p@[k + i + 1]);
        }
        lemma_find_char_unique(rest, ':', rest.len() as int);
    }
    // the key must match exactly
    if !str_range_eq(p, 0, i, key) {
        proof {
            assert(p@.take(i as int) =~= p@.subrange(0, i as int));
        }
        return None;
    }
    proof {
        assert(p@.take(i as int) =~= p@.subrange(0, i as int));
    }
    // and the value must be a number
    let value = p.substring_char(i + 1, n);
    let r = parse_decimal(value);
    proof {
        assert(value@ =~= p@.skip(i + 1));
    }
    r
}

// ----- accumulated colour options -----

/// Which colour parameter a diagnostic speaks of.
#[derive(Clone, Copy, Debug, PartialEq, Eq, Structural)]
pub enum ParamKind {
    Saturation,
    Lightness,
}

/// A recoverable diagnostic: a colour parameter parsed but lay outside
/// [0, 100], so the previous value stays in effect.
#[derive(Clone, Copy, Debug, PartialEq, Eq, Structural)]
pub struct ColourWarning {
    pub kind: ParamKind,
    pub value: Fixed,
}

/// Saturation and lightness overrides accumulated from CLI tokens.
/// Absent values fall back to the defaults when the colour is built.
#[derive(Clone, Copy, Debug)]
pub struct ColourOptions {
    pub saturation: Option<Fixed>,
    pub lightness: Option<Fixed>,
}

impl ColourOptions {
    /// Stored overrides are always within [0, 100].
    pub open spec fn wf(&self) -> bool {
        &&& (self.saturation is Some ==> self.saturation->0.spec_in_range())
        &&& (self.lightness is Some ==> self.lightness->0.spec_in_range())
    }

    /// No overrides: all defaults.
    pub fn empty() -> (r: ColourOptions)
        ensures
            r == spec_empty_options(),
    {
        ColourOptions { saturation: None, lightness: None }
    }
}

pub open spec fn spec_empty_options() -> ColourOptions {
    ColourOptions { saturation: None, lightness: None }
}

/// How one token updates the options: an in-range `s:` or `l:` value
/// replaces the stored one; an out-of-range value changes nothing.
pub open spec fn step_options(o: ColourOptions, tok: Seq<char>) -> ColourOptions {
    let o1 = match spec_colour_param(tok, "s"@) {
        Some(v) => if v.spec_in_range() {
            ColourOptions { saturation: Some(v), lightness: o.lightness }
        } else {
            o
        },
        None => o,
    };
    match spec_colour_param(tok, "l"@) {
        Some(v) => if v.spec_in_range() {
            ColourOptions { saturation: o1.saturation, lightness: Some(v) }
        } else {
            o1
        },
        None => o1,
    }
}

/// The diagnostics one token produces: one warning for each colour
/// parameter that parsed but lay outside [0, 100].
pub open spec fn step_warnings(tok: Seq<char>) -> Seq<ColourWarning> {
    let ws = match spec_colour_param(tok, "s"@) {
        Some(v) => if !v.spec_in_range() {
            seq![ColourWarning { kind: ParamKind::Saturation, value: v }]
        } else {
            Seq::<ColourWarning>::empty()
        },
        None => Seq::<ColourWarning>::empty(),
    };
    ws + match spec_colour_param(tok, "l"@) {
        Some(v) => if !v.spec_in_range() {
            seq![ColourWarning { kind: ParamKind::Lightness, value: v }]
        } else {
            Seq::<ColourWarning>::empty()
        },
        None => Seq::<ColourWarning>::empty(),
    }
}

/// The token is a colour parameter for either key.
pub open spec fn spec_is_colour_tok(tok: Seq<char>) -> bool {
    spec_colour_param(tok, "s"@) is Some || spec_colour_param(tok, "l"@) is Some
}

/// The options a whole token sequence accumulates to; the last
/// in-range value for a key wins.
pub open spec fn scan_options(toks: Seq<Seq<char>>) -> ColourOptions
    decreases toks.len(),
{
    if toks.len() == 0 {
        spec_empty_options()
    } else {
        step_options(scan_options(toks.drop_last()), toks.last())
    }
}

/// All out-of-range diagnostics a token sequence produces, in order.
pub open spec fn scan_warnings(toks: Seq<Seq<char>>) -> Seq<ColourWarning>
    decreases toks.len(),
{
    if toks.len() == 0 {
        Seq::<ColourWarning>::empty()
    } else {
        scan_warnings(toks.drop_last()) + step_warnings(toks.last())
    }
}

/// Law: a token whose parameter values lie outside [0, 100] changes
/// the options not at all — the previous or default values stay in
/// effect, and later colour computation uses them.
pub proof fn lemma_out_of_range_keeps_options(o: ColourOptions, tok: Seq<char>)
    requires
        spec_colour_param(tok, "s"@) matches Some(v) ==> !v.spec_in_range(),
        spec_colour_param(tok, "l"@) matches Some(v) ==> !v.spec_in_range(),
    ensures
        step_options(o, tok) == o,
{
}

/// Accumulated options never hold an out-of-range value.
pub proof fn lemma_scan_options_wf(toks: Seq<Seq<char>>)
    ensures
        scan_options(toks).wf(),
    decreases toks.len(),
{
    if toks.len() > 0 {
        lemma_scan_options_wf(toks.drop_last());
    }
}

/// Test one token against both colour keys and fold it into the
/// options and diagnostics. Returns whether the token was a colour
/// parameter (matched either key), so a caller can give unmatched
/// tokens an applet-specific meaning.
pub fn apply_colour_param(opts: &mut ColourOptions, warnings: &mut Vec<ColourWarning>, arg: &str)
    -> (matched: bool)
    ensures
        *final(opts) == step_options(*old(opts), arg@),
        final(warnings)@ == old(warnings)@ + step_warnings(arg@),
        matched == spec_is_colour_tok(arg@),
{
    let mut matched = false;
    match parse_colour_param(arg, "s") {
        Some(v) => {
            matched = true;
            if v.in_range() {
                opts.saturation = Some(v);
            } else {
                warnings.push(ColourWarning { kind: ParamKind::Saturation, value: v });
            }
        },
        None => {},
    }
    match parse_colour_param(arg, "l") {
        Some(v) => {
            matched = true;
            if v.in_range() {
                opts.lightness = Some(v);
            } else {
                warnings.push(ColourWarning { kind: ParamKind::Lightness, value: v });
            }
        },
        None => {},
    }
    proof {
        assert(final(warnings)@ =~= old(warnings)@ + step_warnings(arg@));
    }
    matched
}

// ----- the fraction-to-colour pipeline -----

/// The HSL colour a fraction maps to: the hue runs linearly and
/// inverted from 120 degrees (green) at fraction zero to 0 degrees
/// (red) at fraction one; saturation and lightness come from the
/// options, or default to one hundred and fifty percent.
pub open spec fn spec_pct_hsl(norm: Fraction, s: Option<Fixed>, l: Option<Fixed>) -> Hsl {
    Hsl {
        hue_num: (120 * (norm.den - norm.num)) as u64,
        hue_den: norm.den as u64,
        sat: match s {
            Some(v) => v.units,
            None => DEFAULT_SATURATION_UNITS,
        },
        light: match l {
            Some(v) => v.units,
            None => DEFAULT_LIGHTNESS_UNITS,
        },
    }
}

/// Map a fraction and the colour options to an HSL colour.
pub fn pct_value_hsl(norm: Fraction, s: Option<Fixed>, l: Option<Fixed>) -> (r: Hsl)
    requires
        norm.wf(),
        s is Some ==> s->0.spec_in_range(),
        l is Some ==> l->0.spec_in_range(),
    ensures
        r == spec_pct_hsl(norm, s, l),
        r.wf(),
{
    let hue_num: u64 = 120u64 * ((norm.den - norm.num) as u64);
    let sat: u64 = match s {
        Some(v) => v.units,
        None => DEFAULT_SATURATION_UNITS,
    };
    let light: u64 = match l {
        Some(v) => v.units,
        None => DEFAULT_LIGHTNESS_UNITS,
    };
    Hsl { hue_num, hue_den: norm.den as u64, sat, light }
}

/// The RGB colour a fraction renders as, given the options.
pub open spec fn spec_fraction_rgb(norm: Fraction, s: Option<Fixed>, l: Option<Fixed>) -> Rgb {
    let h = spec_pct_hsl(norm, s, l);
    Rgb {
        r: channel_val(h.hue_num as int, h.hue_den as int, h.sat as int, h.light as int, 0) as u8,
        g: channel_val(h.hue_num as int, h.hue_den as int, h.sat as int, h.light as int, 1) as u8,
        b: channel_val(h.hue_num as int, h.hue_den as int, h.sat as int, h.light as int, 2) as u8,
    }
}

/// The whole shared pipeline of every applet: fraction to hue, options
/// or defaults, HSL to RGB.
pub fn fraction_rgb(norm: Fraction, s: Option<Fixed>, l: Option<Fixed>) -> (r: Rgb)
    requires
        norm.wf(),
        s is Some ==> s->0.spec_in_range(),
        l is Some ==> l->0.spec_in_range(),
    ensures
        r == spec_fraction_rgb(norm, s, l),
{
    let h = pct_value_hsl(norm, s, l);
    crate::colour::hsl_to_rgb(&h)
}

/// Law: with default saturation and lightness, a zero fraction maps
/// to pure green and a full fraction to pure red, whatever the
/// fraction's denominator.
pub proof fn lemma_extreme_fractions(norm: Fraction)
    requires
        norm.wf(),
    ensures
        norm.num == 0 ==> spec_fraction_rgb(norm, None, None) == (Rgb { r: 0, g: 255, b: 0 }),
        norm.num == norm.den ==> spec_fraction_rgb(norm, None, None) == (Rgb {
            r: 255,
            g: 0,
            b: 0,
        }),
{
    let ds: int = 1_000_000_000;
    let hd = norm.den as int;
    let s: int = DEFAULT_SATURATION_UNITS as int;
    let l: int = DEFAULT_LIGHTNESS_UNITS as int;
    assert(crate::colour::chroma_num(s, l) == ds * ds);
    assert(crate::colour::m_num(s, l) == 0);
    if norm.num == 0 {
        let hn = 120 * hd;
        assert(spec_pct_hsl(norm, None, None).hue_num == hn);
        // the hue sits exactly on the green stop: sector two, wave zero
        lemma_fundamental_div_mod_converse(hn, 60 * hd, 2, 0);
        lemma_fundamental_div_mod_converse(hn, 120 * hd, 1, 0);
        assert(crate::colour::sector(hn, hd) == 2);
        assert(crate::colour::hue_x_num(hn, hd) == 0);
        assert(crate::colour::chan_x(hn, hd, s, l) == 0) by (nonlinear_arith)
            requires
                crate::colour::chan_x(hn, hd, s, l) == 2 * crate::colour::chroma_num(s, l)
                    * crate::colour::hue_x_num(hn, hd),
                crate::colour::hue_x_num(hn, hd) == 0,
        ;
        let q = crate::colour::q_den(hd);
        assert(crate::colour::chan_c(hd, s, l) == q) by (nonlinear_arith)
            requires
                crate::colour::chan_c(hd, s, l) == crate::colour::chroma_num(s, l) * 120 * hd,
                crate::colour::chroma_num(s, l) == ds * ds,
                q == 120 * ds * ds * hd,
                ds == 1_000_000_000,
        ;
        assert(q > 0) by (nonlinear_arith)
            requires
                q == 120 * ds * ds * hd,
                ds == 1_000_000_000,
                hd > 0,
        ;
        // green: the numerator equals the denominator, so 255
        assert(crate::colour::m_num(s, l) * 60 * hd == 0) by (nonlinear_arith)
            requires
                crate::colour::m_num(s, l) == 0,
        ;
        lemma_fundamental_div_mod_converse(510 * q + q, 2 * q, 255, q);
        // red and blue: zero numerator
        lemma_fundamental_div_mod_converse(q, 2 * q, 0, q);
        assert(channel_val(hn, hd, s, l, 0) == 0);
        assert(channel_val(hn, hd, s, l, 1) == 255);
        assert(channel_val(hn, hd, s, l, 2) == 0);
    }
    if norm.num == norm.den {
        let hn = 0int;
        assert(spec_pct_hsl(norm, None, None).hue_num == hn);
        // the hue sits exactly on the red stop: sector zero, wave zero
        lemma_fundamental_div_mod_converse(hn, 60 * hd, 0, 0);
        lemma_fundamental_div_mod_converse(hn, 120 * hd, 0, 0);
        assert(crate::colour::sector(hn, hd) == 0);
        assert(crate::colour::hue_x_num(hn, hd) == 0);
        assert(crate::colour::chan_x(hn, hd, s, l) == 0) by (nonlinear_arith)
            requires
                crate::colour::chan_x(hn, hd, s, l) == 2 * crate::colour::chroma_num(s, l)
                    * crate::colour::hue_x_num(hn, hd),
                crate::colour::hue_x_num(hn, hd) == 0,
        ;
        let q = crate::colour::q_den(hd);
        assert(crate::colour::chan_c(hd, s, l) == q) by (nonlinear_arith)
            requires
                crate::colour::chan_c(hd, s, l) == crate::colour::chroma_num(s, l) * 120 * hd,
                crate::colour::chroma_num(s, l) == ds * ds,
                q == 120 * ds * ds * hd,
                ds == 1_000_000_000,
        ;
        assert(q > 0) by (nonlinear_arith)
            requires
                q == 120 * ds * ds * hd,
                ds == 1_000_000_000,
                hd > 0,
        ;
        assert(crate::colour::m_num(s, l) * 60 * hd == 0) by (nonlinear_arith)
            requires
                crate::colour::m_num(s, l) == 0,
        ;
        lemma_fundamental_div_mod_converse(510 * q + q, 2 * q, 255, q);
        lemma_fundamental_div_mod_converse(q, 2 * q, 0, q);
        assert(channel_val(hn, hd, s, l, 0) == 255);
        assert(channel_val(hn, hd, s, l, 1) == 0);
        assert(channel_val(hn, hd, s, l, 2) == 0);
    }
}

} // verus!
