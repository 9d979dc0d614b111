//! The memory applet: one coloured block for the used fraction of
//! memory, read from a line-oriented key/value text in the style of
//! `/proc/meminfo`.

use vstd::prelude::*;
use crate::colour::{append_cell, append_markup_bg, append_markup_default, cell_blank, markup_bg,
    markup_default, pct_cell, spec_hex};
use crate::common::{apply_colour_param, is_space, is_space_char, parse_u32, pct_round,
    scan_options, scan_warnings, spec_fraction_rgb, spec_parse_u32, spec_pct_round, str_is,
    ColourOptions, ColourWarning, Fraction};
use crate::fixed::{find_char, lemma_find_char_props, lemma_find_char_unique};

verus! {

/// What can go wrong while gathering memory data: the source text was
/// unreadable, or it held no usable totals.
#[derive(Clone, Copy, Debug, PartialEq, Eq, Structural)]
pub enum MemAppletError {
    MemInfoUnavailable,
}

/// A snapshot of memory, in kB. `used` is `total - available` when
/// both are known and consistent, else zero and not to be trusted.
#[derive(Clone, Copy, Debug, PartialEq, Eq, Structural)]
pub struct MemInfo {
    pub total: u32,
    pub used: u32,
    pub available: u32,
}

// ----- tokens within one line -----

/// The first index at or after `i` holding a non-space, or the length.
pub open spec fn skip_spaces(s: Seq<char>, i: int) -> int
    decreases s.len() - i,
{
    if i >= s.len() {
        s.len() as int
    } else if is_space(s[i]) {
        skip_spaces(s, i + 1)
    } else {
        i
    }
}

/// The first index at or after `i` holding a space, or the length.
pub open spec fn token_end(s: Seq<char>, i: int) -> int
    decreases s.len() - i,
{
    if i >= s.len() {
        s.len() as int
    } else if !is_space(s[i]) {
        token_end(s, i + 1)
    } else {
        i
    }
}

proof fn lemma_skip_spaces_unique(s: Seq<char>, i: int, j: int)
    requires
        0 <= i <= j <= s.len(),
        forall|k: int| i <= k < j ==> is_space(s[k]),
        j < s.len() ==> !is_space(s[j]),
    ensures
        skip_spaces(s, i) == j,
    decreases j - i,
{
    if i < j {
        lemma_skip_spaces_unique(s, i + 1, j);
    }
}

proof fn lemma_token_end_unique(s: Seq<char>, i: int, j: int)
    requires
        0 <= i <= j <= s.len(),
        forall|k: int| i <= k < j ==> !is_space(s[k]),
        j < s.len() ==> is_space(s[j]),
    ensures
        token_end(s, i) == j,
    decreases j - i,
{
    if i < j {
        lemma_token_end_unique(s, i + 1, j);
    }
}

/// Find the first non-space at or after `from`.
fn skip_spaces_in(s: &str, from: usize) -> (r: usize)
    requires
        from <= s@.len(),
    ensures
        r as int == skip_spaces(s@, from as int),
        from <= r <= s@.len(),
{
    let n = s.unicode_len();
    let mut j: usize = from;
    while j < n
        invariant
            from <= j <= n,
            n == s@.len(),
            forall|k: int| from <= k < j ==> is_space(s@[k]),
        decreases n - j,
    {
        if !is_space_char(s.get_char(j)) {
            proof {
                lemma_skip_spaces_unique(s@, from as int, j as int);
            }
            return j;
        }
        j = j + 1;
    }
    proof {
        lemma_skip_spaces_unique(s@, from as int, n as int);
    }
    n
}

/// Find the end of the token starting at `from`.
fn token_end_in(s: &str, from: usize) -> (r: usize)
    requires
        from <= s@.len(),
    ensures
        r as int == token_end(s@, from as int),
        from <= r <= s@.len(),
{
    let n = s.unicode_len();
    let mut j: usize = from;
    while j < n
        invariant
            from <= j <= n,
            n == s@.len(),
            forall|k: int| from <= k < j ==> !is_space(s@[k]),
        decreases n - j,
    {
        if is_space_char(s.get_char(j)) {
            proof {
                lemma_token_end_unique(s@, from as int, j as int);
            }
            return j;
        }
        j = j + 1;
    }
    proof {
        lemma_token_end_unique(s@, from as int, n as int);
    }
    n
}

// ----- scanning the whole text -----

/// A token's value as a number, or zero when it is not one.
pub open spec fn parse_or_zero(v: Seq<char>) -> u32 {
    match spec_parse_u32(v) {
        Some(x) => x,
        None => 0,
    }
}

/// How one line updates the running totals. Once both are nonzero the
/// scan is over and lines change nothing. A line updates a total when
/// its first token is the matching label and a second token follows;
/// lines without two tokens, or with other labels, are skipped.
pub open spec fn line_update(t: u32, a: u32, line: Seq<char>) -> (u32, u32) {
    if t != 0 && a != 0 {
        (t, a)
    } else {
        let b1 = skip_spaces(line, 0);
        if b1 >= line.len() {
            (t, a)
        } else {
            let e1 = token_end(line, b1);
            let b2 = skip_spaces(line, e1);
            if b2 >= line.len() {
                (t, a)
            } else {
                let e2 = token_end(line, b2);
                let key = line.subrange(b1, e1);
                let val = line.subrange(b2, e2);
                if key == "MemTotal:"@ {
                    (parse_or_zero(val), a)
                } else if key == "MemAvailable:"@ {
                    (t, parse_or_zero(val))
                } else {
                    (t, a)
                }
            }
        }
    }
}

/// Fold `line_update` over the newline-separated lines of `s`.
pub open spec fn mem_scan(s: Seq<char>, t: u32, a: u32) -> (u32, u32)
    decreases s.len(),
{
    if s.len() == 0 {
        (t, a)
    } else {
        let e = find_char(s, '\n');
        let r = line_update(t, a, s.take(e));
        if 0 <= e < s.len() {
            mem_scan(s.skip(e + 1), r.0, r.1)
        } else {
            r
        }
    }
}

/// The snapshot a text parses to: the scanned totals, and the used
/// amount derived from them when both are present and consistent.
pub open spec fn spec_mem_info(s: Seq<char>) -> MemInfo {
    let r = mem_scan(s, 0, 0);
    MemInfo {
        total: r.0,
        available: r.1,
        used: if r.0 > 0 && r.1 > 0 && r.1 <= r.0 {
            (r.0 - r.1) as u32
        } else {
            0u32
        },
    }
}

/// One line's worth of scanning.
fn line_update_exec(t: u32, a: u32, line: &str) -> (r: (u32, u32))
    ensures
        r == line_update(t, a, line@),
{
    if t != 0 && a != 0 {
        return (t, a);
    }
    let n = line.unicode_len();
    let b1 = skip_spaces_in(line, 0);
    if b1 == n {
        return (t, a);
    }
    let e1 = token_end_in(line, b1);
    let b2 = skip_spaces_in(line, e1);
    if b2 == n {
        return (t, a);
    }
    let e2 = token_end_in(line, b2);
    let key = line.substring_char(b1, e1);
    proof {
        assert(key@ =~= line@.subrange(b1 as int, e1 as int));
    }
    if str_is(key, "MemTotal:") {
        let val = line.substring_char(b2, e2);
        proof {
            assert(val@ =~= line@.subrange(b2 as int, e2 as int));
        }
        let v = match parse_u32(val) {
            Some(x) => x,
            None => 0,
        };
        (v, a)
    } else if str_is(key, "MemAvailable:") {
        let val = line.substring_char(b2, e2);
        proof {
            assert(val@ =~= line@.subrange(b2 as int, e2 as int));
        }
        let v = match parse_u32(val) {
            Some(x) => x,
            None => 0,
        };
        (t, v)
    } else {
        (t, a)
    }
}

/// Find the first occurrence of `c` at or after `from`, or the length.
fn find_char_from(s: &str, from: usize, c: char) -> (r: usize)
    requires
        from <= s@.len(),
    ensures
        r as int - from == find_char(s@.skip(from as int), c),
        from <= r <= s@.len(),
{
    let n = s.unicode_len();
    let mut j: usize = from;
    while j < n
        invariant
            from <= j <= n,
            n == s@.len(),
            forall|k: int| from <= k < j ==> s@[k] != c,
        decreases n - j,
    {
        if s.get_char(j) == c {
            proof {
                let rest = s@.skip(from as int);
                assert forall|k: int| 0 <= k < j - from implies rest[k] != c by {
                    assert(rest[k] == s@[k + from]);
                }
                assert(rest[j - from] == s@[j as int]);
                lemma_find_char_unique(rest, c, j - from);
            }
            return j;
        }
        j = j + 1;
    }
    proof {
        let rest = s@.skip(from as int);
        assert forall|k: int| 0 <= k < rest.len() implies rest[k] != c by {
            assert(rest[k] == s@[k + from]);
        }
        lemma_find_char_unique(rest, c, rest.len() as int);
    }
    n
}

/// Parse a meminfo-style text: scan its lines for the `MemTotal:` and
/// `MemAvailable:` labels until both are found, then derive `used`.
pub fn parse_meminfo(data: &str) -> (r: MemInfo)
    ensures
        r == spec_mem_info(data@),
{
    let n = data.unicode_len();
    proof {
        assert(data@.skip(0) =~= data@);
    }
    let mut total: u32 = 0;
    let mut avail: u32 = 0;
    let mut pos: usize = 0;
    while pos < n
        invariant
            0 <= pos <= n,
            n == data@.len(),
            mem_scan(data@, 0, 0) == mem_scan(data@.skip(pos as int), total, avail),
        decreases n - pos,
    {
        let le = find_char_from(data, pos, '\n');
        let line = data.substring_char(pos, le);
        let ghost rem = data@.skip(pos as int);
        proof {
            lemma_find_char_props(rem, '\n');
            assert(line@ =~= rem.take(le - pos));
        }
        let r = line_update_exec(total, avail, line);
        total = r.0;
        avail = r.1;
        if le == n {
            proof {
                assert(find_char(rem, '\n') == rem.len());
            }
            pos = n;
            proof {
                assert(data@.skip(n as int).len() == 0);
            }
        } else {
            proof {
                assert(data@.skip(le + 1) =~= rem.skip(le - pos + 1));
            }
            pos = le + 1;
        }
    }
    proof {
        assert(data@.skip(n as int).len() == 0);
    }
    MemInfo {
        total,
        available: avail,
        used: if total > 0 && avail > 0 && avail <= total {
            total - avail
        } else {
            0
        },
    }
}

// ----- normalizing and rendering -----

/// The fraction a snapshot normalizes to: used over total, clamped
/// into [0, 1].
pub open spec fn spec_mem_fraction(m: MemInfo) -> Fraction {
    Fraction {
        num: if m.used <= m.total {
            m.used
        } else {
            m.total
        },
        den: m.total,
    }
}

/// Normalize memory usage to the used fraction of the total. A zero
/// total is a collection error, never a division by zero.
pub fn normalise_mem_usage(info: &MemInfo) -> (r: Result<Fraction, MemAppletError>)
    ensures
        r is Ok <==> info.total > 0,
        r is Ok ==> r->Ok_0 == spec_mem_fraction(*info) && r->Ok_0.wf(),
        r is Err ==> r->Err_0 == MemAppletError::MemInfoUnavailable,
{
    if info.total == 0 {
        return Err(MemAppletError::MemInfoUnavailable);
    }
    let num: u32 = if info.used <= info.total {
        info.used
    } else {
        info.total
    };
    Ok(Fraction { num, den: info.total })
}

/// Some token is exactly the `pct-text` flag.
pub open spec fn spec_has_pct_text(toks: Seq<Seq<char>>) -> bool
    decreases toks.len(),
{
    if toks.len() == 0 {
        false
    } else {
        spec_has_pct_text(toks.drop_last()) || toks.last() == "pct-text"@
    }
}

/// The applet's whole standard output: one block whose cell is blank
/// or the rounded percentage, then the reset marker and a newline —
/// or a collection error when the text was unreadable (`None`) or held
/// no usable total.
pub open spec fn spec_mem_output(args: Seq<Seq<char>>, data: Option<Seq<char>>) -> Result<
    Seq<char>,
    MemAppletError,
> {
    match data {
        None => Err(MemAppletError::MemInfoUnavailable),
        Some(d) => {
            let info = spec_mem_info(d);
            if info.total == 0 {
                Err(MemAppletError::MemInfoUnavailable)
            } else {
                let o = scan_options(args);
                let f = spec_mem_fraction(info);
                let cell = if spec_has_pct_text(args) {
                    pct_cell(spec_pct_round(f))
                } else {
                    cell_blank()
                };
                Ok(
                    markup_bg(spec_hex(spec_fraction_rgb(f, o.saturation, o.lightness))) + cell
                        + markup_default() + seq!['\n'],
                )
            }
        },
    }
}

/// Render the memory applet from the CLI tokens and the raw meminfo
/// text, when it could be read at all. Also returns the out-of-range
/// diagnostics the scan raised.
pub fn applet(args: &Vec<String>, data: Option<&str>) -> (r: Result<
    (String, Vec<ColourWarning>),
    MemAppletError,
>)
    ensures
        r is Ok <==> spec_mem_output(args.deep_view(), match data {
            Some(d) => Some(d@),
            None => None,
        }) is Ok,
        r is Ok ==> r->Ok_0.0@ == spec_mem_output(args.deep_view(), match data {
            Some(d) => Some(d@),
            None => None,
        })->Ok_0,
        r is Ok ==> r->Ok_0.1@ == scan_warnings(args.deep_view()),
        r is Err ==> r->Err_0 == MemAppletError::MemInfoUnavailable,
{
    let ghost dv = args.deep_view();
    let mut opts = ColourOptions::empty();
    let mut warnings: Vec<ColourWarning> = Vec::new();
    let mut pct_text: bool = false;
    let mut ai: usize = 0;
    while ai < args.len()
        invariant
            0 <= ai <= args.len(),
            dv == args.deep_view(),
            dv.len() == args@.len(),
            opts == scan_options(dv.take(ai as int)),
            warnings@ == scan_warnings(dv.take(ai as int)),
            pct_text == spec_has_pct_text(dv.take(ai as int)),
        decreases args.len() - ai,
    {
        proof {
            assert(dv.take(ai + 1).drop_last() =~= dv.take(ai as int));
            assert(dv.take(ai + 1).last() == args@[ai as int]@);
        }
        let a = args[ai].as_str();
        apply_colour_param(&mut opts, &mut warnings, a);
        if str_is(a, "pct-text") {
            pct_text = true;
        }
        ai = ai + 1;
    }
    proof {
        assert(dv.take(args@.len() as int) =~= dv);
        crate::common::lemma_scan_options_wf(dv);
    }
    let d = match data {
        None => {
            return Err(MemAppletError::MemInfoUnavailable);
        },
        Some(d) => d,
    };
    let info = parse_meminfo(d);
    let f = match normalise_mem_usage(&info) {
        Err(e) => {
            return Err(e);
        },
        Ok(f) => f,
    };
    let rgb = crate::common::fraction_rgb(f, opts.saturation, opts.lightness);
    let mut out = String::new();
    append_markup_bg(&mut out, &rgb);
    if pct_text {
        let p = pct_round(&f);
        append_cell(&mut out, Some(p));
    } else {
        append_cell(&mut out, None);
    }
    append_markup_default(&mut out);
    proof {
        reveal_strlit("\n");
    }
    out.append("\n");
    proof {
        assert(out@ =~= spec_mem_output(dv, Some(d@))->Ok_0);
    }
    Ok((out, warnings))
}

} // verus!
