//! The CPU applet: one coloured block per logical processor, green at
//! the minimum scaling frequency, red at the maximum.

use vstd::prelude::*;
use crate::colour::{append_cell, append_markup_bg, append_markup_default, cell_blank, markup_bg,
    markup_default, spec_hex};
use crate::common::{apply_colour_param, is_space, is_space_char, parse_u32, scan_options,
    scan_warnings, spec_fraction_rgb, spec_parse_u32, ColourOptions, ColourWarning, Fraction};

verus! {

/// What can go wrong while gathering CPU data: the processor count
/// query failed, or a processor's frequency readings are missing or
/// degenerate.
#[derive(Clone, Copy, Debug, PartialEq, Eq, Structural)]
pub enum CPUAppletError {
    CPUCount,
    CPUInfo,
}

/// One processor's scaling frequencies, in kHz.
#[derive(Clone, Copy, Debug, PartialEq, Eq, Structural)]
pub struct CPUInfo {
    pub min_freq: u32,
    pub max_freq: u32,
    pub cur_freq: u32,
}

// ----- reading one frequency file's text -----

/// The length of `s` once trailing whitespace is dropped.
pub open spec fn trimmed_len(s: Seq<char>) -> int
    decreases s.len(),
{
    if s.len() == 0 {
        0
    } else if is_space(s.last()) {
        trimmed_len(s.drop_last())
    } else {
        s.len() as int
    }
}

/// What the text of a frequency file yields: its trailing whitespace
/// dropped, the rest read as an unsigned decimal integer.
pub open spec fn spec_freq_value(s: Seq<char>) -> Option<u32> {
    spec_parse_u32(s.take(trimmed_len(s)))
}

/// Where `s` ends once trailing whitespace is dropped.
fn trimmed_end(s: &str) -> (e: usize)
    ensures
        e as int == trimmed_len(s@),
        e <= s@.len(),
{
    let n = s.unicode_len();
    proof {
        assert(s@.take(n as int) =~= s@);
    }
    let mut e: usize = n;
    while e > 0
        invariant
            0 <= e <= n,
            n == s@.len(),
            trimmed_len(s@) == trimmed_len(s@.take(e as int)),
        decreases e,
    {
        let c = s.get_char(e - 1);
        proof {
            assert(s@.take(e as int).drop_last() =~= s@.take(e - 1));
            assert(s@.take(e as int).last() == s@[e - 1]);
        }
        if !is_space_char(c) {
            return e;
        }
        e = e - 1;
    }
    proof {
        assert(s@.take(0).len() == 0);
    }
    0
}

/// Read one scaling-frequency value from a file's text.
pub fn parse_freq_value(s: &str) -> (r: Option<u32>)
    ensures
        r == spec_freq_value(s@),
{
    let e = trimmed_end(s);
    let trimmed = s.substring_char(0, e);
    let r = parse_u32(trimmed);
    proof {
        assert(trimmed@ =~= s@.take(trimmed_len(s@)));
    }
    r
}

// ----- normalizing -----

/// `x` clamped into `[lo, hi]`.
pub open spec fn spec_clamp(x: int, lo: int, hi: int) -> int {
    if x < lo {
        lo
    } else if x > hi {
        hi
    } else {
        x
    }
}

/// The fraction a processor's readings normalize to: the current
/// frequency, clamped into `[min, max]`, as a position within that
/// range.
pub open spec fn spec_cpu_fraction(c: CPUInfo) -> Fraction {
    Fraction {
        num: (spec_clamp(c.cur_freq as int, c.min_freq as int, c.max_freq as int)
            - c.min_freq as int) as u32,
        den: (c.max_freq - c.min_freq) as u32,
    }
}

/// The readings admit a fraction at all: a degenerate range (minimum
/// not below maximum) cannot be normalized.
pub open spec fn spec_cpu_ok(c: CPUInfo) -> bool {
    c.min_freq < c.max_freq
}

/// Normalize the current frequency into [0, 1] over the processor's
/// frequency range, clamping readings that overshoot either bound.
/// A degenerate range is a collection error, never a division by zero.
pub fn normalise_cur_freq(cpu: &CPUInfo) -> (r: Result<Fraction, CPUAppletError>)
    ensures
        r is Ok <==> spec_cpu_ok(*cpu),
        r is Ok ==> r->Ok_0 == spec_cpu_fraction(*cpu) && r->Ok_0.wf(),
        r is Err ==> r->Err_0 == CPUAppletError::CPUInfo,
{
    if cpu.min_freq >= cpu.max_freq {
        return Err(CPUAppletError::CPUInfo);
    }
    let mut c = cpu.cur_freq;
    if c < cpu.min_freq {
        c = cpu.min_freq;
    }
    if c > cpu.max_freq {
        c = cpu.max_freq;
    }
    Ok(Fraction { num: c - cpu.min_freq, den: cpu.max_freq - cpu.min_freq })
}

/// Combine the three frequency readings of one processor; any missing
/// reading is a collection error.
pub fn cpu_info(min: Option<u32>, max: Option<u32>, cur: Option<u32>) -> (r: Result<
    CPUInfo,
    CPUAppletError,
>)
    ensures
        r is Ok <==> min is Some && max is Some && cur is Some,
        r is Ok ==> r->Ok_0 == (CPUInfo {
            min_freq: min->0,
            max_freq: max->0,
            cur_freq: cur->0,
        }),
        r is Err ==> r->Err_0 == CPUAppletError::CPUInfo,
{
    match (min, max, cur) {
        (Some(min_freq), Some(max_freq), Some(cur_freq)) => Ok(
            CPUInfo { min_freq, max_freq, cur_freq },
        ),
        _ => Err(CPUAppletError::CPUInfo),
    }
}

// ----- rendering -----

/// The blocks the processors render to, one `#[bg=..]` block with a
/// blank cell per processor, in order.
pub open spec fn spec_cpu_blocks(infos: Seq<CPUInfo>, o: ColourOptions) -> Seq<char>
    decreases infos.len(),
{
    if infos.len() == 0 {
        Seq::<char>::empty()
    } else {
        spec_cpu_blocks(infos.drop_last(), o) + markup_bg(
            spec_hex(spec_fraction_rgb(spec_cpu_fraction(infos.last()), o.saturation, o.lightness)),
        ) + cell_blank()
    }
}

/// The applet's whole standard output: every processor's block, the
/// reset marker, and the final newline — or a collection error if any
/// processor's range is degenerate.
pub open spec fn spec_cpu_output(args: Seq<Seq<char>>, infos: Seq<CPUInfo>) -> Result<
    Seq<char>,
    CPUAppletError,
> {
    if forall|i: int| 0 <= i < infos.len() ==> spec_cpu_ok(infos[i]) {
        Ok(spec_cpu_blocks(infos, scan_options(args)) + markup_default() + seq!['\n'])
    } else {
        Err(CPUAppletError::CPUInfo)
    }
}

/// Render the CPU applet: scan the arguments for colour parameters,
/// then emit one coloured block per processor and a trailing reset
/// marker. Also returns the out-of-range diagnostics the scan raised.
pub fn applet(args: &Vec<String>, infos: &Vec<CPUInfo>) -> (r: Result<
    (String, Vec<ColourWarning>),
    CPUAppletError,
>)
    ensures
        r is Ok <==> spec_cpu_output(args.deep_view(), infos@) is Ok,
        r is Ok ==> r->Ok_0.0@ == spec_cpu_output(args.deep_view(), infos@)->Ok_0,
        r is Ok ==> r->Ok_0.1@ == scan_warnings(args.deep_view()),
        r is Err ==> r->Err_0 == CPUAppletError::CPUInfo,
{
    let ghost dv = args.deep_view();
    let mut opts = ColourOptions::empty();
    let mut warnings: Vec<ColourWarning> = Vec::new();
    let mut ai: usize = 0;
    while ai < args.len()
        invariant
            0 <= ai <= args.len(),
            dv == args.deep_view(),
            dv.len() == args@.len(),
            opts == scan_options(dv.take(ai as int)),
            warnings@ == scan_warnings(dv.take(ai as int)),
        decreases args.len() - ai,
    {
        proof {
            assert(dv.take(ai + 1).drop_last() =~= dv.take(ai as int));
            assert(dv.take(ai + 1).last() == args@[ai as int]@);
        }
        apply_colour_param(&mut opts, &mut warnings, args[ai].as_str());
        ai = ai + 1;
    }
    proof {
        assert(dv.take(args@.len() as int) =~= dv);
        crate::common::lemma_scan_options_wf(dv);
    }
    let mut out = String::new();
    let mut i: usize = 0;
    while i < infos.len()
        invariant
            0 <= i <= infos@.len(),
            opts == scan_options(dv),
            opts.wf(),
            forall|j: int| 0 <= j < i ==> spec_cpu_ok(infos@[j]),
            out@ == spec_cpu_blocks(infos@.take(i as int), opts),
        decreases infos.len() - i,
    {
        let info = &infos[i];
        match normalise_cur_freq(info) {
            Err(e) => {
                return Err(e);
            },
            Ok(f) => {
                let rgb = crate::common::fraction_rgb(f, opts.saturation, opts.lightness);
                append_markup_bg(&mut out, &rgb);
                append_cell(&mut out, None);
                proof {
                    assert(infos@.take(i + 1).drop_last() =~= infos@.take(i as int));
                    assert(infos@.take(i + 1).last() == infos@[i as int]);
                }
            },
        }
        i = i + 1;
    }
    proof {
        assert(infos@.take(infos@.len() as int) =~= infos@);
    }
    append_markup_default(&mut out);
    proof {
        reveal_strlit("\n");
    }
    out.append("\n");
    proof {
        assert(out@ =~= spec_cpu_blocks(infos@, scan_options(dv)) + markup_default()
            + seq!['\n']);
    }
    Ok((out, warnings))
}

} // verus!
