//! The ping applet: one coloured block for a host's reachability,
//! green when a probe answered, red when it did not.

use vstd::prelude::*;
use crate::colour::{append_cell, append_markup_bg, append_markup_default, cell_blank, markup_bg,
    markup_default, pct_cell, spec_hex};
use crate::common::{apply_colour_param, pct_round, scan_options, scan_warnings, spec_fraction_rgb,
    spec_is_colour_tok, spec_pct_round, str_is, ColourOptions, ColourWarning, Fraction};
use crate::mem::spec_has_pct_text;

verus! {

/// What can go wrong while pinging: no host was named, or the probe
/// itself failed to run.
#[derive(Clone, Copy, Debug, PartialEq, Eq, Structural)]
pub enum PingAppletError {
    PingMissingHost,
    PingError,
}

/// The host among the tokens: the first one that is neither a colour
/// parameter nor the `pct-text` flag nor empty. Later candidates are
/// ignored.
pub open spec fn spec_ping_host(toks: Seq<Seq<char>>) -> Option<Seq<char>>
    decreases toks.len(),
{
    if toks.len() == 0 {
        None
    } else {
        match spec_ping_host(toks.drop_last()) {
            Some(h) => Some(h),
            None => {
                let t = toks.last();
                if !spec_is_colour_tok(t) && t != "pct-text"@ && t.len() > 0 {
                    Some(t)
                } else {
                    None
                }
            },
        }
    }
}

/// Pick the host out of the CLI tokens, if any names one.
pub fn host_of_args(args: &Vec<String>) -> (r: Option<String>)
    ensures
        r is Some <==> spec_ping_host(args.deep_view()) is Some,
        r is Some ==> r->0@ == spec_ping_host(args.deep_view())->0,
{
    let ghost dv = args.deep_view();
    let mut host: Option<String> = None;
    let mut ai: usize = 0;
    while ai < args.len()
        invariant
            0 <= ai <= args.len(),
            dv == args.deep_view(),
            dv.len() == args@.len(),
            host is Some <==> spec_ping_host(dv.take(ai as int)) is Some,
            host is Some ==> host->0@ == spec_ping_host(dv.take(ai as int))->0,
        decreases args.len() - ai,
    {
        proof {
            assert(dv.take(ai + 1).drop_last() =~= dv.take(ai as int));
            assert(dv.take(ai + 1).last() == args@[ai as int]@);
        }
        let a = args[ai].as_str();
        let is_colour = crate::common::parse_colour_param(a, "s").is_some()
            || crate::common::parse_colour_param(a, "l").is_some();
        if !is_colour && !str_is(a, "pct-text") && a.unicode_len() > 0 {
            if host.is_none() {
                host = Some(args[ai].clone());
            }
        }
        ai = ai + 1;
    }
    proof {
        assert(dv.take(args@.len() as int) =~= dv);
    }
    host
}

/// The fraction reachability maps to: zero (green) when the probe
/// succeeded, one (red) when it did not. Nothing lies in between.
pub open spec fn spec_ping_fraction(reachable: bool) -> Fraction {
    Fraction { num: if reachable {
        0u32
    } else {
        1u32
    }, den: 1u32 }
}

/// The applet's whole standard output: one block whose cell is blank
/// or the rounded percentage, then the reset marker — or an error
/// when no host was named. No trailing newline.
pub open spec fn spec_ping_output(args: Seq<Seq<char>>, reachable: bool) -> Result<
    Seq<char>,
    PingAppletError,
> {
    if spec_ping_host(args) is None {
        Err(PingAppletError::PingMissingHost)
    } else {
        let o = scan_options(args);
        let f = spec_ping_fraction(reachable);
        let cell = if spec_has_pct_text(args) {
            pct_cell(spec_pct_round(f))
        } else {
            cell_blank()
        };
        Ok(
            markup_bg(spec_hex(spec_fraction_rgb(f, o.saturation, o.lightness))) + cell
                + markup_default(),
        )
    }
}

/// Render the ping applet from the CLI tokens and the probe's
/// outcome. When the tokens name no host the result is an error
/// whatever `reachable` says, and no probe need have run. Also
/// returns the out-of-range diagnostics the scan raised.
pub fn applet(args: &Vec<String>, reachable: bool) -> (r: Result<
    (String, Vec<ColourWarning>),
    PingAppletError,
>)
    ensures
        r is Ok <==> spec_ping_host(args.deep_view()) is Some,
        r is Ok ==> r->Ok_0.0@ == spec_ping_output(args.deep_view(), reachable)->Ok_0,
        r is Ok ==> r->Ok_0.1@ == scan_warnings(args.deep_view()),
        r is Err ==> r->Err_0 == PingAppletError::PingMissingHost,
{
    let ghost dv = args.deep_view();
    let mut opts = ColourOptions::empty();
    let mut warnings: Vec<ColourWarning> = Vec::new();
    let mut pct_text: bool = false;
    let mut has_host: bool = false;
    let mut ai: usize = 0;
    while ai < args.len()
        invariant
            0 <= ai <= args.len(),
            dv == args.deep_view(),
            dv.len() == args@.len(),
            opts == scan_options(dv.take(ai as int)),
            warnings@ == scan_warnings(dv.take(ai as int)),
            pct_text == spec_has_pct_text(dv.take(ai as int)),
            has_host == (spec_ping_host(dv.take(ai as int)) is Some),
        decreases args.len() - ai,
    {
        proof {
            assert(dv.take(ai + 1).drop_last() =~= dv.take(ai as int));
            assert(dv.take(ai + 1).last() == args@[ai as int]@);
        }
        let a = args[ai].as_str();
        let matched = apply_colour_param(&mut opts, &mut warnings, a);
        if str_is(a, "pct-text") {
            pct_text = true;
        } else if !matched && a.unicode_len() > 0 {
            has_host = true;
        }
        ai = ai + 1;
    }
    proof {
        assert(dv.take(args@.len() as int) =~= dv);
        crate::common::lemma_scan_options_wf(dv);
    }
    if !has_host {
        return Err(PingAppletError::PingMissingHost);
    }
    let f = Fraction { num: if reachable {
        0
    } else {
        1
    }, den: 1 };
    let rgb = crate::common::fraction_rgb(f, opts.saturation, opts.lightness);
    let mut out = String::new();
    append_markup_bg(&mut out, &rgb);
    if pct_text {
        let p = pct_round(&f);
        append_cell(&mut out, Some(p));
    } else {
        append_cell(&mut out, None);
    }
    append_markup_default(&mut out);
    proof {
        assert(out@ =~= spec_ping_output(dv, reachable)->Ok_0);
    }
    Ok((out, warnings))
}

} // verus!
