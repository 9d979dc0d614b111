//! Properties that cut across the applets.

use vstd::prelude::*;
use crate::common::scan_warnings;
use crate::cpu::{spec_cpu_output, CPUInfo};
use crate::mem::spec_mem_output;
use crate::ping::spec_ping_output;

verus! {

/// Law: every applet is a pure function of its inputs. Repeated
/// renderings from identical tokens and identical collected readings
/// are identical, character for character — including the
/// diagnostics. Each applet's contract pins its output to the spec
/// functions named here, so two calls on equal inputs cannot differ.
pub proof fn lemma_render_idempotent(
    args1: Seq<Seq<char>>,
    args2: Seq<Seq<char>>,
    infos1: Seq<CPUInfo>,
    infos2: Seq<CPUInfo>,
    data1: Option<Seq<char>>,
    data2: Option<Seq<char>>,
    reachable1: bool,
    reachable2: bool,
)
    requires
        args1 == args2,
        infos1 == infos2,
        data1 == data2,
        reachable1 == reachable2,
    ensures
        spec_cpu_output(args1, infos1) == spec_cpu_output(args2, infos2),
        spec_mem_output(args1, data1) == spec_mem_output(args2, data2),
        spec_ping_output(args1, reachable1) == spec_ping_output(args2, reachable2),
        scan_warnings(args1) == scan_warnings(args2),
{
}

} // verus!
