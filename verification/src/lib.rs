//! A Parsing Expression Grammar engine built around a small parsing virtual
//! machine.  A grammar written in a concrete PEG syntax is compiled into a
//! flat instruction program; executing that program against a byte input
//! yields the set of labeled spans (rule id, start, end) that matched, or the
//! position at which matching failed.
//!
//! Spans carry plain rule ids; `Machine::rule_names` maps each id to the
//! rule's name, and a host maps names to markers of its own choosing.  A
//! span completed for an id with no name is reported as
//! `Error::MarkerError` with that id — the engine-side face of a marker
//! mapping that rejects a rule.

pub mod ast;
pub mod dummy;
pub mod graph;
pub mod machine;
pub mod parser;
pub mod semantics;

use vstd::prelude::*;
use crate::machine::{Machine, MAX_PROGRAM, compiled_from, wf_machine};
use crate::parser::{GPat, g_program_size, sp_parse, tk_run};
use vstd::string::StringSliceAdditionalSpecFns;

verus! {

/// Compiles grammar text into a ready machine, reporting any failure as a
/// single error code.
pub fn build(text: &str) -> (r: Result<Machine, u8>)
    requires
        text.spec_bytes().len() < 0x4000_0000,
    ensures
        r matches Ok(m) ==> wf_machine(m),
        r matches Ok(m) ==> compiled_from(text.spec_bytes(), m),
        r matches Err(e) ==> e == 0 && ({
            let scan = tk_run(text.spec_bytes(), text.spec_bytes().len() as int);
            ||| sp_parse(scan.tokens, scan.names.len() as int) is Err
            ||| (sp_parse(scan.tokens, scan.names.len() as int) matches Ok(shapes)
                && g_program_size(shapes) > MAX_PROGRAM)
        }),
        ({
            let scan = tk_run(text.spec_bytes(), text.spec_bytes().len() as int);
            sp_parse(scan.tokens, scan.names.len() as int) matches Ok(shapes)
                && g_program_size(shapes) <= MAX_PROGRAM
        }) ==> r is Ok,
{
    match Machine::new(text) {
        Ok(m) => Ok(m),
        Err(_) => Err(0),
    }
}

} // verus!
