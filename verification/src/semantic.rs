//! Top-level interface for semantic analysis: run the enumeration pass over
//! the module graph, then the dependency resolution pass, and aggregate the
//! result into a `Program` together with every diagnostic produced.
//!
//! Later passes — type checking and name-clash checking — consume the
//! resolved registries; the contract they rely on is that every name target
//! carries a terminal status and every resolved reference a valid
//! declaration id, which resolution guarantees.

use vstd::prelude::*;
use crate::diag::{DiagResult, Diagnostic, spec_has_error, spec_severity, DiagnosticLevel};
use crate::enumeration::{diags_from_sources, enumerate_namespaces, entry_parsed, spec_has_fatal,
    successes_from_sources, Sources};
use crate::resolution::diags_leveled;
use crate::namespace::{module_paths_unique, namespaces_wf, table_refs_wf, table_resolved};
use crate::program::Program;
use crate::resolution::resolve_dependencies;

verus! {

/// Analyze the program rooted at `main_module_path`: enumerate every
/// reachable module from the given parse outcomes, resolve every name to a
/// terminal reference set, and return the aggregate `Program` with all
/// collected diagnostics. The run fails only when the entry module is
/// missing or unparsable; in the returned program every name target of every
/// namespace is terminal, with its status the aggregate of its references.
pub fn analyze(main_module_path: String, sources: &Sources) -> (r: DiagResult<Program>)
    requires
        sources.wf(),
    ensures
        match r.value {
            Some(program) => {
                &&& entry_parsed(program.modules@, main_module_path@)
                &&& successes_from_sources(program.modules@, *sources)
                &&& exists|eds: Seq<Diagnostic>, rds: Seq<Diagnostic>|
                    r.diagnostics@ == eds + rds && #[trigger] diags_from_sources(eds, *sources)
                        && #[trigger] diags_leveled(rds)
                &&& namespaces_wf(program.namespaces@)
                &&& forall|i: int|
                    0 <= i < program.namespaces@.len() ==> table_resolved(
                        (#[trigger] program.namespaces@[i]).locals@,
                    ) && table_resolved(program.namespaces@[i].exports@)
                &&& forall|i: int|
                    0 <= i < program.namespaces@.len() ==> table_refs_wf(
                        (#[trigger] program.namespaces@[i]).locals@,
                        program.declarations@.len() as nat,
                    ) && table_refs_wf(
                        program.namespaces@[i].exports@,
                        program.declarations@.len() as nat,
                    )
            },
            None => spec_has_error(r.diagnostics@) && spec_has_fatal(r.diagnostics@) && (
            !crate::resolver::file_exists(
                sources.path_views(),
                main_module_path@,
            ) || exists|i: int|
                0 <= i < sources.files@.len() && (#[trigger] sources.files@[i]).path@
                    == main_module_path@ && sources.files@[i].root is None),
        },
{
    let enumeration = enumerate_namespaces(main_module_path, sources);
    let output = match enumeration.value {
        Some(output) => output,
        None => {
            proof {
                assert(spec_has_error(enumeration.diagnostics@));
            }
            return DiagResult { value: None, diagnostics: enumeration.diagnostics };
        },
    };
    let mut diagnostics = output.diagnostics;
    let resolution = resolve_dependencies(
        output.modules,
        output.declarations,
        output.namespaces,
        &output.pure_forwards,
    );
    let ghost eds0 = diagnostics@;
    let mut ri: usize = 0;
    let resolution_diags = resolution.diagnostics;
    while ri < resolution_diags.len()
        invariant
            ri <= resolution_diags@.len(),
            diagnostics@ == eds0 + resolution_diags@.subrange(0, ri as int),
        decreases resolution_diags@.len() - ri,
    {
        diagnostics.push(resolution_diags[ri].duplicate());
        proof {
            assert(diagnostics@ =~= eds0 + resolution_diags@.subrange(0, ri + 1));
        }
        ri = ri + 1;
    }
    proof {
        assert(resolution_diags@.subrange(0, resolution_diags@.len() as int)
            == resolution_diags@);
        // the accumulated list is the enumeration pass's carried parser
        // diagnostics followed by the resolution pass's own
        assert(diagnostics@ == eds0 + resolution_diags@ && diags_from_sources(eds0, *sources)
            && diags_leveled(resolution_diags@));
    }
    proof {
        // resolution keeps every module's path and status shape, so the entry
        // module stays registered and successfully parsed
        assert(entry_parsed(resolution.modules@, main_module_path@)) by {
            let k = crate::namespace::module_index_of(output.modules@, main_module_path@);
            assert(output.modules@[k].0@ == main_module_path@);
            assert(resolution.modules@[k].0 == output.modules@[k].0);
            crate::namespace::lemma_module_index_stable(
                resolution.modules@,
                main_module_path@,
                k,
            );
            assert(module_paths_unique(resolution.modules@)) by {
                assert forall|i: int, j: int|
                    0 <= i < j < resolution.modules@.len() implies resolution.modules@[i].0@
                    != resolution.modules@[j].0@ by {
                    assert(resolution.modules@[i].0 == output.modules@[i].0);
                    assert(resolution.modules@[j].0 == output.modules@[j].0);
                }
            }
            assert(resolution.modules@[k].1 == crate::resolution::spec_mark_resolved(
                output.modules@[k].1,
            ));
        }
        // marking modules fully resolved keeps their paths and success states,
        // so every successful entry still names a parsed source file
        assert(successes_from_sources(resolution.modules@, *sources)) by {
            assert forall|k: int|
                0 <= k < resolution.modules@.len() && (#[trigger] resolution.modules@[k].1)
                    is Success implies exists|i: int|
                0 <= i < sources.files@.len() && (#[trigger] sources.files@[i]).path@
                    == resolution.modules@[k].0@ && sources.files@[i].root is Some by {
                assert(resolution.modules@[k].0 == output.modules@[k].0);
                assert(resolution.modules@[k].1 == crate::resolution::spec_mark_resolved(
                    output.modules@[k].1,
                ));
                assert(output.modules@[k].1 is Success);
            }
        }
    }
    let program = Program::new(resolution.modules, resolution.namespaces, resolution.declarations);
    DiagResult { value: Some(program), diagnostics }
}

/// Keep the diagnostics at or above a minimum level, in order.
pub open spec fn spec_filter_diagnostics(diags: Seq<Diagnostic>, min: DiagnosticLevel) -> Seq<
    Diagnostic,
>
    decreases diags.len(),
{
    if diags.len() == 0 {
        Seq::empty()
    } else {
        let rest = spec_filter_diagnostics(diags.drop_last(), min);
        if spec_severity(diags.last().level) >= spec_severity(min) {
            rest.push(diags.last())
        } else {
            rest
        }
    }
}

/// How many diagnostics are at or above a level.
pub open spec fn spec_count_at_least(diags: Seq<Diagnostic>, min: DiagnosticLevel) -> nat
    decreases diags.len(),
{
    if diags.len() == 0 {
        0
    } else {
        spec_count_at_least(diags.drop_last(), min) + if spec_severity(diags.last().level)
            >= spec_severity(min) {
            1nat
        } else {
            0nat
        }
    }
}

/// How many diagnostics are at exactly a level.
pub open spec fn spec_count_at(diags: Seq<Diagnostic>, level: DiagnosticLevel) -> nat
    decreases diags.len(),
{
    if diags.len() == 0 {
        0
    } else {
        spec_count_at(diags.drop_last(), level) + if diags.last().level == level {
            1nat
        } else {
            0nat
        }
    }
}

/// How many diagnostics are at exactly `level`.
pub fn count_at(diags: &Vec<Diagnostic>, level: DiagnosticLevel) -> (r: usize)
    ensures
        r == spec_count_at(diags@, level),
{
    let mut r: usize = 0;
    let mut i: usize = 0;
    while i < diags.len()
        invariant
            i <= diags@.len(),
            r == spec_count_at(diags@.subrange(0, i as int), level),
            r <= i,
        decreases diags@.len() - i,
    {
        proof {
            assert(diags@.subrange(0, i + 1).drop_last() == diags@.subrange(0, i as int));
            assert(diags@.subrange(0, i + 1).last() == diags@[i as int]);
        }
        if diags[i].level == level {
            r = r + 1;
        }
        i = i + 1;
    }
    proof {
        assert(diags@.subrange(0, diags@.len() as int) == diags@);
    }
    r
}

/// The diagnostics to render for the user: those at or above `min`.
pub fn filter_diagnostics(diags: &Vec<Diagnostic>, min: DiagnosticLevel) -> (r: Vec<Diagnostic>)
    ensures
        r@ == spec_filter_diagnostics(diags@, min),
{
    let mut r: Vec<Diagnostic> = Vec::new();
    let mut i: usize = 0;
    while i < diags.len()
        invariant
            i <= diags@.len(),
            r@ == spec_filter_diagnostics(diags@.subrange(0, i as int), min),
        decreases diags@.len() - i,
    {
        proof {
            assert(diags@.subrange(0, i + 1).drop_last() == diags@.subrange(0, i as int));
            assert(diags@.subrange(0, i + 1).last() == diags@[i as int]);
        }
        if diags[i].level.at_least(min) {
            r.push(diags[i].duplicate());
        }
        i = i + 1;
    }
    proof {
        assert(diags@.subrange(0, diags@.len() as int) == diags@);
    }
    r
}

/// How many diagnostics are at or above `min`.
pub fn count_at_least(diags: &Vec<Diagnostic>, min: DiagnosticLevel) -> (r: usize)
    ensures
        r == spec_count_at_least(diags@, min),
{
    let mut r: usize = 0;
    let mut i: usize = 0;
    while i < diags.len()
        invariant
            i <= diags@.len(),
            r == spec_count_at_least(diags@.subrange(0, i as int), min),
            r <= i,
        decreases diags@.len() - i,
    {
        proof {
            assert(diags@.subrange(0, i + 1).drop_last() == diags@.subrange(0, i as int));
            assert(diags@.subrange(0, i + 1).last() == diags@[i as int]);
        }
        if diags[i].level.at_least(min) {
            r = r + 1;
        }
        i = i + 1;
    }
    proof {
        assert(diags@.subrange(0, diags@.len() as int) == diags@);
    }
    r
}

/// Whether the collected diagnostics make the compilation a failure: any
/// diagnostic at level `Error` or above does.
pub fn compilation_failed(diags: &Vec<Diagnostic>) -> (r: bool)
    ensures
        r == (spec_count_at_least(diags@, DiagnosticLevel::Error) > 0),
{
    count_at_least(diags, DiagnosticLevel::Error) > 0
}

} // verus!
