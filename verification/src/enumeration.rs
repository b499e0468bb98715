//! The enumeration pass: starting from the entry module, walk the module
//! graph outward, parsing each referenced module through the parser
//! collaborator's output, and build the module, namespace, and declaration
//! registries together with the raw per-name dependency queues.
//!
//! The parser and the filesystem are collaborators: their combined view is
//! handed in as a `Sources` value listing every existing module file with its
//! parse outcome, so the pass itself is a pure function of the entry path and
//! that value.

use vstd::prelude::*;
use crate::diag::{DiagResult, Diagnostic, DiagnosticLevel, FilePosition, spec_has_error,
    spec_severity};
use crate::dependencies::{Dependency, PureForward};
use crate::namespace::{ModuleRef, Namespace, NameBinding, add_dep_to, add_ref_to, find_module,
    has_module, module_index_of, module_paths_unique, modules_wf, namespaces_wf, declarations_wf,
    table_not_resolved, table_refs_wf, Reference, spec_declaration_id, has_namespace_decl,
    lemma_has_module_push, lemma_has_module_update, lemma_module_index_stable};
use crate::namespace::Declaration as NsDeclaration;
use crate::resolver::{resolve_module, file_exists, lemma_resolve_in_files, unresolved_module_path};
use crate::syntax::{ModuleRoot, ImportDeclaration, ExportDeclaration, ExportForwardDeclaration,
    NamespaceDeclaration, AnonymousDeclaration, ExportValue, NonImport, Token};
use crate::syntax::Declaration as SyntaxDeclaration;

verus! {

/// One file the parser collaborator could see: its path, its parsed root
/// (`None` when parsing failed), and the parser's diagnostics for it.
pub struct SourceFile {
    pub path: String,
    pub root: Option<ModuleRoot>,
    pub diagnostics: Vec<Diagnostic>,
}

/// The parser collaborator's view of the filesystem: every existing module
/// file together with its parse outcome. A path absent from this list does
/// not exist as a file.
pub struct Sources {
    pub files: Vec<SourceFile>,
}

impl Sources {
    /// The file paths, as character sequences.
    pub open spec fn path_views(&self) -> Seq<Seq<char>> {
        Seq::new(self.files@.len(), |i: int| self.files@[i].path@)
    }

    /// No file path occurs twice.
    pub open spec fn wf(&self) -> bool {
        forall|i: int, j: int|
            0 <= i < j < self.files@.len() ==> self.files@[i].path@ != self.files@[j].path@
    }

    /// The list of existing file paths, for the module path resolver.
    pub fn paths(&self) -> (r: Vec<String>)
        ensures
            r.deep_view() == self.path_views(),
    {
        let mut r: Vec<String> = Vec::new();
        let mut i: usize = 0;
        while i < self.files.len()
            invariant
                i <= self.files@.len(),
                r@.len() == i,
                forall|j: int| 0 <= j < i ==> r@[j]@ == self.files@[j].path@,
            decreases self.files@.len() - i,
        {
            let ghost pre_r = r@;
            let p = self.files[i].path.clone();
            r.push(p);
            proof {
                assert forall|j: int| 0 <= j < i + 1 implies r@[j]@ == self.files@[j].path@ by {
                    if j < pre_r.len() {
                        assert(r@[j] == pre_r[j]);
                    }
                }
            }
            i = i + 1;
        }
        proof {
            assert forall|j: int|
                0 <= j < r.deep_view().len() implies r.deep_view()[j] == self.path_views()[j] by {
                assert(r.deep_view()[j] == r@[j]@);
                assert(self.path_views()[j] == self.files@[j].path@);
            }
            assert(r.deep_view() =~= self.path_views());
        }
        r
    }

    /// The position of the file with the given path.
    pub fn find(&self, path: &String) -> (r: Option<usize>)
        ensures
            r is Some <==> file_exists(self.path_views(), path@),
            r is Some ==> 0 <= r.unwrap() < self.files@.len() && self.files@[r.unwrap() as int].path@
                == path@,
    {
        let mut i: usize = 0;
        while i < self.files.len()
            invariant
                i <= self.files@.len(),
                forall|j: int| 0 <= j < i ==> self.files@[j].path@ != path@,
            decreases self.files@.len() - i,
        {
            if self.files[i].path.eq(path) {
                proof {
                    assert(self.path_views()[i as int] == path@);
                }
                return Some(i);
            }
            proof {
                assert(self.path_views()[i as int] == self.files@[i as int].path@);
            }
            i = i + 1;
        }
        proof {
            assert forall|k: int|
                0 <= k < self.path_views().len() implies self.path_views()[k] != path@ by {
                assert(self.path_views()[k] == self.files@[k].path@);
            }
        }
        None
    }
}

/// How many of `paths` have no entry yet in the module registry. Walking the
/// module graph only ever shrinks this count, which bounds the work left.
pub open spec fn num_unregistered(paths: Seq<Seq<char>>, mods: Seq<(String, ModuleRef)>) -> nat
    decreases paths.len(),
{
    if paths.len() == 0 {
        0
    } else {
        num_unregistered(paths.drop_last(), mods) + if has_module(mods, paths.last()) {
            0nat
        } else {
            1nat
        }
    }
}

/// Appending a registry entry never raises the unregistered count, and
/// registering a listed, previously-unknown path strictly lowers it.
pub proof fn lemma_unreg_push(
    paths: Seq<Seq<char>>,
    mods: Seq<(String, ModuleRef)>,
    entry: (String, ModuleRef),
)
    ensures
        num_unregistered(paths, mods.push(entry)) <= num_unregistered(paths, mods),
        file_exists(paths, entry.0@) && !has_module(mods, entry.0@) ==> num_unregistered(
            paths,
            mods.push(entry),
        ) < num_unregistered(paths, mods),
    decreases paths.len(),
{
    if paths.len() > 0 {
        let rest = paths.drop_last();
        lemma_unreg_push(rest, mods, entry);
        assert forall|q: Seq<char>| has_module(mods, q) implies has_module(
            mods.push(entry),
            q,
        ) by {
            let i = choose|i: int| 0 <= i < mods.len() && #[trigger] mods[i].0@ == q;
            assert(mods.push(entry)[i].0@ == q);
        }
        if file_exists(paths, entry.0@) && !has_module(mods, entry.0@) {
            if paths.last() == entry.0@ {
                assert(has_module(mods.push(entry), entry.0@)) by {
                    assert(mods.push(entry)[mods.len() as int].0@ == entry.0@);
                }
            } else {
                assert(file_exists(rest, entry.0@)) by {
                    let i = choose|i: int| 0 <= i < paths.len() && paths[i] == entry.0@;
                    assert(i < paths.len() - 1);
                    assert(rest[i] == entry.0@);
                }
            }
        }
        // whichever status the last path has, the sum cannot grow
        if has_module(mods, paths.last()) {
            assert(has_module(mods.push(entry), paths.last()));
        }
    }
}

/// Replacing the status of a registered path leaves the unregistered count
/// unchanged: registration is keyed by path alone.
pub proof fn lemma_unreg_update(
    paths: Seq<Seq<char>>,
    mods: Seq<(String, ModuleRef)>,
    k: int,
    entry: (String, ModuleRef),
)
    requires
        0 <= k < mods.len(),
        entry.0@ == mods[k].0@,
    ensures
        num_unregistered(paths, mods.update(k, entry)) == num_unregistered(paths, mods),
    decreases paths.len(),
{
    if paths.len() > 0 {
        lemma_unreg_update(paths.drop_last(), mods, k, entry);
        assert forall|q: Seq<char>| has_module(mods, q) implies has_module(
            mods.update(k, entry),
            q,
        ) by {
            let i = choose|i: int| 0 <= i < mods.len() && #[trigger] mods[i].0@ == q;
            if i == k {
                assert(mods.update(k, entry)[k].0@ == q);
            } else {
                assert(mods.update(k, entry)[i].0@ == q);
            }
        }
        assert forall|q: Seq<char>| has_module(mods.update(k, entry), q) implies has_module(
            mods,
            q,
        ) by {
            let i = choose|i: int|
                0 <= i < mods.update(k, entry).len() && #[trigger] mods.update(k, entry)[i].0@ == q;
            if i == k {
                assert(mods[k].0@ == q);
            } else {
                assert(mods[i].0@ == q);
            }
        }
    }
}

/// How many queue entries name the path `p`.
pub open spec fn count_path(queue: Seq<String>, p: Seq<char>) -> nat
    decreases queue.len(),
{
    if queue.len() == 0 {
        0
    } else {
        count_path(queue.drop_last(), p) + if queue.last()@ == p {
            1nat
        } else {
            0nat
        }
    }
}

/// Popping the queue's front lowers the count of its path by one and keeps
/// every other path's count.
pub proof fn lemma_count_path_pop(queue: Seq<String>, p: Seq<char>)
    requires
        queue.len() > 0,
    ensures
        count_path(queue, p) == count_path(queue.drop_first(), p) + if queue[0]@ == p {
            1nat
        } else {
            0nat
        },
    decreases queue.len(),
{
    if queue.len() == 1 {
        assert(queue.drop_first() =~= Seq::<String>::empty());
        assert(count_path(queue.drop_first(), p) == 0);
        assert(queue.drop_last() =~= Seq::<String>::empty());
        assert(queue.last() == queue[0]);
    } else {
        lemma_count_path_pop(queue.drop_last(), p);
        assert(queue.drop_first().drop_last() =~= queue.drop_last().drop_first());
        assert(queue.drop_first().last() == queue.last());
        assert(queue.drop_last()[0] == queue[0]);
        assert(count_path(queue, p) == count_path(queue.drop_last(), p) + if queue.last()@ == p {
            1nat
        } else {
            0nat
        });
        assert(count_path(queue.drop_first(), p) == count_path(queue.drop_first().drop_last(), p)
            + if queue.drop_first().last()@ == p {
            1nat
        } else {
            0nat
        });
    }
}

/// Pushing a path raises its count by one and keeps every other path's count.
pub proof fn lemma_count_path_push(queue: Seq<String>, entry: String, p: Seq<char>)
    ensures
        count_path(queue.push(entry), p) == count_path(queue, p) + if entry@ == p {
            1nat
        } else {
            0nat
        },
{
    assert(queue.push(entry).drop_last() =~= queue);
}

/// The effect of registering a referenced module on the registry and the
/// enumeration queue: a new path is recorded as `Referenced` and enqueued;
/// a path already present leaves both untouched.
pub open spec fn spec_register(
    mods: Seq<(String, ModuleRef)>,
    queue: Seq<String>,
    path: String,
) -> (Seq<(String, ModuleRef)>, Seq<String>) {
    if has_module(mods, path@) {
        (mods, queue)
    } else {
        (mods.push((path, ModuleRef::Referenced { fully_resolved: false })), queue.push(path))
    }
}

/// Idempotence of module registration: registering the same path twice has
/// exactly the effect of registering it once — no duplicate queue entry, no
/// overwritten status.
pub proof fn lemma_register_idempotent(
    mods: Seq<(String, ModuleRef)>,
    queue: Seq<String>,
    path: String,
)
    ensures
        spec_register(
            spec_register(mods, queue, path).0,
            spec_register(mods, queue, path).1,
            path,
        ) == spec_register(mods, queue, path),
{
    if !has_module(mods, path@) {
        let mods1 = spec_register(mods, queue, path).0;
        assert(has_module(mods1, path@)) by {
            assert(mods1[mods.len() as int].0@ == path@);
        }
    }
}

/// The output of the enumeration pass: the module registry, the namespace and
/// declaration arenas, the pure forwards found along the way, and the
/// diagnostics produced while walking the graph.
pub struct NamespaceEnumerationOutput {
    pub modules: Vec<(String, ModuleRef)>,
    pub namespaces: Vec<Namespace>,
    pub declarations: Vec<NsDeclaration>,
    pub pure_forwards: Vec<PureForward>,
    pub diagnostics: Vec<Diagnostic>,
}

impl NamespaceEnumerationOutput {
    /// What enumeration guarantees of its registries: unique module paths,
    /// dense well-formed arenas, every target still unresolved, every
    /// recorded declaration id valid, and every pure forward's namespace id
    /// in range.
    pub open spec fn wf(&self) -> bool {
        &&& module_paths_unique(self.modules@)
        &&& namespaces_wf(self.namespaces@)
        &&& modules_wf(self.modules@, self.namespaces@.len() as nat, self.declarations@)
        &&& declarations_wf(self.declarations@, self.namespaces@.len() as nat)
        &&& forall|i: int|
            0 <= i < self.namespaces@.len() ==> {
                &&& table_not_resolved(#[trigger] self.namespaces@[i].locals@)
                &&& table_not_resolved(self.namespaces@[i].exports@)
                &&& table_refs_wf(self.namespaces@[i].locals@, self.declarations@.len() as nat)
                &&& table_refs_wf(self.namespaces@[i].exports@, self.declarations@.len() as nat)
            }
        &&& crate::namespace::nested_links_wf(self.namespaces@, self.declarations@)
        &&& forall|p: int|
            0 <= p < self.pure_forwards@.len() ==> (#[trigger] self.pure_forwards@[p]).forward_namespace
                < self.namespaces@.len()
    }
}

/// The entry module is registered and recorded as successfully parsed.
pub open spec fn entry_parsed(mods: Seq<(String, ModuleRef)>, main: Seq<char>) -> bool {
    has_module(mods, main) && mods[module_index_of(mods, main)].1 is Success
}

/// Every module recorded as successful names a source file that parsed: the
/// registry can only call a module `Success` when the collaborator handed in
/// a root for its path.
pub open spec fn successes_from_sources(
    mods: Seq<(String, ModuleRef)>,
    sources: Sources,
) -> bool {
    forall|k: int|
        0 <= k < mods.len() ==> ((#[trigger] mods[k].1) is Success ==> exists|i: int|
            0 <= i < sources.files@.len() && (#[trigger] sources.files@[i]).path@ == mods[k].0@
                && sources.files@[i].root is Some)
}

/// Pointwise preservation of successful entries carries the sources tie
/// forward.
pub proof fn lemma_successes_pointwise(
    new_mods: Seq<(String, ModuleRef)>,
    old_mods: Seq<(String, ModuleRef)>,
    sources: Sources,
)
    requires
        successes_from_sources(old_mods, sources),
        forall|k: int|
            0 <= k < new_mods.len() ==> ((#[trigger] new_mods[k].1) is Success ==> k
                < old_mods.len() && new_mods[k] == old_mods[k]),
    ensures
        successes_from_sources(new_mods, sources),
{
    assert forall|k: int|
        0 <= k < new_mods.len() && (#[trigger] new_mods[k].1) is Success implies exists|i: int|
        0 <= i < sources.files@.len() && (#[trigger] sources.files@[i]).path@ == new_mods[k].0@
            && sources.files@[i].root is Some by {
        assert(new_mods[k] == old_mods[k]);
        assert(old_mods[k].1 is Success);
    }
}

/// Every diagnostic is one the parser collaborator produced for some source
/// file: the enumeration pass carries parser diagnostics through and emits
/// none of its own on a successful run.
pub open spec fn diags_from_sources(diags: Seq<Diagnostic>, sources: Sources) -> bool {
    forall|d: int|
        0 <= d < diags.len() ==> exists|i: int, k: int|
            0 <= i < sources.files@.len() && 0 <= k < sources.files@[i].diagnostics@.len() && (
            #[trigger] diags[d]) == #[trigger] sources.files@[i].diagnostics@[k]
}

/// Whether some diagnostic is at level `Fatal`.
pub open spec fn spec_has_fatal(diags: Seq<Diagnostic>) -> bool {
    exists|i: int| 0 <= i < diags.len() && (#[trigger] diags[i]).level == DiagnosticLevel::Fatal
}

/// The running state of the enumeration pass.
pub struct EnumerationProcess {
    pub main_module_path: String,
    pub module_queue: Vec<String>,
    pub modules: Vec<(String, ModuleRef)>,
    pub namespaces: Vec<Namespace>,
    pub declarations: Vec<NsDeclaration>,
    pub pure_forwards: Vec<PureForward>,
    pub diagnostics: Vec<Diagnostic>,
    pub source_paths: Vec<String>,
}

impl EnumerationProcess {
    /// The pass invariant: registries stay well-formed while the graph is
    /// walked.
    pub open spec fn inv(&self) -> bool {
        &&& module_paths_unique(self.modules@)
        &&& namespaces_wf(self.namespaces@)
        &&& modules_wf(self.modules@, self.namespaces@.len() as nat, self.declarations@)
        &&& declarations_wf(self.declarations@, self.namespaces@.len() as nat)
        &&& forall|i: int|
            0 <= i < self.namespaces@.len() ==> {
                &&& table_not_resolved(#[trigger] self.namespaces@[i].locals@)
                &&& table_not_resolved(self.namespaces@[i].exports@)
                &&& table_refs_wf(self.namespaces@[i].locals@, self.declarations@.len() as nat)
                &&& table_refs_wf(self.namespaces@[i].exports@, self.declarations@.len() as nat)
            }
        &&& crate::namespace::nested_links_wf(self.namespaces@, self.declarations@)
        &&& forall|p: int|
            0 <= p < self.pure_forwards@.len() ==> (#[trigger] self.pure_forwards@[p]).forward_namespace
                < self.namespaces@.len()
    }

    /// The entry module's bookkeeping: it is registered, and it is queued
    /// exactly once until the round that parses it records `Success`.
    pub open spec fn main_entry_ok(&self) -> bool {
        &&& has_module(self.modules@, self.main_module_path@)
        &&& {
            let k = module_index_of(self.modules@, self.main_module_path@);
            if self.modules@[k].1 is Success {
                count_path(self.module_queue@, self.main_module_path@) == 0
            } else {
                count_path(self.module_queue@, self.main_module_path@) == 1
            }
        }
    }

    /// Work still pending: unregistered module files plus queued paths. Every
    /// step of the pass lowers this measure or leaves it unchanged, and each
    /// queue round lowers it strictly.
    pub open spec fn pending(&self) -> nat {
        num_unregistered(self.source_paths.deep_view(), self.modules@)
            + self.module_queue@.len()
    }

    fn new(main_module_path: String, source_paths: Vec<String>) -> (r: EnumerationProcess)
        ensures
            r.inv(),
            r.main_module_path == main_module_path,
            r.module_queue@.len() == 1,
            r.module_queue@[0]@ == main_module_path@,
            r.modules@.len() == 1,
            r.modules@[0].0@ == main_module_path@,
            r.modules@[0].1 == (ModuleRef::Referenced { fully_resolved: false }),
            has_module(r.modules@, main_module_path@),
            r.main_entry_ok(),
            r.namespaces@.len() == 0,
            r.declarations@.len() == 0,
            r.pure_forwards@.len() == 0,
            r.diagnostics@.len() == 0,
            r.source_paths == source_paths,
    {
        let queue_seed = main_module_path.clone();
        let registry_seed = main_module_path.clone();
        let mut module_queue: Vec<String> = Vec::new();
        module_queue.push(queue_seed);
        let mut modules: Vec<(String, ModuleRef)> = Vec::new();
        modules.push((registry_seed, ModuleRef::Referenced { fully_resolved: false }));
        let r = EnumerationProcess {
            main_module_path,
            module_queue,
            modules,
            namespaces: Vec::new(),
            declarations: Vec::new(),
            pure_forwards: Vec::new(),
            diagnostics: Vec::new(),
            source_paths,
        };
        proof {
            assert(r.modules@[0].0@ == r.main_module_path@);
            assert(r.main_entry_ok()) by {
                lemma_module_index_stable(r.modules@, r.main_module_path@, 0);
                assert(r.module_queue@.drop_last() =~= Seq::<String>::empty());
                assert(count_path(r.module_queue@.drop_last(), r.main_module_path@) == 0);
                assert(r.module_queue@.last() == r.module_queue@[0]);
                assert(r.module_queue@.last()@ == r.main_module_path@);
                assert(count_path(r.module_queue@, r.main_module_path@) == 1);
            }
        }
        r
    }

    /// Register a referenced module and enqueue it for enumeration; a path
    /// already known is left exactly as it is.
    fn add_referenced_module(&mut self, path: String)
        requires
            old(self).inv(),
        ensures
            final(self).inv(),
            (final(self).modules@, final(self).module_queue@) == spec_register(
                old(self).modules@,
                old(self).module_queue@,
                path,
            ),
            final(self).namespaces == old(self).namespaces,
            final(self).declarations == old(self).declarations,
            final(self).pure_forwards == old(self).pure_forwards,
            final(self).diagnostics == old(self).diagnostics,
            final(self).source_paths == old(self).source_paths,
            final(self).main_module_path == old(self).main_module_path,
            forall|q: Seq<char>|
                has_module(old(self).modules@, q) ==> has_module(final(self).modules@, q),
            old(self).main_entry_ok() ==> final(self).main_entry_ok(),
            forall|k: int|
                0 <= k < final(self).modules@.len() ==> ((#[trigger] final(self).modules@[k].1)
                    is Success ==> k < old(self).modules@.len() && final(self).modules@[k]
                    == old(self).modules@[k]),
            file_exists(old(self).source_paths.deep_view(), path@) ==> final(self).pending() <= old(
                self,
            ).pending(),
    {
        let present = find_module(&self.modules, &path);
        if present.is_none() {
            let ghost pre = self.modules@;
            let queued = path.clone();
            self.modules.push((path, ModuleRef::Referenced { fully_resolved: false }));
            self.module_queue.push(queued);
            proof {
                let entry = self.modules@.last();
                assert(self.modules@ == pre.push(entry));
                lemma_unreg_push(self.source_paths.deep_view(), pre, entry);
                lemma_has_module_push(pre, entry);
                assert(module_paths_unique(self.modules@)) by {
                    assert forall|i: int, j: int|
                        0 <= i < j < self.modules@.len() implies self.modules@[i].0@
                        != self.modules@[j].0@ by {
                        if j < pre.len() {
                            assert(self.modules@[i] == pre[i] && self.modules@[j] == pre[j]);
                        } else {
                            assert(self.modules@[i] == pre[i]);
                            if pre[i].0@ == entry.0@ {
                                assert(has_module(pre, entry.0@));
                            }
                        }
                    }
                }
                assert(modules_wf(
                    self.modules@,
                    self.namespaces@.len() as nat,
                    self.declarations@,
                )) by {
                    assert forall|k: int|
                        0 <= k < self.modules@.len() implies (#[trigger] self.modules@[k].1 matches
                    ModuleRef::Success { namespace_id, .. } ==> namespace_id
                        < self.namespaces@.len() && has_namespace_decl(
                        self.declarations@,
                        namespace_id,
                    )) by {
                        if k < pre.len() {
                            assert(self.modules@[k] == pre[k]);
                        }
                    }
                }
                if old(self).main_entry_ok() {
                    let main = self.main_module_path@;
                    let k = module_index_of(pre, main);
                    assert(pre[k].0@ == main);
                    assert(entry.0@ != main) by {
                        if entry.0@ == main {
                            assert(has_module(pre, entry.0@));
                        }
                    }
                    assert(self.modules@[k] == pre[k]);
                    lemma_module_index_stable(self.modules@, main, k);
                    lemma_count_path_push(
                        old(self).module_queue@,
                        self.module_queue@.last(),
                        main,
                    );
                    assert(self.module_queue@ == old(self).module_queue@.push(
                        self.module_queue@.last(),
                    ));
                    assert(self.module_queue@.last()@ == entry.0@);
                }
            }
        }
    }

    /// Record a failed module: `NotFound` when the file does not exist,
    /// `Unparsed` when it exists but could not be parsed. A module already
    /// recorded as successful is never overwritten.
    fn set_failed_module(&mut self, path: &String, not_found: bool)
        requires
            old(self).inv(),
        ensures
            final(self).inv(),
            final(self).namespaces == old(self).namespaces,
            final(self).declarations == old(self).declarations,
            final(self).pure_forwards == old(self).pure_forwards,
            final(self).diagnostics == old(self).diagnostics,
            final(self).source_paths == old(self).source_paths,
            final(self).main_module_path == old(self).main_module_path,
            final(self).module_queue == old(self).module_queue,
            forall|q: Seq<char>|
                has_module(old(self).modules@, q) ==> has_module(final(self).modules@, q),
            old(self).main_entry_ok() ==> final(self).main_entry_ok(),
            forall|k: int|
                0 <= k < final(self).modules@.len() ==> ((#[trigger] final(self).modules@[k].1)
                    is Success ==> k < old(self).modules@.len() && final(self).modules@[k]
                    == old(self).modules@[k]),
            final(self).pending() <= old(self).pending(),
    {
        let ghost main = old(self).main_module_path@;
        let status = if not_found {
            ModuleRef::NotFound { fully_resolved: true }
        } else {
            ModuleRef::Unparsed { fully_resolved: true }
        };
        let present = find_module(&self.modules, path);
        match present {
            Some(k) => {
                let overwrite = match self.modules[k].1 {
                    ModuleRef::Success { .. } => false,
                    _ => true,
                };
                if overwrite {
                    let ghost pre = self.modules@;
                    let entry = &mut self.modules[k];
                    entry.1 = status;
                    proof {
                        assert(self.modules@ == pre.update(k as int, self.modules@[k as int]));
                        assert(self.modules@[k as int].0 == pre[k as int].0);
                        lemma_unreg_update(
                            self.source_paths.deep_view(),
                            pre,
                            k as int,
                            self.modules@[k as int],
                        );
                        lemma_has_module_update(pre, k as int, self.modules@[k as int]);
                        assert(module_paths_unique(self.modules@)) by {
                            assert forall|i: int, j: int|
                                0 <= i < j < self.modules@.len() implies self.modules@[i].0@
                                != self.modules@[j].0@ by {
                                assert(self.modules@[i].0 == pre[i].0);
                                assert(self.modules@[j].0 == pre[j].0);
                            }
                        }
                        assert(modules_wf(
                            self.modules@,
                            self.namespaces@.len() as nat,
                            self.declarations@,
                        )) by {
                            assert forall|k2: int|
                                0 <= k2 < self.modules@.len() implies (
                            #[trigger] self.modules@[k2].1 matches ModuleRef::Success {
                                namespace_id,
                                ..
                            } ==> namespace_id < self.namespaces@.len() && has_namespace_decl(
                                self.declarations@,
                                namespace_id,
                            )) by {
                                if k2 != k as int {
                                    assert(self.modules@[k2] == pre[k2]);
                                }
                            }
                        }
                        if old(self).main_entry_ok() {
                            let km = module_index_of(pre, main);
                            assert(pre[km].0@ == main);
                            assert(self.modules@[km].0@ == main);
                            lemma_module_index_stable(self.modules@, main, km);
                            if km == k as int {
                                // the entry was not successful and stays so
                                assert(!(pre[km].1 is Success));
                                assert(!(self.modules@[km].1 is Success));
                            } else {
                                assert(self.modules@[km] == pre[km]);
                            }
                        }
                    }
                }
            },
            None => {
                let ghost pre = self.modules@;
                self.modules.push((path.clone(), status));
                proof {
                    let entry = self.modules@.last();
                    assert(self.modules@ == pre.push(entry));
                    lemma_unreg_push(self.source_paths.deep_view(), pre, entry);
                    lemma_has_module_push(pre, entry);
                    assert(module_paths_unique(self.modules@)) by {
                        assert forall|i: int, j: int|
                            0 <= i < j < self.modules@.len() implies self.modules@[i].0@
                            != self.modules@[j].0@ by {
                            if j < pre.len() {
                                assert(self.modules@[i] == pre[i] && self.modules@[j] == pre[j]);
                            } else {
                                assert(self.modules@[i] == pre[i]);
                                if pre[i].0@ == entry.0@ {
                                    assert(has_module(pre, entry.0@));
                                }
                            }
                        }
                    }
                    assert(modules_wf(
                        self.modules@,
                        self.namespaces@.len() as nat,
                        self.declarations@,
                    )) by {
                        assert forall|k2: int|
                            0 <= k2 < self.modules@.len() implies (#[trigger] self.modules@[k2].1
                        matches ModuleRef::Success { namespace_id, .. } ==> namespace_id
                            < self.namespaces@.len() && has_namespace_decl(
                            self.declarations@,
                            namespace_id,
                        )) by {
                            if k2 < pre.len() {
                                assert(self.modules@[k2] == pre[k2]);
                            }
                        }
                    }
                    if old(self).main_entry_ok() {
                        let km = module_index_of(pre, main);
                        assert(pre[km].0@ == main);
                        assert(entry.0@ != main) by {
                            if entry.0@ == main {
                                assert(has_module(pre, entry.0@));
                            }
                        }
                        assert(self.modules@[km] == pre[km]);
                        lemma_module_index_stable(self.modules@, main, km);
                    }
                }
            },
        }
    }

    /// Record a successfully parsed module: allocate its namespace and its
    /// root namespace declaration, and mark the module `Success`.
    fn set_successful_module(&mut self, path: &String) -> (nsid: usize)
        requires
            old(self).inv(),
        ensures
            final(self).inv(),
            nsid == old(self).namespaces@.len(),
            final(self).namespaces@.len() == old(self).namespaces@.len() + 1,
            final(self).namespaces@.drop_last() == old(self).namespaces@,
            final(self).declarations@.len() == old(self).declarations@.len() + 1,
            final(self).declarations@.drop_last() == old(self).declarations@,
            final(self).pure_forwards == old(self).pure_forwards,
            final(self).diagnostics == old(self).diagnostics,
            final(self).source_paths == old(self).source_paths,
            final(self).main_module_path == old(self).main_module_path,
            final(self).module_queue == old(self).module_queue,
            forall|q: Seq<char>|
                has_module(old(self).modules@, q) ==> has_module(final(self).modules@, q),
            entry_parsed(final(self).modules@, path@),
            final(self).modules@[module_index_of(final(self).modules@, path@)].1 == (
            ModuleRef::Success { namespace_id: nsid, fully_resolved: false }),
            old(self).main_entry_ok() && old(self).main_module_path@ != path@ ==> {
                final(self).main_entry_ok()
            },
            forall|k: int|
                0 <= k < final(self).modules@.len() ==> ((#[trigger] final(self).modules@[k].1)
                    is Success ==> (k < old(self).modules@.len() && final(self).modules@[k]
                    == old(self).modules@[k]) || final(self).modules@[k].0@ == path@),
            final(self).pending() <= old(self).pending(),
    {
        let ghost main = old(self).main_module_path@;
        let nsid = self.namespaces.len();
        let did = self.declarations.len();
        let ghost pre_ns = self.namespaces@;
        let ghost pre_decls = self.declarations@;
        self.namespaces.push(Namespace::new_module(nsid, path.clone()));
        self.declarations.push(
            NsDeclaration::Namespace { declaration_id: did, namespace_id: nsid },
        );
        proof {
            assert(self.namespaces@.drop_last() == pre_ns);
            assert(self.declarations@.drop_last() == pre_decls);
            assert(namespaces_wf(self.namespaces@)) by {
                assert forall|i: int|
                    0 <= i < self.namespaces@.len() implies (#[trigger] self.namespaces@[i]).wf()
                    && self.namespaces@[i].namespace_id == i by {
                    if i < pre_ns.len() {
                        assert(self.namespaces@[i] == pre_ns[i]);
                    }
                }
            }
            assert(declarations_wf(self.declarations@, self.namespaces@.len() as nat)) by {
                assert forall|d: int|
                    0 <= d < self.declarations@.len() implies spec_declaration_id(
                    #[trigger] self.declarations@[d],
                ) == d && (self.declarations@[d] matches NsDeclaration::Namespace {
                    namespace_id,
                    ..
                } ==> namespace_id < self.namespaces@.len()) by {
                    if d < pre_decls.len() {
                        assert(self.declarations@[d] == pre_decls[d]);
                    }
                }
            }
        }
        let present = find_module(&self.modules, path);
        let status = ModuleRef::Success { namespace_id: nsid, fully_resolved: false };
        match present {
            Some(k) => {
                let ghost pre = self.modules@;
                let entry = &mut self.modules[k];
                entry.1 = status;
                proof {
                    assert(self.modules@ == pre.update(k as int, self.modules@[k as int]));
                    assert(self.modules@[k as int].0 == pre[k as int].0);
                    lemma_unreg_update(
                        self.source_paths.deep_view(),
                        pre,
                        k as int,
                        self.modules@[k as int],
                    );
                    lemma_has_module_update(pre, k as int, self.modules@[k as int]);
                    assert(module_paths_unique(self.modules@)) by {
                        assert forall|i: int, j: int|
                            0 <= i < j < self.modules@.len() implies self.modules@[i].0@
                            != self.modules@[j].0@ by {
                            assert(self.modules@[i].0 == pre[i].0);
                            assert(self.modules@[j].0 == pre[j].0);
                        }
                    }
                    self.lemma_modules_wf_after_ns_push(pre, pre_ns, pre_decls, Some(k as int), nsid);
                    assert(self.modules@[k as int].0@ == path@);
                    lemma_module_index_stable(self.modules@, path@, k as int);
                    if old(self).main_entry_ok() && main != path@ {
                        let km = module_index_of(pre, main);
                        assert(pre[km].0@ == main);
                        assert(self.modules@[km].0@ == main);
                        lemma_module_index_stable(self.modules@, main, km);
                        assert(km != k as int);
                        assert(self.modules@[km] == pre[km]);
                    }
                }
            },
            None => {
                let ghost pre = self.modules@;
                self.modules.push((path.clone(), status));
                proof {
                    let entry = self.modules@.last();
                    assert(self.modules@ == pre.push(entry));
                    lemma_unreg_push(self.source_paths.deep_view(), pre, entry);
                    lemma_has_module_push(pre, entry);
                    assert(module_paths_unique(self.modules@)) by {
                        assert forall|i: int, j: int|
                            0 <= i < j < self.modules@.len() implies self.modules@[i].0@
                            != self.modules@[j].0@ by {
                            if j < pre.len() {
                                assert(self.modules@[i] == pre[i] && self.modules@[j] == pre[j]);
                            } else {
                                assert(self.modules@[i] == pre[i]);
                                if pre[i].0@ == entry.0@ {
                                    assert(has_module(pre, entry.0@));
                                }
                            }
                        }
                    }
                    self.lemma_modules_wf_after_ns_push(
                        pre,
                        pre_ns,
                        pre_decls,
                        None,
                        nsid,
                    );
                    assert(entry.0@ == path@);
                    lemma_module_index_stable(self.modules@, path@, self.modules@.len() - 1);
                    if old(self).main_entry_ok() && main != path@ {
                        let km = module_index_of(pre, main);
                        assert(pre[km].0@ == main);
                        assert(self.modules@[km] == pre[km]);
                        lemma_module_index_stable(self.modules@, main, km);
                    }
                }
            },
        }
        proof {
            assert forall|i: int|
                0 <= i < self.namespaces@.len() implies {
                &&& table_not_resolved(#[trigger] self.namespaces@[i].locals@)
                &&& table_not_resolved(self.namespaces@[i].exports@)
                &&& table_refs_wf(self.namespaces@[i].locals@, self.declarations@.len() as nat)
                &&& table_refs_wf(self.namespaces@[i].exports@, self.declarations@.len() as nat)
            } by {
                if i < pre_ns.len() {
                    assert(self.namespaces@[i] == pre_ns[i]);
                    assert(table_refs_wf(pre_ns[i].locals@, pre_decls.len() as nat));
                    crate::namespace::lemma_table_refs_wf_grow(
                        pre_ns[i].locals@,
                        pre_decls.len() as nat,
                        self.declarations@.len() as nat,
                    );
                    crate::namespace::lemma_table_refs_wf_grow(
                        pre_ns[i].exports@,
                        pre_decls.len() as nat,
                        self.declarations@.len() as nat,
                    );
                }
            }
        }
        nsid
    }

    /// The state after one namespace's tables changed still satisfies the
    /// pass invariant, provided the changed namespace kept its identity and
    /// its new tables are well-formed.
    proof fn lemma_inv_one_table_changed(&self, pre_ns: Seq<Namespace>, nsid: usize)
        requires
            0 <= nsid < pre_ns.len(),
            self.namespaces@.len() == pre_ns.len(),
            forall|i: int| 0 <= i < pre_ns.len() && i != nsid ==> self.namespaces@[i] == pre_ns[i],
            self.namespaces@[nsid as int].namespace_id == pre_ns[nsid as int].namespace_id,
            namespaces_wf(pre_ns),
            forall|i: int|
                0 <= i < pre_ns.len() ==> {
                    &&& table_not_resolved(#[trigger] pre_ns[i].locals@)
                    &&& table_not_resolved(pre_ns[i].exports@)
                    &&& table_refs_wf(pre_ns[i].locals@, self.declarations@.len() as nat)
                    &&& table_refs_wf(pre_ns[i].exports@, self.declarations@.len() as nat)
                },
            self.namespaces@[nsid as int].wf(),
            table_not_resolved(self.namespaces@[nsid as int].locals@),
            table_not_resolved(self.namespaces@[nsid as int].exports@),
            table_refs_wf(self.namespaces@[nsid as int].locals@, self.declarations@.len() as nat),
            table_refs_wf(self.namespaces@[nsid as int].exports@, self.declarations@.len() as nat),
        ensures
            namespaces_wf(self.namespaces@),
            forall|i: int|
                0 <= i < self.namespaces@.len() ==> {
                    &&& table_not_resolved(#[trigger] self.namespaces@[i].locals@)
                    &&& table_not_resolved(self.namespaces@[i].exports@)
                    &&& table_refs_wf(self.namespaces@[i].locals@, self.declarations@.len() as nat)
                    &&& table_refs_wf(self.namespaces@[i].exports@, self.declarations@.len() as nat)
                },
    {
        assert forall|i: int|
            0 <= i < self.namespaces@.len() implies (#[trigger] self.namespaces@[i]).wf()
            && self.namespaces@[i].namespace_id == i by {
            if i != nsid as int {
                assert(self.namespaces@[i] == pre_ns[i]);
            }
        }
        assert forall|i: int|
            0 <= i < self.namespaces@.len() implies {
            &&& table_not_resolved(#[trigger] self.namespaces@[i].locals@)
            &&& table_not_resolved(self.namespaces@[i].exports@)
            &&& table_refs_wf(self.namespaces@[i].locals@, self.declarations@.len() as nat)
            &&& table_refs_wf(self.namespaces@[i].exports@, self.declarations@.len() as nat)
        } by {
            if i != nsid as int {
                assert(self.namespaces@[i] == pre_ns[i]);
            }
        }
    }

    /// Push a dependency onto the local target of `name` in namespace `nsid`.
    fn add_local_dependency(&mut self, nsid: usize, name: &String, dep: Dependency)
        requires
            old(self).inv(),
            nsid < old(self).namespaces@.len(),
        ensures
            final(self).inv(),
            final(self).namespaces@.len() == old(self).namespaces@.len(),
            final(self).modules == old(self).modules,
            final(self).module_queue == old(self).module_queue,
            final(self).declarations == old(self).declarations,
            final(self).pure_forwards == old(self).pure_forwards,
            final(self).diagnostics == old(self).diagnostics,
            final(self).source_paths == old(self).source_paths,
            final(self).main_module_path == old(self).main_module_path,
            final(self).pending() == old(self).pending(),
    {
        let ghost pre_ns = self.namespaces@;
        let namespace = &mut self.namespaces[nsid];
        add_dep_to(&mut namespace.locals, name, dep);
        proof {
            assert(table_refs_wf(pre_ns[nsid as int].locals@, self.declarations@.len() as nat));
            self.lemma_inv_one_table_changed(pre_ns, nsid);
        }
    }

    /// Push a dependency onto the export target of `name` in namespace `nsid`.
    fn add_export_dependency(&mut self, nsid: usize, name: &String, dep: Dependency)
        requires
            old(self).inv(),
            nsid < old(self).namespaces@.len(),
        ensures
            final(self).inv(),
            final(self).namespaces@.len() == old(self).namespaces@.len(),
            final(self).modules == old(self).modules,
            final(self).module_queue == old(self).module_queue,
            final(self).declarations == old(self).declarations,
            final(self).pure_forwards == old(self).pure_forwards,
            final(self).diagnostics == old(self).diagnostics,
            final(self).source_paths == old(self).source_paths,
            final(self).main_module_path == old(self).main_module_path,
            final(self).pending() == old(self).pending(),
    {
        let ghost pre_ns = self.namespaces@;
        let namespace = &mut self.namespaces[nsid];
        add_dep_to(&mut namespace.exports, name, dep);
        proof {
            assert(table_refs_wf(pre_ns[nsid as int].exports@, self.declarations@.len() as nat));
            self.lemma_inv_one_table_changed(pre_ns, nsid);
        }
    }

    /// Record a direct reference to a local declaration under `name` in the
    /// locals of namespace `nsid`.
    fn add_local_declaration(&mut self, nsid: usize, name: &String, declaration_id: usize)
        requires
            old(self).inv(),
            nsid < old(self).namespaces@.len(),
            declaration_id < old(self).declarations@.len(),
        ensures
            final(self).inv(),
            final(self).namespaces@.len() == old(self).namespaces@.len(),
            final(self).modules == old(self).modules,
            final(self).module_queue == old(self).module_queue,
            final(self).declarations == old(self).declarations,
            final(self).pure_forwards == old(self).pure_forwards,
            final(self).diagnostics == old(self).diagnostics,
            final(self).source_paths == old(self).source_paths,
            final(self).main_module_path == old(self).main_module_path,
            final(self).pending() == old(self).pending(),
    {
        let ghost pre_ns = self.namespaces@;
        let reference = Reference::LocalDeclaration { resolved_declaration_id: declaration_id };
        let namespace = &mut self.namespaces[nsid];
        add_ref_to(&mut namespace.locals, name, reference);
        proof {
            assert(table_refs_wf(pre_ns[nsid as int].locals@, self.declarations@.len() as nat));
            self.lemma_inv_one_table_changed(pre_ns, nsid);
        }
    }

    /// Record a direct reference to a local declaration under `name` in the
    /// exports of namespace `nsid`.
    fn add_exported_declaration(&mut self, nsid: usize, name: &String, declaration_id: usize)
        requires
            old(self).inv(),
            nsid < old(self).namespaces@.len(),
            declaration_id < old(self).declarations@.len(),
        ensures
            final(self).inv(),
            final(self).namespaces@.len() == old(self).namespaces@.len(),
            final(self).modules == old(self).modules,
            final(self).module_queue == old(self).module_queue,
            final(self).declarations == old(self).declarations,
            final(self).pure_forwards == old(self).pure_forwards,
            final(self).diagnostics == old(self).diagnostics,
            final(self).source_paths == old(self).source_paths,
            final(self).main_module_path == old(self).main_module_path,
            final(self).pending() == old(self).pending(),
    {
        let ghost pre_ns = self.namespaces@;
        let reference = Reference::LocalDeclaration { resolved_declaration_id: declaration_id };
        let namespace = &mut self.namespaces[nsid];
        add_ref_to(&mut namespace.exports, name, reference);
        proof {
            assert(table_refs_wf(pre_ns[nsid as int].exports@, self.declarations@.len() as nat));
            self.lemma_inv_one_table_changed(pre_ns, nsid);
        }
    }

    /// Allocate a non-namespace declaration in the arena.
    fn push_simple_declaration(&mut self, d: NsDeclaration) -> (did: usize)
        requires
            old(self).inv(),
            spec_declaration_id(d) == old(self).declarations@.len(),
            !(d is Namespace),
        ensures
            final(self).inv(),
            did == old(self).declarations@.len(),
            final(self).declarations@.len() == old(self).declarations@.len() + 1,
            final(self).namespaces == old(self).namespaces,
            final(self).modules == old(self).modules,
            final(self).module_queue == old(self).module_queue,
            final(self).pure_forwards == old(self).pure_forwards,
            final(self).diagnostics == old(self).diagnostics,
            final(self).source_paths == old(self).source_paths,
            final(self).main_module_path == old(self).main_module_path,
            final(self).pending() == old(self).pending(),
    {
        let did = self.declarations.len();
        let ghost pre_decls = self.declarations@;
        self.declarations.push(d);
        proof {
            self.lemma_links_decls_grew(pre_decls);
            self.lemma_inv_decls_grew(pre_decls);
        }
        did
    }

    /// Growing the declaration arena keeps every nested namespace's link: the
    /// owning declarations sit in the unchanged prefix.
    proof fn lemma_links_decls_grew(&self, pre_decls: Seq<NsDeclaration>)
        requires
            crate::namespace::nested_links_wf(self.namespaces@, pre_decls),
            self.declarations@.len() >= pre_decls.len(),
            forall|d: int| 0 <= d < pre_decls.len() ==> self.declarations@[d] == pre_decls[d],
        ensures
            crate::namespace::nested_links_wf(self.namespaces@, self.declarations@),
    {
        assert forall|i: int|
            0 <= i < self.namespaces@.len() implies ((#[trigger] self.namespaces@[i]).kind matches
        crate::namespace::NamespaceKind::Nested {
            parent_namespace_id,
            declaration_id,
        } ==> parent_namespace_id < self.namespaces@.len() && declaration_id
            < self.declarations@.len() && (self.declarations@[declaration_id as int] matches
        NsDeclaration::Namespace { namespace_id, .. } && namespace_id == i)) by {
            if self.namespaces@[i].kind is Nested {
                let d2 = self.namespaces@[i].kind->Nested_declaration_id;
                assert(self.declarations@[d2 as int] == pre_decls[d2 as int]);
            }
        }
    }

    /// The pass invariant survives appending well-formed declarations: ids
    /// stay dense, successful modules keep their namespace declarations, and
    /// recorded references stay within the larger arena.
    proof fn lemma_inv_decls_grew(&self, pre_decls: Seq<NsDeclaration>)
        requires
            module_paths_unique(self.modules@),
            namespaces_wf(self.namespaces@),
            modules_wf(self.modules@, self.namespaces@.len() as nat, pre_decls),
            declarations_wf(pre_decls, self.namespaces@.len() as nat),
            forall|i: int|
                0 <= i < self.namespaces@.len() ==> {
                    &&& table_not_resolved(#[trigger] self.namespaces@[i].locals@)
                    &&& table_not_resolved(self.namespaces@[i].exports@)
                    &&& table_refs_wf(self.namespaces@[i].locals@, pre_decls.len() as nat)
                    &&& table_refs_wf(self.namespaces@[i].exports@, pre_decls.len() as nat)
                },
            forall|p: int|
                0 <= p < self.pure_forwards@.len() ==> (#[trigger] self.pure_forwards@[p]).forward_namespace
                    < self.namespaces@.len(),
            self.declarations@.len() >= pre_decls.len(),
            forall|d: int| 0 <= d < pre_decls.len() ==> self.declarations@[d] == pre_decls[d],
            forall|d: int|
                pre_decls.len() <= d < self.declarations@.len() ==> spec_declaration_id(
                    #[trigger] self.declarations@[d],
                ) == d && (self.declarations@[d] matches NsDeclaration::Namespace {
                    namespace_id,
                    ..
                } ==> namespace_id < self.namespaces@.len()),
            crate::namespace::nested_links_wf(self.namespaces@, self.declarations@),
        ensures
            self.inv(),
    {
        assert(declarations_wf(self.declarations@, self.namespaces@.len() as nat)) by {
            assert forall|d: int|
                0 <= d < self.declarations@.len() implies spec_declaration_id(
                #[trigger] self.declarations@[d],
            ) == d && (self.declarations@[d] matches NsDeclaration::Namespace {
                namespace_id,
                ..
            } ==> namespace_id < self.namespaces@.len()) by {
                if d < pre_decls.len() {
                    assert(self.declarations@[d] == pre_decls[d]);
                }
            }
        }
        assert(modules_wf(self.modules@, self.namespaces@.len() as nat, self.declarations@)) by {
            assert forall|k: int|
                0 <= k < self.modules@.len() implies (#[trigger] self.modules@[k].1 matches
            ModuleRef::Success { namespace_id, .. } ==> namespace_id < self.namespaces@.len()
                && has_namespace_decl(self.declarations@, namespace_id)) by {
                if self.modules@[k].1 is Success {
                    let n2 = self.modules@[k].1->Success_namespace_id;
                    assert(has_namespace_decl(pre_decls, n2));
                    let d = choose|d: int|
                        0 <= d < pre_decls.len() && (#[trigger] pre_decls[d] matches
                        NsDeclaration::Namespace { namespace_id, .. } && namespace_id == n2);
                    assert(self.declarations@[d] == pre_decls[d]);
                    assert(has_namespace_decl(self.declarations@, n2));
                }
            }
        }
        assert forall|i: int|
            0 <= i < self.namespaces@.len() implies {
            &&& table_not_resolved(#[trigger] self.namespaces@[i].locals@)
            &&& table_not_resolved(self.namespaces@[i].exports@)
            &&& table_refs_wf(self.namespaces@[i].locals@, self.declarations@.len() as nat)
            &&& table_refs_wf(self.namespaces@[i].exports@, self.declarations@.len() as nat)
        } by {
            crate::namespace::lemma_table_refs_wf_grow(
                self.namespaces@[i].locals@,
                pre_decls.len() as nat,
                self.declarations@.len() as nat,
            );
            crate::namespace::lemma_table_refs_wf_grow(
                self.namespaces@[i].exports@,
                pre_decls.len() as nat,
                self.declarations@.len() as nat,
            );
        }
    }

    /// Allocate a nested namespace and the declaration that owns it; returns
    /// the new namespace id and declaration id.
    fn allocate_nested_namespace(&mut self, parent_nsid: usize) -> (r: (usize, usize))
        requires
            old(self).inv(),
            parent_nsid < old(self).namespaces@.len(),
        ensures
            final(self).inv(),
            r.0 == old(self).namespaces@.len(),
            r.1 == old(self).declarations@.len(),
            final(self).namespaces@.len() == old(self).namespaces@.len() + 1,
            final(self).declarations@.len() == old(self).declarations@.len() + 1,
            final(self).modules == old(self).modules,
            final(self).module_queue == old(self).module_queue,
            final(self).pure_forwards == old(self).pure_forwards,
            final(self).diagnostics == old(self).diagnostics,
            final(self).source_paths == old(self).source_paths,
            final(self).main_module_path == old(self).main_module_path,
            final(self).pending() == old(self).pending(),
    {
        let nsid = self.namespaces.len();
        let did = self.declarations.len();
        let ghost pre_ns = self.namespaces@;
        let ghost pre_decls = self.declarations@;
        self.namespaces.push(Namespace::new_nested(nsid, parent_nsid, did));
        self.declarations.push(
            NsDeclaration::Namespace { declaration_id: did, namespace_id: nsid },
        );
        proof {
            assert(namespaces_wf(self.namespaces@)) by {
                assert forall|i: int|
                    0 <= i < self.namespaces@.len() implies (#[trigger] self.namespaces@[i]).wf()
                    && self.namespaces@[i].namespace_id == i by {
                    if i < pre_ns.len() {
                        assert(self.namespaces@[i] == pre_ns[i]);
                    }
                }
            }
            assert forall|i: int|
                0 <= i < self.namespaces@.len() implies {
                &&& table_not_resolved(#[trigger] self.namespaces@[i].locals@)
                &&& table_not_resolved(self.namespaces@[i].exports@)
                &&& table_refs_wf(self.namespaces@[i].locals@, pre_decls.len() as nat)
                &&& table_refs_wf(self.namespaces@[i].exports@, pre_decls.len() as nat)
            } by {
                if i < pre_ns.len() {
                    assert(self.namespaces@[i] == pre_ns[i]);
                }
            }
            assert(modules_wf(self.modules@, self.namespaces@.len() as nat, pre_decls)) by {
                assert forall|k: int|
                    0 <= k < self.modules@.len() implies (#[trigger] self.modules@[k].1 matches
                ModuleRef::Success { namespace_id, .. } ==> namespace_id < self.namespaces@.len()
                    && has_namespace_decl(pre_decls, namespace_id)) by {}
            }
            assert(declarations_wf(pre_decls, self.namespaces@.len() as nat)) by {
                assert forall|d: int|
                    0 <= d < pre_decls.len() implies spec_declaration_id(#[trigger] pre_decls[d])
                    == d && (pre_decls[d] matches NsDeclaration::Namespace {
                    namespace_id,
                    ..
                } ==> namespace_id < self.namespaces@.len()) by {}
            }
            assert(forall|d: int|
                0 <= d < pre_decls.len() ==> self.declarations@[d] == pre_decls[d]);
            assert(crate::namespace::nested_links_wf(self.namespaces@, self.declarations@)) by {
                assert forall|i: int|
                    0 <= i < self.namespaces@.len() implies ((#[trigger] self.namespaces@[i]).kind
                    matches crate::namespace::NamespaceKind::Nested {
                    parent_namespace_id,
                    declaration_id,
                } ==> parent_namespace_id < self.namespaces@.len() && declaration_id
                    < self.declarations@.len() && (self.declarations@[declaration_id as int]
                    matches NsDeclaration::Namespace { namespace_id, .. } && namespace_id == i)) by {
                    if i < pre_ns.len() {
                        assert(self.namespaces@[i] == pre_ns[i]);
                        if self.namespaces@[i].kind is Nested {
                            let d2 = self.namespaces@[i].kind->Nested_declaration_id;
                            assert(self.declarations@[d2 as int] == pre_decls[d2 as int]);
                        }
                    } else {
                        assert(self.namespaces@[i].kind == (crate::namespace::NamespaceKind::Nested {
                            parent_namespace_id: parent_nsid,
                            declaration_id: did,
                        }));
                        assert(self.declarations@[did as int] == (NsDeclaration::Namespace {
                            declaration_id: did,
                            namespace_id: nsid,
                        }));
                    }
                }
            }
            self.lemma_inv_decls_grew(pre_decls);
        }
        (nsid, did)
    }

    /// After pushing a namespace and its root declaration and marking one
    /// module successful, every successful module still has its namespace
    /// declaration.
    proof fn lemma_modules_wf_after_ns_push(
        &self,
        pre_mods: Seq<(String, ModuleRef)>,
        pre_ns: Seq<Namespace>,
        pre_decls: Seq<NsDeclaration>,
        updated: Option<int>,
        nsid: usize,
    )
        requires
            modules_wf(pre_mods, pre_ns.len() as nat, pre_decls),
            self.namespaces@.len() == pre_ns.len() + 1,
            self.declarations@.len() == pre_decls.len() + 1,
            self.declarations@.drop_last() == pre_decls,
            nsid == pre_ns.len(),
            self.declarations@.last() matches NsDeclaration::Namespace { namespace_id, .. }
                && namespace_id == nsid,
            match updated {
                Some(k) => {
                    &&& 0 <= k < pre_mods.len()
                    &&& self.modules@.len() == pre_mods.len()
                    &&& forall|i: int| 0 <= i < pre_mods.len() && i != k ==> self.modules@[i] == pre_mods[i]
                    &&& self.modules@[k].1 matches ModuleRef::Success { namespace_id, .. }
                        && namespace_id == nsid
                },
                None => {
                    &&& self.modules@.len() == pre_mods.len() + 1
                    &&& forall|i: int| 0 <= i < pre_mods.len() ==> self.modules@[i] == pre_mods[i]
                    &&& self.modules@.last().1 matches ModuleRef::Success { namespace_id, .. }
                        && namespace_id == nsid
                },
            },
        ensures
            modules_wf(self.modules@, self.namespaces@.len() as nat, self.declarations@),
    {
        let n_new = self.declarations@.len() as int;
        assert(has_namespace_decl(self.declarations@, nsid)) by {
            assert(self.declarations@[n_new - 1] matches NsDeclaration::Namespace {
                namespace_id,
                ..
            } && namespace_id == nsid);
        }
        assert forall|k2: int|
            0 <= k2 < self.modules@.len() implies (#[trigger] self.modules@[k2].1 matches
        ModuleRef::Success { namespace_id, .. } ==> namespace_id < self.namespaces@.len()
            && has_namespace_decl(self.declarations@, namespace_id)) by {
            let changed = match updated {
                Some(k) => k2 == k,
                None => k2 == self.modules@.len() - 1,
            };
            if !changed {
                assert(self.modules@[k2] == pre_mods[k2]);
                if self.modules@[k2].1 is Success {
                    let n2 = self.modules@[k2].1->Success_namespace_id;
                    assert(has_namespace_decl(pre_decls, n2));
                    let d = choose|d: int|
                        0 <= d < pre_decls.len() && (#[trigger] pre_decls[d] matches
                        NsDeclaration::Namespace { namespace_id, .. } && namespace_id == n2);
                    assert(self.declarations@[d] == pre_decls[d]) by {
                        assert(self.declarations@.drop_last()[d] == self.declarations@[d]);
                    }
                    assert(has_namespace_decl(self.declarations@, n2));
                }
            }
        }
    }

    /// Record a pure forward for later graph analysis.
    fn add_pure_forward(&mut self, fwd: PureForward)
        requires
            old(self).inv(),
            fwd.forward_namespace < old(self).namespaces@.len(),
        ensures
            final(self).inv(),
            final(self).namespaces == old(self).namespaces,
            final(self).modules == old(self).modules,
            final(self).module_queue == old(self).module_queue,
            final(self).declarations == old(self).declarations,
            final(self).diagnostics == old(self).diagnostics,
            final(self).source_paths == old(self).source_paths,
            final(self).main_module_path == old(self).main_module_path,
            final(self).pending() == old(self).pending(),
    {
        let ghost pre_pf = self.pure_forwards@;
        self.pure_forwards.push(fwd);
        proof {
            assert forall|p: int|
                0 <= p < self.pure_forwards@.len() implies (#[trigger] self.pure_forwards@[p]).forward_namespace
                < self.namespaces@.len() by {
                if p < pre_pf.len() {
                    assert(self.pure_forwards@[p] == pre_pf[p]);
                }
            }
        }
    }

    /// Process one `import from "m": { ... }` node: resolve the module path,
    /// register the target module, and queue one dependency per imported name
    /// on the local target of its alias.
    fn handle_import(&mut self, node: &ImportDeclaration, nsid: usize, current_module: &String)
        requires
            old(self).inv(),
            nsid < old(self).namespaces@.len(),
        ensures
            final(self).inv(),
            final(self).namespaces@.len() >= old(self).namespaces@.len(),
            final(self).declarations@.len() >= old(self).declarations@.len(),
            final(self).pending() <= old(self).pending(),
            final(self).source_paths == old(self).source_paths,
            final(self).main_module_path == old(self).main_module_path,
            forall|q: Seq<char>|
                has_module(old(self).modules@, q) ==> has_module(final(self).modules@, q),
            old(self).main_entry_ok() ==> final(self).main_entry_ok(),
            forall|k: int|
                0 <= k < final(self).modules@.len() ==> ((#[trigger] final(self).modules@[k].1)
                    is Success ==> k < old(self).modules@.len() && final(self).modules@[k]
                    == old(self).modules@[k]),
            final(self).diagnostics == old(self).diagnostics,
    {
        let resolved = resolve_module(current_module, &node.module_name.image, &self.source_paths);
        let target: String;
        match resolved {
            Some(t) => {
                proof {
                    lemma_resolve_in_files(
                        current_module@,
                        node.module_name.image@,
                        self.source_paths.deep_view(),
                        t@,
                    );
                }
                target = t.clone();
                self.add_referenced_module(t);
            },
            None => {
                // keep the would-be path so the dangling reference surfaces later
                let t = unresolved_module_path(current_module, &node.module_name.image);
                self.set_failed_module(&t, true);
                target = t;
            },
        }
        let mut k: usize = 0;
        while k < node.imports.len()
            invariant
                self.inv(),
                nsid < self.namespaces@.len(),
                self.namespaces@.len() >= old(self).namespaces@.len(),
                self.declarations@.len() >= old(self).declarations@.len(),
                self.pending() <= old(self).pending(),
                self.source_paths == old(self).source_paths,
                self.main_module_path == old(self).main_module_path,
                forall|q: Seq<char>|
                    has_module(old(self).modules@, q) ==> has_module(self.modules@, q),
                old(self).main_entry_ok() ==> self.main_entry_ok(),
                forall|k: int|
                    0 <= k < self.modules@.len() ==> ((#[trigger] self.modules@[k].1) is Success
                        ==> k < old(self).modules@.len() && self.modules@[k] == old(self).modules@[k]),
                self.diagnostics == old(self).diagnostics,
                k <= node.imports@.len(),
            decreases node.imports@.len() - k,
        {
            let imp = &node.imports[k];
            let dep = if is_star(&imp.import_name.image) {
                Dependency::ImportedNamespace {
                    import_namespace: nsid,
                    import_name: imp.alias_name.duplicate(),
                    export_module: target.clone(),
                    export_module_location: node.module_name.location.duplicate(),
                    star_location: imp.import_name.location.duplicate(),
                }
            } else {
                Dependency::ImportedName {
                    import_namespace: nsid,
                    import_name: imp.alias_name.duplicate(),
                    export_module: target.clone(),
                    export_module_location: node.module_name.location.duplicate(),
                    export_name: imp.import_name.duplicate(),
                }
            };
            self.add_local_dependency(nsid, &imp.alias_name.image, dep);
            k = k + 1;
        }
    }

    /// Process one `export from "m": { ... }` node: resolve the module path,
    /// register the target module, and queue one dependency per forwarded
    /// name on the export target of its alias. A wildcard-to-wildcard entry
    /// becomes a pure forward instead.
    fn handle_forward(&mut self, node: &ExportForwardDeclaration, nsid: usize, current_module: &String)
        requires
            old(self).inv(),
            nsid < old(self).namespaces@.len(),
        ensures
            final(self).inv(),
            final(self).namespaces@.len() >= old(self).namespaces@.len(),
            final(self).declarations@.len() >= old(self).declarations@.len(),
            final(self).pending() <= old(self).pending(),
            final(self).source_paths == old(self).source_paths,
            final(self).main_module_path == old(self).main_module_path,
            forall|q: Seq<char>|
                has_module(old(self).modules@, q) ==> has_module(final(self).modules@, q),
            old(self).main_entry_ok() ==> final(self).main_entry_ok(),
            forall|k: int|
                0 <= k < final(self).modules@.len() ==> ((#[trigger] final(self).modules@[k].1)
                    is Success ==> k < old(self).modules@.len() && final(self).modules@[k]
                    == old(self).modules@[k]),
            final(self).diagnostics == old(self).diagnostics,
    {
        let resolved = resolve_module(current_module, &node.module_name.image, &self.source_paths);
        let target: String;
        match resolved {
            Some(t) => {
                proof {
                    lemma_resolve_in_files(
                        current_module@,
                        node.module_name.image@,
                        self.source_paths.deep_view(),
                        t@,
                    );
                }
                target = t.clone();
                self.add_referenced_module(t);
            },
            None => {
                let t = unresolved_module_path(current_module, &node.module_name.image);
                self.set_failed_module(&t, true);
                target = t;
            },
        }
        let mut k: usize = 0;
        while k < node.forwards.len()
            invariant
                self.inv(),
                nsid < self.namespaces@.len(),
                self.namespaces@.len() >= old(self).namespaces@.len(),
                self.declarations@.len() >= old(self).declarations@.len(),
                self.pending() <= old(self).pending(),
                self.source_paths == old(self).source_paths,
                self.main_module_path == old(self).main_module_path,
                forall|q: Seq<char>|
                    has_module(old(self).modules@, q) ==> has_module(self.modules@, q),
                old(self).main_entry_ok() ==> self.main_entry_ok(),
                forall|k: int|
                    0 <= k < self.modules@.len() ==> ((#[trigger] self.modules@[k].1) is Success
                        ==> k < old(self).modules@.len() && self.modules@[k] == old(self).modules@[k]),
                self.diagnostics == old(self).diagnostics,
                k <= node.forwards@.len(),
            decreases node.forwards@.len() - k,
        {
            let fwd = &node.forwards[k];
            if is_star(&fwd.import_name.image) {
                if is_star(&fwd.export_name.image) {
                    // export * from "m": a pure forward, analyzed graph-wide later
                    self.add_pure_forward(
                        PureForward {
                            forward_namespace: nsid,
                            export_module: target.clone(),
                            export_module_location: node.module_name.location.duplicate(),
                            star_location: fwd.export_name.location.duplicate(),
                        },
                    );
                } else {
                    let dep = Dependency::ForwardedNamespace {
                        forward_namespace: nsid,
                        forward_name: fwd.export_name.duplicate(),
                        export_module: target.clone(),
                        export_module_location: node.module_name.location.duplicate(),
                        star_location: fwd.import_name.location.duplicate(),
                    };
                    self.add_export_dependency(nsid, &fwd.export_name.image, dep);
                }
            } else {
                let dep = Dependency::ForwardedName {
                    forward_namespace: nsid,
                    forward_name: fwd.export_name.duplicate(),
                    export_module: target.clone(),
                    export_module_location: node.module_name.location.duplicate(),
                    export_name: fwd.import_name.duplicate(),
                };
                self.add_export_dependency(nsid, &fwd.export_name.image, dep);
            }
            k = k + 1;
        }
    }

    /// Process one `export ...` node: a named value becomes a dependency on
    /// the local name; an exported declaration is handled by the declaration
    /// handler, which records the export directly.
    fn handle_export(&mut self, node: &ExportDeclaration, nsid: usize, current_module: &String)
        requires
            old(self).inv(),
            nsid < old(self).namespaces@.len(),
        ensures
            final(self).inv(),
            final(self).namespaces@.len() >= old(self).namespaces@.len(),
            final(self).declarations@.len() >= old(self).declarations@.len(),
            final(self).pending() <= old(self).pending(),
            final(self).source_paths == old(self).source_paths,
            final(self).main_module_path == old(self).main_module_path,
            forall|q: Seq<char>|
                has_module(old(self).modules@, q) ==> has_module(final(self).modules@, q),
            old(self).main_entry_ok() ==> final(self).main_entry_ok(),
            forall|k: int|
                0 <= k < final(self).modules@.len() ==> ((#[trigger] final(self).modules@[k].1)
                    is Success ==> k < old(self).modules@.len() && final(self).modules@[k]
                    == old(self).modules@[k]),
            final(self).diagnostics == old(self).diagnostics,
        decreases *node,
    {
        let mut k: usize = 0;
        while k < node.exports.len()
            invariant
                self.inv(),
                nsid < self.namespaces@.len(),
                self.namespaces@.len() >= old(self).namespaces@.len(),
                self.declarations@.len() >= old(self).declarations@.len(),
                self.pending() <= old(self).pending(),
                self.source_paths == old(self).source_paths,
                self.main_module_path == old(self).main_module_path,
                forall|q: Seq<char>|
                    has_module(old(self).modules@, q) ==> has_module(self.modules@, q),
                old(self).main_entry_ok() ==> self.main_entry_ok(),
                forall|k: int|
                    0 <= k < self.modules@.len() ==> ((#[trigger] self.modules@[k].1) is Success
                        ==> k < old(self).modules@.len() && self.modules@[k] == old(self).modules@[k]),
                self.diagnostics == old(self).diagnostics,
                k <= node.exports@.len(),
            decreases node.exports@.len() - k,
        {
            let entry = &node.exports[k];
            proof {
                assert(decreases_to!(*node => node.exports));
                assert(decreases_to!(node.exports => node.exports@));
                assert(decreases_to!(node.exports@ => node.exports@[k as int]));
                assert(decreases_to!(node.exports@[k as int] => node.exports@[k as int].value));
                assert(decreases_to!(*node => node.exports@[k as int].value));
            }
            match &entry.value {
                ExportValue::Name(local) => {
                    let dep = Dependency::ExportedName {
                        namespace: nsid,
                        local_name: local.duplicate(),
                        export_name: entry.export_name.duplicate(),
                    };
                    self.add_export_dependency(nsid, &entry.export_name.image, dep);
                },
                ExportValue::Decl(d) => {
                    proof {
                        assert(*d == node.exports@[k as int].value->Decl_0);
                        assert(decreases_to!(node.exports@[k as int].value => *d));
                    }
                    self.handle_declaration(d, nsid, current_module, Some(&entry.export_name));
                },
                ExportValue::Anon(a) => {
                    proof {
                        assert(*a == node.exports@[k as int].value->Anon_0);
                        assert(decreases_to!(node.exports@[k as int].value => *a));
                    }
                    self.handle_anonymous(a, nsid, current_module, Some(&entry.export_name));
                },
            }
            k = k + 1;
        }
    }

    /// Process one named declaration: allocate its arena entry, record the
    /// direct local reference for its name, record the export reference when
    /// it stands inside an export, and recurse into a namespace body.
    fn handle_declaration(
        &mut self,
        node: &SyntaxDeclaration,
        nsid: usize,
        current_module: &String,
        containing_export: Option<&Token>,
    )
        requires
            old(self).inv(),
            nsid < old(self).namespaces@.len(),
        ensures
            final(self).inv(),
            final(self).namespaces@.len() >= old(self).namespaces@.len(),
            final(self).declarations@.len() >= old(self).declarations@.len(),
            final(self).pending() <= old(self).pending(),
            final(self).source_paths == old(self).source_paths,
            final(self).main_module_path == old(self).main_module_path,
            forall|q: Seq<char>|
                has_module(old(self).modules@, q) ==> has_module(final(self).modules@, q),
            old(self).main_entry_ok() ==> final(self).main_entry_ok(),
            forall|k: int|
                0 <= k < final(self).modules@.len() ==> ((#[trigger] final(self).modules@[k].1)
                    is Success ==> k < old(self).modules@.len() && final(self).modules@[k]
                    == old(self).modules@[k]),
            final(self).diagnostics == old(self).diagnostics,
        decreases *node,
    {
        match node {
            SyntaxDeclaration::Type(t) => {
                let did0 = self.declarations.len();
                let decl = NsDeclaration::Type {
                    declaration_id: did0,
                    name: Some(t.name.duplicate()),
                };
                let did = self.push_simple_declaration(decl);
                self.add_local_declaration(nsid, &t.name.image, did);
                if let Some(exp) = containing_export {
                    self.add_exported_declaration(nsid, &exp.image, did);
                }
            },
            SyntaxDeclaration::Function(f) => {
                let did0 = self.declarations.len();
                let decl = NsDeclaration::Function {
                    declaration_id: did0,
                    name: Some(f.name.duplicate()),
                };
                let did = self.push_simple_declaration(decl);
                self.add_local_declaration(nsid, &f.name.image, did);
                if let Some(exp) = containing_export {
                    self.add_exported_declaration(nsid, &exp.image, did);
                }
            },
            SyntaxDeclaration::Constant(c) => {
                let did0 = self.declarations.len();
                let decl = NsDeclaration::Constant {
                    declaration_id: did0,
                    name: Some(c.name.duplicate()),
                };
                let did = self.push_simple_declaration(decl);
                self.add_local_declaration(nsid, &c.name.image, did);
                if let Some(exp) = containing_export {
                    self.add_exported_declaration(nsid, &exp.image, did);
                }
            },
            SyntaxDeclaration::Namespace(n) => {
                let allocated = self.allocate_nested_namespace(nsid);
                let new_ns = allocated.0;
                let did = allocated.1;
                self.add_local_declaration(nsid, &n.name.image, did);
                if let Some(exp) = containing_export {
                    self.add_exported_declaration(nsid, &exp.image, did);
                }
                let mut k: usize = 0;
                while k < n.imports.len()
                    invariant
                        self.inv(),
                        new_ns < self.namespaces@.len(),
                        self.namespaces@.len() >= old(self).namespaces@.len(),
                        self.declarations@.len() >= old(self).declarations@.len(),
                        self.pending() <= old(self).pending(),
                        self.source_paths == old(self).source_paths,
                        self.main_module_path == old(self).main_module_path,
                        forall|q: Seq<char>|
                            has_module(old(self).modules@, q) ==> has_module(self.modules@, q),
                        old(self).main_entry_ok() ==> self.main_entry_ok(),
                        forall|k: int|
                            0 <= k < self.modules@.len() ==> ((#[trigger] self.modules@[k].1)
                                is Success ==> k < old(self).modules@.len() && self.modules@[k]
                                == old(self).modules@[k]),
                        self.diagnostics == old(self).diagnostics,
                        k <= n.imports@.len(),
                    decreases n.imports@.len() - k,
                {
                    self.handle_import(&n.imports[k], new_ns, current_module);
                    k = k + 1;
                }
                let mut j: usize = 0;
                while j < n.items.len()
                    invariant
                        self.inv(),
                        new_ns < self.namespaces@.len(),
                        self.namespaces@.len() >= old(self).namespaces@.len(),
                        self.declarations@.len() >= old(self).declarations@.len(),
                        self.pending() <= old(self).pending(),
                        self.source_paths == old(self).source_paths,
                        self.main_module_path == old(self).main_module_path,
                        forall|q: Seq<char>|
                            has_module(old(self).modules@, q) ==> has_module(self.modules@, q),
                        old(self).main_entry_ok() ==> self.main_entry_ok(),
                        forall|k: int|
                            0 <= k < self.modules@.len() ==> ((#[trigger] self.modules@[k].1)
                                is Success ==> k < old(self).modules@.len() && self.modules@[k]
                                == old(self).modules@[k]),
                        self.diagnostics == old(self).diagnostics,
                        j <= n.items@.len(),
                        node is Namespace,
                        *n == node->Namespace_0,
                    decreases n.items@.len() - j,
                {
                    proof {
                        assert(decreases_to!(*node => node->Namespace_0));
                        assert(decreases_to!(*n => n.items));
                        assert(decreases_to!(n.items => n.items@));
                        assert(decreases_to!(n.items@ => n.items@[j as int]));
                        assert(decreases_to!(*node => n.items@[j as int]));
                    }
                    self.handle_non_import(&n.items[j], new_ns, current_module);
                    j = j + 1;
                }
            },
        }
    }

    /// Process one anonymous declaration: it receives an arena entry and, if
    /// exported, an export reference, but registers no local name.
    fn handle_anonymous(
        &mut self,
        node: &AnonymousDeclaration,
        nsid: usize,
        current_module: &String,
        containing_export: Option<&Token>,
    )
        requires
            old(self).inv(),
            nsid < old(self).namespaces@.len(),
        ensures
            final(self).inv(),
            final(self).namespaces@.len() >= old(self).namespaces@.len(),
            final(self).declarations@.len() >= old(self).declarations@.len(),
            final(self).pending() <= old(self).pending(),
            final(self).source_paths == old(self).source_paths,
            final(self).main_module_path == old(self).main_module_path,
            forall|q: Seq<char>|
                has_module(old(self).modules@, q) ==> has_module(final(self).modules@, q),
            old(self).main_entry_ok() ==> final(self).main_entry_ok(),
            forall|k: int|
                0 <= k < final(self).modules@.len() ==> ((#[trigger] final(self).modules@[k].1)
                    is Success ==> k < old(self).modules@.len() && final(self).modules@[k]
                    == old(self).modules@[k]),
            final(self).diagnostics == old(self).diagnostics,
        decreases *node,
    {
        match node {
            AnonymousDeclaration::Type { .. } => {
                let did0 = self.declarations.len();
                let decl = NsDeclaration::Type { declaration_id: did0, name: None };
                let did = self.push_simple_declaration(decl);
                if let Some(exp) = containing_export {
                    self.add_exported_declaration(nsid, &exp.image, did);
                }
            },
            AnonymousDeclaration::Function { .. } => {
                let did0 = self.declarations.len();
                let decl = NsDeclaration::Function { declaration_id: did0, name: None };
                let did = self.push_simple_declaration(decl);
                if let Some(exp) = containing_export {
                    self.add_exported_declaration(nsid, &exp.image, did);
                }
            },
            AnonymousDeclaration::Constant { .. } => {
                let did0 = self.declarations.len();
                let decl = NsDeclaration::Constant { declaration_id: did0, name: None };
                let did = self.push_simple_declaration(decl);
                if let Some(exp) = containing_export {
                    self.add_exported_declaration(nsid, &exp.image, did);
                }
            },
            AnonymousDeclaration::Namespace { imports, items, .. } => {
                let allocated = self.allocate_nested_namespace(nsid);
                let new_ns = allocated.0;
                let did = allocated.1;
                if let Some(exp) = containing_export {
                    self.add_exported_declaration(nsid, &exp.image, did);
                }
                let mut k: usize = 0;
                while k < imports.len()
                    invariant
                        self.inv(),
                        new_ns < self.namespaces@.len(),
                        self.namespaces@.len() >= old(self).namespaces@.len(),
                        self.declarations@.len() >= old(self).declarations@.len(),
                        self.pending() <= old(self).pending(),
                        self.source_paths == old(self).source_paths,
                        self.main_module_path == old(self).main_module_path,
                        forall|q: Seq<char>|
                            has_module(old(self).modules@, q) ==> has_module(self.modules@, q),
                        old(self).main_entry_ok() ==> self.main_entry_ok(),
                        forall|k: int|
                            0 <= k < self.modules@.len() ==> ((#[trigger] self.modules@[k].1)
                                is Success ==> k < old(self).modules@.len() && self.modules@[k]
                                == old(self).modules@[k]),
                        self.diagnostics == old(self).diagnostics,
                        k <= imports@.len(),
                    decreases imports@.len() - k,
                {
                    self.handle_import(&imports[k], new_ns, current_module);
                    k = k + 1;
                }
                let mut j: usize = 0;
                while j < items.len()
                    invariant
                        self.inv(),
                        new_ns < self.namespaces@.len(),
                        self.namespaces@.len() >= old(self).namespaces@.len(),
                        self.declarations@.len() >= old(self).declarations@.len(),
                        self.pending() <= old(self).pending(),
                        self.source_paths == old(self).source_paths,
                        self.main_module_path == old(self).main_module_path,
                        forall|q: Seq<char>|
                            has_module(old(self).modules@, q) ==> has_module(self.modules@, q),
                        old(self).main_entry_ok() ==> self.main_entry_ok(),
                        forall|k: int|
                            0 <= k < self.modules@.len() ==> ((#[trigger] self.modules@[k].1)
                                is Success ==> k < old(self).modules@.len() && self.modules@[k]
                                == old(self).modules@[k]),
                        self.diagnostics == old(self).diagnostics,
                        j <= items@.len(),
                        node is Namespace,
                        *items == node->Namespace_items,
                    decreases items@.len() - j,
                {
                    proof {
                        assert(decreases_to!(*node => node->Namespace_items));
                        assert(decreases_to!(*items => items@));
                        assert(decreases_to!(items@ => items@[j as int]));
                        assert(decreases_to!(*node => items@[j as int]));
                    }
                    self.handle_non_import(&items[j], new_ns, current_module);
                    j = j + 1;
                }
            },
        }
    }

    /// Dispatch one top-level item other than an import.
    fn handle_non_import(&mut self, item: &NonImport, nsid: usize, current_module: &String)
        requires
            old(self).inv(),
            nsid < old(self).namespaces@.len(),
        ensures
            final(self).inv(),
            final(self).namespaces@.len() >= old(self).namespaces@.len(),
            final(self).declarations@.len() >= old(self).declarations@.len(),
            final(self).pending() <= old(self).pending(),
            final(self).source_paths == old(self).source_paths,
            final(self).main_module_path == old(self).main_module_path,
            forall|q: Seq<char>|
                has_module(old(self).modules@, q) ==> has_module(final(self).modules@, q),
            old(self).main_entry_ok() ==> final(self).main_entry_ok(),
            forall|k: int|
                0 <= k < final(self).modules@.len() ==> ((#[trigger] final(self).modules@[k].1)
                    is Success ==> k < old(self).modules@.len() && final(self).modules@[k]
                    == old(self).modules@[k]),
            final(self).diagnostics == old(self).diagnostics,
        decreases *item,
    {
        match item {
            NonImport::Decl(d) => {
                proof {
                    assert(*d == item->Decl_0);
                    assert(decreases_to!(*item => item->Decl_0));
                }
                self.handle_declaration(d, nsid, current_module, Option::None);
            },
            NonImport::Export(e) => {
                proof {
                    assert(*e == item->Export_0);
                    assert(decreases_to!(*item => item->Export_0));
                }
                self.handle_export(e, nsid, current_module);
            },
            NonImport::Forward(f) => {
                self.handle_forward(f, nsid, current_module);
            },
        }
    }
}

/// Whether a name token written in an import or forward list is the wildcard.
fn is_star(s: &String) -> (r: bool)
    ensures
        r == (s@.len() == 1 && s@[0] == '*'),
{
    s.as_str().unicode_len() == 1 && s.as_str().get_char(0) == '*'
}

/// Walk the module graph outward from the entry module, consuming each
/// referenced module's parse outcome, and build the registries and raw
/// per-name dependency queues. The run fails only when the entry module
/// itself is missing or unparsable; every other unresolvable module becomes a
/// dangling reference discovered during resolution.
pub fn enumerate_namespaces(main_module_path: String, sources: &Sources) -> (r: DiagResult<
    NamespaceEnumerationOutput,
>)
    requires
        sources.wf(),
    ensures
        match r.value {
            Some(out) => out.wf() && entry_parsed(out.modules@, main_module_path@)
                && successes_from_sources(out.modules@, *sources) && diags_from_sources(
                out.diagnostics@,
                *sources,
            ),
            None => spec_has_error(r.diagnostics@) && spec_has_fatal(r.diagnostics@) && (
            !file_exists(sources.path_views(), main_module_path@) || exists|i: int|
                0 <= i < sources.files@.len() && (#[trigger] sources.files@[i]).path@
                    == main_module_path@ && sources.files@[i].root is None),
        },
{
    let source_paths = sources.paths();
    let mut process = EnumerationProcess::new(main_module_path, source_paths);
    loop
        invariant
            process.inv(),
            sources.wf(),
            process.source_paths.deep_view() == sources.path_views(),
            process.main_module_path == main_module_path,
            process.main_entry_ok(),
            successes_from_sources(process.modules@, *sources),
            diags_from_sources(process.diagnostics@, *sources),
        ensures
            process.inv(),
            entry_parsed(process.modules@, main_module_path@),
            successes_from_sources(process.modules@, *sources),
            diags_from_sources(process.diagnostics@, *sources),
        decreases process.pending(),
    {
        if process.module_queue.len() == 0 {
            proof {
                // nothing is queued, so the entry's round has already run
                // and recorded success
                assert(count_path(process.module_queue@, main_module_path@) == 0);
                assert(entry_parsed(process.modules@, main_module_path@));
            }
            break ;
        }
        let ghost pending0 = process.pending();
        let ghost queue0 = process.module_queue@;
        let ghost old_mods_iter = process.modules@;
        let path = process.module_queue.remove(0);
        proof {
            assert(process.pending() == pending0 - 1);
            lemma_count_path_pop(queue0, main_module_path@);
            assert(process.module_queue@ =~= queue0.drop_first());
        }
        let found = sources.find(&path);
        match found {
            None => {
                process.set_failed_module(&path, true);
                if path.eq(&process.main_module_path) {
                    // the entry module is missing: the whole run fails
                    let mut msg = "Entry point \"".to_owned();
                    msg.append(path.as_str());
                    msg.append("\" not found.");
                    let fatal = Diagnostic::new_from_position(
                        msg,
                        FilePosition::new(path, (0, 0)),
                    ).with_level(DiagnosticLevel::Fatal);
                    process.diagnostics.push(fatal);
                    proof {
                        let ds = process.diagnostics@;
                        assert(spec_severity(ds[ds.len() - 1].level) >= spec_severity(
                            DiagnosticLevel::Error,
                        ));
                        assert(spec_has_error(ds));
                        assert(spec_has_fatal(ds)) by {
                            assert(ds[ds.len() - 1].level == DiagnosticLevel::Fatal);
                        }
                        assert(!file_exists(sources.path_views(), main_module_path@));
                    }
                    return DiagResult::error(process.diagnostics);
                }
                proof {
                    // the popped path was not the entry, so the entry's
                    // bookkeeping is untouched by this round
                    assert(path@ != main_module_path@);
                    assert(process.main_entry_ok());
                    lemma_successes_pointwise(process.modules@, old_mods_iter, *sources);
                }
            },
            Some(idx) => {
                let file = &sources.files[idx];
                let ghost mods_here = process.modules@;
                let ghost queue_here = process.module_queue@;
                // carry the parser's diagnostics over, whatever the outcome
                let mut di: usize = 0;
                while di < file.diagnostics.len()
                    invariant
                        process.inv(),
                        process.pending() == pending0 - 1,
                        process.source_paths.deep_view() == sources.path_views(),
                        process.modules@ == mods_here,
                        process.module_queue@ == queue_here,
                        process.main_module_path == main_module_path,
                        diags_from_sources(process.diagnostics@, *sources),
                        idx < sources.files@.len(),
                        *file == sources.files@[idx as int],
                        di <= file.diagnostics@.len(),
                    decreases file.diagnostics@.len() - di,
                {
                    let ghost pre_diags = process.diagnostics@;
                    process.diagnostics.push(file.diagnostics[di].duplicate());
                    proof {
                        assert forall|d: int|
                            0 <= d < process.diagnostics@.len() implies exists|i2: int, k: int|
                            0 <= i2 < sources.files@.len() && 0 <= k
                                < sources.files@[i2].diagnostics@.len() && (
                            #[trigger] process.diagnostics@[d])
                                == #[trigger] sources.files@[i2].diagnostics@[k] by {
                            if d < pre_diags.len() {
                                assert(process.diagnostics@[d] == pre_diags[d]);
                            } else {
                                assert(process.diagnostics@[d]
                                    == sources.files@[idx as int].diagnostics@[di as int]);
                            }
                        }
                    }
                    di = di + 1;
                }
                match &file.root {
                    None => {
                        process.set_failed_module(&path, false);
                        if path.eq(&process.main_module_path) {
                            // the entry module cannot be parsed: the whole run fails
                            let mut msg = "Entry point \"".to_owned();
                            msg.append(path.as_str());
                            msg.append("\" failed to parse.");
                            let fatal = Diagnostic::new_from_position(
                                msg,
                                FilePosition::new(path, (0, 0)),
                            ).with_level(DiagnosticLevel::Fatal);
                            process.diagnostics.push(fatal);
                            proof {
                                let ds = process.diagnostics@;
                                assert(spec_severity(ds[ds.len() - 1].level) >= spec_severity(
                                    DiagnosticLevel::Error,
                                ));
                                assert(spec_has_error(ds));
                                assert(spec_has_fatal(ds)) by {
                                    assert(ds[ds.len() - 1].level == DiagnosticLevel::Fatal);
                                }
                                assert(sources.files@[idx as int].path@ == main_module_path@
                                    && sources.files@[idx as int].root is None);
                            }
                            return DiagResult::error(process.diagnostics);
                        }
                        proof {
                            assert(path@ != main_module_path@);
                            assert(process.main_entry_ok());
                            lemma_successes_pointwise(process.modules@, mods_here, *sources);
                        }
                    },
                    Some(root) => {
                        let nsid = process.set_successful_module(&path);
                        proof {
                            assert(successes_from_sources(process.modules@, *sources)) by {
                                assert forall|k: int|
                                    0 <= k < process.modules@.len() && (
                                #[trigger] process.modules@[k].1) is Success implies exists|i: int|
                                    0 <= i < sources.files@.len() && (
                                    #[trigger] sources.files@[i]).path@ == process.modules@[k].0@
                                        && sources.files@[i].root is Some by {
                                    if k < mods_here.len() && process.modules@[k] == mods_here[k] {
                                        assert(mods_here[k].1 is Success);
                                    } else {
                                        assert(process.modules@[k].0@ == path@);
                                        assert(sources.files@[idx as int].path@ == path@);
                                        assert(sources.files@[idx as int].root is Some);
                                    }
                                }
                            }
                            if path@ == main_module_path@ {
                                // the entry was still queued exactly once, and
                                // this round consumed it and recorded success
                                assert(count_path(queue0, main_module_path@) >= 1) by {
                                    assert(queue0[0]@ == main_module_path@);
                                }
                                assert(count_path(process.module_queue@, main_module_path@) == 0);
                                assert(process.main_entry_ok()) by {
                                    assert(entry_parsed(process.modules@, main_module_path@));
                                }
                            } else {
                                assert(process.main_entry_ok());
                            }
                        }
                        let mut k: usize = 0;
                        while k < root.imports.len()
                            invariant
                                process.inv(),
                                nsid < process.namespaces@.len(),
                                process.pending() <= pending0 - 1,
                                process.source_paths.deep_view() == sources.path_views(),
                                process.main_module_path == main_module_path,
                                process.main_entry_ok(),
                                successes_from_sources(process.modules@, *sources),
                                diags_from_sources(process.diagnostics@, *sources),
                                k <= root.imports@.len(),
                            decreases root.imports@.len() - k,
                        {
                            process.handle_import(&root.imports[k], nsid, &path);
                            k = k + 1;
                        }
                        let mut j: usize = 0;
                        while j < root.items.len()
                            invariant
                                process.inv(),
                                nsid < process.namespaces@.len(),
                                process.pending() <= pending0 - 1,
                                process.source_paths.deep_view() == sources.path_views(),
                                process.main_module_path == main_module_path,
                                process.main_entry_ok(),
                                successes_from_sources(process.modules@, *sources),
                                diags_from_sources(process.diagnostics@, *sources),
                                j <= root.items@.len(),
                            decreases root.items@.len() - j,
                        {
                            process.handle_non_import(&root.items[j], nsid, &path);
                            j = j + 1;
                        }
                    },
                }
            },
        }
        proof {
            assert(process.pending() < pending0);
        }
    }
    let out = NamespaceEnumerationOutput {
        modules: process.modules,
        namespaces: process.namespaces,
        declarations: process.declarations,
        pure_forwards: process.pure_forwards,
        diagnostics: process.diagnostics,
    };
    DiagResult::ok(out)
}

} // verus!
