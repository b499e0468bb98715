//! Namespaces, name targets, references, and the declaration registry: the
//! data model that enumeration fills and resolution drains.
//!
//! A namespace has two name tables — locals and exports — each mapping a name
//! to one `NameTarget`. A target accumulates `Reference`s as its queued
//! `Dependency`s are processed; once the queue drains, its status is frozen
//! as an aggregate over the references it holds.

use vstd::prelude::*;
use crate::dependencies::Dependency;

verus! {

/// The status of a `NameTarget`. Every status but `NotResolved` is terminal.
#[derive(Clone, Copy, Debug, PartialEq, Eq, Structural)]
pub enum NameTargetStatus {
    /// Not yet visited, or currently being visited.
    NotResolved,
    /// Done being visited; at least one reference names a declaration.
    FullyResolved,
    /// No reference could be resolved.
    Dangling,
    /// Every failing reference is circular.
    Circular,
    /// All references could be followed, but none reaches a declaration.
    Empty,
}

/// A terminal classification of one unit of name resolution.
#[derive(Debug, PartialEq)]
pub enum Reference {
    /// A reference to an export name from another module.
    RemoteName { module: String, export_name: String, resolved_declaration_id: usize },
    /// A pointer to a module's top-level namespace.
    RemoteNamespace { module: String, resolved_declaration_id: usize },
    /// A reference to a name that is scoped to the current module.
    LocalName { name: String, resolved_declaration_id: usize },
    /// A direct reference to a local declaration.
    LocalDeclaration { resolved_declaration_id: usize },
    /// A reference to a module that doesn't exist.
    MissingModule { module: String, export_name: Option<String> },
    /// A reference to a missing export of an existing module.
    MissingExport { module: String, export_name: String },
    /// A reference to a local that doesn't exist.
    MissingLocal { local_name: String },
    /// A remote reference whose dependency chain circles back on itself.
    CircularRemote { module: String, export_name: String },
    /// A local reference whose dependency chain circles back on itself.
    CircularLocal { local_name: String },
    /// A chained remote reference that could be followed but ends without a
    /// declaration.
    EmptyRemote { module: String, export_name: String },
    /// A chained local reference that could be followed but ends without a
    /// declaration.
    EmptyLocal { local_name: String },
}

/// The status category a reference belongs to: the four resolved kinds carry
/// a declaration id; the missing kinds are dangling; the circular kinds are
/// circular; the empty kinds are empty.
pub open spec fn spec_ref_status(r: Reference) -> NameTargetStatus {
    match r {
        Reference::RemoteName { .. } => NameTargetStatus::FullyResolved,
        Reference::RemoteNamespace { .. } => NameTargetStatus::FullyResolved,
        Reference::LocalName { .. } => NameTargetStatus::FullyResolved,
        Reference::LocalDeclaration { .. } => NameTargetStatus::FullyResolved,
        Reference::MissingModule { .. } => NameTargetStatus::Dangling,
        Reference::MissingExport { .. } => NameTargetStatus::Dangling,
        Reference::MissingLocal { .. } => NameTargetStatus::Dangling,
        Reference::CircularRemote { .. } => NameTargetStatus::Circular,
        Reference::CircularLocal { .. } => NameTargetStatus::Circular,
        Reference::EmptyRemote { .. } => NameTargetStatus::Empty,
        Reference::EmptyLocal { .. } => NameTargetStatus::Empty,
    }
}

/// The declaration id a resolved reference carries.
pub open spec fn spec_ref_declaration_id(r: Reference) -> usize {
    match r {
        Reference::RemoteName { resolved_declaration_id, .. } => resolved_declaration_id,
        Reference::RemoteNamespace { resolved_declaration_id, .. } => resolved_declaration_id,
        Reference::LocalName { resolved_declaration_id, .. } => resolved_declaration_id,
        Reference::LocalDeclaration { resolved_declaration_id } => resolved_declaration_id,
        _ => 0,
    }
}

impl Reference {
    /// The status category of this reference.
    pub fn status(&self) -> (r: NameTargetStatus)
        ensures
            r == spec_ref_status(*self),
    {
        match self {
            Reference::RemoteName { .. } => NameTargetStatus::FullyResolved,
            Reference::RemoteNamespace { .. } => NameTargetStatus::FullyResolved,
            Reference::LocalName { .. } => NameTargetStatus::FullyResolved,
            Reference::LocalDeclaration { .. } => NameTargetStatus::FullyResolved,
            Reference::MissingModule { .. } => NameTargetStatus::Dangling,
            Reference::MissingExport { .. } => NameTargetStatus::Dangling,
            Reference::MissingLocal { .. } => NameTargetStatus::Dangling,
            Reference::CircularRemote { .. } => NameTargetStatus::Circular,
            Reference::CircularLocal { .. } => NameTargetStatus::Circular,
            Reference::EmptyRemote { .. } => NameTargetStatus::Empty,
            Reference::EmptyLocal { .. } => NameTargetStatus::Empty,
        }
    }
}

/// Whether some reference in `refs` has status `s`.
pub open spec fn has_ref_status(refs: Seq<Reference>, s: NameTargetStatus) -> bool {
    exists|i: int| 0 <= i < refs.len() && spec_ref_status(#[trigger] refs[i]) == s
}

/// The aggregate status of a drained name target: resolved if any reference
/// is resolved; else dangling if any is dangling; else circular if any is
/// circular; else empty. Successful resolution of one merged declaration
/// wins over any failed alternative path for the same name.
pub open spec fn aggregate_status(refs: Seq<Reference>) -> NameTargetStatus {
    if has_ref_status(refs, NameTargetStatus::FullyResolved) {
        NameTargetStatus::FullyResolved
    } else if has_ref_status(refs, NameTargetStatus::Dangling) {
        NameTargetStatus::Dangling
    } else if has_ref_status(refs, NameTargetStatus::Circular) {
        NameTargetStatus::Circular
    } else {
        NameTargetStatus::Empty
    }
}

/// Priority of resolution: if any reference of a target is resolved, the
/// aggregate status is `FullyResolved`, no matter how many dangling or
/// circular references coexist with it.
pub proof fn lemma_aggregate_status_priority(refs: Seq<Reference>, i: int)
    requires
        0 <= i < refs.len(),
        spec_ref_status(refs[i]) == NameTargetStatus::FullyResolved,
    ensures
        aggregate_status(refs) == NameTargetStatus::FullyResolved,
{
    assert(has_ref_status(refs, NameTargetStatus::FullyResolved));
}

/// The aggregate status is never `NotResolved`: once a target's queue has
/// drained and its status is frozen, the status is terminal.
pub proof fn lemma_aggregate_status_terminal(refs: Seq<Reference>)
    ensures
        aggregate_status(refs) != NameTargetStatus::NotResolved,
{
}

/// The resolution state of one name within one scope: the references
/// accumulated so far, the dependencies still to process (a FIFO queue), and
/// the status, which stays `NotResolved` until the queue has been drained
/// once and is then frozen as the aggregate over the references.
#[derive(Debug, PartialEq)]
pub struct NameTarget {
    pub status: NameTargetStatus,
    pub references: Vec<Reference>,
    pub dependencies: Vec<Dependency>,
}

impl NameTarget {
    pub fn new() -> (r: NameTarget)
        ensures
            r.status == NameTargetStatus::NotResolved,
            r.references@.len() == 0,
            r.dependencies@.len() == 0,
    {
        NameTarget {
            status: NameTargetStatus::NotResolved,
            references: Vec::new(),
            dependencies: Vec::new(),
        }
    }

    pub fn add_reference(&mut self, reference: Reference)
        ensures
            final(self).references@ == old(self).references@.push(reference),
            final(self).status == old(self).status,
            final(self).dependencies@ == old(self).dependencies@,
    {
        self.references.push(reference);
    }

    pub fn add_dependency(&mut self, dep: Dependency)
        ensures
            final(self).dependencies@ == old(self).dependencies@.push(dep),
            final(self).status == old(self).status,
            final(self).references@ == old(self).references@,
    {
        self.dependencies.push(dep);
    }

    /// Remove and return the front of the dependency queue.
    pub fn pop_dependency(&mut self) -> (r: Option<Dependency>)
        ensures
            old(self).dependencies@.len() == 0 ==> r is None && *final(self) == *old(self),
            old(self).dependencies@.len() > 0 ==> {
                &&& r == Some(old(self).dependencies@[0])
                &&& final(self).dependencies@ == old(self).dependencies@.drop_first()
                &&& final(self).status == old(self).status
                &&& final(self).references@ == old(self).references@
            },
    {
        if self.dependencies.len() == 0 {
            return None;
        }
        let dep = self.dependencies.remove(0);
        proof {
            assert(self.dependencies@ =~= old(self).dependencies@.drop_first());
        }
        Some(dep)
    }

    /// Freeze the status as the aggregate over the accumulated references.
    pub fn set_aggregate_status(&mut self)
        ensures
            final(self).status == aggregate_status(old(self).references@),
            final(self).references@ == old(self).references@,
            final(self).dependencies@ == old(self).dependencies@,
    {
        let ghost refs = self.references@;
        let mut any_resolved: bool = false;
        let mut any_dangling: bool = false;
        let mut any_circular: bool = false;
        let mut i: usize = 0;
        while i < self.references.len()
            invariant
                i <= refs.len(),
                self.references@ == refs,
                self.status == old(self).status,
                self.dependencies@ == old(self).dependencies@,
                any_resolved == has_ref_status(
                    refs.subrange(0, i as int),
                    NameTargetStatus::FullyResolved,
                ),
                any_dangling == has_ref_status(
                    refs.subrange(0, i as int),
                    NameTargetStatus::Dangling,
                ),
                any_circular == has_ref_status(
                    refs.subrange(0, i as int),
                    NameTargetStatus::Circular,
                ),
            decreases refs.len() - i,
        {
            let s = self.references[i].status();
            proof {
                let pre = refs.subrange(0, i as int);
                let post = refs.subrange(0, i + 1);
                assert(post.drop_last() == pre);
                assert(post.last() == refs[i as int]);
                assert forall|st: NameTargetStatus| has_ref_status(pre, st) implies has_ref_status(
                    post,
                    st,
                ) by {
                    let k = choose|k: int| 0 <= k < pre.len() && spec_ref_status(pre[k]) == st;
                    assert(spec_ref_status(post[k]) == st);
                }
                assert forall|st: NameTargetStatus|
                    has_ref_status(post, st) && st != spec_ref_status(
                    refs[i as int],
                ) implies has_ref_status(pre, st) by {
                    let k = choose|k: int| 0 <= k < post.len() && spec_ref_status(post[k]) == st;
                    assert(k < pre.len());
                    assert(spec_ref_status(pre[k]) == st);
                }
                assert(has_ref_status(post, spec_ref_status(refs[i as int]))) by {
                    assert(spec_ref_status(post[i as int]) == spec_ref_status(refs[i as int]));
                }
            }
            if matches!(s, NameTargetStatus::FullyResolved) {
                any_resolved = true;
            } else if matches!(s, NameTargetStatus::Dangling) {
                any_dangling = true;
            } else if matches!(s, NameTargetStatus::Circular) {
                any_circular = true;
            }
            i = i + 1;
        }
        proof {
            assert(refs.subrange(0, refs.len() as int) == refs);
        }
        if any_resolved {
            self.status = NameTargetStatus::FullyResolved;
        } else if any_dangling {
            self.status = NameTargetStatus::Dangling;
        } else if any_circular {
            self.status = NameTargetStatus::Circular;
        } else {
            self.status = NameTargetStatus::Empty;
        }
    }
}

/// One entry of a name table: a name bound to its target.
#[derive(Debug, PartialEq)]
pub struct NameBinding {
    pub name: String,
    pub target: NameTarget,
}

/// The names of a table, as character sequences.
pub open spec fn has_name(bs: Seq<NameBinding>, name: Seq<char>) -> bool {
    exists|i: int| 0 <= i < bs.len() && #[trigger] bs[i].name@ == name
}

/// Whether no name occurs twice in the table.
pub open spec fn names_unique(bs: Seq<NameBinding>) -> bool {
    forall|i: int, j: int| 0 <= i < j < bs.len() ==> bs[i].name@ != bs[j].name@
}

/// The index of `name` in the table; meaningful only when `has_name` holds,
/// and unique when the table's names are unique.
pub open spec fn index_of(bs: Seq<NameBinding>, name: Seq<char>) -> int {
    choose|i: int| 0 <= i < bs.len() && #[trigger] bs[i].name@ == name
}

/// Find the position of `name` in the table.
pub fn find_name(bs: &Vec<NameBinding>, name: &String) -> (r: Option<usize>)
    ensures
        r is Some <==> has_name(bs@, name@),
        r is Some ==> 0 <= r.unwrap() < bs@.len() && bs@[r.unwrap() as int].name@ == name@,
        names_unique(bs@) && r is Some ==> r.unwrap() as int == index_of(bs@, name@),
{
    let mut i: usize = 0;
    while i < bs.len()
        invariant
            i <= bs@.len(),
            forall|j: int| 0 <= j < i ==> bs@[j].name@ != name@,
        decreases bs@.len() - i,
    {
        if bs[i].name.eq(name) {
            proof {
                assert(bs@[i as int].name@ == name@);
                if names_unique(bs@) {
                    let k = index_of(bs@, name@);
                    assert(bs@[k].name@ == name@);
                    assert(k == i as int);
                }
            }
            return Some(i);
        }
        i = i + 1;
    }
    None
}

/// Insert a fresh target for `name` if the table has none.
pub fn ensure_name(bs: &mut Vec<NameBinding>, name: &String)
    ensures
        has_name(old(bs)@, name@) ==> final(bs)@ == old(bs)@,
        !has_name(old(bs)@, name@) ==> {
            &&& final(bs)@.len() == old(bs)@.len() + 1
            &&& final(bs)@.drop_last() == old(bs)@
            &&& final(bs)@.last().name@ == name@
            &&& final(bs)@.last().target.status == NameTargetStatus::NotResolved
            &&& final(bs)@.last().target.references@.len() == 0
            &&& final(bs)@.last().target.dependencies@.len() == 0
        },
        names_unique(old(bs)@) ==> names_unique(final(bs)@),
        has_name(final(bs)@, name@),
{
    let found = find_name(bs, name);
    if found.is_none() {
        let ghost pre = bs@;
        bs.push(NameBinding { name: name.clone(), target: NameTarget::new() });
        proof {
            assert(final(bs)@.drop_last() == pre);
            if names_unique(pre) {
                assert forall|i: int, j: int|
                    0 <= i < j < bs@.len() implies bs@[i].name@ != bs@[j].name@ by {
                    if j < pre.len() {
                        assert(bs@[i] == pre[i] && bs@[j] == pre[j]);
                    } else {
                        assert(bs@[i] == pre[i]);
                        assert(!(pre[i].name@ == name@)) by {
                            if pre[i].name@ == name@ {
                                assert(has_name(pre, name@));
                            }
                        }
                    }
                }
            }
            assert(bs@[bs@.len() - 1].name@ == name@);
        }
    }
}

/// Append a dependency to the target bound to `name`, creating the binding if
/// the table has none.
pub fn add_dep_to(bs: &mut Vec<NameBinding>, name: &String, dep: Dependency)
    ensures
        names_unique(old(bs)@) ==> names_unique(final(bs)@),
        has_name(final(bs)@, name@),
        names_unique(old(bs)@) && has_name(old(bs)@, name@) ==> {
            let i = index_of(old(bs)@, name@);
            &&& final(bs)@.len() == old(bs)@.len()
            &&& forall|j: int| 0 <= j < old(bs)@.len() && j != i ==> final(bs)@[j] == old(bs)@[j]
            &&& final(bs)@[i].name == old(bs)@[i].name
            &&& final(bs)@[i].target.status == old(bs)@[i].target.status
            &&& final(bs)@[i].target.references@ == old(bs)@[i].target.references@
            &&& final(bs)@[i].target.dependencies@ == old(bs)@[i].target.dependencies@.push(dep)
        },
        !has_name(old(bs)@, name@) ==> {
            &&& final(bs)@.len() == old(bs)@.len() + 1
            &&& final(bs)@.drop_last() == old(bs)@
            &&& final(bs)@.last().name@ == name@
            &&& final(bs)@.last().target.status == NameTargetStatus::NotResolved
            &&& final(bs)@.last().target.references@.len() == 0
            &&& final(bs)@.last().target.dependencies@ == seq![dep]
        },
        table_not_resolved(old(bs)@) ==> table_not_resolved(final(bs)@),
        forall|n: nat| #[trigger]
            table_refs_wf(old(bs)@, n) ==> table_refs_wf(final(bs)@, n),
{
    ensure_name(bs, name);
    let i = find_name(bs, name).unwrap();
    let ghost pre = bs@;
    let binding = &mut bs[i];
    binding.target.add_dependency(dep);
    proof {
        assert(bs@[i as int].name@ == name@);
        assert(bs@ == pre.update(i as int, bs@[i as int]));
        if has_name(old(bs)@, name@) {
            assert(pre == old(bs)@);
            if names_unique(old(bs)@) {
                let k = index_of(old(bs)@, name@);
                assert(k == i as int);
            }
        } else {
            assert(i as int == pre.len() - 1) by {
                if (i as int) < pre.len() - 1 {
                    assert(pre.drop_last()[i as int] == pre[i as int]);
                    assert(old(bs)@[i as int].name@ == name@);
                }
            }
            assert(bs@.drop_last() =~= old(bs)@) by {
                assert(pre.drop_last() == old(bs)@);
            }
            assert(bs@.last().target.dependencies@ =~= seq![dep]);
        }
        if table_not_resolved(old(bs)@) {
            assert forall|j: int|
                0 <= j < bs@.len() implies #[trigger] bs@[j].target.status
                == NameTargetStatus::NotResolved by {
                if j != i as int {
                    assert(bs@[j] == pre[j]);
                }
                if !has_name(old(bs)@, name@) && j < old(bs)@.len() {
                    assert(pre.drop_last()[j] == pre[j]);
                    assert(pre[j] == old(bs)@[j]);
                }
            }
        }
        assert forall|n: nat| #[trigger]
            table_refs_wf(old(bs)@, n) implies table_refs_wf(bs@, n) by {
            assert forall|j: int|
                0 <= j < bs@.len() implies refs_wf(#[trigger] bs@[j].target.references@, n) by {
                if j != i as int {
                    assert(bs@[j] == pre[j]);
                }
                if !has_name(old(bs)@, name@) {
                    if j < old(bs)@.len() {
                        assert(pre.drop_last()[j] == pre[j]);
                        assert(pre[j] == old(bs)@[j]);
                        assert(refs_wf(old(bs)@[j].target.references@, n));
                    }
                } else {
                    if j != i as int {
                        assert(refs_wf(old(bs)@[j].target.references@, n));
                    } else {
                        assert(bs@[j].target.references@ == old(bs)@[j].target.references@);
                        assert(refs_wf(old(bs)@[j].target.references@, n));
                    }
                }
            }
        }
    }
}

/// Append a reference to the target bound to `name`, creating the binding if
/// the table has none.
pub fn add_ref_to(bs: &mut Vec<NameBinding>, name: &String, reference: Reference)
    ensures
        names_unique(old(bs)@) ==> names_unique(final(bs)@),
        has_name(final(bs)@, name@),
        names_unique(old(bs)@) && has_name(old(bs)@, name@) ==> {
            let i = index_of(old(bs)@, name@);
            &&& final(bs)@.len() == old(bs)@.len()
            &&& forall|j: int| 0 <= j < old(bs)@.len() && j != i ==> final(bs)@[j] == old(bs)@[j]
            &&& final(bs)@[i].name == old(bs)@[i].name
            &&& final(bs)@[i].target.status == old(bs)@[i].target.status
            &&& final(bs)@[i].target.references@ == old(bs)@[i].target.references@.push(reference)
            &&& final(bs)@[i].target.dependencies@ == old(bs)@[i].target.dependencies@
        },
        !has_name(old(bs)@, name@) ==> {
            &&& final(bs)@.len() == old(bs)@.len() + 1
            &&& final(bs)@.drop_last() == old(bs)@
            &&& final(bs)@.last().name@ == name@
            &&& final(bs)@.last().target.status == NameTargetStatus::NotResolved
            &&& final(bs)@.last().target.references@ == seq![reference]
            &&& final(bs)@.last().target.dependencies@.len() == 0
        },
        table_not_resolved(old(bs)@) ==> table_not_resolved(final(bs)@),
        forall|n: nat| #[trigger]
            table_refs_wf(old(bs)@, n) && (spec_ref_status(reference)
                == NameTargetStatus::FullyResolved ==> spec_ref_declaration_id(reference) < n)
                ==> table_refs_wf(final(bs)@, n),
{
    ensure_name(bs, name);
    let i = find_name(bs, name).unwrap();
    let ghost pre = bs@;
    let binding = &mut bs[i];
    binding.target.add_reference(reference);
    proof {
        assert(bs@[i as int].name@ == name@);
        assert(bs@ == pre.update(i as int, bs@[i as int]));
        if has_name(old(bs)@, name@) {
            assert(pre == old(bs)@);
            if names_unique(old(bs)@) {
                let k = index_of(old(bs)@, name@);
                assert(k == i as int);
            }
        } else {
            assert(i as int == pre.len() - 1) by {
                if (i as int) < pre.len() - 1 {
                    assert(pre.drop_last()[i as int] == pre[i as int]);
                    assert(old(bs)@[i as int].name@ == name@);
                }
            }
            assert(bs@.drop_last() =~= old(bs)@) by {
                assert(pre.drop_last() == old(bs)@);
            }
            assert(bs@.last().target.references@ =~= seq![reference]);
        }
        if table_not_resolved(old(bs)@) {
            assert forall|j: int|
                0 <= j < bs@.len() implies #[trigger] bs@[j].target.status
                == NameTargetStatus::NotResolved by {
                if j != i as int {
                    assert(bs@[j] == pre[j]);
                }
                if !has_name(old(bs)@, name@) && j < old(bs)@.len() {
                    assert(pre.drop_last()[j] == pre[j]);
                    assert(pre[j] == old(bs)@[j]);
                }
            }
        }
        assert forall|n: nat| #[trigger]
            table_refs_wf(old(bs)@, n) && (spec_ref_status(reference)
                == NameTargetStatus::FullyResolved ==> spec_ref_declaration_id(reference)
                < n) implies table_refs_wf(bs@, n) by {
            assert forall|j: int|
                0 <= j < bs@.len() implies refs_wf(#[trigger] bs@[j].target.references@, n) by {
                if j != i as int {
                    assert(bs@[j] == pre[j]);
                }
                if !has_name(old(bs)@, name@) {
                    if j < old(bs)@.len() {
                        assert(pre.drop_last()[j] == pre[j]);
                        assert(pre[j] == old(bs)@[j]);
                        assert(refs_wf(old(bs)@[j].target.references@, n));
                    } else {
                        assert(bs@[j].target.references@ == seq![reference]);
                        assert forall|k: int|
                            0 <= k < bs@[j].target.references@.len() && spec_ref_status(
                            #[trigger] bs@[j].target.references@[k],
                        ) == NameTargetStatus::FullyResolved implies spec_ref_declaration_id(
                            bs@[j].target.references@[k],
                        ) < n by {
                            assert(bs@[j].target.references@[k] == reference);
                        }
                    }
                } else {
                    if j != i as int {
                        assert(refs_wf(old(bs)@[j].target.references@, n));
                    } else {
                        let prev = old(bs)@[j].target.references@;
                        assert(bs@[j].target.references@ == prev.push(reference));
                        assert(refs_wf(prev, n));
                        assert forall|k: int|
                            0 <= k < prev.push(reference).len() && spec_ref_status(
                            #[trigger] prev.push(reference)[k],
                        ) == NameTargetStatus::FullyResolved implies spec_ref_declaration_id(
                            prev.push(reference)[k],
                        ) < n by {
                            if k < prev.len() {
                                assert(prev.push(reference)[k] == prev[k]);
                            } else {
                                assert(prev.push(reference)[k] == reference);
                            }
                        }
                    }
                }
            }
        }
    }
}

/// A ModuleRef tracks one module of the graph by status. All variants carry
/// a flag that is set once resolution has finished processing every name
/// dependent on the module.
#[derive(Clone, Copy, Debug, PartialEq, Eq, Structural)]
pub enum ModuleRef {
    /// Enqueued for enumeration; nothing has been done with it yet.
    Referenced { fully_resolved: bool },
    /// The module was found, but failed to parse.
    Unparsed { fully_resolved: bool },
    /// The module was not found.
    NotFound { fully_resolved: bool },
    /// The module was found and parsed; it owns a namespace.
    Success { namespace_id: usize, fully_resolved: bool },
}

/// A namespace is the root of a module, or a `namespace { ... }` block nested
/// in another namespace. Either way it carries two name tables: `locals` for
/// locally-scoped names and `exports` for externally-accessible names.
#[derive(Debug, PartialEq)]
pub struct Namespace {
    pub namespace_id: usize,
    pub kind: NamespaceKind,
    pub locals: Vec<NameBinding>,
    pub exports: Vec<NameBinding>,
}

/// What kind of scope a namespace is.
#[derive(Debug, PartialEq)]
pub enum NamespaceKind {
    /// The root namespace of a module file; it has no parent.
    Module { absolute_path: String },
    /// A namespace declared within another namespace, owned by a declaration.
    Nested { parent_namespace_id: usize, declaration_id: usize },
}

impl Namespace {
    /// Both name tables have unique names.
    pub open spec fn wf(&self) -> bool {
        names_unique(self.locals@) && names_unique(self.exports@)
    }

    pub fn new_module(namespace_id: usize, absolute_path: String) -> (r: Namespace)
        ensures
            r.namespace_id == namespace_id,
            r.kind == (NamespaceKind::Module { absolute_path }),
            r.locals@.len() == 0,
            r.exports@.len() == 0,
            r.wf(),
    {
        Namespace {
            namespace_id,
            kind: NamespaceKind::Module { absolute_path },
            locals: Vec::new(),
            exports: Vec::new(),
        }
    }

    pub fn new_nested(
        namespace_id: usize,
        parent_namespace_id: usize,
        declaration_id: usize,
    ) -> (r: Namespace)
        ensures
            r.namespace_id == namespace_id,
            r.kind == (NamespaceKind::Nested { parent_namespace_id, declaration_id }),
            r.locals@.len() == 0,
            r.exports@.len() == 0,
            r.wf(),
    {
        Namespace {
            namespace_id,
            kind: NamespaceKind::Nested { parent_namespace_id, declaration_id },
            locals: Vec::new(),
            exports: Vec::new(),
        }
    }
}

/// A semantic declaration: an arena entry ultimately associated with a name.
/// Write-once: created during enumeration, read during every later pass.
#[derive(Debug, PartialEq)]
pub enum Declaration {
    /// A function entity; anonymous functions carry no name.
    Function { declaration_id: usize, name: Option<crate::syntax::Token> },
    /// A type entity; anonymous types carry no name.
    Type { declaration_id: usize, name: Option<crate::syntax::Token> },
    /// A constant entity; anonymous constants carry no name.
    Constant { declaration_id: usize, name: Option<crate::syntax::Token> },
    /// A namespace entity: the declaration owning a nested namespace, or the
    /// root namespace of a module.
    Namespace { declaration_id: usize, namespace_id: usize },
}

/// The arena index a declaration carries.
pub open spec fn spec_declaration_id(d: Declaration) -> usize {
    match d {
        Declaration::Function { declaration_id, .. } => declaration_id,
        Declaration::Type { declaration_id, .. } => declaration_id,
        Declaration::Constant { declaration_id, .. } => declaration_id,
        Declaration::Namespace { declaration_id, .. } => declaration_id,
    }
}

/// Every resolved reference's declaration id is a valid index into a
/// declaration arena of length `n`.
pub open spec fn refs_wf(refs: Seq<Reference>, n: nat) -> bool {
    forall|i: int|
        0 <= i < refs.len() && spec_ref_status(#[trigger] refs[i])
            == NameTargetStatus::FullyResolved ==> spec_ref_declaration_id(refs[i]) < n
}

/// Every target in the table carries only valid declaration ids.
pub open spec fn table_refs_wf(bs: Seq<NameBinding>, n: nat) -> bool {
    forall|i: int| 0 <= i < bs.len() ==> refs_wf(#[trigger] bs[i].target.references@, n)
}

/// Valid declaration ids stay valid when the arena grows.
pub proof fn lemma_table_refs_wf_grow(bs: Seq<NameBinding>, n: nat, m: nat)
    requires
        table_refs_wf(bs, n),
        n <= m,
    ensures
        table_refs_wf(bs, m),
{
    assert forall|i: int| 0 <= i < bs.len() implies refs_wf(
        #[trigger] bs[i].target.references@,
        m,
    ) by {
        assert(refs_wf(bs[i].target.references@, n));
    }
}

/// Every target in the table is still unresolved.
pub open spec fn table_not_resolved(bs: Seq<NameBinding>) -> bool {
    forall|i: int|
        0 <= i < bs.len() ==> #[trigger] bs[i].target.status == NameTargetStatus::NotResolved
}

/// Every target in the table has a terminal status equal to the aggregate
/// over its references, and an empty dependency queue.
pub open spec fn table_resolved(bs: Seq<NameBinding>) -> bool {
    forall|i: int|
        0 <= i < bs.len() ==> #[trigger] bs[i].target.status == aggregate_status(
            bs[i].target.references@,
        ) && bs[i].target.dependencies@.len() == 0
}

/// The arena of declarations is dense: entry `d` carries id `d`, and every
/// namespace declaration points into the namespace arena.
pub open spec fn declarations_wf(decls: Seq<Declaration>, n_namespaces: nat) -> bool {
    forall|d: int|
        0 <= d < decls.len() ==> spec_declaration_id(#[trigger] decls[d]) == d && (decls[d] matches
        Declaration::Namespace { namespace_id, .. } ==> namespace_id < n_namespaces)
}

/// Every nested namespace names a valid parent, and the declaration that owns
/// it is a namespace declaration in the arena linking back to it.
pub open spec fn nested_links_wf(nss: Seq<Namespace>, decls: Seq<Declaration>) -> bool {
    forall|i: int|
        0 <= i < nss.len() ==> ((#[trigger] nss[i]).kind matches NamespaceKind::Nested {
            parent_namespace_id,
            declaration_id,
        } ==> parent_namespace_id < nss.len() && declaration_id < decls.len() && (decls[
            declaration_id as int
        ] matches Declaration::Namespace { namespace_id, .. } && namespace_id == i))
}

/// Some declaration in the arena is the namespace declaration of `nsid`.
pub open spec fn has_namespace_decl(decls: Seq<Declaration>, nsid: usize) -> bool {
    exists|d: int|
        0 <= d < decls.len() && (#[trigger] decls[d] matches Declaration::Namespace {
            namespace_id,
            ..
        } && namespace_id == nsid)
}

/// Whether the module registry holds an entry for path `p`.
pub open spec fn has_module(mods: Seq<(String, ModuleRef)>, p: Seq<char>) -> bool {
    exists|i: int| 0 <= i < mods.len() && #[trigger] mods[i].0@ == p
}

/// Appending an entry keeps every registered path registered.
pub proof fn lemma_has_module_push(mods: Seq<(String, ModuleRef)>, entry: (String, ModuleRef))
    ensures
        forall|q: Seq<char>| has_module(mods, q) ==> has_module(mods.push(entry), q),
{
    assert forall|q: Seq<char>| has_module(mods, q) implies has_module(mods.push(entry), q) by {
        let i = choose|i: int| 0 <= i < mods.len() && #[trigger] mods[i].0@ == q;
        assert(mods.push(entry)[i].0@ == q);
    }
}

/// Replacing an entry's status keeps every registered path registered.
pub proof fn lemma_has_module_update(
    mods: Seq<(String, ModuleRef)>,
    k: int,
    entry: (String, ModuleRef),
)
    requires
        0 <= k < mods.len(),
        entry.0 == mods[k].0,
    ensures
        forall|q: Seq<char>| has_module(mods, q) ==> has_module(mods.update(k, entry), q),
{
    assert forall|q: Seq<char>| has_module(mods, q) implies has_module(mods.update(k, entry), q) by {
        let i = choose|i: int| 0 <= i < mods.len() && #[trigger] mods[i].0@ == q;
        if i == k {
            assert(mods.update(k, entry)[k].0@ == q);
        } else {
            assert(mods.update(k, entry)[i].0@ == q);
        }
    }
}

/// The index of path `p` in the module registry.
pub open spec fn module_index_of(mods: Seq<(String, ModuleRef)>, p: Seq<char>) -> int {
    choose|i: int| 0 <= i < mods.len() && #[trigger] mods[i].0@ == p
}

/// Under unique paths, `module_index_of` names exactly the entry that
/// carries the path.
pub proof fn lemma_module_index_stable(mods: Seq<(String, ModuleRef)>, p: Seq<char>, k: int)
    requires
        module_paths_unique(mods),
        0 <= k < mods.len(),
        mods[k].0@ == p,
    ensures
        has_module(mods, p),
        module_index_of(mods, p) == k,
{
    assert(has_module(mods, p));
    let k2 = module_index_of(mods, p);
    assert(mods[k2].0@ == p);
    if k2 != k {
        if k2 < k {
            assert(mods[k2].0@ != mods[k].0@);
        } else {
            assert(mods[k].0@ != mods[k2].0@);
        }
    }
}

/// No module path occurs twice in the registry.
pub open spec fn module_paths_unique(mods: Seq<(String, ModuleRef)>) -> bool {
    forall|i: int, j: int| 0 <= i < j < mods.len() ==> mods[i].0@ != mods[j].0@
}

/// The namespace arena is dense and each namespace's tables have unique
/// names.
pub open spec fn namespaces_wf(nss: Seq<Namespace>) -> bool {
    forall|i: int|
        0 <= i < nss.len() ==> (#[trigger] nss[i]).wf() && nss[i].namespace_id == i
}

/// Every successful module's namespace id is a valid index, and the arena
/// holds its namespace declaration.
pub open spec fn modules_wf(
    mods: Seq<(String, ModuleRef)>,
    n_namespaces: nat,
    decls: Seq<Declaration>,
) -> bool {
    forall|k: int|
        0 <= k < mods.len() ==> (#[trigger] mods[k].1 matches ModuleRef::Success {
            namespace_id,
            ..
        } ==> namespace_id < n_namespaces && has_namespace_decl(decls, namespace_id))
}

/// Find a module entry by path.
pub fn find_module<'a>(mods: &'a Vec<(String, ModuleRef)>, path: &String) -> (r: Option<usize>)
    ensures
        r is Some <==> has_module(mods@, path@),
        r is Some ==> 0 <= r.unwrap() < mods@.len() && mods@[r.unwrap() as int].0@ == path@,
        module_paths_unique(mods@) && r is Some ==> r.unwrap() as int == module_index_of(
            mods@,
            path@,
        ),
{
    let mut i: usize = 0;
    while i < mods.len()
        invariant
            i <= mods@.len(),
            forall|j: int| 0 <= j < i ==> mods@[j].0@ != path@,
        decreases mods@.len() - i,
    {
        if mods[i].0.eq(path) {
            proof {
                assert(mods@[i as int].0@ == path@);
                if module_paths_unique(mods@) {
                    let k = module_index_of(mods@, path@);
                    assert(mods@[k].0@ == path@);
                    assert(k == i as int);
                }
            }
            return Some(i);
        }
        i = i + 1;
    }
    None
}

} // verus!
