//! The dependency resolution pass: drain every name target's dependency
//! queue into a terminal reference set and status, across the whole namespace
//! registry, handling recursion and circularity.
//!
//! Pure (wildcard) forwards are handled first: they are arranged into a
//! graph, its cycles are detected, and every pure forward is rewritten into
//! ordinary named `PureForwardReplacement` dependencies. Ordinary resolution
//! then visits every namespace, processing every export name and then every
//! local name, recursing along dependency edges and cutting the recursion
//! where it would revisit a target already being processed.

use vstd::prelude::*;
use crate::diag::{Diagnostic, DiagnosticLevel, FileRange};
use crate::dependencies::{Dependency, PureForward, PureForwardGraph, seq_has, seq_below,
    seq_distinct, cycle_views, vec_has};
use crate::namespace::{ModuleRef, Namespace, NameBinding, NameTarget, NameTargetStatus, Reference,
    aggregate_status, spec_ref_status, spec_ref_declaration_id, refs_wf, table_refs_wf,
    table_not_resolved, has_name, names_unique, namespaces_wf, modules_wf, module_paths_unique,
    declarations_wf, has_namespace_decl, find_module, find_name, add_dep_to, module_index_of,
    index_of, has_module};
use crate::namespace::Declaration as NsDeclaration;

verus! {

/// Dependencies still queued in one name table.
pub open spec fn table_deps(bs: Seq<NameBinding>) -> nat
    decreases bs.len(),
{
    if bs.len() == 0 {
        0
    } else {
        table_deps(bs.drop_last()) + bs.last().target.dependencies@.len()
    }
}

/// Dependencies still queued in one namespace.
pub open spec fn ns_deps(ns: Namespace) -> nat {
    table_deps(ns.locals@) + table_deps(ns.exports@)
}

/// Dependencies still queued anywhere: the resolution pass only ever pops
/// them, so this sum bounds the recursion.
pub open spec fn all_deps(nss: Seq<Namespace>) -> nat
    decreases nss.len(),
{
    if nss.len() == 0 {
        0
    } else {
        all_deps(nss.drop_last()) + ns_deps(nss.last())
    }
}

/// Replacing one binding changes the table's queued-dependency total by the
/// difference of the two bindings' queues.
pub proof fn lemma_table_deps_update(bs: Seq<NameBinding>, j: int, b: NameBinding)
    requires
        0 <= j < bs.len(),
    ensures
        table_deps(bs.update(j, b)) + bs[j].target.dependencies@.len() == table_deps(bs)
            + b.target.dependencies@.len(),
    decreases bs.len(),
{
    let updated = bs.update(j, b);
    if j == bs.len() - 1 {
        assert(updated.drop_last() =~= bs.drop_last());
        assert(updated.last() == b);
    } else {
        assert(updated.drop_last() =~= bs.drop_last().update(j, b));
        assert(updated.last() == bs.last());
        lemma_table_deps_update(bs.drop_last(), j, b);
    }
}

/// Replacing one namespace changes the global queued-dependency total by the
/// difference of the two namespaces' totals.
pub proof fn lemma_all_deps_update(nss: Seq<Namespace>, i: int, ns2: Namespace)
    requires
        0 <= i < nss.len(),
    ensures
        all_deps(nss.update(i, ns2)) + ns_deps(nss[i]) == all_deps(nss) + ns_deps(ns2),
    decreases nss.len(),
{
    let updated = nss.update(i, ns2);
    if i == nss.len() - 1 {
        assert(updated.drop_last() =~= nss.drop_last());
        assert(updated.last() == ns2);
    } else {
        assert(updated.drop_last() =~= nss.drop_last().update(i, ns2));
        assert(updated.last() == nss.last());
        lemma_all_deps_update(nss.drop_last(), i, ns2);
    }
}

/// One name table is consistent: a target that has reached a terminal status
/// carries exactly the aggregate of its references and an empty queue, and
/// every recorded declaration id is valid.
pub open spec fn table_consistent(bs: Seq<NameBinding>, n_decls: nat) -> bool {
    forall|j: int|
        0 <= j < bs.len() ==> {
            &&& ((#[trigger] bs[j].target.status) != NameTargetStatus::NotResolved ==> bs[j].target.status
                == aggregate_status(bs[j].target.references@) && bs[j].target.dependencies@.len()
                == 0)
            &&& refs_wf(bs[j].target.references@, n_decls)
        }
}

/// The resolution pass invariant over the namespace arena.
pub open spec fn res_inv(nss: Seq<Namespace>, n_decls: nat) -> bool {
    &&& namespaces_wf(nss)
    &&& forall|i: int|
        0 <= i < nss.len() ==> table_consistent(#[trigger] nss[i].locals@, n_decls)
            && table_consistent(nss[i].exports@, n_decls)
}

/// Whether two tables bind the same names in the same order.
pub open spec fn same_names(a: Seq<NameBinding>, b: Seq<NameBinding>) -> bool {
    a.len() == b.len() && forall|j: int| 0 <= j < a.len() ==> a[j].name == b[j].name
}

/// Whether two namespace arenas have the same shape: the same namespaces with
/// the same identities and the same names bound in each table. Resolution
/// never adds or removes namespaces or names; it only moves targets forward.
pub open spec fn same_shape(a: Seq<Namespace>, b: Seq<Namespace>) -> bool {
    &&& a.len() == b.len()
    &&& forall|i: int|
        0 <= i < a.len() ==> {
            &&& (#[trigger] b[i]).namespace_id == a[i].namespace_id
            &&& b[i].kind == a[i].kind
            &&& same_names(a[i].locals@, b[i].locals@)
            &&& same_names(a[i].exports@, b[i].exports@)
        }
}

/// `same_shape` is transitive.
pub proof fn lemma_same_shape_trans(a: Seq<Namespace>, b: Seq<Namespace>, c: Seq<Namespace>)
    requires
        same_shape(a, b),
        same_shape(b, c),
    ensures
        same_shape(a, c),
{
    assert forall|i: int| 0 <= i < a.len() implies {
        &&& (#[trigger] c[i]).namespace_id == a[i].namespace_id
        &&& c[i].kind == a[i].kind
        &&& same_names(a[i].locals@, c[i].locals@)
        &&& same_names(a[i].exports@, c[i].exports@)
    } by {
        assert(b[i].namespace_id == a[i].namespace_id);
        assert(c[i].namespace_id == b[i].namespace_id);
    }
}

/// Every arena is shaped like itself.
pub proof fn lemma_same_shape_refl(a: Seq<Namespace>)
    ensures
        same_shape(a, a),
{
}

/// The old bindings keep their names and positions; new bindings may only be
/// appended at the end.
pub open spec fn names_prefix(a: Seq<NameBinding>, b: Seq<NameBinding>) -> bool {
    a.len() <= b.len() && forall|j: int| 0 <= j < a.len() ==> a[j].name == #[trigger] b[j].name
}

/// What the whole resolution pass may do to the arena's shape: namespaces
/// keep their identity and kind, locals keep exactly their names, and export
/// tables keep their names and gain at most appended ones (the names a pure
/// forward synthesizes).
pub open spec fn shape_extended(a: Seq<Namespace>, b: Seq<Namespace>) -> bool {
    &&& a.len() == b.len()
    &&& forall|i: int|
        0 <= i < a.len() ==> {
            &&& (#[trigger] b[i]).namespace_id == a[i].namespace_id
            &&& b[i].kind == a[i].kind
            &&& same_names(a[i].locals@, b[i].locals@)
            &&& names_prefix(a[i].exports@, b[i].exports@)
        }
}

/// Shape extension composes.
pub proof fn lemma_shape_extended_trans(a: Seq<Namespace>, b: Seq<Namespace>, c: Seq<Namespace>)
    requires
        shape_extended(a, b),
        shape_extended(b, c),
    ensures
        shape_extended(a, c),
{
    assert forall|i: int|
        0 <= i < a.len() implies {
        &&& (#[trigger] c[i]).namespace_id == a[i].namespace_id
        &&& c[i].kind == a[i].kind
        &&& same_names(a[i].locals@, c[i].locals@)
        &&& names_prefix(a[i].exports@, c[i].exports@)
    } by {
        assert(b[i].namespace_id == a[i].namespace_id);
        assert(c[i].namespace_id == b[i].namespace_id);
        assert forall|j: int| 0 <= j < a[i].exports@.len() implies a[i].exports@[j].name == (
        #[trigger] c[i].exports@[j].name) by {
            assert(a[i].exports@[j].name == b[i].exports@[j].name);
        }
    }
}

/// An unchanged shape is a (trivial) shape extension.
pub proof fn lemma_same_shape_extends(a: Seq<Namespace>, b: Seq<Namespace>)
    requires
        same_shape(a, b),
    ensures
        shape_extended(a, b),
{
}

/// The target at one position of one table, selecting locals or exports.
pub open spec fn target_at(nss: Seq<Namespace>, i: int, is_export: bool, j: int) -> NameTarget {
    if is_export {
        nss[i].exports@[j].target
    } else {
        nss[i].locals@[j].target
    }
}

/// The chosen table of one namespace.
pub open spec fn table_of(ns: Namespace, is_export: bool) -> Seq<NameBinding> {
    if is_export {
        ns.exports@
    } else {
        ns.locals@
    }
}

/// Whether a position names a valid target.
pub open spec fn valid_target(nss: Seq<Namespace>, i: int, is_export: bool, j: int) -> bool {
    0 <= i < nss.len() && 0 <= j < table_of(nss[i], is_export).len()
}

/// Every target already terminal keeps exactly its value.
pub open spec fn terminal_preserved(a: Seq<Namespace>, b: Seq<Namespace>) -> bool {
    forall|i: int, e: bool, j: int|
        valid_target(a, i, e, j) && (#[trigger] target_at(a, i, e, j)).status
            != NameTargetStatus::NotResolved ==> target_at(b, i, e, j) == target_at(a, i, e, j)
}

/// The targets currently being processed by the call stack: namespace id,
/// whether the name is an export, and the name itself.
pub open spec fn in_frames(frames: Seq<(usize, bool, String)>, i: int, e: bool, name: Seq<char>) -> bool {
    exists|k: int|
        0 <= k < frames.len() && (#[trigger] frames[k]).0 == i && frames[k].1 == e
            && frames[k].2@ == name
}

/// Targets on the processing stack are untouched: status, references, and
/// queue. Only the one target a dependency originates from may gain
/// references while the stack above it works.
pub open spec fn frames_targets_preserved(
    frames: Seq<(usize, bool, String)>,
    a: Seq<Namespace>,
    b: Seq<Namespace>,
) -> bool {
    forall|i: int, e: bool, j: int|
        valid_target(a, i, e, j) && in_frames(
            frames,
            i,
            e,
            table_of(a[i], is_export_sel(e))[j].name@,
        ) ==> {
            &&& (#[trigger] target_at(b, i, e, j)).status == target_at(a, i, e, j).status
            &&& target_at(b, i, e, j).references@ == target_at(a, i, e, j).references@
            &&& target_at(b, i, e, j).dependencies@ == target_at(a, i, e, j).dependencies@
        }
}

/// Like `frames_targets_preserved`, but the originating target at
/// `(oi, oe, oj)` is exempt: processing a dependency appends references to it.
pub open spec fn frames_targets_preserved_except(
    frames: Seq<(usize, bool, String)>,
    a: Seq<Namespace>,
    b: Seq<Namespace>,
    oi: int,
    oe: bool,
    oj: int,
) -> bool {
    forall|i: int, e: bool, j: int|
        valid_target(a, i, e, j) && in_frames(
            frames,
            i,
            e,
            table_of(a[i], is_export_sel(e))[j].name@,
        ) && !(i == oi && e == oe && j == oj) ==> {
            &&& (#[trigger] target_at(b, i, e, j)).status == target_at(a, i, e, j).status
            &&& target_at(b, i, e, j).references@ == target_at(a, i, e, j).references@
            &&& target_at(b, i, e, j).dependencies@ == target_at(a, i, e, j).dependencies@
        }
}

/// Full preservation of stack targets composes.
pub proof fn lemma_frames_targets_trans(
    frames: Seq<(usize, bool, String)>,
    a: Seq<Namespace>,
    b: Seq<Namespace>,
    c: Seq<Namespace>,
)
    requires
        same_shape(a, b),
        frames_targets_preserved(frames, a, b),
        frames_targets_preserved(frames, b, c),
    ensures
        frames_targets_preserved(frames, a, c),
{
    assert forall|i: int, e: bool, j: int|
        valid_target(a, i, e, j) && in_frames(
            frames,
            i,
            e,
            table_of(a[i], is_export_sel(e))[j].name@,
        ) implies {
        &&& (#[trigger] target_at(c, i, e, j)).status == target_at(a, i, e, j).status
        &&& target_at(c, i, e, j).references@ == target_at(a, i, e, j).references@
        &&& target_at(c, i, e, j).dependencies@ == target_at(a, i, e, j).dependencies@
    } by {
        assert(valid_target(b, i, e, j));
        assert(table_of(b[i], is_export_sel(e))[j].name == table_of(a[i], is_export_sel(e))[j].name);
        assert(target_at(b, i, e, j).status == target_at(a, i, e, j).status);
        assert(target_at(c, i, e, j).status == target_at(b, i, e, j).status);
    }
}

/// Preservation-except-the-origin composes with full preservation on either
/// side.
pub proof fn lemma_frames_except_trans(
    frames: Seq<(usize, bool, String)>,
    a: Seq<Namespace>,
    b: Seq<Namespace>,
    c: Seq<Namespace>,
    oi: int,
    oe: bool,
    oj: int,
)
    requires
        same_shape(a, b),
        frames_targets_preserved_except(frames, a, b, oi, oe, oj),
        frames_targets_preserved_except(frames, b, c, oi, oe, oj),
    ensures
        frames_targets_preserved_except(frames, a, c, oi, oe, oj),
{
    assert forall|i: int, e: bool, j: int|
        valid_target(a, i, e, j) && in_frames(
            frames,
            i,
            e,
            table_of(a[i], is_export_sel(e))[j].name@,
        ) && !(i == oi && e == oe && j == oj) implies {
        &&& (#[trigger] target_at(c, i, e, j)).status == target_at(a, i, e, j).status
        &&& target_at(c, i, e, j).references@ == target_at(a, i, e, j).references@
        &&& target_at(c, i, e, j).dependencies@ == target_at(a, i, e, j).dependencies@
    } by {
        assert(valid_target(b, i, e, j));
        assert(table_of(b[i], is_export_sel(e))[j].name == table_of(a[i], is_export_sel(e))[j].name);
        assert(target_at(b, i, e, j).status == target_at(a, i, e, j).status);
        assert(target_at(c, i, e, j).status == target_at(b, i, e, j).status);
    }
}

/// A change confined to one target preserves every other stack target.
pub proof fn lemma_others_imply_except(
    frames: Seq<(usize, bool, String)>,
    a: Seq<Namespace>,
    b: Seq<Namespace>,
    oi: int,
    oe: bool,
    oj: int,
)
    requires
        others_unchanged(a, b, oi, oe, oj),
    ensures
        frames_targets_preserved_except(frames, a, b, oi, oe, oj),
{
    assert forall|i: int, e: bool, j: int|
        valid_target(a, i, e, j) && in_frames(
            frames,
            i,
            e,
            table_of(a[i], is_export_sel(e))[j].name@,
        ) && !(i == oi && e == oe && j == oj) implies {
        &&& (#[trigger] target_at(b, i, e, j)).status == target_at(a, i, e, j).status
        &&& target_at(b, i, e, j).references@ == target_at(a, i, e, j).references@
        &&& target_at(b, i, e, j).dependencies@ == target_at(a, i, e, j).dependencies@
    } by {
        assert(target_at(b, i, e, j) == target_at(a, i, e, j));
    }
}

/// Targets on the processing stack keep their status (their reference lists
/// may grow while the stack above them works).
pub open spec fn frames_status_preserved(
    frames: Seq<(usize, bool, String)>,
    a: Seq<Namespace>,
    b: Seq<Namespace>,
) -> bool {
    forall|i: int, e: bool, j: int|
        valid_target(a, i, e, j) && in_frames(
            frames,
            i,
            e,
            table_of(a[i], is_export_sel(e))[j].name@,
        ) ==> (#[trigger] target_at(b, i, e, j)).status == target_at(a, i, e, j).status
}

/// Identity on the export selector, used to give the quantifier above a
/// stable trigger skeleton.
pub open spec fn is_export_sel(e: bool) -> bool {
    e
}

/// Every target's status is unchanged.
pub open spec fn statuses_preserved(a: Seq<Namespace>, b: Seq<Namespace>) -> bool {
    forall|i: int, e: bool, j: int|
        valid_target(a, i, e, j) ==> (#[trigger] target_at(b, i, e, j)).status == target_at(
            a,
            i,
            e,
            j,
        ).status
}

/// Every target except the one at `(nsid, is_export, j)` is unchanged.
pub open spec fn others_unchanged(
    a: Seq<Namespace>,
    b: Seq<Namespace>,
    nsid: int,
    is_export: bool,
    j: int,
) -> bool {
    forall|i: int, e: bool, j2: int|
        valid_target(a, i, e, j2) && !(i == nsid && e == is_export && j2 == j) ==> (
        #[trigger] target_at(b, i, e, j2)) == target_at(a, i, e, j2)
}

/// The arena after one target changed in place: the shape is kept, all other
/// targets are untouched, and when the new target is consistent the whole
/// arena stays consistent.
proof fn lemma_one_target_changed(
    pre: Seq<Namespace>,
    post: Seq<Namespace>,
    nsid: int,
    is_export: bool,
    j: int,
    n_decls: nat,
)
    requires
        res_inv(pre, n_decls),
        0 <= nsid < pre.len(),
        post.len() == pre.len(),
        forall|i: int| 0 <= i < pre.len() && i != nsid ==> post[i] == pre[i],
        post[nsid].namespace_id == pre[nsid].namespace_id,
        post[nsid].kind == pre[nsid].kind,
        table_of(post[nsid], !is_export) == table_of(pre[nsid], !is_export),
        0 <= j < table_of(pre[nsid], is_export).len(),
        table_of(post[nsid], is_export).len() == table_of(pre[nsid], is_export).len(),
        forall|j2: int|
            0 <= j2 < table_of(pre[nsid], is_export).len() && j2 != j ==> table_of(
                post[nsid],
                is_export,
            )[j2] == table_of(pre[nsid], is_export)[j2],
        table_of(post[nsid], is_export)[j].name == table_of(pre[nsid], is_export)[j].name,
        table_of(post[nsid], is_export)[j].target.status != NameTargetStatus::NotResolved ==> {
            &&& table_of(post[nsid], is_export)[j].target.status == aggregate_status(
                table_of(post[nsid], is_export)[j].target.references@,
            )
            &&& table_of(post[nsid], is_export)[j].target.dependencies@.len() == 0
        },
        refs_wf(table_of(post[nsid], is_export)[j].target.references@, n_decls),
    ensures
        res_inv(post, n_decls),
        same_shape(pre, post),
        others_unchanged(pre, post, nsid, is_export, j),
{
    assert forall|i: int|
        0 <= i < post.len() implies (#[trigger] post[i]).wf() && post[i].namespace_id == i by {
        if i != nsid {
            assert(post[i] == pre[i]);
        } else {
            assert(names_unique(pre[i].locals@) && names_unique(pre[i].exports@));
            let changed_pre = table_of(pre[i], is_export);
            let changed_post = table_of(post[i], is_export);
            assert(names_unique(changed_post)) by {
                assert forall|p: int, q: int|
                    0 <= p < q < changed_post.len() implies changed_post[p].name@
                    != changed_post[q].name@ by {
                    assert(changed_post[p].name == changed_pre[p].name);
                    assert(changed_post[q].name == changed_pre[q].name);
                    assert(names_unique(changed_pre));
                }
            }
            if is_export {
                assert(post[i].locals@ == pre[i].locals@);
            } else {
                assert(post[i].exports@ == pre[i].exports@);
            }
        }
    }
    assert forall|i: int|
        0 <= i < post.len() implies table_consistent(#[trigger] post[i].locals@, n_decls)
        && table_consistent(post[i].exports@, n_decls) by {
        if i != nsid {
            assert(post[i] == pre[i]);
        } else {
            let changed_pre = table_of(pre[i], is_export);
            let changed_post = table_of(post[i], is_export);
            assert(table_consistent(changed_post, n_decls)) by {
                assert forall|j2: int|
                    0 <= j2 < changed_post.len() implies {
                    &&& ((#[trigger] changed_post[j2].target.status)
                        != NameTargetStatus::NotResolved ==> changed_post[j2].target.status
                        == aggregate_status(changed_post[j2].target.references@)
                        && changed_post[j2].target.dependencies@.len() == 0)
                    &&& refs_wf(changed_post[j2].target.references@, n_decls)
                } by {
                    if j2 != j {
                        assert(changed_post[j2] == changed_pre[j2]);
                        assert(table_consistent(changed_pre, n_decls));
                    }
                }
            }
            if is_export {
                assert(post[i].locals@ == pre[i].locals@);
                assert(table_consistent(pre[i].locals@, n_decls));
            } else {
                assert(post[i].exports@ == pre[i].exports@);
                assert(table_consistent(pre[i].exports@, n_decls));
            }
        }
    }
    assert forall|i: int|
        0 <= i < pre.len() implies {
        &&& (#[trigger] post[i]).namespace_id == pre[i].namespace_id
        &&& post[i].kind == pre[i].kind
        &&& same_names(pre[i].locals@, post[i].locals@)
        &&& same_names(pre[i].exports@, post[i].exports@)
    } by {
        if i != nsid {
            assert(post[i] == pre[i]);
        } else {
            if is_export {
                assert(post[i].locals@ == pre[i].locals@);
                assert forall|j2: int|
                    0 <= j2 < pre[i].exports@.len() implies pre[i].exports@[j2].name == post[i].exports@[j2].name by {
                    if j2 != j {
                        assert(post[i].exports@[j2] == pre[i].exports@[j2]);
                    }
                }
            } else {
                assert(post[i].exports@ == pre[i].exports@);
                assert forall|j2: int|
                    0 <= j2 < pre[i].locals@.len() implies pre[i].locals@[j2].name == post[i].locals@[j2].name by {
                    if j2 != j {
                        assert(post[i].locals@[j2] == pre[i].locals@[j2]);
                    }
                }
            }
        }
    }
    assert forall|i: int, e: bool, j2: int|
        valid_target(pre, i, e, j2) && !(i == nsid && e == is_export && j2 == j) implies (
    #[trigger] target_at(post, i, e, j2)) == target_at(pre, i, e, j2) by {
        if i != nsid {
            assert(post[i] == pre[i]);
        } else {
            if e == is_export {
                assert(table_of(post[i], e)[j2] == table_of(pre[i], e)[j2]);
            } else {
                assert(table_of(post[i], e) == table_of(pre[i], e));
            }
        }
    }
}

/// Find the position of `name` in the chosen table of namespace `nsid`.
fn find_target(nss: &Vec<Namespace>, nsid: usize, is_export: bool, name: &String) -> (r: Option<
    usize,
>)
    requires
        nsid < nss@.len(),
    ensures
        r is Some <==> has_name(table_of(nss@[nsid as int], is_export), name@),
        r is Some ==> 0 <= r.unwrap() < table_of(nss@[nsid as int], is_export).len() && table_of(
            nss@[nsid as int],
            is_export,
        )[r.unwrap() as int].name@ == name@,
{
    let ns = &nss[nsid];
    if is_export {
        find_name(&ns.exports, name)
    } else {
        find_name(&ns.locals, name)
    }
}

/// The status of the target at one position.
fn target_status(nss: &Vec<Namespace>, nsid: usize, is_export: bool, j: usize) -> (r:
    NameTargetStatus)
    requires
        nsid < nss@.len(),
        j < table_of(nss@[nsid as int], is_export).len(),
    ensures
        r == target_at(nss@, nsid as int, is_export, j as int).status,
{
    let ns = &nss[nsid];
    if is_export {
        ns.exports[j].target.status
    } else {
        ns.locals[j].target.status
    }
}

/// Remove and return the front of one target's dependency queue.
fn pop_target_dep(
    nss: &mut Vec<Namespace>,
    nsid: usize,
    is_export: bool,
    j: usize,
    n_decls: Ghost<nat>,
) -> (r: Option<Dependency>)
    requires
        res_inv(old(nss)@, n_decls@),
        nsid < old(nss)@.len(),
        j < table_of(old(nss)@[nsid as int], is_export).len(),
    ensures
        res_inv(final(nss)@, n_decls@),
        same_shape(old(nss)@, final(nss)@),
        statuses_preserved(old(nss)@, final(nss)@),
        terminal_preserved(old(nss)@, final(nss)@),
        others_unchanged(old(nss)@, final(nss)@, nsid as int, is_export, j as int),
        target_at(final(nss)@, nsid as int, is_export, j as int).references@ == target_at(
            old(nss)@,
            nsid as int,
            is_export,
            j as int,
        ).references@,
        match r {
            None => {
                &&& target_at(old(nss)@, nsid as int, is_export, j as int).dependencies@.len()
                    == 0
                &&& all_deps(final(nss)@) == all_deps(old(nss)@)
                &&& target_at(final(nss)@, nsid as int, is_export, j as int).dependencies@
                    == target_at(old(nss)@, nsid as int, is_export, j as int).dependencies@
                &&& target_at(final(nss)@, nsid as int, is_export, j as int).status == target_at(
                    old(nss)@,
                    nsid as int,
                    is_export,
                    j as int,
                ).status
            },
            Some(d) => {
                &&& all_deps(final(nss)@) + 1 == all_deps(old(nss)@)
                &&& d == target_at(old(nss)@, nsid as int, is_export, j as int).dependencies@[0]
                &&& target_at(final(nss)@, nsid as int, is_export, j as int).dependencies@
                    == target_at(old(nss)@, nsid as int, is_export, j as int).dependencies@.drop_first()
                &&& target_at(final(nss)@, nsid as int, is_export, j as int).status == target_at(
                    old(nss)@,
                    nsid as int,
                    is_export,
                    j as int,
                ).status
            },
        },
{
    let ghost pre = nss@;
    let ns = &mut nss[nsid];
    let ghost pre_ns = *ns;
    let r = if is_export {
        let binding = &mut ns.exports[j];
        binding.target.pop_dependency()
    } else {
        let binding = &mut ns.locals[j];
        binding.target.pop_dependency()
    };
    proof {
        let post = nss@;
        assert(post == pre.update(nsid as int, post[nsid as int]));
        let changed_pre = table_of(pre[nsid as int], is_export);
        let changed_post = table_of(post[nsid as int], is_export);
        assert(changed_post == changed_pre.update(j as int, changed_post[j as int]));
        lemma_one_target_changed(pre, post, nsid as int, is_export, j as int, n_decls@);
        lemma_table_deps_update(changed_pre, j as int, changed_post[j as int]);
        lemma_all_deps_update(pre, nsid as int, post[nsid as int]);
        if is_export {
            assert(post[nsid as int].locals@ == pre[nsid as int].locals@);
        } else {
            assert(post[nsid as int].exports@ == pre[nsid as int].exports@);
        }
        assert(statuses_preserved(pre, post)) by {
            assert forall|i: int, e: bool, j2: int|
                valid_target(pre, i, e, j2) implies (#[trigger] target_at(post, i, e, j2)).status
                == target_at(pre, i, e, j2).status by {
                if !(i == nsid as int && e == is_export && j2 == j as int) {
                    assert(target_at(post, i, e, j2) == target_at(pre, i, e, j2));
                }
            }
        }
        assert(terminal_preserved(pre, post)) by {
            assert forall|i: int, e: bool, j2: int|
                valid_target(pre, i, e, j2) && (#[trigger] target_at(pre, i, e, j2)).status
                != NameTargetStatus::NotResolved implies target_at(post, i, e, j2) == target_at(
                pre,
                i,
                e,
                j2,
            ) by {
                if i == nsid as int && e == is_export && j2 == j as int {
                    // a terminal target has an empty queue, so nothing was popped
                    assert(table_consistent(changed_pre, n_decls@));
                    assert(changed_pre[j as int].target.dependencies@.len() == 0);
                } else {
                    assert(target_at(post, i, e, j2) == target_at(pre, i, e, j2));
                }
            }
        }
    }
    r
}

/// Append a reference to a target still being resolved.
fn add_target_reference(
    nss: &mut Vec<Namespace>,
    nsid: usize,
    is_export: bool,
    j: usize,
    reference: Reference,
    n_decls: Ghost<nat>,
)
    requires
        res_inv(old(nss)@, n_decls@),
        nsid < old(nss)@.len(),
        j < table_of(old(nss)@[nsid as int], is_export).len(),
        target_at(old(nss)@, nsid as int, is_export, j as int).status
            == NameTargetStatus::NotResolved,
        spec_ref_status(reference) == NameTargetStatus::FullyResolved ==> spec_ref_declaration_id(
            reference,
        ) < n_decls@,
    ensures
        res_inv(final(nss)@, n_decls@),
        same_shape(old(nss)@, final(nss)@),
        statuses_preserved(old(nss)@, final(nss)@),
        terminal_preserved(old(nss)@, final(nss)@),
        others_unchanged(old(nss)@, final(nss)@, nsid as int, is_export, j as int),
        all_deps(final(nss)@) == all_deps(old(nss)@),
        target_at(final(nss)@, nsid as int, is_export, j as int).references@ == target_at(
            old(nss)@,
            nsid as int,
            is_export,
            j as int,
        ).references@.push(reference),
        target_at(final(nss)@, nsid as int, is_export, j as int).dependencies@ == target_at(
            old(nss)@,
            nsid as int,
            is_export,
            j as int,
        ).dependencies@,
        target_at(final(nss)@, nsid as int, is_export, j as int).status
            == NameTargetStatus::NotResolved,
{
    let ghost pre = nss@;
    let ns = &mut nss[nsid];
    if is_export {
        let binding = &mut ns.exports[j];
        binding.target.add_reference(reference);
    } else {
        let binding = &mut ns.locals[j];
        binding.target.add_reference(reference);
    }
    proof {
        let post = nss@;
        assert(post == pre.update(nsid as int, post[nsid as int]));
        let changed_pre = table_of(pre[nsid as int], is_export);
        let changed_post = table_of(post[nsid as int], is_export);
        assert(changed_post == changed_pre.update(j as int, changed_post[j as int]));
        assert(refs_wf(changed_post[j as int].target.references@, n_decls@)) by {
            let prev = changed_pre[j as int].target.references@;
            assert(refs_wf(prev, n_decls@)) by {
                assert(table_consistent(changed_pre, n_decls@));
            }
            assert forall|k: int|
                0 <= k < prev.push(reference).len() && spec_ref_status(
                #[trigger] prev.push(reference)[k],
            ) == NameTargetStatus::FullyResolved implies spec_ref_declaration_id(
                prev.push(reference)[k],
            ) < n_decls@ by {
                if k < prev.len() {
                    assert(prev.push(reference)[k] == prev[k]);
                } else {
                    assert(prev.push(reference)[k] == reference);
                }
            }
        }
        lemma_one_target_changed(pre, post, nsid as int, is_export, j as int, n_decls@);
        lemma_table_deps_update(changed_pre, j as int, changed_post[j as int]);
        lemma_all_deps_update(pre, nsid as int, post[nsid as int]);
        if is_export {
            assert(post[nsid as int].locals@ == pre[nsid as int].locals@);
        } else {
            assert(post[nsid as int].exports@ == pre[nsid as int].exports@);
        }
        assert(statuses_preserved(pre, post)) by {
            assert forall|i: int, e: bool, j2: int|
                valid_target(pre, i, e, j2) implies (#[trigger] target_at(post, i, e, j2)).status
                == target_at(pre, i, e, j2).status by {
                if !(i == nsid as int && e == is_export && j2 == j as int) {
                    assert(target_at(post, i, e, j2) == target_at(pre, i, e, j2));
                }
            }
        }
        assert(terminal_preserved(pre, post)) by {
            assert forall|i: int, e: bool, j2: int|
                valid_target(pre, i, e, j2) && (#[trigger] target_at(pre, i, e, j2)).status
                != NameTargetStatus::NotResolved implies target_at(post, i, e, j2) == target_at(
                pre,
                i,
                e,
                j2,
            ) by {
                if !(i == nsid as int && e == is_export && j2 == j as int) {
                    assert(target_at(post, i, e, j2) == target_at(pre, i, e, j2));
                }
            }
        }
    }
}

/// Freeze a drained target's status as the aggregate over its references.
fn freeze_target(
    nss: &mut Vec<Namespace>,
    nsid: usize,
    is_export: bool,
    j: usize,
    n_decls: Ghost<nat>,
)
    requires
        res_inv(old(nss)@, n_decls@),
        nsid < old(nss)@.len(),
        j < table_of(old(nss)@[nsid as int], is_export).len(),
        target_at(old(nss)@, nsid as int, is_export, j as int).status
            == NameTargetStatus::NotResolved,
        target_at(old(nss)@, nsid as int, is_export, j as int).dependencies@.len() == 0,
    ensures
        res_inv(final(nss)@, n_decls@),
        same_shape(old(nss)@, final(nss)@),
        terminal_preserved(old(nss)@, final(nss)@),
        others_unchanged(old(nss)@, final(nss)@, nsid as int, is_export, j as int),
        all_deps(final(nss)@) == all_deps(old(nss)@),
        target_at(final(nss)@, nsid as int, is_export, j as int).references@ == target_at(
            old(nss)@,
            nsid as int,
            is_export,
            j as int,
        ).references@,
        target_at(final(nss)@, nsid as int, is_export, j as int).dependencies@.len() == 0,
        target_at(final(nss)@, nsid as int, is_export, j as int).status == aggregate_status(
            target_at(old(nss)@, nsid as int, is_export, j as int).references@,
        ),
        target_at(final(nss)@, nsid as int, is_export, j as int).status
            != NameTargetStatus::NotResolved,
{
    let ghost pre = nss@;
    let ns = &mut nss[nsid];
    if is_export {
        let binding = &mut ns.exports[j];
        binding.target.set_aggregate_status();
    } else {
        let binding = &mut ns.locals[j];
        binding.target.set_aggregate_status();
    }
    proof {
        let post = nss@;
        assert(post == pre.update(nsid as int, post[nsid as int]));
        let changed_pre = table_of(pre[nsid as int], is_export);
        let changed_post = table_of(post[nsid as int], is_export);
        assert(changed_post == changed_pre.update(j as int, changed_post[j as int]));
        crate::namespace::lemma_aggregate_status_terminal(
            changed_pre[j as int].target.references@,
        );
        assert(refs_wf(changed_post[j as int].target.references@, n_decls@)) by {
            assert(table_consistent(changed_pre, n_decls@));
        }
        lemma_one_target_changed(pre, post, nsid as int, is_export, j as int, n_decls@);
        lemma_table_deps_update(changed_pre, j as int, changed_post[j as int]);
        lemma_all_deps_update(pre, nsid as int, post[nsid as int]);
        if is_export {
            assert(post[nsid as int].locals@ == pre[nsid as int].locals@);
        } else {
            assert(post[nsid as int].exports@ == pre[nsid as int].exports@);
        }
        assert(terminal_preserved(pre, post)) by {
            assert forall|i: int, e: bool, j2: int|
                valid_target(pre, i, e, j2) && (#[trigger] target_at(pre, i, e, j2)).status
                != NameTargetStatus::NotResolved implies target_at(post, i, e, j2) == target_at(
                pre,
                i,
                e,
                j2,
            ) by {
                if !(i == nsid as int && e == is_export && j2 == j as int) {
                    assert(target_at(post, i, e, j2) == target_at(pre, i, e, j2));
                }
            }
        }
    }
}

/// Preservation of terminal targets composes.
pub proof fn lemma_terminal_trans(a: Seq<Namespace>, b: Seq<Namespace>, c: Seq<Namespace>)
    requires
        same_shape(a, b),
        terminal_preserved(a, b),
        terminal_preserved(b, c),
    ensures
        terminal_preserved(a, c),
{
    assert forall|i: int, e: bool, j: int|
        valid_target(a, i, e, j) && (#[trigger] target_at(a, i, e, j)).status
        != NameTargetStatus::NotResolved implies target_at(c, i, e, j) == target_at(
        a,
        i,
        e,
        j,
    ) by {
        assert(target_at(b, i, e, j) == target_at(a, i, e, j));
        assert(valid_target(b, i, e, j));
        assert(target_at(c, i, e, j) == target_at(b, i, e, j));
    }
}

/// Preservation of on-stack target statuses composes.
pub proof fn lemma_frames_trans(
    frames: Seq<(usize, bool, String)>,
    a: Seq<Namespace>,
    b: Seq<Namespace>,
    c: Seq<Namespace>,
)
    requires
        same_shape(a, b),
        frames_status_preserved(frames, a, b),
        frames_status_preserved(frames, b, c),
    ensures
        frames_status_preserved(frames, a, c),
{
    assert forall|i: int, e: bool, j: int|
        valid_target(a, i, e, j) && in_frames(
            frames,
            i,
            e,
            table_of(a[i], is_export_sel(e))[j].name@,
        ) implies (#[trigger] target_at(c, i, e, j)).status == target_at(a, i, e, j).status by {
        assert(valid_target(b, i, e, j));
        assert(table_of(b[i], is_export_sel(e))[j].name == table_of(a[i], is_export_sel(e))[j].name);
        assert(target_at(b, i, e, j).status == target_at(a, i, e, j).status);
        assert(target_at(c, i, e, j).status == target_at(b, i, e, j).status);
    }
}

/// All statuses preserved implies both stack-frame and terminal-status
/// stability of statuses.
pub proof fn lemma_statuses_imply_frames(
    frames: Seq<(usize, bool, String)>,
    a: Seq<Namespace>,
    b: Seq<Namespace>,
)
    requires
        statuses_preserved(a, b),
    ensures
        frames_status_preserved(frames, a, b),
{
}

/// The declaration ids of the resolved references, in order.
pub open spec fn spec_resolved_ids(refs: Seq<Reference>) -> Seq<usize>
    decreases refs.len(),
{
    if refs.len() == 0 {
        Seq::empty()
    } else {
        let rest = spec_resolved_ids(refs.drop_last());
        if spec_ref_status(refs.last()) == NameTargetStatus::FullyResolved {
            rest.push(spec_ref_declaration_id(refs.last()))
        } else {
            rest
        }
    }
}

/// Every resolved id drawn from a well-formed reference list is a valid
/// arena index.
pub proof fn lemma_resolved_ids_wf(refs: Seq<Reference>, n: nat)
    requires
        refs_wf(refs, n),
    ensures
        forall|k: int| 0 <= k < spec_resolved_ids(refs).len() ==> spec_resolved_ids(refs)[k] < n,
    decreases refs.len(),
{
    if refs.len() > 0 {
        let rest = refs.drop_last();
        assert(refs_wf(rest, n)) by {
            assert forall|i: int|
                0 <= i < rest.len() && spec_ref_status(#[trigger] rest[i])
                == NameTargetStatus::FullyResolved implies spec_ref_declaration_id(rest[i])
                < n by {
                assert(rest[i] == refs[i]);
            }
        }
        lemma_resolved_ids_wf(rest, n);
        if spec_ref_status(refs.last()) == NameTargetStatus::FullyResolved {
            assert(spec_ref_declaration_id(refs[refs.len() - 1]) < n);
        }
        assert forall|k: int|
            0 <= k < spec_resolved_ids(refs).len() implies spec_resolved_ids(refs)[k] < n by {
            let ids = spec_resolved_ids(refs);
            let rest_ids = spec_resolved_ids(rest);
            if k < rest_ids.len() {
                assert(ids[k] == rest_ids[k]);
            }
        }
    }
}

/// The declaration id a resolved reference carries.
fn ref_declaration_id(r: &Reference) -> (id: usize)
    ensures
        id == spec_ref_declaration_id(*r),
{
    match r {
        Reference::RemoteName { resolved_declaration_id, .. } => *resolved_declaration_id,
        Reference::RemoteNamespace { resolved_declaration_id, .. } => *resolved_declaration_id,
        Reference::LocalName { resolved_declaration_id, .. } => *resolved_declaration_id,
        Reference::LocalDeclaration { resolved_declaration_id } => *resolved_declaration_id,
        _ => 0,
    }
}

/// Collect the declaration ids of one target's resolved references, in order.
fn resolved_ids(nss: &Vec<Namespace>, nsid: usize, is_export: bool, j: usize) -> (r: Vec<usize>)
    requires
        nsid < nss@.len(),
        j < table_of(nss@[nsid as int], is_export).len(),
    ensures
        r@ == spec_resolved_ids(target_at(nss@, nsid as int, is_export, j as int).references@),
{
    let ns = &nss[nsid];
    let refs: &Vec<Reference> = if is_export {
        &ns.exports[j].target.references
    } else {
        &ns.locals[j].target.references
    };
    let mut r: Vec<usize> = Vec::new();
    let mut i: usize = 0;
    while i < refs.len()
        invariant
            i <= refs@.len(),
            r@ == spec_resolved_ids(refs@.subrange(0, i as int)),
            refs@ == target_at(nss@, nsid as int, is_export, j as int).references@,
        decreases refs@.len() - i,
    {
        proof {
            assert(refs@.subrange(0, i + 1).drop_last() == refs@.subrange(0, i as int));
            assert(refs@.subrange(0, i + 1).last() == refs@[i as int]);
        }
        let st = refs[i].status();
        if matches!(st, NameTargetStatus::FullyResolved) {
            let id = ref_declaration_id(&refs[i]);
            r.push(id);
        }
        i = i + 1;
    }
    proof {
        assert(refs@.subrange(0, refs@.len() as int) == refs@);
    }
    r
}

/// Find the arena entry that is the namespace declaration of `nsid`.
fn find_namespace_decl(declarations: &Vec<NsDeclaration>, nsid: usize) -> (r: Option<usize>)
    ensures
        r is Some <==> has_namespace_decl(declarations@, nsid),
        r is Some ==> 0 <= r.unwrap() < declarations@.len() && (declarations@[r.unwrap() as int]
            matches NsDeclaration::Namespace { namespace_id, .. } && namespace_id == nsid),
{
    let mut i: usize = 0;
    while i < declarations.len()
        invariant
            i <= declarations@.len(),
            forall|d: int|
                0 <= d < i ==> !(#[trigger] declarations@[d] matches NsDeclaration::Namespace {
                    namespace_id,
                    ..
                } && namespace_id == nsid),
        decreases declarations@.len() - i,
    {
        let hit = match &declarations[i] {
            NsDeclaration::Namespace { namespace_id, .. } => *namespace_id == nsid,
            _ => false,
        };
        if hit {
            return Some(i);
        }
        i = i + 1;
    }
    None
}

/// Composition of one resolution step after another.
proof fn lemma_step_trans(
    frames: Seq<(usize, bool, String)>,
    s0: Seq<Namespace>,
    s1: Seq<Namespace>,
    s2: Seq<Namespace>,
)
    requires
        same_shape(s0, s1),
        terminal_preserved(s0, s1),
        frames_status_preserved(frames, s0, s1),
        same_shape(s1, s2),
        terminal_preserved(s1, s2),
        frames_status_preserved(frames, s1, s2),
    ensures
        same_shape(s0, s2),
        terminal_preserved(s0, s2),
        frames_status_preserved(frames, s0, s2),
{
    lemma_same_shape_trans(s0, s1, s2);
    lemma_terminal_trans(s0, s1, s2);
    lemma_frames_trans(frames, s0, s1, s2);
}

/// Whether the target `(ns, is_export, name)` is on the processing stack.
fn frames_contains(
    frames: &Vec<(usize, bool, String)>,
    ns: usize,
    is_export: bool,
    name: &String,
) -> (r: bool)
    ensures
        r == in_frames(frames@, ns as int, is_export, name@),
{
    let mut k: usize = 0;
    while k < frames.len()
        invariant
            k <= frames@.len(),
            forall|m: int|
                0 <= m < k ==> !((#[trigger] frames@[m]).0 == ns && frames@[m].1 == is_export
                    && frames@[m].2@ == name@),
        decreases frames@.len() - k,
    {
        if frames[k].0 == ns && frames[k].1 == is_export && frames[k].2.eq(name) {
            proof {
                assert(frames@[k as int].0 == ns && frames@[k as int].1 == is_export
                    && frames@[k as int].2@ == name@);
            }
            return true;
        }
        k = k + 1;
    }
    false
}

/// The remote-name references a resolved export contributes to an importing
/// or forwarding target: one per declaration merged under the name, in the
/// target's order.
pub open spec fn remote_refs(module: String, export_name: String, ids: Seq<usize>) -> Seq<
    Reference,
> {
    Seq::new(
        ids.len(),
        |i: int| Reference::RemoteName {
            module: module,
            export_name: export_name,
            resolved_declaration_id: ids[i],
        },
    )
}

/// The local-name references a resolved local contributes to an export
/// target: one per declaration merged under the name.
pub open spec fn local_refs(name: String, ids: Seq<usize>) -> Seq<Reference> {
    Seq::new(
        ids.len(),
        |i: int| Reference::LocalName { name: name, resolved_declaration_id: ids[i] },
    )
}

/// The namespace id of a successfully parsed module, if the registry has one
/// under this path.
pub open spec fn module_success_ns(mods: Seq<(String, ModuleRef)>, m: Seq<char>) -> Option<usize> {
    if has_module(mods, m) && mods[module_index_of(mods, m)].1 is Success {
        Some(mods[module_index_of(mods, m)].1->Success_namespace_id)
    } else {
        None
    }
}

/// What processing one remote-name dependency (an imported name, a forwarded
/// name, or a pure-forward replacement) does to its originating target and to
/// the diagnostics: a module that never parsed yields `MissingModule` with a
/// diagnostic at the module string; a parsed module without the export yields
/// `MissingExport` with a diagnostic at the name; a target already on the
/// processing stack yields `CircularRemote` with a diagnostic; otherwise the
/// target's terminal status decides — a resolved target contributes one
/// `RemoteName` per resolved reference it holds, a dangling or empty target
/// one `EmptyRemote` (silently), and a circular target one `CircularRemote`
/// with a diagnostic.
pub open spec fn remote_name_outcome(
    pre: ResolutionProcess,
    post: ResolutionProcess,
    frames: Seq<(usize, bool, String)>,
    oi: int,
    oe: bool,
    oj: int,
    module: String,
    rname: String,
    module_loc: FileRange,
    name_loc: FileRange,
) -> bool {
    let refs0 = target_at(pre.namespaces@, oi, oe, oj).references@;
    let refs1 = target_at(post.namespaces@, oi, oe, oj).references@;
    let d0 = pre.diagnostics@;
    let d1 = post.diagnostics@;
    match module_success_ns(pre.modules@, module@) {
        Option::None => {
            &&& refs1 == refs0.push(
                Reference::MissingModule { module: module, export_name: Some(rname) },
            )
            &&& d1.len() == d0.len() + 1
            &&& d1.drop_last() == d0
            &&& d1.last().location == module_loc
            &&& d1.last().level == DiagnosticLevel::Error
        },
        Option::Some(t) => {
            if !has_name(table_of(pre.namespaces@[t as int], true), rname@) {
                &&& refs1 == refs0.push(
                    Reference::MissingExport { module: module, export_name: rname },
                )
                &&& d1.len() == d0.len() + 1
                &&& d1.drop_last() == d0
                &&& d1.last().location == name_loc
                &&& d1.last().level == DiagnosticLevel::Error
            } else if in_frames(frames, t as int, true, rname@) {
                &&& refs1 == refs0.push(
                    Reference::CircularRemote { module: module, export_name: rname },
                )
                &&& d1.len() == d0.len() + 1
                &&& d1.drop_last() == d0
                &&& d1.last().location == name_loc
                &&& d1.last().level == DiagnosticLevel::Error
            } else {
                let tj = index_of(table_of(pre.namespaces@[t as int], true), rname@);
                let tgt = target_at(post.namespaces@, t as int, true, tj);
                match tgt.status {
                    NameTargetStatus::FullyResolved => refs1 == refs0 + remote_refs(
                        module,
                        rname,
                        spec_resolved_ids(tgt.references@),
                    ) && d1.len() >= d0.len(),
                    NameTargetStatus::Dangling | NameTargetStatus::Empty => refs1 == refs0.push(
                        Reference::EmptyRemote { module: module, export_name: rname },
                    ) && d1.len() >= d0.len(),
                    NameTargetStatus::Circular => refs1 == refs0.push(
                        Reference::CircularRemote { module: module, export_name: rname },
                    ) && d1.len() >= d0.len() + 1,
                    NameTargetStatus::NotResolved => false,
                }
            }
        },
    }
}

/// What processing one exported-name dependency does: a missing local yields
/// `MissingLocal` with a diagnostic; a local already on the processing stack
/// yields `CircularLocal` with a diagnostic; otherwise the local's terminal
/// status decides — resolved contributes one `LocalName` per resolved
/// reference, dangling or empty one `EmptyLocal`, circular one `CircularLocal`
/// (propagation within one module stays silent).
pub open spec fn local_name_outcome(
    pre: ResolutionProcess,
    post: ResolutionProcess,
    frames: Seq<(usize, bool, String)>,
    oi: int,
    oe: bool,
    oj: int,
    lname: String,
    lname_loc: FileRange,
) -> bool {
    let refs0 = target_at(pre.namespaces@, oi, oe, oj).references@;
    let refs1 = target_at(post.namespaces@, oi, oe, oj).references@;
    let d0 = pre.diagnostics@;
    let d1 = post.diagnostics@;
    if !has_name(pre.namespaces@[oi].locals@, lname@) {
        &&& refs1 == refs0.push(Reference::MissingLocal { local_name: lname })
        &&& d1.len() == d0.len() + 1
        &&& d1.drop_last() == d0
        &&& d1.last().location == lname_loc
        &&& d1.last().level == DiagnosticLevel::Error
    } else if in_frames(frames, oi, false, lname@) {
        &&& refs1 == refs0.push(Reference::CircularLocal { local_name: lname })
        &&& d1.len() == d0.len() + 1
        &&& d1.drop_last() == d0
        &&& d1.last().location == lname_loc
        &&& d1.last().level == DiagnosticLevel::Error
    } else {
        let tj = index_of(pre.namespaces@[oi].locals@, lname@);
        let tgt = target_at(post.namespaces@, oi, false, tj);
        match tgt.status {
            NameTargetStatus::FullyResolved => refs1 == refs0 + local_refs(
                lname,
                spec_resolved_ids(tgt.references@),
            ) && d1.len() >= d0.len(),
            NameTargetStatus::Dangling | NameTargetStatus::Empty => refs1 == refs0.push(
                Reference::EmptyLocal { local_name: lname },
            ) && d1.len() >= d0.len(),
            NameTargetStatus::Circular => refs1 == refs0.push(
                Reference::CircularLocal { local_name: lname },
            ) && d1.len() >= d0.len(),
            NameTargetStatus::NotResolved => false,
        }
    }
}

/// What processing a whole-namespace dependency does: a module that never
/// parsed yields `MissingModule` with a diagnostic; a parsed module yields one
/// `RemoteNamespace` reference carrying the arena id of the target module's
/// namespace declaration, silently.
pub open spec fn namespace_dep_outcome(
    pre: ResolutionProcess,
    post: ResolutionProcess,
    oi: int,
    oe: bool,
    oj: int,
    module: String,
    module_loc: FileRange,
) -> bool {
    let refs0 = target_at(pre.namespaces@, oi, oe, oj).references@;
    let refs1 = target_at(post.namespaces@, oi, oe, oj).references@;
    let d0 = pre.diagnostics@;
    let d1 = post.diagnostics@;
    match module_success_ns(pre.modules@, module@) {
        Option::None => {
            &&& refs1 == refs0.push(
                Reference::MissingModule { module: module, export_name: Option::None },
            )
            &&& d1.len() == d0.len() + 1
            &&& d1.drop_last() == d0
            &&& d1.last().location == module_loc
            &&& d1.last().level == DiagnosticLevel::Error
        },
        Option::Some(t) => {
            &&& refs1.len() == refs0.len() + 1
            &&& refs1.drop_last() == refs0
            &&& (refs1.last() matches Reference::RemoteNamespace {
                module: m2,
                resolved_declaration_id: d,
            } && m2 == module && d < pre.declarations@.len() && (pre.declarations@[d as int]
                matches NsDeclaration::Namespace { namespace_id, .. } && namespace_id == t))
            &&& d1 == d0
        },
    }
}

/// Every diagnostic is a per-name `Error` or the advisory self-forward
/// `Warning`: the resolution pass never emits anything else, and in
/// particular no fatal.
pub open spec fn diags_leveled(diags: Seq<Diagnostic>) -> bool {
    forall|d: int|
        0 <= d < diags.len() ==> (#[trigger] diags[d]).level == DiagnosticLevel::Error || diags[d].level
            == DiagnosticLevel::Warning
}

/// The running state of the resolution pass. Besides the whole-pass entry
/// point `resolve_dependencies`, the pass exposes its single steps —
/// `process_name` and `process_dependency` with its three kind-specific
/// workers — whose contracts carry the exact per-dependency semantics: which
/// reference each dependency yields and when a diagnostic is emitted.
pub struct ResolutionProcess {
    pub modules: Vec<(String, ModuleRef)>,
    pub declarations: Vec<NsDeclaration>,
    pub namespaces: Vec<Namespace>,
    pub diagnostics: Vec<Diagnostic>,
}

impl ResolutionProcess {
    /// The pass invariant.
    pub open spec fn inv(&self) -> bool {
        &&& module_paths_unique(self.modules@)
        &&& modules_wf(self.modules@, self.namespaces@.len() as nat, self.declarations@)
        &&& declarations_wf(self.declarations@, self.namespaces@.len() as nat)
        &&& res_inv(self.namespaces@, self.declarations@.len() as nat)
    }

    /// The common promise of every resolution step: the invariant holds, the
    /// registries keep their shape, terminal targets keep their value, and
    /// targets on the given stack keep their status.
    pub open spec fn stepped(
        &self,
        pre: Self,
        frames: Seq<(usize, bool, String)>,
    ) -> bool {
        &&& self.inv()
        &&& self.modules == pre.modules
        &&& self.declarations == pre.declarations
        &&& same_shape(pre.namespaces@, self.namespaces@)
        &&& terminal_preserved(pre.namespaces@, self.namespaces@)
        &&& frames_status_preserved(frames, pre.namespaces@, self.namespaces@)
        &&& all_deps(self.namespaces@) <= all_deps(pre.namespaces@)
        &&& self.diagnostics@.len() >= pre.diagnostics@.len()
        &&& (diags_leveled(pre.diagnostics@) ==> diags_leveled(self.diagnostics@))
    }

    /// Append one diagnostic at level `Error`.
    fn add_diagnostic(&mut self, message: String, location: FileRange)
        ensures
            final(self).modules == old(self).modules,
            final(self).declarations == old(self).declarations,
            final(self).namespaces == old(self).namespaces,
            final(self).diagnostics@.len() == old(self).diagnostics@.len() + 1,
            final(self).diagnostics@.drop_last() == old(self).diagnostics@,
            final(self).diagnostics@.last().location == location,
            final(self).diagnostics@.last().level == DiagnosticLevel::Error,
            diags_leveled(old(self).diagnostics@) ==> diags_leveled(final(self).diagnostics@),
            old(self).inv() ==> final(self).inv(),
    {
        self.diagnostics.push(Diagnostic::new(message, location));
        proof {
            assert(self.diagnostics@.drop_last() =~= old(self).diagnostics@);
            if diags_leveled(old(self).diagnostics@) {
                assert forall|d: int|
                    0 <= d < self.diagnostics@.len() implies (#[trigger] self.diagnostics@[d]).level
                    == DiagnosticLevel::Error || self.diagnostics@[d].level
                    == DiagnosticLevel::Warning by {
                    if d < old(self).diagnostics@.len() {
                        assert(self.diagnostics@.drop_last()[d] == self.diagnostics@[d]);
                    }
                }
            }
        }
    }

    /// Append a reference to the originating target of the dependency being
    /// processed.
    fn add_origin_reference(
        &mut self,
        origin_ns: usize,
        origin_is_export: bool,
        origin_j: usize,
        reference: Reference,
    )
        requires
            old(self).inv(),
            origin_ns < old(self).namespaces@.len(),
            origin_j < table_of(old(self).namespaces@[origin_ns as int], origin_is_export).len(),
            target_at(
                old(self).namespaces@,
                origin_ns as int,
                origin_is_export,
                origin_j as int,
            ).status == NameTargetStatus::NotResolved,
            spec_ref_status(reference) == NameTargetStatus::FullyResolved
                ==> spec_ref_declaration_id(reference) < old(self).declarations@.len(),
        ensures
            final(self).inv(),
            final(self).modules == old(self).modules,
            final(self).declarations == old(self).declarations,
            same_shape(old(self).namespaces@, final(self).namespaces@),
            terminal_preserved(old(self).namespaces@, final(self).namespaces@),
            statuses_preserved(old(self).namespaces@, final(self).namespaces@),
            all_deps(final(self).namespaces@) == all_deps(old(self).namespaces@),
            others_unchanged(
                old(self).namespaces@,
                final(self).namespaces@,
                origin_ns as int,
                origin_is_export,
                origin_j as int,
            ),
            target_at(
                final(self).namespaces@,
                origin_ns as int,
                origin_is_export,
                origin_j as int,
            ).references@ == target_at(
                old(self).namespaces@,
                origin_ns as int,
                origin_is_export,
                origin_j as int,
            ).references@.push(reference),
            target_at(
                final(self).namespaces@,
                origin_ns as int,
                origin_is_export,
                origin_j as int,
            ).dependencies@ == target_at(
                old(self).namespaces@,
                origin_ns as int,
                origin_is_export,
                origin_j as int,
            ).dependencies@,
            final(self).diagnostics == old(self).diagnostics,
            target_at(
                final(self).namespaces@,
                origin_ns as int,
                origin_is_export,
                origin_j as int,
            ).status == NameTargetStatus::NotResolved,
    {
        let n: Ghost<nat> = Ghost(self.declarations@.len() as nat);
        add_target_reference(
            &mut self.namespaces,
            origin_ns,
            origin_is_export,
            origin_j,
            reference,
            n,
        );
    }

    /// Process one remote-name dependency: an imported name, a forwarded
    /// name, or a pure-forward replacement. The target is the export `rname`
    /// of the module at path `module`; the outcome is recorded as a reference
    /// on the originating target, exactly as `remote_name_outcome` states.
    /// Together with `process_dependency` and `process_name`, this is the
    /// public single-step interface of the resolution engine.
    #[verifier::rlimit(100)]
    pub fn process_remote_name(
        &mut self,
        origin_ns: usize,
        origin_is_export: bool,
        origin_j: usize,
        module: &String,
        rname: &String,
        module_loc: &FileRange,
        name_loc: &FileRange,
        frames: &mut Vec<(usize, bool, String)>,
    )
        requires
            old(self).inv(),
            origin_ns < old(self).namespaces@.len(),
            origin_j < table_of(old(self).namespaces@[origin_ns as int], origin_is_export).len(),
            target_at(
                old(self).namespaces@,
                origin_ns as int,
                origin_is_export,
                origin_j as int,
            ).status == NameTargetStatus::NotResolved,
            in_frames(
                old(frames)@,
                origin_ns as int,
                origin_is_export,
                table_of(old(self).namespaces@[origin_ns as int], origin_is_export)[origin_j as int].name@,
            ),
        ensures
            final(self).stepped(*old(self), old(frames)@),
            final(frames)@ == old(frames)@,
            frames_targets_preserved_except(
                old(frames)@,
                old(self).namespaces@,
                final(self).namespaces@,
                origin_ns as int,
                origin_is_export,
                origin_j as int,
            ),
            remote_name_outcome(
                *old(self),
                *final(self),
                old(frames)@,
                origin_ns as int,
                origin_is_export,
                origin_j as int,
                *module,
                *rname,
                *module_loc,
                *name_loc,
            ),
        decreases all_deps(self.namespaces@), 1nat,
    {
        let ghost s0 = old(self).namespaces@;
        // dangling module check
        let module_entry = find_module(&self.modules, module);
        let mut target_ns: usize = 0;
        let mut is_success: bool = false;
        match module_entry {
            Some(k) => {
                match self.modules[k].1 {
                    ModuleRef::Success { namespace_id, .. } => {
                        target_ns = namespace_id;
                        is_success = true;
                        proof {
                            assert(self.modules@[k as int].1 matches ModuleRef::Success {
                                namespace_id: n2,
                                ..
                            } && n2 == target_ns);
                            assert(target_ns < self.namespaces@.len());
                            assert(k as int == module_index_of(self.modules@, module@));
                            assert(module_success_ns(self.modules@, module@) == Some(target_ns));
                        }
                    },
                    _ => {
                        proof {
                            assert(k as int == module_index_of(self.modules@, module@));
                            assert(module_success_ns(self.modules@, module@) is None);
                        }
                    },
                }
            },
            None => {
                proof {
                    assert(module_success_ns(self.modules@, module@) is None);
                }
            },
        }
        if !is_success {
            proof {
                assert(module_success_ns(old(self).modules@, module@) is None);
            }
            let reference = Reference::MissingModule {
                module: module.clone(),
                export_name: Some(rname.clone()),
            };
            self.add_origin_reference(origin_ns, origin_is_export, origin_j, reference);
            proof {
                lemma_statuses_imply_frames(old(frames)@, s0, self.namespaces@);
                lemma_others_imply_except(
                    old(frames)@,
                    s0,
                    self.namespaces@,
                    origin_ns as int,
                    origin_is_export,
                    origin_j as int,
                );
                assert(target_at(
                    self.namespaces@,
                    origin_ns as int,
                    origin_is_export,
                    origin_j as int,
                ).references@.drop_last() =~= target_at(
                    s0,
                    origin_ns as int,
                    origin_is_export,
                    origin_j as int,
                ).references@);
            }
            let mut msg = "Module \"".to_owned();
            msg.append(module.as_str());
            msg.append("\" does not exist");
            self.add_diagnostic(msg, module_loc.duplicate());
            return ;
        }
        // dangling export check
        let found = find_target(&self.namespaces, target_ns, true, rname);
        let j2 = match found {
            Some(j2) => j2,
            None => {
                let reference = Reference::MissingExport {
                    module: module.clone(),
                    export_name: rname.clone(),
                };
                self.add_origin_reference(origin_ns, origin_is_export, origin_j, reference);
                proof {
                    lemma_statuses_imply_frames(old(frames)@, s0, self.namespaces@);
                    lemma_others_imply_except(
                        old(frames)@,
                        s0,
                        self.namespaces@,
                        origin_ns as int,
                        origin_is_export,
                        origin_j as int,
                    );
                }
                let mut msg = "Module \"".to_owned();
                msg.append(module.as_str());
                msg.append("\" has no exported member \"");
                msg.append(rname.as_str());
                msg.append("\"");
                self.add_diagnostic(msg, name_loc.duplicate());
                return ;
            },
        };
        // circularity check: the target is already being processed below us
        if frames_contains(frames, target_ns, true, rname) {
            let reference = Reference::CircularRemote {
                module: module.clone(),
                export_name: rname.clone(),
            };
            self.add_origin_reference(origin_ns, origin_is_export, origin_j, reference);
            proof {
                lemma_statuses_imply_frames(old(frames)@, s0, self.namespaces@);
                lemma_others_imply_except(
                    old(frames)@,
                    s0,
                    self.namespaces@,
                    origin_ns as int,
                    origin_is_export,
                    origin_j as int,
                );
            }
            let mut msg = "Dependency on export \"".to_owned();
            msg.append(rname.as_str());
            msg.append("\" from module \"");
            msg.append(module.as_str());
            msg.append("\" is circular");
            self.add_diagnostic(msg, name_loc.duplicate());
            return ;
        }
        // the found position is the unique binding of the export name, and it
        // is not the originating target, which is on the stack
        proof {
            let table = table_of(s0[target_ns as int], true);
            let tj = index_of(table, rname@);
            assert(table[tj].name@ == rname@);
            assert(s0[target_ns as int].wf());
            assert(j2 as int == tj);
            if target_ns as int == origin_ns as int && origin_is_export && origin_j == j2 {
                assert(in_frames(old(frames)@, target_ns as int, true, rname@));
            }
        }
        // traverse to the target, then propagate by its aggregate status
        let st = target_status(&self.namespaces, target_ns, true, j2);
        if matches!(st, NameTargetStatus::NotResolved) {
            self.process_name(target_ns, true, rname, frames);
        }
        let ghost s1 = self.namespaces@;
        let ghost d1 = self.diagnostics@;
        proof {
            lemma_same_shape_refl(s0);
            assert(frames_targets_preserved(old(frames)@, s0, s1));
            assert(frames_targets_preserved_except(
                old(frames)@,
                s0,
                s1,
                origin_ns as int,
                origin_is_export,
                origin_j as int,
            ));
            // the origin sits on the stack, so the traversal left it alone
            assert(target_at(s1, origin_ns as int, origin_is_export, origin_j as int).references@
                == target_at(s0, origin_ns as int, origin_is_export, origin_j as int).references@);
            assert(origin_j < table_of(self.namespaces@[origin_ns as int], origin_is_export).len());
            assert(target_at(
                self.namespaces@,
                origin_ns as int,
                origin_is_export,
                origin_j as int,
            ).status == NameTargetStatus::NotResolved);
            assert(table_of(s1[target_ns as int], true)[j2 as int].name@ == rname@) by {
                assert(same_names(table_of(s0[target_ns as int], true), table_of(s1[target_ns as int], true)));
            }
        }
        let st2 = target_status(&self.namespaces, target_ns, true, j2);
        proof {
            assert(st2 != NameTargetStatus::NotResolved);
        }
        match st2 {
            NameTargetStatus::FullyResolved => {
                // one resolved reference per declaration merged under the name
                let ids = resolved_ids(&self.namespaces, target_ns, true, j2);
                proof {
                    assert(table_consistent(
                        self.namespaces@[target_ns as int].exports@,
                        self.declarations@.len() as nat,
                    ));
                    lemma_resolved_ids_wf(
                        target_at(self.namespaces@, target_ns as int, true, j2 as int).references@,
                        self.declarations@.len() as nat,
                    );
                }
                let mut i: usize = 0;
                while i < ids.len()
                    invariant
                        s0 == old(self).namespaces@,
                        self.stepped(*old(self), old(frames)@),
                        frames_targets_preserved_except(
                            old(frames)@,
                            s0,
                            self.namespaces@,
                            origin_ns as int,
                            origin_is_export,
                            origin_j as int,
                        ),
                        origin_ns < self.namespaces@.len(),
                        origin_j < table_of(
                            self.namespaces@[origin_ns as int],
                            origin_is_export,
                        ).len(),
                        target_at(
                            self.namespaces@,
                            origin_ns as int,
                            origin_is_export,
                            origin_j as int,
                        ).status == NameTargetStatus::NotResolved,
                        target_at(
                            self.namespaces@,
                            origin_ns as int,
                            origin_is_export,
                            origin_j as int,
                        ).references@ == target_at(
                            s0,
                            origin_ns as int,
                            origin_is_export,
                            origin_j as int,
                        ).references@ + remote_refs(*module, *rname, ids@.subrange(0, i as int)),
                        target_ns < self.namespaces@.len(),
                        j2 < table_of(self.namespaces@[target_ns as int], true).len(),
                        !(target_ns as int == origin_ns as int && origin_is_export && origin_j
                            == j2),
                        target_at(self.namespaces@, target_ns as int, true, j2 as int) == target_at(
                            s1,
                            target_ns as int,
                            true,
                            j2 as int,
                        ),
                        ids@ == spec_resolved_ids(
                            target_at(s1, target_ns as int, true, j2 as int).references@,
                        ),
                        self.diagnostics@ == d1,
                        d1.len() >= old(self).diagnostics@.len(),
                        forall|k: int| 0 <= k < ids@.len() ==> ids@[k] < self.declarations@.len(),
                        i <= ids@.len(),
                    decreases ids@.len() - i,
                {
                    let ghost sp = self.namespaces@;
                    let reference = Reference::RemoteName {
                        module: module.clone(),
                        export_name: rname.clone(),
                        resolved_declaration_id: ids[i],
                    };
                    self.add_origin_reference(origin_ns, origin_is_export, origin_j, reference);
                    proof {
                        lemma_statuses_imply_frames(old(frames)@, sp, self.namespaces@);
                        lemma_step_trans(old(frames)@, s0, sp, self.namespaces@);
                        lemma_others_imply_except(
                            old(frames)@,
                            sp,
                            self.namespaces@,
                            origin_ns as int,
                            origin_is_export,
                            origin_j as int,
                        );
                        lemma_frames_except_trans(
                            old(frames)@,
                            s0,
                            sp,
                            self.namespaces@,
                            origin_ns as int,
                            origin_is_export,
                            origin_j as int,
                        );
                        assert(target_at(
                            self.namespaces@,
                            origin_ns as int,
                            origin_is_export,
                            origin_j as int,
                        ).references@ =~= target_at(
                            s0,
                            origin_ns as int,
                            origin_is_export,
                            origin_j as int,
                        ).references@ + remote_refs(*module, *rname, ids@.subrange(0, i + 1)));
                        assert(target_at(self.namespaces@, target_ns as int, true, j2 as int)
                            == target_at(sp, target_ns as int, true, j2 as int));
                    }
                    i = i + 1;
                }
                proof {
                    assert(ids@.subrange(0, ids@.len() as int) == ids@);
                }
            },
            NameTargetStatus::Dangling | NameTargetStatus::Empty => {
                // the chain was resolvable but ends without a declaration;
                // the diagnostic was already emitted where it originated
                let ghost sp = self.namespaces@;
                let reference = Reference::EmptyRemote {
                    module: module.clone(),
                    export_name: rname.clone(),
                };
                self.add_origin_reference(origin_ns, origin_is_export, origin_j, reference);
                proof {
                    lemma_statuses_imply_frames(old(frames)@, sp, self.namespaces@);
                    lemma_step_trans(old(frames)@, s0, sp, self.namespaces@);
                    lemma_others_imply_except(
                        old(frames)@,
                        sp,
                        self.namespaces@,
                        origin_ns as int,
                        origin_is_export,
                        origin_j as int,
                    );
                    lemma_frames_except_trans(
                        old(frames)@,
                        s0,
                        sp,
                        self.namespaces@,
                        origin_ns as int,
                        origin_is_export,
                        origin_j as int,
                    );
                    assert(target_at(self.namespaces@, target_ns as int, true, j2 as int)
                        == target_at(sp, target_ns as int, true, j2 as int));
                }
            },
            NameTargetStatus::Circular => {
                // a circular target propagates across the module boundary
                // with a diagnostic of its own, so each module that takes
                // part in the cycle reports it once; propagation between a
                // module's own locals and exports stays silent
                let ghost sp = self.namespaces@;
                let reference = Reference::CircularRemote {
                    module: module.clone(),
                    export_name: rname.clone(),
                };
                self.add_origin_reference(origin_ns, origin_is_export, origin_j, reference);
                proof {
                    lemma_statuses_imply_frames(old(frames)@, sp, self.namespaces@);
                    lemma_step_trans(old(frames)@, s0, sp, self.namespaces@);
                    lemma_others_imply_except(
                        old(frames)@,
                        sp,
                        self.namespaces@,
                        origin_ns as int,
                        origin_is_export,
                        origin_j as int,
                    );
                    lemma_frames_except_trans(
                        old(frames)@,
                        s0,
                        sp,
                        self.namespaces@,
                        origin_ns as int,
                        origin_is_export,
                        origin_j as int,
                    );
                    assert(target_at(self.namespaces@, target_ns as int, true, j2 as int)
                        == target_at(sp, target_ns as int, true, j2 as int));
                }
                let mut msg = "Dependency on export \"".to_owned();
                msg.append(rname.as_str());
                msg.append("\" from module \"");
                msg.append(module.as_str());
                msg.append("\" is circular");
                self.add_diagnostic(msg, name_loc.duplicate());
            },
            NameTargetStatus::NotResolved => {
                proof {
                    assert(false);
                }
            },
        }
    }

    /// Process a whole-namespace dependency: an imported or forwarded module
    /// namespace. These never need recursive resolution — the target module's
    /// namespace, if the module resolved successfully, trivially exists — so
    /// they cannot be circular.
    pub fn process_namespace_dep(
        &mut self,
        origin_ns: usize,
        origin_is_export: bool,
        origin_j: usize,
        module: &String,
        module_loc: &FileRange,
    )
        requires
            old(self).inv(),
            origin_ns < old(self).namespaces@.len(),
            origin_j < table_of(old(self).namespaces@[origin_ns as int], origin_is_export).len(),
            target_at(
                old(self).namespaces@,
                origin_ns as int,
                origin_is_export,
                origin_j as int,
            ).status == NameTargetStatus::NotResolved,
        ensures
            final(self).inv(),
            final(self).modules == old(self).modules,
            final(self).declarations == old(self).declarations,
            same_shape(old(self).namespaces@, final(self).namespaces@),
            terminal_preserved(old(self).namespaces@, final(self).namespaces@),
            statuses_preserved(old(self).namespaces@, final(self).namespaces@),
            others_unchanged(
                old(self).namespaces@,
                final(self).namespaces@,
                origin_ns as int,
                origin_is_export,
                origin_j as int,
            ),
            all_deps(final(self).namespaces@) == all_deps(old(self).namespaces@),
            diags_leveled(old(self).diagnostics@) ==> diags_leveled(final(self).diagnostics@),
            namespace_dep_outcome(
                *old(self),
                *final(self),
                origin_ns as int,
                origin_is_export,
                origin_j as int,
                *module,
                *module_loc,
            ),
    {
        let module_entry = find_module(&self.modules, module);
        let mut target_ns: usize = 0;
        let mut is_success: bool = false;
        match module_entry {
            Some(k) => {
                match self.modules[k].1 {
                    ModuleRef::Success { namespace_id, .. } => {
                        target_ns = namespace_id;
                        is_success = true;
                        proof {
                            assert(self.modules@[k as int].1 matches ModuleRef::Success {
                                namespace_id: n2,
                                ..
                            } && n2 == target_ns);
                            assert(has_namespace_decl(self.declarations@, target_ns));
                            assert(k as int == module_index_of(self.modules@, module@));
                            assert(module_success_ns(self.modules@, module@) == Some(target_ns));
                        }
                    },
                    _ => {
                        proof {
                            assert(k as int == module_index_of(self.modules@, module@));
                            assert(module_success_ns(self.modules@, module@) is None);
                        }
                    },
                }
            },
            None => {
                proof {
                    assert(module_success_ns(self.modules@, module@) is None);
                }
            },
        }
        if !is_success {
            proof {
                assert(module_success_ns(old(self).modules@, module@) is None);
            }
            let reference = Reference::MissingModule {
                module: module.clone(),
                export_name: None,
            };
            self.add_origin_reference(origin_ns, origin_is_export, origin_j, reference);
            let mut msg = "Module \"".to_owned();
            msg.append(module.as_str());
            msg.append("\" does not exist");
            self.add_diagnostic(msg, module_loc.duplicate());
            return ;
        }
        let found = find_namespace_decl(&self.declarations, target_ns);
        match found {
            Some(d) => {
                let reference = Reference::RemoteNamespace {
                    module: module.clone(),
                    resolved_declaration_id: d,
                };
                self.add_origin_reference(origin_ns, origin_is_export, origin_j, reference);
                proof {
                    let refs0 = target_at(
                        old(self).namespaces@,
                        origin_ns as int,
                        origin_is_export,
                        origin_j as int,
                    ).references@;
                    let refs1 = target_at(
                        self.namespaces@,
                        origin_ns as int,
                        origin_is_export,
                        origin_j as int,
                    ).references@;
                    assert(refs1 == refs0.push(reference));
                    assert(refs1.drop_last() =~= refs0);
                    assert(refs1.last() == reference);
                }
            },
            None => {
                proof {
                    assert(false);
                }
            },
        }
    }

    /// Process an exported-name dependency: an export bound to a local name
    /// of the same namespace.
    #[verifier::rlimit(100)]
    pub fn process_local_name_dep(
        &mut self,
        origin_ns: usize,
        origin_is_export: bool,
        origin_j: usize,
        lname: &String,
        lname_loc: &FileRange,
        frames: &mut Vec<(usize, bool, String)>,
    )
        requires
            old(self).inv(),
            origin_ns < old(self).namespaces@.len(),
            origin_j < table_of(old(self).namespaces@[origin_ns as int], origin_is_export).len(),
            target_at(
                old(self).namespaces@,
                origin_ns as int,
                origin_is_export,
                origin_j as int,
            ).status == NameTargetStatus::NotResolved,
            in_frames(
                old(frames)@,
                origin_ns as int,
                origin_is_export,
                table_of(old(self).namespaces@[origin_ns as int], origin_is_export)[origin_j as int].name@,
            ),
        ensures
            final(self).stepped(*old(self), old(frames)@),
            final(frames)@ == old(frames)@,
            frames_targets_preserved_except(
                old(frames)@,
                old(self).namespaces@,
                final(self).namespaces@,
                origin_ns as int,
                origin_is_export,
                origin_j as int,
            ),
            local_name_outcome(
                *old(self),
                *final(self),
                old(frames)@,
                origin_ns as int,
                origin_is_export,
                origin_j as int,
                *lname,
                *lname_loc,
            ),
        decreases all_deps(self.namespaces@), 1nat,
    {
        let ghost s0 = old(self).namespaces@;
        // dangling local check
        let found = find_target(&self.namespaces, origin_ns, false, lname);
        let j2 = match found {
            Some(j2) => j2,
            None => {
                let reference = Reference::MissingLocal { local_name: lname.clone() };
                self.add_origin_reference(origin_ns, origin_is_export, origin_j, reference);
                proof {
                    lemma_statuses_imply_frames(old(frames)@, s0, self.namespaces@);
                    lemma_others_imply_except(
                        old(frames)@,
                        s0,
                        self.namespaces@,
                        origin_ns as int,
                        origin_is_export,
                        origin_j as int,
                    );
                }
                let mut msg = "Local name \"".to_owned();
                msg.append(lname.as_str());
                msg.append("\" does not exist");
                self.add_diagnostic(msg, lname_loc.duplicate());
                return ;
            },
        };
        // circularity check
        if frames_contains(frames, origin_ns, false, lname) {
            let reference = Reference::CircularLocal { local_name: lname.clone() };
            self.add_origin_reference(origin_ns, origin_is_export, origin_j, reference);
            proof {
                lemma_statuses_imply_frames(old(frames)@, s0, self.namespaces@);
                lemma_others_imply_except(
                    old(frames)@,
                    s0,
                    self.namespaces@,
                    origin_ns as int,
                    origin_is_export,
                    origin_j as int,
                );
            }
            let mut msg = "Dependency on local \"".to_owned();
            msg.append(lname.as_str());
            msg.append("\" is circular");
            self.add_diagnostic(msg, lname_loc.duplicate());
            return ;
        }
        // the found position is the unique binding of the local name, and it
        // is not the originating target, which is on the stack
        proof {
            let table = s0[origin_ns as int].locals@;
            let tj = index_of(table, lname@);
            assert(table[tj].name@ == lname@);
            assert(s0[origin_ns as int].wf());
            assert(j2 as int == tj);
            if !origin_is_export && origin_j == j2 {
                assert(in_frames(old(frames)@, origin_ns as int, false, lname@));
            }
        }
        // traverse to the local, then propagate by its aggregate status
        let st = target_status(&self.namespaces, origin_ns, false, j2);
        if matches!(st, NameTargetStatus::NotResolved) {
            self.process_name(origin_ns, false, lname, frames);
        }
        let ghost s1 = self.namespaces@;
        let ghost d1 = self.diagnostics@;
        proof {
            lemma_same_shape_refl(s0);
            assert(frames_targets_preserved(old(frames)@, s0, s1));
            assert(frames_targets_preserved_except(
                old(frames)@,
                s0,
                s1,
                origin_ns as int,
                origin_is_export,
                origin_j as int,
            ));
            assert(target_at(s1, origin_ns as int, origin_is_export, origin_j as int).references@
                == target_at(s0, origin_ns as int, origin_is_export, origin_j as int).references@);
            assert(origin_j < table_of(self.namespaces@[origin_ns as int], origin_is_export).len());
            assert(target_at(
                self.namespaces@,
                origin_ns as int,
                origin_is_export,
                origin_j as int,
            ).status == NameTargetStatus::NotResolved);
            assert(table_of(s1[origin_ns as int], false)[j2 as int].name@ == lname@) by {
                assert(same_names(table_of(s0[origin_ns as int], false), table_of(s1[origin_ns as int], false)));
            }
        }
        let st2 = target_status(&self.namespaces, origin_ns, false, j2);
        proof {
            assert(st2 != NameTargetStatus::NotResolved);
        }
        match st2 {
            NameTargetStatus::FullyResolved => {
                let ids = resolved_ids(&self.namespaces, origin_ns, false, j2);
                proof {
                    assert(table_consistent(
                        self.namespaces@[origin_ns as int].locals@,
                        self.declarations@.len() as nat,
                    ));
                    lemma_resolved_ids_wf(
                        target_at(self.namespaces@, origin_ns as int, false, j2 as int).references@,
                        self.declarations@.len() as nat,
                    );
                }
                let mut i: usize = 0;
                while i < ids.len()
                    invariant
                        s0 == old(self).namespaces@,
                        self.stepped(*old(self), old(frames)@),
                        frames_targets_preserved_except(
                            old(frames)@,
                            s0,
                            self.namespaces@,
                            origin_ns as int,
                            origin_is_export,
                            origin_j as int,
                        ),
                        origin_ns < self.namespaces@.len(),
                        origin_j < table_of(
                            self.namespaces@[origin_ns as int],
                            origin_is_export,
                        ).len(),
                        target_at(
                            self.namespaces@,
                            origin_ns as int,
                            origin_is_export,
                            origin_j as int,
                        ).status == NameTargetStatus::NotResolved,
                        target_at(
                            self.namespaces@,
                            origin_ns as int,
                            origin_is_export,
                            origin_j as int,
                        ).references@ == target_at(
                            s0,
                            origin_ns as int,
                            origin_is_export,
                            origin_j as int,
                        ).references@ + local_refs(*lname, ids@.subrange(0, i as int)),
                        j2 < table_of(self.namespaces@[origin_ns as int], false).len(),
                        !(!origin_is_export && origin_j == j2),
                        target_at(self.namespaces@, origin_ns as int, false, j2 as int)
                            == target_at(s1, origin_ns as int, false, j2 as int),
                        ids@ == spec_resolved_ids(
                            target_at(s1, origin_ns as int, false, j2 as int).references@,
                        ),
                        self.diagnostics@ == d1,
                        d1.len() >= old(self).diagnostics@.len(),
                        forall|k: int| 0 <= k < ids@.len() ==> ids@[k] < self.declarations@.len(),
                        i <= ids@.len(),
                    decreases ids@.len() - i,
                {
                    let ghost sp = self.namespaces@;
                    let reference = Reference::LocalName {
                        name: lname.clone(),
                        resolved_declaration_id: ids[i],
                    };
                    self.add_origin_reference(origin_ns, origin_is_export, origin_j, reference);
                    proof {
                        lemma_statuses_imply_frames(old(frames)@, sp, self.namespaces@);
                        lemma_step_trans(old(frames)@, s0, sp, self.namespaces@);
                        lemma_others_imply_except(
                            old(frames)@,
                            sp,
                            self.namespaces@,
                            origin_ns as int,
                            origin_is_export,
                            origin_j as int,
                        );
                        lemma_frames_except_trans(
                            old(frames)@,
                            s0,
                            sp,
                            self.namespaces@,
                            origin_ns as int,
                            origin_is_export,
                            origin_j as int,
                        );
                        assert(target_at(
                            self.namespaces@,
                            origin_ns as int,
                            origin_is_export,
                            origin_j as int,
                        ).references@ =~= target_at(
                            s0,
                            origin_ns as int,
                            origin_is_export,
                            origin_j as int,
                        ).references@ + local_refs(*lname, ids@.subrange(0, i + 1)));
                        assert(target_at(self.namespaces@, origin_ns as int, false, j2 as int)
                            == target_at(sp, origin_ns as int, false, j2 as int));
                    }
                    i = i + 1;
                }
                proof {
                    assert(ids@.subrange(0, ids@.len() as int) == ids@);
                }
            },
            NameTargetStatus::Dangling | NameTargetStatus::Empty => {
                let ghost sp = self.namespaces@;
                let reference = Reference::EmptyLocal { local_name: lname.clone() };
                self.add_origin_reference(origin_ns, origin_is_export, origin_j, reference);
                proof {
                    lemma_statuses_imply_frames(old(frames)@, sp, self.namespaces@);
                    lemma_step_trans(old(frames)@, s0, sp, self.namespaces@);
                    lemma_others_imply_except(
                        old(frames)@,
                        sp,
                        self.namespaces@,
                        origin_ns as int,
                        origin_is_export,
                        origin_j as int,
                    );
                    lemma_frames_except_trans(
                        old(frames)@,
                        s0,
                        sp,
                        self.namespaces@,
                        origin_ns as int,
                        origin_is_export,
                        origin_j as int,
                    );
                    assert(target_at(self.namespaces@, origin_ns as int, false, j2 as int)
                        == target_at(sp, origin_ns as int, false, j2 as int));
                }
            },
            NameTargetStatus::Circular => {
                // local propagation of circularity is silent: the diagnostic
                // was emitted where the cycle was detected
                let ghost sp = self.namespaces@;
                let reference = Reference::CircularLocal { local_name: lname.clone() };
                self.add_origin_reference(origin_ns, origin_is_export, origin_j, reference);
                proof {
                    lemma_statuses_imply_frames(old(frames)@, sp, self.namespaces@);
                    lemma_step_trans(old(frames)@, s0, sp, self.namespaces@);
                    lemma_others_imply_except(
                        old(frames)@,
                        sp,
                        self.namespaces@,
                        origin_ns as int,
                        origin_is_export,
                        origin_j as int,
                    );
                    lemma_frames_except_trans(
                        old(frames)@,
                        s0,
                        sp,
                        self.namespaces@,
                        origin_ns as int,
                        origin_is_export,
                        origin_j as int,
                    );
                    assert(target_at(self.namespaces@, origin_ns as int, false, j2 as int)
                        == target_at(sp, origin_ns as int, false, j2 as int));
                }
            },
            NameTargetStatus::NotResolved => {
                proof {
                    assert(false);
                }
            },
        }
    }

    /// Dispatch one dependency of the originating target at
    /// `(origin_ns, origin_is_export, origin_j)`: the per-dependency
    /// semantics of resolution, stated by the outcome relation matching the
    /// dependency's kind.
    pub fn process_dependency(
        &mut self,
        dep: Dependency,
        origin_ns: usize,
        origin_is_export: bool,
        origin_j: usize,
        frames: &mut Vec<(usize, bool, String)>,
    )
        requires
            old(self).inv(),
            origin_ns < old(self).namespaces@.len(),
            origin_j < table_of(old(self).namespaces@[origin_ns as int], origin_is_export).len(),
            target_at(
                old(self).namespaces@,
                origin_ns as int,
                origin_is_export,
                origin_j as int,
            ).status == NameTargetStatus::NotResolved,
            in_frames(
                old(frames)@,
                origin_ns as int,
                origin_is_export,
                table_of(old(self).namespaces@[origin_ns as int], origin_is_export)[origin_j as int].name@,
            ),
        ensures
            final(self).stepped(*old(self), old(frames)@),
            final(frames)@ == old(frames)@,
            frames_targets_preserved_except(
                old(frames)@,
                old(self).namespaces@,
                final(self).namespaces@,
                origin_ns as int,
                origin_is_export,
                origin_j as int,
            ),
            match dep {
                Dependency::ImportedName {
                    export_module,
                    export_module_location,
                    export_name,
                    ..
                } => remote_name_outcome(
                    *old(self),
                    *final(self),
                    old(frames)@,
                    origin_ns as int,
                    origin_is_export,
                    origin_j as int,
                    export_module,
                    export_name.image,
                    export_module_location,
                    export_name.location,
                ),
                Dependency::ForwardedName {
                    export_module,
                    export_module_location,
                    export_name,
                    ..
                } => remote_name_outcome(
                    *old(self),
                    *final(self),
                    old(frames)@,
                    origin_ns as int,
                    origin_is_export,
                    origin_j as int,
                    export_module,
                    export_name.image,
                    export_module_location,
                    export_name.location,
                ),
                Dependency::PureForwardReplacement {
                    export_module,
                    export_module_location,
                    replacement_name,
                    star_location,
                    ..
                } => remote_name_outcome(
                    *old(self),
                    *final(self),
                    old(frames)@,
                    origin_ns as int,
                    origin_is_export,
                    origin_j as int,
                    export_module,
                    replacement_name,
                    export_module_location,
                    star_location,
                ),
                Dependency::ImportedNamespace { export_module, export_module_location, .. } => namespace_dep_outcome(
                    *old(self),
                    *final(self),
                    origin_ns as int,
                    origin_is_export,
                    origin_j as int,
                    export_module,
                    export_module_location,
                ),
                Dependency::ForwardedNamespace { export_module, export_module_location, .. } => namespace_dep_outcome(
                    *old(self),
                    *final(self),
                    origin_ns as int,
                    origin_is_export,
                    origin_j as int,
                    export_module,
                    export_module_location,
                ),
                Dependency::ExportedName { local_name, .. } => local_name_outcome(
                    *old(self),
                    *final(self),
                    old(frames)@,
                    origin_ns as int,
                    origin_is_export,
                    origin_j as int,
                    local_name.image,
                    local_name.location,
                ),
            },
        decreases all_deps(self.namespaces@), 2nat,
    {
        match dep {
            Dependency::ImportedName {
                export_module,
                export_module_location,
                export_name,
                ..
            } => {
                self.process_remote_name(
                    origin_ns,
                    origin_is_export,
                    origin_j,
                    &export_module,
                    &export_name.image,
                    &export_module_location,
                    &export_name.location,
                    frames,
                );
            },
            Dependency::ForwardedName {
                export_module,
                export_module_location,
                export_name,
                ..
            } => {
                self.process_remote_name(
                    origin_ns,
                    origin_is_export,
                    origin_j,
                    &export_module,
                    &export_name.image,
                    &export_module_location,
                    &export_name.location,
                    frames,
                );
            },
            Dependency::PureForwardReplacement {
                export_module,
                export_module_location,
                replacement_name,
                star_location,
                ..
            } => {
                self.process_remote_name(
                    origin_ns,
                    origin_is_export,
                    origin_j,
                    &export_module,
                    &replacement_name,
                    &export_module_location,
                    &star_location,
                    frames,
                );
            },
            Dependency::ImportedNamespace { export_module, export_module_location, .. } => {
                self.process_namespace_dep(
                    origin_ns,
                    origin_is_export,
                    origin_j,
                    &export_module,
                    &export_module_location,
                );
                proof {
                    lemma_statuses_imply_frames(
                        old(frames)@,
                        old(self).namespaces@,
                        self.namespaces@,
                    );
                    lemma_others_imply_except(
                        old(frames)@,
                        old(self).namespaces@,
                        self.namespaces@,
                        origin_ns as int,
                        origin_is_export,
                        origin_j as int,
                    );
                }
            },
            Dependency::ForwardedNamespace { export_module, export_module_location, .. } => {
                self.process_namespace_dep(
                    origin_ns,
                    origin_is_export,
                    origin_j,
                    &export_module,
                    &export_module_location,
                );
                proof {
                    lemma_statuses_imply_frames(
                        old(frames)@,
                        old(self).namespaces@,
                        self.namespaces@,
                    );
                    lemma_others_imply_except(
                        old(frames)@,
                        old(self).namespaces@,
                        self.namespaces@,
                        origin_ns as int,
                        origin_is_export,
                        origin_j as int,
                    );
                }
            },
            Dependency::ExportedName { local_name, .. } => {
                self.process_local_name_dep(
                    origin_ns,
                    origin_is_export,
                    origin_j,
                    &local_name.image,
                    &local_name.location,
                    frames,
                );
            },
        }
    }

    /// A step that changed only the target being drained leaves every target
    /// on the caller's stack untouched: the drained target's name is not on
    /// that stack.
    proof fn lemma_own_step_preserves_frames(
        &self,
        frames: Seq<(usize, bool, String)>,
        pre: Seq<Namespace>,
        nsid: usize,
        is_export: bool,
        j: usize,
        name: Seq<char>,
    )
        requires
            others_unchanged(pre, self.namespaces@, nsid as int, is_export, j as int),
            0 <= (nsid as int) < pre.len(),
            0 <= (j as int) < table_of(pre[nsid as int], is_export).len(),
            table_of(pre[nsid as int], is_export)[j as int].name@ == name,
            !in_frames(frames, nsid as int, is_export, name),
        ensures
            frames_targets_preserved(frames, pre, self.namespaces@),
    {
        assert forall|i: int, e: bool, j2: int|
            valid_target(pre, i, e, j2) && in_frames(
                frames,
                i,
                e,
                table_of(pre[i], is_export_sel(e))[j2].name@,
            ) implies {
            &&& (#[trigger] target_at(self.namespaces@, i, e, j2)).status == target_at(
                pre,
                i,
                e,
                j2,
            ).status
            &&& target_at(self.namespaces@, i, e, j2).references@ == target_at(
                pre,
                i,
                e,
                j2,
            ).references@
            &&& target_at(self.namespaces@, i, e, j2).dependencies@ == target_at(
                pre,
                i,
                e,
                j2,
            ).dependencies@
        } by {
            if i == nsid as int && e == is_export && j2 == j as int {
                assert(table_of(pre[i], is_export_sel(e))[j2].name@ == name);
                assert(in_frames(frames, nsid as int, is_export, name));
            } else {
                assert(target_at(self.namespaces@, i, e, j2) == target_at(pre, i, e, j2));
            }
        }
    }

    /// Fully resolve one name: drain its dependency queue, then freeze its
    /// status as the aggregate over the references that accumulated. A name
    /// already terminal is left untouched.
    #[verifier::rlimit(100)]
    pub fn process_name(
        &mut self,
        nsid: usize,
        is_export: bool,
        name: &String,
        frames: &mut Vec<(usize, bool, String)>,
    )
        requires
            old(self).inv(),
            nsid < old(self).namespaces@.len(),
            has_name(table_of(old(self).namespaces@[nsid as int], is_export), name@),
            !in_frames(old(frames)@, nsid as int, is_export, name@),
        ensures
            final(self).stepped(*old(self), old(frames)@),
            final(frames)@ == old(frames)@,
            frames_targets_preserved(
                old(frames)@,
                old(self).namespaces@,
                final(self).namespaces@,
            ),
            forall|j2: int|
                0 <= j2 < table_of(final(self).namespaces@[nsid as int], is_export).len()
                    && table_of(final(self).namespaces@[nsid as int], is_export)[j2].name@ == name@
                    ==> target_at(final(self).namespaces@, nsid as int, is_export, j2).status
                    != NameTargetStatus::NotResolved,
        decreases all_deps(self.namespaces@), 0nat,
    {
        let ghost s0 = old(self).namespaces@;
        let found = find_target(&self.namespaces, nsid, is_export, name);
        let j = found.unwrap();
        let st0 = target_status(&self.namespaces, nsid, is_export, j);
        if !matches!(st0, NameTargetStatus::NotResolved) {
            proof {
                lemma_same_shape_refl(s0);
                assert(frames_targets_preserved(old(frames)@, s0, self.namespaces@));
                // under unique names, the found index is the only one bound to `name`
                assert forall|j2: int|
                    0 <= j2 < table_of(self.namespaces@[nsid as int], is_export).len()
                        && table_of(self.namespaces@[nsid as int], is_export)[j2].name@
                        == name@ implies target_at(self.namespaces@, nsid as int, is_export, j2).status
                    != NameTargetStatus::NotResolved by {
                    assert(self.namespaces@[nsid as int].wf());
                    assert(j2 == j as int);
                }
            }
            return ;
        }
        frames.push((nsid, is_export, name.clone()));
        let ghost n_decls: nat = self.declarations@.len() as nat;
        loop
            invariant
                s0 == old(self).namespaces@,
                self.inv(),
                !in_frames(old(frames)@, nsid as int, is_export, name@),
                nsid < self.namespaces@.len(),
                j < table_of(self.namespaces@[nsid as int], is_export).len(),
                table_of(self.namespaces@[nsid as int], is_export)[j as int].name@ == name@,
                same_shape(s0, self.namespaces@),
                terminal_preserved(s0, self.namespaces@),
                frames_status_preserved(old(frames)@, s0, self.namespaces@),
                frames_targets_preserved(old(frames)@, s0, self.namespaces@),
                self.diagnostics@.len() >= old(self).diagnostics@.len(),
                diags_leveled(old(self).diagnostics@) ==> diags_leveled(self.diagnostics@),
                all_deps(self.namespaces@) <= all_deps(s0),
                frames@.len() == old(frames)@.len() + 1,
                frames@.drop_last() == old(frames)@,
                frames@.last().0 == nsid,
                frames@.last().1 == is_export,
                frames@.last().2@ == name@,
                target_at(self.namespaces@, nsid as int, is_export, j as int).status
                    == NameTargetStatus::NotResolved,
                self.modules == old(self).modules,
                self.declarations == old(self).declarations,
                n_decls == self.declarations@.len(),
            ensures
                self.inv(),
                nsid < self.namespaces@.len(),
                j < table_of(self.namespaces@[nsid as int], is_export).len(),
                table_of(self.namespaces@[nsid as int], is_export)[j as int].name@ == name@,
                same_shape(s0, self.namespaces@),
                terminal_preserved(s0, self.namespaces@),
                frames_status_preserved(old(frames)@, s0, self.namespaces@),
                frames_targets_preserved(old(frames)@, s0, self.namespaces@),
                self.diagnostics@.len() >= old(self).diagnostics@.len(),
                diags_leveled(old(self).diagnostics@) ==> diags_leveled(self.diagnostics@),
                all_deps(self.namespaces@) <= all_deps(s0),
                frames@.len() == old(frames)@.len() + 1,
                frames@.drop_last() == old(frames)@,
                target_at(self.namespaces@, nsid as int, is_export, j as int).status
                    == NameTargetStatus::NotResolved,
                target_at(self.namespaces@, nsid as int, is_export, j as int).dependencies@.len()
                    == 0,
                self.modules == old(self).modules,
                self.declarations == old(self).declarations,
            decreases all_deps(self.namespaces@),
        {
            let ghost sp = self.namespaces@;
            let popped = pop_target_dep(&mut self.namespaces, nsid, is_export, j, Ghost(n_decls));
            proof {
                lemma_statuses_imply_frames(old(frames)@, sp, self.namespaces@);
                lemma_step_trans(old(frames)@, s0, sp, self.namespaces@);
                self.lemma_own_step_preserves_frames(old(frames)@, sp, nsid, is_export, j, name@);
                lemma_frames_targets_trans(old(frames)@, s0, sp, self.namespaces@);
            }
            match popped {
                None => {
                    break ;
                },
                Some(dep) => {
                    let ghost sq = self.namespaces@;
                    proof {
                        assert(in_frames(
                            frames@,
                            nsid as int,
                            is_export,
                            table_of(self.namespaces@[nsid as int], is_export)[j as int].name@,
                        )) by {
                            assert(frames@[frames@.len() - 1].0 == nsid);
                        }
                    }
                    self.process_dependency(dep, nsid, is_export, j, frames);
                    proof {
                        // the in-progress target kept its status across the call
                        assert(target_at(self.namespaces@, nsid as int, is_export, j as int).status
                            == target_at(sq, nsid as int, is_export, j as int).status) by {
                            assert(frames_status_preserved(frames@, sq, self.namespaces@));
                            assert(in_frames(
                                frames@,
                                nsid as int,
                                is_export,
                                table_of(sq[nsid as int], is_export_sel(is_export))[j as int].name@,
                            ));
                        }
                        lemma_step_trans(old(frames)@, s0, sq, self.namespaces@);
                        // every target on the caller's stack is untouched: it
                        // sits on the deeper stack too, and it is not the
                        // origin of the dependency just dispatched
                        assert(frames_targets_preserved(old(frames)@, sq, self.namespaces@)) by {
                            assert forall|i: int, e: bool, j2: int|
                                valid_target(sq, i, e, j2) && in_frames(
                                    old(frames)@,
                                    i,
                                    e,
                                    table_of(sq[i], is_export_sel(e))[j2].name@,
                                ) implies {
                                &&& (#[trigger] target_at(self.namespaces@, i, e, j2)).status
                                    == target_at(sq, i, e, j2).status
                                &&& target_at(self.namespaces@, i, e, j2).references@ == target_at(
                                    sq,
                                    i,
                                    e,
                                    j2,
                                ).references@
                                &&& target_at(self.namespaces@, i, e, j2).dependencies@
                                    == target_at(sq, i, e, j2).dependencies@
                            } by {
                                let nm = table_of(sq[i], is_export_sel(e))[j2].name@;
                                let k = choose|k: int|
                                    0 <= k < old(frames)@.len() && (#[trigger] old(frames)@[k]).0
                                        == i && old(frames)@[k].1 == e && old(frames)@[k].2@ == nm;
                                assert(frames@[k] == old(frames)@[k]) by {
                                    assert(frames@.drop_last()[k] == frames@[k]);
                                }
                                assert(in_frames(frames@, i, e, nm));
                                if i == nsid as int && e == is_export && j2 == j as int {
                                    assert(nm == name@);
                                    assert(in_frames(old(frames)@, nsid as int, is_export, name@));
                                }
                                assert(frames_targets_preserved_except(
                                    frames@,
                                    sq,
                                    self.namespaces@,
                                    nsid as int,
                                    is_export,
                                    j as int,
                                ));
                            }
                        }
                        lemma_frames_targets_trans(old(frames)@, s0, sq, self.namespaces@);
                    }
                },
            }
        }
        let _ = frames.pop();
        proof {
            assert(frames@ == old(frames)@);
        }
        let ghost sf = self.namespaces@;
        freeze_target(&mut self.namespaces, nsid, is_export, j, Ghost(n_decls));
        proof {
            // the frozen target is not on the caller's stack, so stack
            // statuses are preserved through the freeze as well
            assert(frames_status_preserved(old(frames)@, sf, self.namespaces@)) by {
                assert forall|i: int, e: bool, j2: int|
                    valid_target(sf, i, e, j2) && in_frames(
                        old(frames)@,
                        i,
                        e,
                        table_of(sf[i], is_export_sel(e))[j2].name@,
                    ) implies (#[trigger] target_at(self.namespaces@, i, e, j2)).status
                    == target_at(sf, i, e, j2).status by {
                    if i == nsid as int && e == is_export && j2 == j as int {
                        assert(table_of(sf[i], is_export_sel(e))[j2].name@ == name@);
                        assert(!in_frames(old(frames)@, nsid as int, is_export, name@));
                    } else {
                        assert(target_at(self.namespaces@, i, e, j2) == target_at(sf, i, e, j2));
                    }
                }
            }
            lemma_step_trans(old(frames)@, s0, sf, self.namespaces@);
            self.lemma_own_step_preserves_frames(old(frames)@, sf, nsid, is_export, j, name@);
            lemma_frames_targets_trans(old(frames)@, s0, sf, self.namespaces@);
            assert forall|j2: int|
                0 <= j2 < table_of(self.namespaces@[nsid as int], is_export).len() && table_of(
                    self.namespaces@[nsid as int],
                    is_export,
                )[j2].name@ == name@ implies target_at(
                self.namespaces@,
                nsid as int,
                is_export,
                j2,
            ).status != NameTargetStatus::NotResolved by {
                assert(self.namespaces@[nsid as int].wf());
                assert(table_of(self.namespaces@[nsid as int], is_export)[j as int].name@
                    == name@);
                assert(j2 == j as int);
            }
        }
    }
}

/// A consistent table's references are all well-formed.
pub proof fn lemma_consistent_refs_wf(bs: Seq<NameBinding>, n: nat)
    requires
        table_consistent(bs, n),
    ensures
        table_refs_wf(bs, n),
{
    assert forall|j: int| 0 <= j < bs.len() implies refs_wf(
        #[trigger] bs[j].target.references@,
        n,
    ) by {
        let st = bs[j].target.status;
        assert(st == bs[j].target.status);
    }
}

/// Every table of every namespace is still unresolved.
pub open spec fn all_not_resolved(nss: Seq<Namespace>) -> bool {
    forall|i: int|
        0 <= i < nss.len() ==> table_not_resolved(#[trigger] nss[i].locals@) && table_not_resolved(
            nss[i].exports@,
        )
}

/// The names bound in a namespace's export table, in order.
fn export_names(ns: &Namespace) -> (r: Vec<String>)
    ensures
        r@.len() == ns.exports@.len(),
        forall|k: int| 0 <= k < r@.len() ==> (#[trigger] r@[k])@ == ns.exports@[k].name@,
{
    let mut r: Vec<String> = Vec::new();
    let mut k: usize = 0;
    while k < ns.exports.len()
        invariant
            k <= ns.exports@.len(),
            r@.len() == k,
            forall|m: int| 0 <= m < k ==> (#[trigger] r@[m])@ == ns.exports@[m].name@,
        decreases ns.exports@.len() - k,
    {
        let ghost pre = r@;
        r.push(ns.exports[k].name.clone());
        proof {
            assert forall|m: int| 0 <= m < k + 1 implies (#[trigger] r@[m])@
                == ns.exports@[m].name@ by {
                if m < pre.len() {
                    assert(r@[m] == pre[m]);
                }
            }
        }
        k = k + 1;
    }
    r
}

/// Find the cycle that `ns` belongs to, if any.
fn find_cycle(cycles: &Vec<Vec<usize>>, ns: usize) -> (r: Option<usize>)
    ensures
        r is Some ==> 0 <= r.unwrap() < cycles@.len() && seq_has(
            cycle_views(cycles@)[r.unwrap() as int],
            ns,
        ),
        r is None ==> forall|c: int|
            0 <= c < cycles@.len() ==> !seq_has(#[trigger] cycle_views(cycles@)[c], ns),
{
    let mut c: usize = 0;
    while c < cycles.len()
        invariant
            c <= cycles@.len(),
            forall|m: int| 0 <= m < c ==> !seq_has(#[trigger] cycle_views(cycles@)[m], ns),
        decreases cycles@.len() - c,
    {
        if vec_has(&cycles[c], ns) {
            proof {
                assert(cycle_views(cycles@)[c as int] == cycles@[c as int]@);
            }
            return Some(c);
        }
        proof {
            assert(cycle_views(cycles@)[c as int] == cycles@[c as int]@);
        }
        c = c + 1;
    }
    None
}

fn copy_usizes(v: &Vec<usize>) -> (r: Vec<usize>)
    ensures
        r@ == v@,
{
    let mut r: Vec<usize> = Vec::new();
    let mut k: usize = 0;
    while k < v.len()
        invariant
            k <= v@.len(),
            r@ == v@.subrange(0, k as int),
        decreases v@.len() - k,
    {
        proof {
            assert(v@.subrange(0, k + 1) == v@.subrange(0, k as int).push(v@[k as int]));
        }
        r.push(v[k]);
        k = k + 1;
    }
    proof {
        assert(v@.subrange(0, v@.len() as int) == v@);
    }
    r
}

impl ResolutionProcess {
    /// The invariant of the pure-forward replacement phase: the registries
    /// are well-formed and no target has been resolved yet.
    pub open spec fn pf_inv(&self) -> bool {
        &&& self.inv()
        &&& all_not_resolved(self.namespaces@)
    }

    /// Queue a dependency on the export target of `name` in namespace `nsid`,
    /// creating the target if the namespace has none.
    fn add_pure_dep(&mut self, nsid: usize, name: &String, dep: Dependency)
        requires
            old(self).pf_inv(),
            nsid < old(self).namespaces@.len(),
        ensures
            final(self).pf_inv(),
            final(self).modules == old(self).modules,
            final(self).declarations == old(self).declarations,
            final(self).diagnostics == old(self).diagnostics,
            final(self).namespaces@.len() == old(self).namespaces@.len(),
            shape_extended(old(self).namespaces@, final(self).namespaces@),
    {
        let ghost pre_ns = self.namespaces@;
        let ghost n_decls = self.declarations@.len() as nat;
        let namespace = &mut self.namespaces[nsid];
        add_dep_to(&mut namespace.exports, name, dep);
        proof {
            assert(self.namespaces@ == pre_ns.update(nsid as int, self.namespaces@[nsid as int]));
            assert(table_refs_wf(pre_ns[nsid as int].exports@, n_decls)) by {
                assert(table_consistent(pre_ns[nsid as int].exports@, n_decls));
                lemma_consistent_refs_wf(pre_ns[nsid as int].exports@, n_decls);
            }
            assert forall|i: int|
                0 <= i < self.namespaces@.len() implies (#[trigger] self.namespaces@[i]).wf()
                && self.namespaces@[i].namespace_id == i by {
                if i != nsid as int {
                    assert(self.namespaces@[i] == pre_ns[i]);
                }
            }
            assert(shape_extended(pre_ns, self.namespaces@)) by {
                assert forall|i: int|
                    0 <= i < pre_ns.len() implies {
                    &&& (#[trigger] self.namespaces@[i]).namespace_id == pre_ns[i].namespace_id
                    &&& self.namespaces@[i].kind == pre_ns[i].kind
                    &&& same_names(pre_ns[i].locals@, self.namespaces@[i].locals@)
                    &&& names_prefix(pre_ns[i].exports@, self.namespaces@[i].exports@)
                } by {
                    if i != nsid as int {
                        assert(self.namespaces@[i] == pre_ns[i]);
                    } else {
                        let a = pre_ns[i].exports@;
                        let b = self.namespaces@[i].exports@;
                        if has_name(a, name@) {
                            assert forall|j: int| 0 <= j < a.len() implies a[j].name == (
                            #[trigger] b[j].name) by {
                                let k = crate::namespace::index_of(a, name@);
                                if j != k {
                                    assert(b[j] == a[j]);
                                }
                            }
                        } else {
                            assert forall|j: int| 0 <= j < a.len() implies a[j].name == (
                            #[trigger] b[j].name) by {
                                assert(b.drop_last()[j] == b[j]);
                            }
                        }
                    }
                }
            }
            assert forall|i: int|
                0 <= i < self.namespaces@.len() implies table_consistent(
                #[trigger] self.namespaces@[i].locals@,
                n_decls,
            ) && table_consistent(self.namespaces@[i].exports@, n_decls) && table_not_resolved(
                self.namespaces@[i].locals@,
            ) && table_not_resolved(self.namespaces@[i].exports@) by {
                if i != nsid as int {
                    assert(self.namespaces@[i] == pre_ns[i]);
                } else {
                    assert(table_not_resolved(self.namespaces@[i].exports@));
                    assert(table_refs_wf(self.namespaces@[i].exports@, n_decls));
                    assert forall|j: int|
                        0 <= j < self.namespaces@[i].exports@.len() implies {
                        &&& ((#[trigger] self.namespaces@[i].exports@[j].target.status)
                            != NameTargetStatus::NotResolved
                            ==> self.namespaces@[i].exports@[j].target.status == aggregate_status(
                            self.namespaces@[i].exports@[j].target.references@,
                        ) && self.namespaces@[i].exports@[j].target.dependencies@.len() == 0)
                        &&& refs_wf(self.namespaces@[i].exports@[j].target.references@, n_decls)
                    } by {
                        assert(self.namespaces@[i].exports@[j].target.status
                            == NameTargetStatus::NotResolved);
                    }
                }
            }
        }
    }

    /// Expand the pure forwards of one namespace into named
    /// `PureForwardReplacement` dependencies, memoized by `visited`. A member
    /// of a cycle shares the pooled exports of all of the cycle's non-cyclic
    /// suppliers plus the members' own exports; an acyclic namespace takes
    /// each supplier's exports after the supplier itself has been expanded.
    fn replace_pure_forwards(
        &mut self,
        ns: usize,
        visited: &mut Vec<bool>,
        path: &mut Vec<usize>,
        graph: &PureForwardGraph,
        cycles: &Vec<Vec<usize>>,
    )
        requires
            old(self).pf_inv(),
            graph.wf(),
            graph.size == old(self).namespaces@.len(),
            ns < old(self).namespaces@.len(),
            old(visited)@.len() == old(self).namespaces@.len(),
            seq_distinct(old(path)@),
            seq_below(old(path)@, graph.size),
            !seq_has(old(path)@, ns),
            PureForwardGraph::cycles_wf(cycle_views(cycles@), graph.size),
        ensures
            final(self).pf_inv(),
            final(self).modules == old(self).modules,
            final(self).declarations == old(self).declarations,
            final(self).namespaces@.len() == old(self).namespaces@.len(),
            shape_extended(old(self).namespaces@, final(self).namespaces@),
            diags_leveled(old(self).diagnostics@) ==> diags_leveled(final(self).diagnostics@),
            final(visited)@.len() == old(visited)@.len(),
            final(path)@ == old(path)@,
        decreases graph.size - old(path)@.len(),
    {
        if visited[ns] {
            return ;
        }
        path.push(ns);
        let ghost path_snap = path@;
        proof {
            crate::dependencies::lemma_path_push_distinct(old(path)@, ns, graph.size);
        }
        let cycle_index = find_cycle(cycles, ns);
        match cycle_index {
            Some(c) => {
                let cycle = &cycles[c];
                proof {
                    assert(cycle_views(cycles@)[c as int] == cycles@[c as int]@);
                    assert(seq_below(cycle@, graph.size));
                }
                // every supplier of every member, members included
                let mut suppliers: Vec<usize> = copy_usizes(cycle);
                let mut mi: usize = 0;
                while mi < cycle.len()
                    invariant
                        graph.wf(),
                        seq_below(cycle@, graph.size),
                        seq_below(suppliers@, graph.size),
                        mi <= cycle@.len(),
                    decreases cycle@.len() - mi,
                {
                    let sups = graph.get_suppliers(cycle[mi]);
                    let mut si: usize = 0;
                    while si < sups.len()
                        invariant
                            seq_below(sups@, graph.size),
                            seq_below(suppliers@, graph.size),
                            si <= sups@.len(),
                        decreases sups@.len() - si,
                    {
                        if !vec_has(&suppliers, sups[si]) {
                            suppliers.push(sups[si]);
                        }
                        si = si + 1;
                    }
                    mi = mi + 1;
                }
                // expand non-cyclic suppliers first, then pool every
                // supplier's exports
                let mut pool: Vec<(usize, String)> = Vec::new();
                let mut pi: usize = 0;
                while pi < suppliers.len()
                    invariant
                        self.pf_inv(),
                        self.modules == old(self).modules,
                        self.declarations == old(self).declarations,
                        self.namespaces@.len() == old(self).namespaces@.len(),
                        shape_extended(old(self).namespaces@, self.namespaces@),
                        diags_leveled(old(self).diagnostics@) ==> diags_leveled(self.diagnostics@),
                        graph.wf(),
                        graph.size == self.namespaces@.len(),
                        PureForwardGraph::cycles_wf(cycle_views(cycles@), graph.size),
                        seq_below(suppliers@, graph.size),
                        visited@.len() == old(visited)@.len(),
                        old(visited)@.len() == self.namespaces@.len(),
                        path@ == path_snap,
                        path_snap == old(path)@.push(ns),
                        seq_distinct(path@),
                        seq_below(path@, graph.size),
                        forall|q: int| 0 <= q < pool@.len() ==> (#[trigger] pool@[q]).0 < graph.size,
                        pi <= suppliers@.len(),
                    decreases suppliers@.len() - pi,
                {
                    let s = suppliers[pi];
                    if !vec_has(&cycle, s) {
                        if !visited[s] && !vec_has(path, s) {
                            proof {
                                crate::dependencies::distinct_below_len(path@, graph.size);
                            }
                            let ghost before = self.namespaces@;
                            self.replace_pure_forwards(s, visited, path, graph, cycles);
                            proof {
                                lemma_shape_extended_trans(
                                    old(self).namespaces@,
                                    before,
                                    self.namespaces@,
                                );
                            }
                        }
                    }
                    let names = export_names(&self.namespaces[s]);
                    let mut q: usize = 0;
                    while q < names.len()
                        invariant
                            forall|m: int|
                                0 <= m < pool@.len() ==> (#[trigger] pool@[m]).0 < graph.size,
                            s < graph.size,
                            q <= names@.len(),
                        decreases names@.len() - q,
                    {
                        let ghost pre_pool = pool@;
                        pool.push((s, names[q].clone()));
                        proof {
                            assert forall|m: int|
                                0 <= m < pool@.len() implies (#[trigger] pool@[m]).0
                                < graph.size by {
                                if m < pre_pool.len() {
                                    assert(pool@[m] == pre_pool[m]);
                                }
                            }
                        }
                        q = q + 1;
                    }
                    pi = pi + 1;
                }
                // rewrite the pooled names as named forwards on every member
                let mut m2: usize = 0;
                while m2 < cycle.len()
                    invariant
                        self.pf_inv(),
                        self.modules == old(self).modules,
                        self.declarations == old(self).declarations,
                        self.namespaces@.len() == old(self).namespaces@.len(),
                        shape_extended(old(self).namespaces@, self.namespaces@),
                        diags_leveled(old(self).diagnostics@) ==> diags_leveled(self.diagnostics@),
                        graph.wf(),
                        graph.size == self.namespaces@.len(),
                        seq_below(cycle@, graph.size),
                        visited@.len() == old(visited)@.len(),
                        old(visited)@.len() == self.namespaces@.len(),
                        forall|q2: int|
                            0 <= q2 < pool@.len() ==> (#[trigger] pool@[q2]).0 < graph.size,
                        m2 <= cycle@.len(),
                    decreases cycle@.len() - m2,
                {
                    let member = cycle[m2];
                    let direct = graph.get_suppliers(member);
                    // the canonical cycle-internal forwarder for this member
                    let mut first_forwarded: Option<usize> = None;
                    let mut di: usize = 0;
                    while di < direct.len()
                        invariant
                            seq_below(direct@, graph.size),
                            first_forwarded is Some ==> seq_has(direct@, first_forwarded.unwrap()),
                            di <= direct@.len(),
                        decreases direct@.len() - di,
                    {
                        if vec_has(&cycle, direct[di]) {
                            first_forwarded = Some(direct[di]);
                            break ;
                        }
                        di = di + 1;
                    }
                    let mut q2: usize = 0;
                    while q2 < pool.len()
                        invariant
                            self.pf_inv(),
                            self.modules == old(self).modules,
                            self.declarations == old(self).declarations,
                            self.namespaces@.len() == old(self).namespaces@.len(),
                            shape_extended(old(self).namespaces@, self.namespaces@),
                            diags_leveled(old(self).diagnostics@) ==> diags_leveled(self.diagnostics@),
                            graph.size == self.namespaces@.len(),
                            member < graph.size,
                            forall|q3: int|
                                0 <= q3 < pool@.len() ==> (#[trigger] pool@[q3]).0 < graph.size,
                            q2 <= pool@.len(),
                        decreases pool@.len() - q2,
                    {
                        let supplier = pool[q2].0;
                        if supplier != member {
                            let src = if vec_has(&direct, supplier) {
                                Some(supplier)
                            } else {
                                first_forwarded
                            };
                            if let Some(src_ns) = src {
                                let forward = graph.get_forward(src_ns, member);
                                if let Some(pure) = forward {
                                    let dep = Dependency::PureForwardReplacement {
                                        forward_namespace: member,
                                        replacement_name: pool[q2].1.clone(),
                                        export_module: pure.export_module.clone(),
                                        export_module_location:
                                            pure.export_module_location.duplicate(),
                                        star_location: pure.star_location.duplicate(),
                                    };
                                    let name = pool[q2].1.clone();
                                    let ghost before = self.namespaces@;
                                    self.add_pure_dep(member, &name, dep);
                                    proof {
                                        lemma_shape_extended_trans(
                                            old(self).namespaces@,
                                            before,
                                            self.namespaces@,
                                        );
                                    }
                                }
                            }
                        }
                        q2 = q2 + 1;
                    }
                    visited.set(member, true);
                    m2 = m2 + 1;
                }
            },
            None => {
                // acyclic: expand each supplier, then take its exports
                let sups = graph.get_suppliers(ns);
                let mut si: usize = 0;
                while si < sups.len()
                    invariant
                        self.pf_inv(),
                        self.modules == old(self).modules,
                        self.declarations == old(self).declarations,
                        self.namespaces@.len() == old(self).namespaces@.len(),
                        shape_extended(old(self).namespaces@, self.namespaces@),
                        diags_leveled(old(self).diagnostics@) ==> diags_leveled(self.diagnostics@),
                        graph.wf(),
                        graph.size == self.namespaces@.len(),
                        PureForwardGraph::cycles_wf(cycle_views(cycles@), graph.size),
                        seq_below(sups@, graph.size),
                        visited@.len() == old(visited)@.len(),
                        old(visited)@.len() == self.namespaces@.len(),
                        path@ == path_snap,
                        path_snap == old(path)@.push(ns),
                        seq_distinct(path@),
                        seq_below(path@, graph.size),
                        ns < graph.size,
                        si <= sups@.len(),
                    decreases sups@.len() - si,
                {
                    let s = sups[si];
                    if s == ns {
                        // a pure forward of a namespace to itself: advisory only
                        let forward = graph.get_forward(ns, ns);
                        if let Some(pure) = forward {
                            let msg = "Module pure-forwards to itself".to_owned();
                            let warning = Diagnostic::new(
                                msg,
                                pure.star_location.duplicate(),
                            ).with_level(DiagnosticLevel::Warning);
                            let ghost pre_diags = self.diagnostics@;
                            self.diagnostics.push(warning);
                            proof {
                                if diags_leveled(pre_diags) {
                                    assert forall|d: int|
                                        0 <= d < self.diagnostics@.len() implies (
                                    #[trigger] self.diagnostics@[d]).level
                                        == DiagnosticLevel::Error || self.diagnostics@[d].level
                                        == DiagnosticLevel::Warning by {
                                        if d < pre_diags.len() {
                                            assert(self.diagnostics@[d] == pre_diags[d]);
                                        }
                                    }
                                }
                            }
                        }
                    } else {
                        if !visited[s] && !vec_has(path, s) {
                            proof {
                                crate::dependencies::distinct_below_len(path@, graph.size);
                            }
                            let ghost before = self.namespaces@;
                            self.replace_pure_forwards(s, visited, path, graph, cycles);
                            proof {
                                lemma_shape_extended_trans(
                                    old(self).namespaces@,
                                    before,
                                    self.namespaces@,
                                );
                            }
                        }
                        let forward = graph.get_forward(s, ns);
                        let pure_module: Option<(String, FileRange, FileRange)> = match forward {
                            Some(pure) => Some(
                                (
                                    pure.export_module.clone(),
                                    pure.export_module_location.duplicate(),
                                    pure.star_location.duplicate(),
                                ),
                            ),
                            None => None,
                        };
                        if let Some(info) = pure_module {
                            let names = export_names(&self.namespaces[s]);
                            let mut q: usize = 0;
                            while q < names.len()
                                invariant
                                    self.pf_inv(),
                                    self.modules == old(self).modules,
                                    self.declarations == old(self).declarations,
                                    self.namespaces@.len() == old(self).namespaces@.len(),
                                    shape_extended(old(self).namespaces@, self.namespaces@),
                                    diags_leveled(old(self).diagnostics@) ==> diags_leveled(self.diagnostics@),
                                    graph.size == self.namespaces@.len(),
                                    ns < graph.size,
                                    q <= names@.len(),
                                decreases names@.len() - q,
                            {
                                let dep = Dependency::PureForwardReplacement {
                                    forward_namespace: ns,
                                    replacement_name: names[q].clone(),
                                    export_module: info.0.clone(),
                                    export_module_location: info.1.duplicate(),
                                    star_location: info.2.duplicate(),
                                };
                                let ghost before = self.namespaces@;
                                self.add_pure_dep(ns, &names[q], dep);
                                proof {
                                    lemma_shape_extended_trans(
                                        old(self).namespaces@,
                                        before,
                                        self.namespaces@,
                                    );
                                }
                                q = q + 1;
                            }
                        }
                    }
                    si = si + 1;
                }
                visited.set(ns, true);
            },
        }
        let _ = path.pop();
        proof {
            assert(path@ == old(path)@) by {
                assert(path_snap.drop_last() == old(path)@);
            }
        }
    }
}

/// What resolution returns: the registries with every name target terminal,
/// every module marked fully resolved, and the diagnostics produced while
/// draining the dependency queues.
pub struct DependencyResolutionOutput {
    pub modules: Vec<(String, ModuleRef)>,
    pub declarations: Vec<NsDeclaration>,
    pub namespaces: Vec<Namespace>,
    pub diagnostics: Vec<Diagnostic>,
}

/// A module's status once every name dependent on it has been processed.
pub open spec fn spec_mark_resolved(m: ModuleRef) -> ModuleRef {
    match m {
        ModuleRef::Referenced { .. } => ModuleRef::Referenced { fully_resolved: true },
        ModuleRef::Unparsed { .. } => ModuleRef::Unparsed { fully_resolved: true },
        ModuleRef::NotFound { .. } => ModuleRef::NotFound { fully_resolved: true },
        ModuleRef::Success { namespace_id, .. } => ModuleRef::Success {
            namespace_id,
            fully_resolved: true,
        },
    }
}

fn mark_resolved(m: ModuleRef) -> (r: ModuleRef)
    ensures
        r == spec_mark_resolved(m),
{
    match m {
        ModuleRef::Referenced { .. } => ModuleRef::Referenced { fully_resolved: true },
        ModuleRef::Unparsed { .. } => ModuleRef::Unparsed { fully_resolved: true },
        ModuleRef::NotFound { .. } => ModuleRef::NotFound { fully_resolved: true },
        ModuleRef::Success { namespace_id, .. } => ModuleRef::Success {
            namespace_id,
            fully_resolved: true,
        },
    }
}

/// A fully resolved table only holds terminal statuses: totality of
/// resolution follows from every status being the aggregate of a drained
/// queue.
pub proof fn lemma_table_resolved_terminal(bs: Seq<NameBinding>)
    requires
        crate::namespace::table_resolved(bs),
    ensures
        forall|j: int|
            0 <= j < bs.len() ==> (#[trigger] bs[j].target.status)
                != NameTargetStatus::NotResolved,
{
    assert forall|j: int|
        0 <= j < bs.len() implies (#[trigger] bs[j].target.status)
        != NameTargetStatus::NotResolved by {
        crate::namespace::lemma_aggregate_status_terminal(bs[j].target.references@);
    }
}

/// Using the namespace dependencies queued during enumeration, populate the
/// local and export references of every namespace: rewrite pure forwards
/// first, then drain every name's queue, exports before locals, until every
/// target carries a terminal status.
pub fn resolve_dependencies(
    modules: Vec<(String, ModuleRef)>,
    declarations: Vec<NsDeclaration>,
    namespaces: Vec<Namespace>,
    pure_forwards: &Vec<PureForward>,
) -> (r: DependencyResolutionOutput)
    requires
        module_paths_unique(modules@),
        namespaces_wf(namespaces@),
        modules_wf(modules@, namespaces@.len() as nat, declarations@),
        declarations_wf(declarations@, namespaces@.len() as nat),
        all_not_resolved(namespaces@),
        forall|i: int|
            0 <= i < namespaces@.len() ==> table_refs_wf(
                (#[trigger] namespaces@[i]).locals@,
                declarations@.len() as nat,
            ) && table_refs_wf(namespaces@[i].exports@, declarations@.len() as nat),
        forall|p: int|
            0 <= p < pure_forwards@.len() ==> (#[trigger] pure_forwards@[p]).forward_namespace
                < namespaces@.len(),
    ensures
        r.declarations == declarations,
        r.namespaces@.len() == namespaces@.len(),
        shape_extended(namespaces@, r.namespaces@),
        namespaces_wf(r.namespaces@),
        forall|i: int|
            0 <= i < r.namespaces@.len() ==> crate::namespace::table_resolved(
                (#[trigger] r.namespaces@[i]).locals@,
            ) && crate::namespace::table_resolved(r.namespaces@[i].exports@),
        forall|i: int|
            0 <= i < r.namespaces@.len() ==> table_refs_wf(
                (#[trigger] r.namespaces@[i]).locals@,
                declarations@.len() as nat,
            ) && table_refs_wf(r.namespaces@[i].exports@, declarations@.len() as nat),
        r.modules@.len() == modules@.len(),
        forall|k: int|
            0 <= k < modules@.len() ==> (#[trigger] r.modules@[k]).0 == modules@[k].0
                && r.modules@[k].1 == spec_mark_resolved(modules@[k].1),
        diags_leveled(r.diagnostics@),
{
    let mut process = ResolutionProcess { modules, declarations, namespaces, diagnostics: Vec::new() };
    let ghost decls0 = process.declarations@;
    let ghost mods0 = process.modules@;
    let n = process.namespaces.len();

    // pure forwards: every forward is either an error or an edge in the graph
    let mut graph = PureForwardGraph::new(n);
    let mut p: usize = 0;
    while p < pure_forwards.len()
        invariant
            process.pf_inv(),
            process.declarations@ == decls0,
            process.declarations == declarations,
            process.modules@ == mods0,
            process.namespaces@.len() == n,
            shape_extended(namespaces@, process.namespaces@),
            graph.wf(),
            graph.size == n,
            diags_leveled(process.diagnostics@),
            forall|q: int|
                0 <= q < pure_forwards@.len() ==> (#[trigger] pure_forwards@[q]).forward_namespace
                    < n,
            p <= pure_forwards@.len(),
        decreases pure_forwards@.len() - p,
    {
        let pf = &pure_forwards[p];
        let module_entry = find_module(&process.modules, &pf.export_module);
        let mut exporter: usize = 0;
        let mut is_success: bool = false;
        match module_entry {
            Some(k) => {
                match process.modules[k].1 {
                    ModuleRef::Success { namespace_id, .. } => {
                        exporter = namespace_id;
                        is_success = true;
                        proof {
                            assert(process.modules@[k as int].1 matches ModuleRef::Success {
                                namespace_id: n2,
                                ..
                            } && n2 == exporter);
                            assert(exporter < n);
                        }
                    },
                    _ => {},
                }
            },
            None => {},
        }
        if is_success {
            if graph.get_forward(exporter, pf.forward_namespace).is_none() {
                graph.add_forward(exporter, pf.forward_namespace, pf.duplicate());
            }
        } else {
            // the forwarded-from module was never resolved
            let mut msg = "Module \"".to_owned();
            msg.append(pf.export_module.as_str());
            msg.append("\" could not be resolved");
            let ghost pre_diags = process.diagnostics@;
            process.diagnostics.push(
                Diagnostic::new(msg, pf.export_module_location.duplicate()),
            );
            proof {
                assert forall|d: int|
                    0 <= d < process.diagnostics@.len() implies (
                #[trigger] process.diagnostics@[d]).level == DiagnosticLevel::Error
                    || process.diagnostics@[d].level == DiagnosticLevel::Warning by {
                    if d < pre_diags.len() {
                        assert(process.diagnostics@[d] == pre_diags[d]);
                    }
                }
            }
        }
        p = p + 1;
    }
    let cycles = graph.get_cycles();
    let mut visited: Vec<bool> = Vec::new();
    let mut vi: usize = 0;
    while vi < n
        invariant
            visited@.len() == vi,
            vi <= n,
        decreases n - vi,
    {
        visited.push(false);
        vi = vi + 1;
    }
    let mut path: Vec<usize> = Vec::new();
    let mut ns: usize = 0;
    while ns < n
        invariant
            process.pf_inv(),
            process.declarations@ == decls0,
            process.declarations == declarations,
            process.modules@ == mods0,
            process.namespaces@.len() == n,
            shape_extended(namespaces@, process.namespaces@),
            graph.wf(),
            graph.size == n,
            PureForwardGraph::cycles_wf(cycle_views(cycles@), graph.size),
            visited@.len() == n,
            path@.len() == 0,
            diags_leveled(process.diagnostics@),
        decreases n - ns,
    {
        let ghost before = process.namespaces@;
        process.replace_pure_forwards(ns, &mut visited, &mut path, &graph, &cycles);
        proof {
            lemma_shape_extended_trans(namespaces@, before, process.namespaces@);
        }
        ns = ns + 1;
    }

    // drain every name's dependency queue: exports first, then locals
    let mut frames: Vec<(usize, bool, String)> = Vec::new();
    let mut nsid: usize = 0;
    while nsid < n
        invariant
            process.inv(),
            process.declarations@ == decls0,
            process.declarations == declarations,
            process.modules@ == mods0,
            process.namespaces@.len() == n,
            shape_extended(namespaces@, process.namespaces@),
            diags_leveled(process.diagnostics@),
            frames@.len() == 0,
            forall|i: int, e: bool, j: int|
                0 <= i < nsid && valid_target(process.namespaces@, i, e, j) ==> (
                #[trigger] target_at(process.namespaces@, i, e, j)).status
                    != NameTargetStatus::NotResolved,
            nsid <= n,
        decreases n - nsid,
    {
        let mut exp: usize = 0;
        while exp < vec_namespace_table_len(&process.namespaces, nsid, true)
            invariant
                process.inv(),
                process.declarations@ == decls0,
                process.declarations == declarations,
                process.modules@ == mods0,
                process.namespaces@.len() == n,
                shape_extended(namespaces@, process.namespaces@),
                diags_leveled(process.diagnostics@),
                nsid < n,
                frames@.len() == 0,
                forall|i: int, e: bool, j: int|
                    0 <= i < nsid && valid_target(process.namespaces@, i, e, j) ==> (
                    #[trigger] target_at(process.namespaces@, i, e, j)).status
                        != NameTargetStatus::NotResolved,
                forall|j: int|
                    0 <= j < exp && j < table_of(process.namespaces@[nsid as int], true).len()
                        ==> (#[trigger] target_at(process.namespaces@, nsid as int, true, j)).status
                        != NameTargetStatus::NotResolved,
                exp <= table_of(process.namespaces@[nsid as int], true).len(),
            decreases table_of(process.namespaces@[nsid as int], true).len() - exp,
        {
            let ghost before = process.namespaces@;
            let name = clone_binding_name(&process.namespaces, nsid, true, exp);
            process.process_name(nsid, true, &name, &mut frames);
            proof {
                lemma_main_loop_step(before, process.namespaces@, nsid as int, true, exp as int, name@);
                lemma_same_shape_extends(before, process.namespaces@);
                lemma_shape_extended_trans(namespaces@, before, process.namespaces@);
            }
            exp = exp + 1;
        }
        let mut loc: usize = 0;
        while loc < vec_namespace_table_len(&process.namespaces, nsid, false)
            invariant
                process.inv(),
                process.declarations@ == decls0,
                process.declarations == declarations,
                process.modules@ == mods0,
                process.namespaces@.len() == n,
                shape_extended(namespaces@, process.namespaces@),
                diags_leveled(process.diagnostics@),
                nsid < n,
                frames@.len() == 0,
                forall|i: int, e: bool, j: int|
                    0 <= i < nsid && valid_target(process.namespaces@, i, e, j) ==> (
                    #[trigger] target_at(process.namespaces@, i, e, j)).status
                        != NameTargetStatus::NotResolved,
                forall|j: int|
                    0 <= j < table_of(process.namespaces@[nsid as int], true).len() ==> (
                    #[trigger] target_at(process.namespaces@, nsid as int, true, j)).status
                        != NameTargetStatus::NotResolved,
                forall|j: int|
                    0 <= j < loc && j < table_of(process.namespaces@[nsid as int], false).len()
                        ==> (#[trigger] target_at(process.namespaces@, nsid as int, false, j)).status
                        != NameTargetStatus::NotResolved,
                loc <= table_of(process.namespaces@[nsid as int], false).len(),
            decreases table_of(process.namespaces@[nsid as int], false).len() - loc,
        {
            let ghost before = process.namespaces@;
            let name = clone_binding_name(&process.namespaces, nsid, false, loc);
            process.process_name(nsid, false, &name, &mut frames);
            proof {
                lemma_main_loop_step(
                    before,
                    process.namespaces@,
                    nsid as int,
                    false,
                    loc as int,
                    name@,
                );
                lemma_same_shape_extends(before, process.namespaces@);
                lemma_shape_extended_trans(namespaces@, before, process.namespaces@);
                assert forall|j: int|
                    0 <= j < table_of(process.namespaces@[nsid as int], true).len() implies (
                #[trigger] target_at(process.namespaces@, nsid as int, true, j)).status
                    != NameTargetStatus::NotResolved by {
                    assert(target_at(before, nsid as int, true, j).status
                        != NameTargetStatus::NotResolved);
                    assert(target_at(process.namespaces@, nsid as int, true, j) == target_at(
                        before,
                        nsid as int,
                        true,
                        j,
                    ));
                }
            }
            loc = loc + 1;
        }
        proof {
            assert forall|i: int, e: bool, j: int|
                0 <= i < nsid + 1 && valid_target(process.namespaces@, i, e, j) implies (
            #[trigger] target_at(process.namespaces@, i, e, j)).status
                != NameTargetStatus::NotResolved by {
                if i == nsid as int {
                    if e {
                        assert(target_at(process.namespaces@, i, true, j).status
                            != NameTargetStatus::NotResolved);
                    } else {
                        assert(target_at(process.namespaces@, i, false, j).status
                            != NameTargetStatus::NotResolved);
                    }
                }
            }
        }
        nsid = nsid + 1;
    }

    let ghost ns_done = process.namespaces@;
    proof {
        assert forall|i: int|
            0 <= i < process.namespaces@.len() implies crate::namespace::table_resolved(
            (#[trigger] process.namespaces@[i]).locals@,
        ) && crate::namespace::table_resolved(process.namespaces@[i].exports@) by {
            assert(table_consistent(process.namespaces@[i].locals@, decls0.len() as nat));
            assert(table_consistent(process.namespaces@[i].exports@, decls0.len() as nat));
            assert forall|j: int|
                0 <= j < process.namespaces@[i].locals@.len() implies (
            #[trigger] process.namespaces@[i].locals@[j].target.status) == aggregate_status(
                process.namespaces@[i].locals@[j].target.references@,
            ) && process.namespaces@[i].locals@[j].target.dependencies@.len() == 0 by {
                assert(valid_target(process.namespaces@, i, false, j));
                assert(target_at(process.namespaces@, i, false, j).status
                    != NameTargetStatus::NotResolved);
            }
            assert forall|j: int|
                0 <= j < process.namespaces@[i].exports@.len() implies (
            #[trigger] process.namespaces@[i].exports@[j].target.status) == aggregate_status(
                process.namespaces@[i].exports@[j].target.references@,
            ) && process.namespaces@[i].exports@[j].target.dependencies@.len() == 0 by {
                assert(valid_target(process.namespaces@, i, true, j));
                assert(target_at(process.namespaces@, i, true, j).status
                    != NameTargetStatus::NotResolved);
            }
        }
        assert forall|i: int|
            0 <= i < process.namespaces@.len() implies table_refs_wf(
            (#[trigger] process.namespaces@[i]).locals@,
            decls0.len() as nat,
        ) && table_refs_wf(process.namespaces@[i].exports@, decls0.len() as nat) by {
            assert(table_consistent(process.namespaces@[i].locals@, decls0.len() as nat));
            assert(table_consistent(process.namespaces@[i].exports@, decls0.len() as nat));
            lemma_consistent_refs_wf(process.namespaces@[i].locals@, decls0.len() as nat);
            lemma_consistent_refs_wf(process.namespaces@[i].exports@, decls0.len() as nat);
        }
    }

    // every name dependent on every module has been processed
    let mut mk: usize = 0;
    while mk < process.modules.len()
        invariant
            process.namespaces@ == ns_done,
            process.declarations == declarations,
            diags_leveled(process.diagnostics@),
            process.modules@.len() == mods0.len(),
            forall|k: int| 0 <= k < mk ==> (#[trigger] process.modules@[k]).0 == mods0[k].0
                && process.modules@[k].1 == spec_mark_resolved(mods0[k].1),
            forall|k: int|
                mk <= k < mods0.len() ==> #[trigger] process.modules@[k] == mods0[k],
            mk <= mods0.len(),
        decreases mods0.len() - mk,
    {
        let ghost pre_mods = process.modules@;
        let updated = mark_resolved(process.modules[mk].1);
        let entry = &mut process.modules[mk];
        entry.1 = updated;
        proof {
            assert forall|k: int|
                0 <= k < mk + 1 implies (#[trigger] process.modules@[k]).0 == mods0[k].0
                && process.modules@[k].1 == spec_mark_resolved(mods0[k].1) by {
                if k < mk as int {
                    assert(process.modules@[k] == pre_mods[k]);
                }
            }
            assert forall|k: int|
                mk + 1 <= k < mods0.len() implies #[trigger] process.modules@[k] == mods0[k] by {
                assert(process.modules@[k] == pre_mods[k]);
            }
        }
        mk = mk + 1;
    }

    DependencyResolutionOutput {
        modules: process.modules,
        declarations: process.declarations,
        namespaces: process.namespaces,
        diagnostics: process.diagnostics,
    }
}

/// The length of one namespace's chosen table.
fn vec_namespace_table_len(nss: &Vec<Namespace>, nsid: usize, is_export: bool) -> (r: usize)
    requires
        nsid < nss@.len(),
    ensures
        r == table_of(nss@[nsid as int], is_export).len(),
{
    let ns = &nss[nsid];
    if is_export {
        ns.exports.len()
    } else {
        ns.locals.len()
    }
}

/// A copy of the name bound at one position of one table.
fn clone_binding_name(nss: &Vec<Namespace>, nsid: usize, is_export: bool, j: usize) -> (r: String)
    requires
        nsid < nss@.len(),
        j < table_of(nss@[nsid as int], is_export).len(),
    ensures
        r@ == table_of(nss@[nsid as int], is_export)[j as int].name@,
        has_name(table_of(nss@[nsid as int], is_export), r@),
{
    let ns = &nss[nsid];
    let r = if is_export {
        ns.exports[j].name.clone()
    } else {
        ns.locals[j].name.clone()
    };
    proof {
        assert(table_of(nss@[nsid as int], is_export)[j as int].name@ == r@);
    }
    r
}

/// One step of the outer resolution loops: after processing the name bound at
/// position `j`, that target and every previously terminal target are
/// terminal.
proof fn lemma_main_loop_step(
    before: Seq<Namespace>,
    after: Seq<Namespace>,
    nsid: int,
    is_export: bool,
    j: int,
    name: Seq<char>,
)
    requires
        0 <= nsid < before.len(),
        0 <= j < table_of(before[nsid], is_export).len(),
        table_of(before[nsid], is_export)[j].name@ == name,
        same_shape(before, after),
        terminal_preserved(before, after),
        forall|j2: int|
            0 <= j2 < table_of(after[nsid], is_export).len() && table_of(
                after[nsid],
                is_export,
            )[j2].name@ == name ==> target_at(after, nsid, is_export, j2).status
                != NameTargetStatus::NotResolved,
    ensures
        target_at(after, nsid, is_export, j).status != NameTargetStatus::NotResolved,
        forall|i: int, e: bool, j2: int|
            valid_target(before, i, e, j2) && (#[trigger] target_at(before, i, e, j2)).status
                != NameTargetStatus::NotResolved ==> target_at(after, i, e, j2).status
                != NameTargetStatus::NotResolved,
        after.len() == before.len(),
        forall|i: int, e: bool, j2: int|
            valid_target(after, i, e, j2) ==> valid_target(before, i, e, j2),
{
    assert(table_of(after[nsid], is_export)[j].name == table_of(before[nsid], is_export)[j].name);
    assert forall|i: int, e: bool, j2: int|
        valid_target(before, i, e, j2) && (#[trigger] target_at(before, i, e, j2)).status
        != NameTargetStatus::NotResolved implies target_at(after, i, e, j2).status
        != NameTargetStatus::NotResolved by {
        assert(target_at(after, i, e, j2) == target_at(before, i, e, j2));
    }
    assert forall|i: int, e: bool, j2: int|
        valid_target(after, i, e, j2) implies valid_target(before, i, e, j2) by {
        assert(table_of(before[i], e).len() == table_of(after[i], e).len()) by {
            if e {
                assert(same_names(before[i].exports@, after[i].exports@));
            } else {
                assert(same_names(before[i].locals@, after[i].locals@));
            }
        }
    }
}

} // verus!
