//! Unresolved dependency edges, the pure-forward graph, and its cycle
//! detector. A pure forward (`export * from "module"`) aggregates whatever
//! the target exports, so cycles of pure forwards have to be found and
//! collapsed before ordinary dependency resolution can run.

use vstd::prelude::*;
use crate::diag::FileRange;
use crate::syntax::Token;

verus! {

/// A wildcard-to-wildcard re-export edge: the namespace that forwards, the
/// module it forwards from (as a resolved path), and the locations of the
/// module string and of the `*`, for diagnostics.
#[derive(Debug, PartialEq)]
pub struct PureForward {
    pub forward_namespace: usize,
    pub export_module: String,
    pub export_module_location: FileRange,
    pub star_location: FileRange,
}

impl PureForward {
    /// An identical copy of this pure forward.
    pub fn duplicate(&self) -> (r: PureForward)
        ensures
            r == *self,
    {
        PureForward {
            forward_namespace: self.forward_namespace,
            export_module: self.export_module.clone(),
            export_module_location: self.export_module_location.duplicate(),
            star_location: self.star_location.duplicate(),
        }
    }
}

/// An unresolved edge awaiting processing during resolution. Remote variants
/// carry the target module's resolved path and the location of the module
/// string; every variant carries the originating namespace id and the name
/// tokens needed to render diagnostics.
#[derive(Debug, PartialEq)]
pub enum Dependency {
    /// `import from "m": { x }` — a local name bound to a remote export.
    ImportedName {
        import_namespace: usize,
        import_name: Token,
        export_module: String,
        export_module_location: FileRange,
        export_name: Token,
    },
    /// `import from "m": { * as n }` — a local name bound to a module's namespace.
    ImportedNamespace {
        import_namespace: usize,
        import_name: Token,
        export_module: String,
        export_module_location: FileRange,
        star_location: FileRange,
    },
    /// `export from "m": { x }` — an export bound to a remote export.
    ForwardedName {
        forward_namespace: usize,
        forward_name: Token,
        export_module: String,
        export_module_location: FileRange,
        export_name: Token,
    },
    /// A named forward synthesized from a pure forward once the target's
    /// export pool is known; errors attach to the original `*`'s location.
    PureForwardReplacement {
        forward_namespace: usize,
        replacement_name: String,
        export_module: String,
        export_module_location: FileRange,
        star_location: FileRange,
    },
    /// `export from "m": { * as n }` — an export bound to a module's namespace.
    ForwardedNamespace {
        forward_namespace: usize,
        forward_name: Token,
        export_module: String,
        export_module_location: FileRange,
        star_location: FileRange,
    },
    /// `export { x as y }` — an export bound to a local name.
    ExportedName {
        namespace: usize,
        local_name: Token,
        export_name: Token,
    },
}

/// Whether `s` holds `x`.
pub open spec fn seq_has(s: Seq<usize>, x: usize) -> bool {
    exists|i: int| 0 <= i < s.len() && s[i] == x
}

/// Whether no element occurs in both `a` and `b`.
pub open spec fn seqs_disjoint(a: Seq<usize>, b: Seq<usize>) -> bool {
    forall|x: usize| seq_has(a, x) ==> !seq_has(b, x)
}

/// Whether the elements of `s` are pairwise distinct.
pub open spec fn seq_distinct(s: Seq<usize>) -> bool {
    forall|i: int, j: int| 0 <= i < j < s.len() ==> s[i] != s[j]
}

/// Whether every element of `s` is below `bound`.
pub open spec fn seq_below(s: Seq<usize>, bound: usize) -> bool {
    forall|i: int| 0 <= i < s.len() ==> s[i] < bound
}

/// The member sequences of a list of cycles.
pub open spec fn cycle_views(cycles: Seq<Vec<usize>>) -> Seq<Seq<usize>> {
    Seq::new(cycles.len(), |i: int| cycles[i]@)
}

pub(crate) fn vec_has(v: &Vec<usize>, x: usize) -> (r: bool)
    ensures
        r == seq_has(v@, x),
{
    let mut i: usize = 0;
    while i < v.len()
        invariant
            i <= v@.len(),
            forall|j: int| 0 <= j < i ==> v@[j] != x,
        decreases v@.len() - i,
    {
        if v[i] == x {
            return true;
        }
        i = i + 1;
    }
    false
}

/// The consumers of `exporter` in edge order: every namespace that pure-forwards
/// from it.
pub open spec fn spec_consumers(edges: Seq<(usize, usize, PureForward)>, exporter: usize) -> Seq<
    usize,
>
    decreases edges.len(),
{
    if edges.len() == 0 {
        Seq::empty()
    } else {
        let rest = spec_consumers(edges.drop_last(), exporter);
        if edges.last().0 == exporter {
            rest.push(edges.last().1)
        } else {
            rest
        }
    }
}

/// The suppliers of `forwarder` in edge order: every namespace it pure-forwards
/// from.
pub open spec fn spec_suppliers(edges: Seq<(usize, usize, PureForward)>, forwarder: usize) -> Seq<
    usize,
>
    decreases edges.len(),
{
    if edges.len() == 0 {
        Seq::empty()
    } else {
        let rest = spec_suppliers(edges.drop_last(), forwarder);
        if edges.last().1 == forwarder {
            rest.push(edges.last().0)
        } else {
            rest
        }
    }
}

/// Whether the graph has an edge from `exporter` to `forwarder`.
pub open spec fn spec_has_edge(
    edges: Seq<(usize, usize, PureForward)>,
    exporter: usize,
    forwarder: usize,
) -> bool {
    exists|i: int| 0 <= i < edges.len() && edges[i].0 == exporter && edges[i].1 == forwarder
}

/// A namespace is a consumer of `exporter` exactly when the graph holds the
/// corresponding edge.
pub proof fn lemma_consumers_has(edges: Seq<(usize, usize, PureForward)>, exporter: usize)
    ensures
        forall|f: usize| #[trigger]
            seq_has(spec_consumers(edges, exporter), f) <==> spec_has_edge(edges, exporter, f),
    decreases edges.len(),
{
    if edges.len() > 0 {
        let rest = edges.drop_last();
        lemma_consumers_has(rest, exporter);
        let c = spec_consumers(edges, exporter);
        let cr = spec_consumers(rest, exporter);
        assert forall|f: usize| #[trigger]
            seq_has(spec_consumers(edges, exporter), f) implies spec_has_edge(
            edges,
            exporter,
            f,
        ) by {
            let i = choose|i: int| 0 <= i < c.len() && c[i] == f;
            if edges.last().0 == exporter && i == c.len() - 1 {
                assert(c =~= cr.push(edges.last().1));
                assert(edges[edges.len() - 1].0 == exporter && edges[edges.len() - 1].1 == f);
            } else {
                if edges.last().0 == exporter {
                    assert(c =~= cr.push(edges.last().1));
                    assert(cr[i] == f);
                } else {
                    assert(c =~= cr);
                    assert(cr[i] == f);
                }
                assert(seq_has(cr, f));
                assert(spec_has_edge(rest, exporter, f));
                let j = choose|j: int|
                    0 <= j < rest.len() && rest[j].0 == exporter && rest[j].1 == f;
                assert(rest[j] == edges[j]);
                assert(edges[j].0 == exporter && edges[j].1 == f);
            }
        }
        assert forall|f: usize| spec_has_edge(edges, exporter, f) implies #[trigger]
            seq_has(spec_consumers(edges, exporter), f) by {
            let j = choose|j: int| 0 <= j < edges.len() && edges[j].0 == exporter && edges[j].1 == f;
            if j == edges.len() - 1 {
                assert(c =~= cr.push(edges.last().1));
                assert(c[c.len() - 1] == f);
            } else {
                assert(rest[j] == edges[j]);
                assert(rest[j].0 == exporter && rest[j].1 == f);
                assert(spec_has_edge(rest, exporter, f));
                assert(seq_has(cr, f));
                let i = choose|i: int| 0 <= i < cr.len() && cr[i] == f;
                if edges.last().0 == exporter {
                    assert(c =~= cr.push(edges.last().1));
                } else {
                    assert(c =~= cr);
                }
                assert(c[i] == f);
            }
        }
    }
}

/// A namespace is a supplier of `forwarder` exactly when the graph holds the
/// corresponding edge.
pub proof fn lemma_suppliers_has(edges: Seq<(usize, usize, PureForward)>, forwarder: usize)
    ensures
        forall|e: usize| #[trigger]
            seq_has(spec_suppliers(edges, forwarder), e) <==> spec_has_edge(edges, e, forwarder),
    decreases edges.len(),
{
    if edges.len() > 0 {
        let rest = edges.drop_last();
        lemma_suppliers_has(rest, forwarder);
        let c = spec_suppliers(edges, forwarder);
        let cr = spec_suppliers(rest, forwarder);
        assert forall|e: usize| #[trigger]
            seq_has(spec_suppliers(edges, forwarder), e) implies spec_has_edge(
            edges,
            e,
            forwarder,
        ) by {
            let i = choose|i: int| 0 <= i < c.len() && c[i] == e;
            if edges.last().1 == forwarder && i == c.len() - 1 {
                assert(c =~= cr.push(edges.last().0));
                assert(edges[edges.len() - 1].1 == forwarder && edges[edges.len() - 1].0 == e);
            } else {
                if edges.last().1 == forwarder {
                    assert(c =~= cr.push(edges.last().0));
                    assert(cr[i] == e);
                } else {
                    assert(c =~= cr);
                    assert(cr[i] == e);
                }
                assert(seq_has(cr, e));
                assert(spec_has_edge(rest, e, forwarder));
                let j = choose|j: int|
                    0 <= j < rest.len() && rest[j].0 == e && rest[j].1 == forwarder;
                assert(rest[j] == edges[j]);
                assert(edges[j].0 == e && edges[j].1 == forwarder);
            }
        }
        assert forall|e: usize| spec_has_edge(edges, e, forwarder) implies #[trigger]
            seq_has(spec_suppliers(edges, forwarder), e) by {
            let j = choose|j: int|
                0 <= j < edges.len() && edges[j].0 == e && edges[j].1 == forwarder;
            if j == edges.len() - 1 {
                assert(c =~= cr.push(edges.last().0));
                assert(c[c.len() - 1] == e);
            } else {
                assert(rest[j] == edges[j]);
                assert(rest[j].0 == e && rest[j].1 == forwarder);
                assert(spec_has_edge(rest, e, forwarder));
                assert(seq_has(cr, e));
                let i = choose|i: int| 0 <= i < cr.len() && cr[i] == e;
                if edges.last().1 == forwarder {
                    assert(c =~= cr.push(edges.last().0));
                } else {
                    assert(c =~= cr);
                }
                assert(c[i] == e);
            }
        }
    }
}

/// A walk along consumer edges: at least one namespace, each consecutive
/// pair joined by an edge.
pub open spec fn is_walk(edges: Seq<(usize, usize, PureForward)>, p: Seq<usize>) -> bool {
    p.len() >= 1 && forall|i: int|
        0 <= i < p.len() - 1 ==> spec_has_edge(edges, #[trigger] p[i], p[i + 1])
}

/// Whether `b` can be reached from `a` along consumer edges (reflexively).
pub open spec fn reach(edges: Seq<(usize, usize, PureForward)>, a: usize, b: usize) -> bool {
    exists|p: Seq<usize>| is_walk(edges, p) && p[0] == a && p.last() == b
}

/// Whether `a` and `b` lie on a common consumer-edge cycle: each reaches the
/// other. A namespace lies on a cycle of length at least two exactly when it
/// shares mutual reachability with some other namespace.
pub open spec fn mutual_reach(edges: Seq<(usize, usize, PureForward)>, a: usize, b: usize) -> bool {
    reach(edges, a, b) && reach(edges, b, a)
}

/// Whether `m` lies on a consumer-edge cycle of length at least two. A pure
/// forward of a namespace to itself alone is advisory, not a cycle.
pub open spec fn on_cycle(edges: Seq<(usize, usize, PureForward)>, m: usize) -> bool {
    exists|m2: usize| m2 != m && #[trigger] mutual_reach(edges, m, m2)
}

/// Whether some cycle of the list holds `m`.
pub open spec fn in_some_cycle(cycles: Seq<Seq<usize>>, m: usize) -> bool {
    exists|ci: int| 0 <= ci < cycles.len() && seq_has(#[trigger] cycles[ci], m)
}

/// Reachability is reflexive.
pub proof fn lemma_reach_self(edges: Seq<(usize, usize, PureForward)>, a: usize)
    ensures
        reach(edges, a, a),
{
    let p = seq![a];
    assert(is_walk(edges, p) && p[0] == a && p.last() == a);
}

/// Reachability extends along an edge at the back.
pub proof fn lemma_reach_step(edges: Seq<(usize, usize, PureForward)>, a: usize, b: usize, c: usize)
    requires
        reach(edges, a, b),
        spec_has_edge(edges, b, c),
    ensures
        reach(edges, a, c),
{
    let p = choose|p: Seq<usize>| is_walk(edges, p) && p[0] == a && p.last() == b;
    let q = p.push(c);
    assert(is_walk(edges, q)) by {
        assert forall|i: int| 0 <= i < q.len() - 1 implies spec_has_edge(
            edges,
            #[trigger] q[i],
            q[i + 1],
        ) by {
            if i < p.len() - 1 {
                assert(q[i] == p[i] && q[i + 1] == p[i + 1]);
            } else {
                assert(q[i] == p.last() && q[i + 1] == c);
            }
        }
    }
    assert(q[0] == a && q.last() == c);
}

/// Reachability extends along an edge at the front.
pub proof fn lemma_reach_front(
    edges: Seq<(usize, usize, PureForward)>,
    a: usize,
    b: usize,
    c: usize,
)
    requires
        spec_has_edge(edges, a, b),
        reach(edges, b, c),
    ensures
        reach(edges, a, c),
{
    let p = choose|p: Seq<usize>| is_walk(edges, p) && p[0] == b && p.last() == c;
    let q = seq![a] + p;
    assert(is_walk(edges, q)) by {
        assert forall|i: int| 0 <= i < q.len() - 1 implies spec_has_edge(
            edges,
            #[trigger] q[i],
            q[i + 1],
        ) by {
            if i == 0 {
                assert(q[0] == a && q[1] == p[0]);
            } else {
                assert(q[i] == p[i - 1] && q[i + 1] == p[i]);
            }
        }
    }
    assert(q[0] == a && q.last() == c);
}

/// Walking a whole path from a reached namespace reaches its end.
pub proof fn lemma_reach_walk(edges: Seq<(usize, usize, PureForward)>, a: usize, p: Seq<usize>)
    requires
        is_walk(edges, p),
        reach(edges, a, p[0]),
    ensures
        reach(edges, a, p.last()),
    decreases p.len(),
{
    if p.len() > 1 {
        assert(spec_has_edge(edges, p[0], p[1]));
        lemma_reach_step(edges, a, p[0], p[1]);
        let rest = p.drop_first();
        assert(is_walk(edges, rest)) by {
            assert forall|i: int| 0 <= i < rest.len() - 1 implies spec_has_edge(
                edges,
                #[trigger] rest[i],
                rest[i + 1],
            ) by {
                assert(rest[i] == p[i + 1] && rest[i + 1] == p[i + 2]);
            }
        }
        lemma_reach_walk(edges, a, rest);
        assert(rest.last() == p.last());
    }
}

/// Reachability is transitive.
pub proof fn lemma_reach_trans(
    edges: Seq<(usize, usize, PureForward)>,
    a: usize,
    b: usize,
    c: usize,
)
    requires
        reach(edges, a, b),
        reach(edges, b, c),
    ensures
        reach(edges, a, c),
{
    let p = choose|p: Seq<usize>| is_walk(edges, p) && p[0] == b && p.last() == c;
    lemma_reach_walk(edges, a, p);
}

/// A nontrivial walk only reaches namespaces an edge points at, which the
/// well-formed graph bounds.
pub proof fn lemma_reach_below(
    edges: Seq<(usize, usize, PureForward)>,
    a: usize,
    b: usize,
    bound: usize,
)
    requires
        reach(edges, a, b),
        a != b,
        forall|i: int| 0 <= i < edges.len() ==> edges[i].0 < bound && (#[trigger] edges[i]).1 < bound,
    ensures
        b < bound,
{
    let p = choose|p: Seq<usize>| is_walk(edges, p) && p[0] == a && p.last() == b;
    assert(p.len() >= 2);
    assert(spec_has_edge(edges, p[p.len() - 2], p[p.len() - 1]));
    let i = choose|i: int|
        0 <= i < edges.len() && edges[i].0 == p[p.len() - 2] && edges[i].1 == p[p.len() - 1];
    assert(edges[i].1 < bound);
}

/// A directed graph of pure-forward edges between namespaces, keyed by the
/// (exporting namespace, forwarding namespace) pair.
pub struct PureForwardGraph {
    pub edges: Vec<(usize, usize, PureForward)>,
    pub size: usize,
}

impl PureForwardGraph {
    /// Well-formed: one edge per (exporter, forwarder) pair, both below `size`.
    pub open spec fn wf(&self) -> bool {
        &&& forall|i: int, j: int|
            0 <= i < j < self.edges@.len() ==> !(self.edges@[i].0 == self.edges@[j].0
                && self.edges@[i].1 == self.edges@[j].1)
        &&& forall|i: int|
            0 <= i < self.edges@.len() ==> self.edges@[i].0 < self.size && self.edges@[i].1
                < self.size
    }

    /// An empty graph over namespaces `0 .. size`.
    pub fn new(size: usize) -> (r: PureForwardGraph)
        ensures
            r.size == size,
            r.edges@.len() == 0,
            r.wf(),
    {
        PureForwardGraph { edges: Vec::new(), size }
    }

    /// The edge from `exporter` to `forwarder`, if the graph holds one.
    pub fn get_forward(&self, exporter: usize, forwarder: usize) -> (r: Option<&PureForward>)
        ensures
            r is Some <==> spec_has_edge(self.edges@, exporter, forwarder),
            r is Some ==> exists|i: int|
                0 <= i < self.edges@.len() && self.edges@[i].0 == exporter && self.edges@[i].1
                    == forwarder && r == Some(&self.edges@[i].2),
    {
        let mut i: usize = 0;
        while i < self.edges.len()
            invariant
                i <= self.edges@.len(),
                forall|j: int|
                    0 <= j < i ==> !(self.edges@[j].0 == exporter && self.edges@[j].1 == forwarder),
            decreases self.edges@.len() - i,
        {
            if self.edges[i].0 == exporter && self.edges[i].1 == forwarder {
                return Some(&self.edges[i].2);
            }
            i = i + 1;
        }
        None
    }

    /// Record a pure-forward edge; at most one may exist per pair.
    pub fn add_forward(&mut self, exporter: usize, forwarder: usize, fwd: PureForward)
        requires
            !spec_has_edge(old(self).edges@, exporter, forwarder),
            exporter < old(self).size,
            forwarder < old(self).size,
        ensures
            final(self).edges@ == old(self).edges@.push((exporter, forwarder, fwd)),
            final(self).size == old(self).size,
            old(self).wf() ==> final(self).wf(),
    {
        self.edges.push((exporter, forwarder, fwd));
    }

    /// All namespaces which forward from this one.
    pub fn get_consumers(&self, exporter: usize) -> (r: Vec<usize>)
        ensures
            r@ == spec_consumers(self.edges@, exporter),
            forall|f: usize| seq_has(r@, f) <==> spec_has_edge(self.edges@, exporter, f),
            self.wf() ==> seq_below(r@, self.size),
    {
        let mut r: Vec<usize> = Vec::new();
        let mut i: usize = 0;
        while i < self.edges.len()
            invariant
                i <= self.edges@.len(),
                r@ == spec_consumers(self.edges@.subrange(0, i as int), exporter),
            decreases self.edges@.len() - i,
        {
            proof {
                assert(self.edges@.subrange(0, i + 1).drop_last() == self.edges@.subrange(
                    0,
                    i as int,
                ));
                assert(self.edges@.subrange(0, i + 1).last() == self.edges@[i as int]);
            }
            if self.edges[i].0 == exporter {
                r.push(self.edges[i].1);
            }
            i = i + 1;
        }
        proof {
            assert(self.edges@.subrange(0, self.edges@.len() as int) == self.edges@);
            lemma_consumers_has(self.edges@, exporter);
            if self.wf() {
                assert forall|j: int| 0 <= j < r@.len() implies r@[j] < self.size by {
                    assert(seq_has(r@, r@[j]));
                    assert(seq_has(spec_consumers(self.edges@, exporter), r@[j]));
                    let k = choose|k: int|
                        0 <= k < self.edges@.len() && self.edges@[k].0 == exporter
                            && self.edges@[k].1 == r@[j];
                    assert(self.edges@[k].1 < self.size);
                }
            }
        }
        r
    }

    /// All namespaces that this one has a forward for.
    pub fn get_suppliers(&self, forwarder: usize) -> (r: Vec<usize>)
        ensures
            r@ == spec_suppliers(self.edges@, forwarder),
            forall|e: usize| seq_has(r@, e) <==> spec_has_edge(self.edges@, e, forwarder),
            self.wf() ==> seq_below(r@, self.size),
    {
        let mut r: Vec<usize> = Vec::new();
        let mut i: usize = 0;
        while i < self.edges.len()
            invariant
                i <= self.edges@.len(),
                r@ == spec_suppliers(self.edges@.subrange(0, i as int), forwarder),
            decreases self.edges@.len() - i,
        {
            proof {
                assert(self.edges@.subrange(0, i + 1).drop_last() == self.edges@.subrange(
                    0,
                    i as int,
                ));
                assert(self.edges@.subrange(0, i + 1).last() == self.edges@[i as int]);
            }
            if self.edges[i].1 == forwarder {
                r.push(self.edges[i].0);
            }
            i = i + 1;
        }
        proof {
            assert(self.edges@.subrange(0, self.edges@.len() as int) == self.edges@);
            lemma_suppliers_has(self.edges@, forwarder);
            if self.wf() {
                assert forall|j: int| 0 <= j < r@.len() implies r@[j] < self.size by {
                    assert(seq_has(r@, r@[j]));
                    assert(seq_has(spec_suppliers(self.edges@, forwarder), r@[j]));
                    let k = choose|k: int|
                        0 <= k < self.edges@.len() && self.edges@[k].0 == r@[j]
                            && self.edges@[k].1 == forwarder;
                    assert(self.edges@[k].0 < self.size);
                }
            }
        }
        r
    }

    /// Whether every cycle in `cycles` has pairwise-distinct members below
    /// `size`, holds at least two members, and is disjoint from every other
    /// cycle: no namespace belongs to more than one.
    pub open spec fn cycles_wf(cycles: Seq<Seq<usize>>, size: usize) -> bool {
        &&& forall|i: int|
            0 <= i < cycles.len() ==> seq_distinct(#[trigger] cycles[i]) && seq_below(
                cycles[i],
                size,
            ) && cycles[i].len() >= 2
        &&& forall|i: int, j: int|
            0 <= i < j < cycles.len() ==> seqs_disjoint(#[trigger] cycles[i], #[trigger] cycles[j])
    }

    /// Every namespace reachable from `start` along consumer edges (forward),
    /// or from which `start` can be reached (backward), marked as a boolean
    /// per namespace id.
    fn reach_marks(&self, start: usize, forward: bool) -> (marks: Vec<bool>)
        requires
            self.wf(),
            start < self.size,
        ensures
            marks@.len() == self.size,
            forall|m: usize|
                m < self.size ==> ((#[trigger] marks@[m as int]) <==> dir_reach(
                    self.edges@,
                    forward,
                    start,
                    m,
                )),
    {
        let mut marks: Vec<bool> = Vec::new();
        let mut k: usize = 0;
        while k < self.size
            invariant
                marks@.len() == k,
                k <= self.size,
                forall|i: int| 0 <= i < k ==> !marks@[i],
            decreases self.size - k,
        {
            marks.push(false);
            k = k + 1;
        }
        let ghost init = marks@;
        marks.set(start, true);
        proof {
            lemma_reach_self(self.edges@, start);
        }
        let mut work: Vec<usize> = Vec::new();
        work.push(start);
        proof {
            assert(work@[0] == start);
            assert(seq_has(work@, start));
            assert forall|v: usize, c: usize|
                v < self.size && marks@[v as int] && #[trigger] dir_edge(
                    self.edges@,
                    forward,
                    v,
                    c,
                ) && !seq_has(work@, v) implies c < self.size && marks@[c as int] by {
                if v != start {
                    assert(marks@[v as int] == init[v as int]);
                }
            }
        }
        loop
            invariant
                self.wf(),
                start < self.size,
                marks@.len() == self.size,
                marks@[start as int],
                seq_distinct(work@),
                seq_below(work@, self.size),
                forall|k2: int| 0 <= k2 < work@.len() ==> marks@[#[trigger] work@[k2] as int],
                forall|m: usize|
                    m < self.size && (#[trigger] marks@[m as int]) ==> dir_reach(
                        self.edges@,
                        forward,
                        start,
                        m,
                    ),
                forall|v: usize, c: usize|
                    v < self.size && marks@[v as int] && #[trigger] dir_edge(
                        self.edges@,
                        forward,
                        v,
                        c,
                    ) && !seq_has(work@, v) ==> c < self.size && marks@[c as int],
            ensures
                marks@.len() == self.size,
                marks@[start as int],
                forall|m: usize|
                    m < self.size && (#[trigger] marks@[m as int]) ==> dir_reach(
                        self.edges@,
                        forward,
                        start,
                        m,
                    ),
                forall|v: usize, c: usize|
                    v < self.size && marks@[v as int] && #[trigger] dir_edge(
                        self.edges@,
                        forward,
                        v,
                        c,
                    ) ==> c < self.size && marks@[c as int],
            decreases 2 * count_false(marks@) + work@.len(),
        {
            let ghost work_entry = work@;
            let v = match work.pop() {
                None => {
                    proof {
                        assert forall|v2: usize, c: usize|
                            v2 < self.size && marks@[v2 as int] && #[trigger] dir_edge(
                                self.edges@,
                                forward,
                                v2,
                                c,
                            ) implies c < self.size && marks@[c as int] by {
                            assert(!seq_has(work@, v2));
                        }
                    }
                    break ;
                },
                Some(v) => v,
            };
            proof {
                assert(work@ == work_entry.drop_last());
                assert(v == work_entry.last());
            }
            let neighbors = if forward {
                self.get_consumers(v)
            } else {
                self.get_suppliers(v)
            };
            proof {
                assert(forall|c: usize|
                    seq_has(neighbors@, c) <==> dir_edge(self.edges@, forward, v, c));
                assert(seq_below(neighbors@, self.size));
            }
            let ghost cf0 = count_false(marks@);
            let ghost wl0 = work@.len();
            proof {
                assert(!seq_has(work@, v)) by {
                    if seq_has(work@, v) {
                        let k2 = choose|k2: int| 0 <= k2 < work@.len() && work@[k2] == v;
                        assert(work_entry[k2] == work@[k2]);
                        assert(work_entry[work_entry.len() - 1] == v);
                    }
                }
                assert forall|v2: usize, c: usize|
                    v2 < self.size && marks@[v2 as int] && #[trigger] dir_edge(
                        self.edges@,
                        forward,
                        v2,
                        c,
                    ) && !seq_has(work@, v2) && v2 != v implies c < self.size
                    && marks@[c as int] by {
                    assert(!seq_has(work_entry, v2)) by {
                        if seq_has(work_entry, v2) {
                            let k2 = choose|k2: int|
                                0 <= k2 < work_entry.len() && work_entry[k2] == v2;
                            assert(k2 < work_entry.len() - 1) by {
                                assert(work_entry[work_entry.len() - 1] == v);
                            }
                            assert(work@[k2] == work_entry[k2]);
                            assert(seq_has(work@, v2));
                        }
                    }
                }
            }
            let mut q: usize = 0;
            while q < neighbors.len()
                invariant
                    self.wf(),
                    start < self.size,
                    v < self.size,
                    marks@.len() == self.size,
                    marks@[start as int],
                    marks@[v as int],
                    seq_distinct(work@),
                    seq_below(work@, self.size),
                    seq_below(neighbors@, self.size),
                    forall|c: usize|
                        seq_has(neighbors@, c) <==> dir_edge(self.edges@, forward, v, c),
                    forall|k2: int| 0 <= k2 < work@.len() ==> marks@[#[trigger] work@[k2] as int],
                    forall|m: usize|
                        m < self.size && (#[trigger] marks@[m as int]) ==> dir_reach(
                            self.edges@,
                            forward,
                            start,
                            m,
                        ),
                    // every namespace closed before this round stays closed,
                    // and the popped one is closed up to the neighbors done
                    forall|v2: usize, c: usize|
                        v2 < self.size && marks@[v2 as int] && #[trigger] dir_edge(
                            self.edges@,
                            forward,
                            v2,
                            c,
                        ) && !seq_has(work@, v2) && v2 != v ==> c < self.size && marks@[c as int],
                    forall|k2: int|
                        0 <= k2 < q ==> marks@[#[trigger] neighbors@[k2] as int],
                    !seq_has(work@, v),
                    2 * count_false(marks@) + work@.len() <= 2 * cf0 + wl0,
                    q <= neighbors@.len(),
                decreases neighbors@.len() - q,
            {
                let c = neighbors[q];
                if !marks[c] {
                    let ghost marks_pre = marks@;
                    let ghost work_mid = work@;
                    marks.set(c, true);
                    work.push(c);
                    proof {
                        lemma_count_false_set(marks_pre, c as int);
                        assert forall|v2: usize, c2: usize|
                            v2 < self.size && marks@[v2 as int] && #[trigger] dir_edge(
                                self.edges@,
                                forward,
                                v2,
                                c2,
                            ) && !seq_has(work@, v2) && v2 != v implies c2 < self.size
                            && marks@[c2 as int] by {
                            assert(v2 != c) by {
                                if v2 == c {
                                    assert(work@[work@.len() - 1] == c);
                                    assert(seq_has(work@, v2));
                                }
                            }
                            assert(marks_pre[v2 as int]);
                            assert(!seq_has(work_mid, v2)) by {
                                if seq_has(work_mid, v2) {
                                    let k2 = choose|k2: int|
                                        0 <= k2 < work_mid.len() && work_mid[k2] == v2;
                                    assert(work@[k2] == work_mid[k2]);
                                    assert(seq_has(work@, v2));
                                }
                            }
                            assert(marks_pre[c2 as int]);
                        }
                        assert forall|k2: int|
                            0 <= k2 < work@.len() implies marks@[#[trigger] work@[k2] as int] by {
                            if k2 < work_mid.len() {
                                assert(work@[k2] == work_mid[k2]);
                                assert(marks_pre[work_mid[k2] as int]);
                            } else {
                                assert(work@[k2] == c);
                            }
                        }
                        assert(!seq_has(work@, v)) by {
                            if seq_has(work@, v) {
                                let k2 = choose|k2: int| 0 <= k2 < work@.len() && work@[k2] == v;
                                if k2 < work_mid.len() {
                                    assert(work@[k2] == work_mid[k2]);
                                    assert(seq_has(work_mid, v));
                                } else {
                                    assert(work@[k2] == c);
                                    assert(marks_pre[v as int]);
                                }
                            }
                        }
                        assert(dir_reach(self.edges@, forward, start, c)) by {
                            assert(seq_has(neighbors@, neighbors@[q as int]));
                            assert(dir_edge(self.edges@, forward, v, c));
                            if forward {
                                lemma_reach_step(self.edges@, start, v, c);
                            } else {
                                lemma_reach_front(self.edges@, c, v, start);
                            }
                        }
                        assert(seq_distinct(work@)) by {
                            assert forall|i: int, j: int|
                                0 <= i < j < work@.len() implies work@[i] != work@[j] by {
                                if j < work@.len() - 1 {
                                    assert(work@[i] == work@.drop_last()[i] && work@[j]
                                        == work@.drop_last()[j]);
                                } else {
                                    assert(work@[j] == c);
                                    assert(marks_pre[work@[i] as int]);
                                }
                            }
                        }
                    }
                }
                q = q + 1;
            }
            proof {
                // the popped namespace is now fully closed
                assert forall|v2: usize, c: usize|
                    v2 < self.size && marks@[v2 as int] && #[trigger] dir_edge(
                        self.edges@,
                        forward,
                        v2,
                        c,
                    ) && !seq_has(work@, v2) implies c < self.size && marks@[c as int] by {
                    if v2 == v {
                        assert(seq_has(neighbors@, c));
                        let k2 = choose|k2: int|
                            0 <= k2 < neighbors@.len() && neighbors@[k2] == c;
                        assert(marks@[neighbors@[k2] as int]);
                    }
                }
            }
        }
        // the worklist is empty: the marking is closed under edges, so every
        // reachable namespace is marked; every marked one was reached
        proof {
            assert forall|m: usize|
                m < self.size && dir_reach(self.edges@, forward, start, m) implies marks@[m as int] by {
                if forward {
                    let p = choose|p: Seq<usize>|
                        is_walk(self.edges@, p) && p[0] == start && p.last() == m;
                    lemma_walk_marked_fwd(self.edges@, marks@, p, self.size);
                } else {
                    let p = choose|p: Seq<usize>|
                        is_walk(self.edges@, p) && p[0] == m && p.last() == start;
                    lemma_walk_marked_bwd(self.edges@, marks@, p, self.size);
                }
            }
        }
        marks
    }

    /// Determine the pure-forward cycles in this graph: the maximal groups of
    /// namespaces that can all reach one another along consumer edges, which
    /// is what merging every pair of intersecting simple cycles yields. Every
    /// namespace on a cycle of length at least two lands in exactly one
    /// group; a pure forward of a namespace to itself alone creates none.
    pub fn get_cycles(&self) -> (r: Vec<Vec<usize>>)
        requires
            self.wf(),
        ensures
            Self::cycles_wf(cycle_views(r@), self.size),
            // soundness: the members of one cycle all lie on common cycles
            forall|ci: int, m: usize, x: usize|
                0 <= ci < cycle_views(r@).len() && #[trigger] seq_has(cycle_views(r@)[ci], m)
                    && #[trigger] seq_has(cycle_views(r@)[ci], x) ==> mutual_reach(
                    self.edges@,
                    m,
                    x,
                ),
            // maximality: a cycle holds everything mutually reachable with a member
            forall|ci: int, m: usize, x: usize|
                0 <= ci < cycle_views(r@).len() && #[trigger] seq_has(cycle_views(r@)[ci], m)
                    && #[trigger] mutual_reach(self.edges@, m, x) ==> seq_has(
                    cycle_views(r@)[ci],
                    x,
                ),
            // completeness: every namespace on a cycle is reported
            forall|m: usize|
                m < self.size && #[trigger] on_cycle(self.edges@, m) ==> in_some_cycle(
                    cycle_views(r@),
                    m,
                ),
    {
        let mut cycles: Vec<Vec<usize>> = Vec::new();
        let mut ns: usize = 0;
        while ns < self.size
            invariant
                self.wf(),
                Self::cycles_wf(cycle_views(cycles@), self.size),
                forall|ci: int, m: usize, x: usize|
                    0 <= ci < cycle_views(cycles@).len() && #[trigger] seq_has(
                        cycle_views(cycles@)[ci],
                        m,
                    ) && #[trigger] seq_has(cycle_views(cycles@)[ci], x) ==> mutual_reach(
                        self.edges@,
                        m,
                        x,
                    ),
                forall|ci: int, m: usize, x: usize|
                    0 <= ci < cycle_views(cycles@).len() && #[trigger] seq_has(
                        cycle_views(cycles@)[ci],
                        m,
                    ) && #[trigger] mutual_reach(self.edges@, m, x) ==> seq_has(
                        cycle_views(cycles@)[ci],
                        x,
                    ),
                forall|m: usize|
                    m < ns && #[trigger] on_cycle(self.edges@, m) ==> in_some_cycle(
                        cycle_views(cycles@),
                        m,
                    ),
                ns <= self.size,
            decreases self.size - ns,
        {
            let ghost pre_cycles = cycles@;
            let covered = in_any(&cycles, ns);
            if !covered {
                let fwd = self.reach_marks(ns, true);
                let bwd = self.reach_marks(ns, false);
                let mut members: Vec<usize> = Vec::new();
                let mut m: usize = 0;
                while m < self.size
                    invariant
                        self.wf(),
                        ns < self.size,
                        fwd@.len() == self.size,
                        bwd@.len() == self.size,
                        forall|x: usize|
                            x < self.size ==> ((#[trigger] fwd@[x as int]) <==> dir_reach(
                                self.edges@,
                                true,
                                ns,
                                x,
                            )),
                        forall|x: usize|
                            x < self.size ==> ((#[trigger] bwd@[x as int]) <==> dir_reach(
                                self.edges@,
                                false,
                                ns,
                                x,
                            )),
                        forall|x: usize|
                            #![trigger seq_has(members@, x)]
                            #![trigger mutual_reach(self.edges@, ns, x)]
                            seq_has(members@, x) <==> (x < m && mutual_reach(
                                self.edges@,
                                ns,
                                x,
                            )),
                        seq_distinct(members@),
                        seq_below(members@, self.size),
                        m <= self.size,
                    decreases self.size - m,
                {
                    let ghost members_pre = members@;
                    if fwd[m] && bwd[m] {
                        members.push(m);
                        proof {
                            assert(mutual_reach(self.edges@, ns, m)) by {
                                assert(fwd@[m as int]);
                                assert(bwd@[m as int]);
                            }
                            assert forall|x: usize|
                                seq_has(members@, x) implies (x < m + 1 && mutual_reach(
                                self.edges@,
                                ns,
                                x,
                            )) by {
                                let k = choose|k: int|
                                    0 <= k < members@.len() && members@[k] == x;
                                if k < members_pre.len() {
                                    assert(members_pre[k] == x);
                                    assert(seq_has(members_pre, x));
                                }
                            }
                            assert forall|x: usize|
                                x < m + 1 && mutual_reach(self.edges@, ns, x) implies seq_has(
                                members@,
                                x,
                            ) by {
                                if x < m {
                                    assert(seq_has(members_pre, x));
                                    let k = choose|k: int|
                                        0 <= k < members_pre.len() && members_pre[k] == x;
                                    assert(members@[k] == x);
                                } else {
                                    assert(members@[members@.len() - 1] == x);
                                }
                            }
                            assert(seq_distinct(members@)) by {
                                assert forall|i: int, j: int|
                                    0 <= i < j < members@.len() implies members@[i]
                                    != members@[j] by {
                                    if j < members_pre.len() {
                                        assert(members@[i] == members_pre[i] && members@[j]
                                            == members_pre[j]);
                                    } else {
                                        assert(members@[i] == members_pre[i]);
                                        assert(seq_has(members_pre, members_pre[i]));
                                        assert(members_pre[i] < m);
                                        assert(members@[j] == m);
                                    }
                                }
                            }
                        }
                    } else {
                        proof {
                            assert forall|x: usize|
                                x < m + 1 && mutual_reach(self.edges@, ns, x) implies seq_has(
                                members@,
                                x,
                            ) by {
                                if x == m {
                                    assert(fwd@[m as int] && bwd@[m as int]);
                                }
                            }
                        }
                    }
                    m = m + 1;
                }
                proof {
                    // the scan covered every mutually reachable namespace
                    assert forall|x: usize|
                        #[trigger] mutual_reach(self.edges@, ns, x) implies seq_has(
                        members@,
                        x,
                    ) by {
                        if x != ns {
                            lemma_reach_below(self.edges@, ns, x, self.size);
                        }
                    }
                    assert(seq_has(members@, ns)) by {
                        lemma_reach_self(self.edges@, ns);
                        assert(mutual_reach(self.edges@, ns, ns));
                    }
                }
                if members.len() >= 2 {
                    proof {
                        self.lemma_push_group(pre_cycles, members@, ns);
                    }
                    cycles.push(members);
                    proof {
                        assert(cycle_views(cycles@) =~= cycle_views(pre_cycles).push(
                            cycles@.last()@,
                        )) by {
                            assert forall|i: int|
                                0 <= i < cycles@.len() implies cycle_views(cycles@)[i]
                                == cycle_views(pre_cycles).push(cycles@.last()@)[i] by {
                                if i < pre_cycles.len() {
                                    assert(cycles@[i] == pre_cycles[i]);
                                }
                            }
                        }
                    }
                } else {
                    proof {
                        // a lone member means no other namespace shares a cycle
                        assert(!on_cycle(self.edges@, ns)) by {
                            if on_cycle(self.edges@, ns) {
                                let m2 = choose|m2: usize|
                                    m2 != ns && #[trigger] mutual_reach(self.edges@, ns, m2);
                                assert(seq_has(members@, m2));
                                assert(seq_has(members@, ns));
                                let k1 = choose|k: int|
                                    0 <= k < members@.len() && members@[k] == m2;
                                let k2 = choose|k: int|
                                    0 <= k < members@.len() && members@[k] == ns;
                                assert(k1 != k2);
                            }
                        }
                    }
                }
            }
            proof {
                assert forall|m2: usize|
                    m2 < ns + 1 && #[trigger] on_cycle(self.edges@, m2) implies in_some_cycle(
                    cycle_views(cycles@),
                    m2,
                ) by {
                    if m2 < ns {
                        assert(in_some_cycle(cycle_views(pre_cycles), m2));
                        let ci = choose|ci: int|
                            0 <= ci < cycle_views(pre_cycles).len() && seq_has(
                                #[trigger] cycle_views(pre_cycles)[ci],
                                m2,
                            );
                        assert(cycle_views(cycles@)[ci] == cycle_views(pre_cycles)[ci]) by {
                            assert(cycles@[ci] == pre_cycles[ci]);
                        }
                    } else {
                        if covered {
                            assert(in_some_cycle(cycle_views(pre_cycles), ns));
                            let ci = choose|ci: int|
                                0 <= ci < cycle_views(pre_cycles).len() && seq_has(
                                    #[trigger] cycle_views(pre_cycles)[ci],
                                    ns,
                                );
                            assert(cycle_views(cycles@)[ci] == cycle_views(pre_cycles)[ci]) by {
                                assert(cycles@[ci] == pre_cycles[ci]);
                            }
                        } else {
                            assert(seq_has(cycle_views(cycles@)[cycles@.len() - 1], ns));
                        }
                    }
                }
            }
            ns = ns + 1;
        }
        cycles
    }

    /// Appending one full mutual-reachability group preserves every stated
    /// property of the cycle list: the group is internally mutually
    /// reachable, maximal, and disjoint from every earlier group.
    proof fn lemma_push_group(
        &self,
        pre: Seq<Vec<usize>>,
        group: Seq<usize>,
        ns: usize,
    )
        requires
            self.wf(),
            ns < self.size,
            seq_distinct(group),
            seq_below(group, self.size),
            group.len() >= 2,
            forall|x: usize| seq_has(group, x) <==> #[trigger] mutual_reach(self.edges@, ns, x),
            !in_some_cycle(cycle_views(pre), ns),
            Self::cycles_wf(cycle_views(pre), self.size),
            forall|ci: int, m: usize, x: usize|
                0 <= ci < cycle_views(pre).len() && #[trigger] seq_has(cycle_views(pre)[ci], m)
                    && #[trigger] seq_has(cycle_views(pre)[ci], x) ==> mutual_reach(
                    self.edges@,
                    m,
                    x,
                ),
            forall|ci: int, m: usize, x: usize|
                0 <= ci < cycle_views(pre).len() && #[trigger] seq_has(cycle_views(pre)[ci], m)
                    && #[trigger] mutual_reach(self.edges@, m, x) ==> seq_has(
                    cycle_views(pre)[ci],
                    x,
                ),
        ensures
            Self::cycles_wf(cycle_views(pre).push(group), self.size),
            forall|ci: int, m: usize, x: usize|
                0 <= ci < cycle_views(pre).push(group).len() && #[trigger] seq_has(
                    cycle_views(pre).push(group)[ci],
                    m,
                ) && #[trigger] seq_has(cycle_views(pre).push(group)[ci], x) ==> mutual_reach(
                    self.edges@,
                    m,
                    x,
                ),
            forall|ci: int, m: usize, x: usize|
                0 <= ci < cycle_views(pre).push(group).len() && #[trigger] seq_has(
                    cycle_views(pre).push(group)[ci],
                    m,
                ) && #[trigger] mutual_reach(self.edges@, m, x) ==> seq_has(
                    cycle_views(pre).push(group)[ci],
                    x,
                ),
    {
        let cv = cycle_views(pre).push(group);
        // the new group is internally mutually reachable and maximal
        assert forall|m: usize, x: usize|
            seq_has(group, m) && seq_has(group, x) implies mutual_reach(self.edges@, m, x) by {
            assert(mutual_reach(self.edges@, ns, m));
            assert(mutual_reach(self.edges@, ns, x));
            lemma_reach_trans(self.edges@, m, ns, x);
            lemma_reach_trans(self.edges@, x, ns, m);
        }
        assert forall|m: usize, x: usize|
            seq_has(group, m) && mutual_reach(self.edges@, m, x) implies seq_has(group, x) by {
            assert(mutual_reach(self.edges@, ns, m));
            lemma_reach_trans(self.edges@, ns, m, x);
            lemma_reach_trans(self.edges@, x, m, ns);
            assert(mutual_reach(self.edges@, ns, x));
        }
        // the new group shares no member with an earlier cycle
        assert forall|ci: int|
            0 <= ci < cycle_views(pre).len() implies seqs_disjoint(
            #[trigger] cycle_views(pre)[ci],
            group,
        ) by {
            assert forall|x: usize|
                seq_has(cycle_views(pre)[ci], x) implies !seq_has(group, x) by {
                if seq_has(group, x) {
                    assert(mutual_reach(self.edges@, ns, x));
                    assert(mutual_reach(self.edges@, x, ns));
                    assert(seq_has(cycle_views(pre)[ci], ns));
                    assert(in_some_cycle(cycle_views(pre), ns));
                }
            }
        }
        assert forall|i: int, j: int|
            0 <= i < j < cv.len() implies seqs_disjoint(#[trigger] cv[i], #[trigger] cv[j]) by {
            if j < cycle_views(pre).len() {
                assert(cv[i] == cycle_views(pre)[i] && cv[j] == cycle_views(pre)[j]);
            } else {
                assert(cv[i] == cycle_views(pre)[i] && cv[j] == group);
            }
        }
        assert forall|i: int|
            0 <= i < cv.len() implies seq_distinct(#[trigger] cv[i]) && seq_below(cv[i], self.size)
            && cv[i].len() >= 2 by {
            if i < cycle_views(pre).len() {
                assert(cv[i] == cycle_views(pre)[i]);
            } else {
                assert(cv[i] == group);
            }
        }
        assert forall|ci: int, m: usize, x: usize|
            0 <= ci < cv.len() && #[trigger] seq_has(cv[ci], m) && #[trigger] seq_has(
                cv[ci],
                x,
            ) implies mutual_reach(self.edges@, m, x) by {
            if ci < cycle_views(pre).len() {
                assert(cv[ci] == cycle_views(pre)[ci]);
            } else {
                assert(cv[ci] == group);
            }
        }
        assert forall|ci: int, m: usize, x: usize|
            0 <= ci < cv.len() && #[trigger] seq_has(cv[ci], m) && #[trigger] mutual_reach(
                self.edges@,
                m,
                x,
            ) implies seq_has(cv[ci], x) by {
            if ci < cycle_views(pre).len() {
                assert(cv[ci] == cycle_views(pre)[ci]);
            } else {
                assert(cv[ci] == group);
            }
        }
    }
}

/// Whether one edge in the chosen direction joins `a` to `b`: a consumer
/// edge out of `a` (forward), or a supplier edge into `a` (backward).
pub open spec fn dir_edge(
    edges: Seq<(usize, usize, PureForward)>,
    forward: bool,
    a: usize,
    b: usize,
) -> bool {
    if forward {
        spec_has_edge(edges, a, b)
    } else {
        spec_has_edge(edges, b, a)
    }
}

/// Reachability in the chosen direction, from the search's start.
pub open spec fn dir_reach(
    edges: Seq<(usize, usize, PureForward)>,
    forward: bool,
    start: usize,
    m: usize,
) -> bool {
    if forward {
        reach(edges, start, m)
    } else {
        reach(edges, m, start)
    }
}

/// How many entries of `s` are still false.
pub open spec fn count_false(s: Seq<bool>) -> nat
    decreases s.len(),
{
    if s.len() == 0 {
        0
    } else {
        count_false(s.drop_last()) + if s.last() {
            0nat
        } else {
            1nat
        }
    }
}

/// Marking one false entry true lowers the false count by one.
pub proof fn lemma_count_false_set(s: Seq<bool>, i: int)
    requires
        0 <= i < s.len(),
        !s[i],
    ensures
        count_false(s.update(i, true)) + 1 == count_false(s),
    decreases s.len(),
{
    let u = s.update(i, true);
    if i == s.len() - 1 {
        assert(u.drop_last() =~= s.drop_last());
        assert(u.last());
    } else {
        assert(u.drop_last() =~= s.drop_last().update(i, true));
        assert(u.last() == s.last());
        lemma_count_false_set(s.drop_last(), i);
    }
}

/// Along a walk whose start is marked, a marking closed under consumer edges
/// marks every step, including the end.
pub proof fn lemma_walk_marked_fwd(
    edges: Seq<(usize, usize, PureForward)>,
    marks: Seq<bool>,
    p: Seq<usize>,
    size: usize,
)
    requires
        is_walk(edges, p),
        marks.len() == size,
        p[0] < size,
        marks[p[0] as int],
        forall|i: int| 0 <= i < edges.len() ==> edges[i].0 < size && (#[trigger] edges[i]).1 < size,
        forall|v: usize, c: usize|
            v < size && marks[v as int] && #[trigger] dir_edge(edges, true, v, c) ==> c < size
                && marks[c as int],
    ensures
        p.last() < size,
        marks[p.last() as int],
    decreases p.len(),
{
    if p.len() > 1 {
        assert(spec_has_edge(edges, p[0], p[1]));
        assert(dir_edge(edges, true, p[0], p[1]));
        let rest = p.drop_first();
        assert(is_walk(edges, rest)) by {
            assert forall|i: int| 0 <= i < rest.len() - 1 implies spec_has_edge(
                edges,
                #[trigger] rest[i],
                rest[i + 1],
            ) by {
                assert(rest[i] == p[i + 1] && rest[i + 1] == p[i + 2]);
            }
        }
        assert(rest[0] == p[1]);
        lemma_walk_marked_fwd(edges, marks, rest, size);
        assert(rest.last() == p.last());
    }
}

/// Along a walk whose end is marked, a marking closed under supplier edges
/// marks every step, including the start.
pub proof fn lemma_walk_marked_bwd(
    edges: Seq<(usize, usize, PureForward)>,
    marks: Seq<bool>,
    p: Seq<usize>,
    size: usize,
)
    requires
        is_walk(edges, p),
        marks.len() == size,
        p.last() < size,
        marks[p.last() as int],
        forall|i: int| 0 <= i < edges.len() ==> edges[i].0 < size && (#[trigger] edges[i]).1 < size,
        forall|v: usize, c: usize|
            v < size && marks[v as int] && #[trigger] dir_edge(edges, false, v, c) ==> c < size
                && marks[c as int],
    ensures
        p[0] < size,
        marks[p[0] as int],
    decreases p.len(),
{
    if p.len() > 1 {
        let rest = p.drop_first();
        assert(is_walk(edges, rest)) by {
            assert forall|i: int| 0 <= i < rest.len() - 1 implies spec_has_edge(
                edges,
                #[trigger] rest[i],
                rest[i + 1],
            ) by {
                assert(rest[i] == p[i + 1] && rest[i + 1] == p[i + 2]);
            }
        }
        assert(rest.last() == p.last());
        lemma_walk_marked_bwd(edges, marks, rest, size);
        assert(rest[0] == p[1]);
        assert(spec_has_edge(edges, p[0], p[1]));
        assert(dir_edge(edges, false, p[1], p[0]));
    }
}

/// Whether `ns` already belongs to one of the cycles.
fn in_any(cycles: &Vec<Vec<usize>>, ns: usize) -> (r: bool)
    ensures
        r == in_some_cycle(cycle_views(cycles@), ns),
{
    let mut ci: usize = 0;
    while ci < cycles.len()
        invariant
            ci <= cycles@.len(),
            forall|k: int| 0 <= k < ci ==> !seq_has(#[trigger] cycle_views(cycles@)[k], ns),
        decreases cycles@.len() - ci,
    {
        if vec_has(&cycles[ci], ns) {
            proof {
                assert(cycle_views(cycles@)[ci as int] == cycles@[ci as int]@);
            }
            return true;
        }
        proof {
            assert(cycle_views(cycles@)[ci as int] == cycles@[ci as int]@);
        }
        ci = ci + 1;
    }
    false
}

/// Extending a distinct, bounded path with a fresh element keeps it distinct
/// and bounded.
pub proof fn lemma_path_push_distinct(path: Seq<usize>, ns: usize, bound: usize)
    requires
        seq_distinct(path),
        seq_below(path, bound),
        !seq_has(path, ns),
        ns < bound,
    ensures
        seq_distinct(path.push(ns)),
        seq_below(path.push(ns), bound),
{
    let p2 = path.push(ns);
    assert forall|i: int, j: int| 0 <= i < j < p2.len() implies p2[i] != p2[j] by {
        if j < path.len() {
            assert(p2[i] == path[i] && p2[j] == path[j]);
        } else {
            assert(p2[i] == path[i] && p2[j] == ns);
            if path[i] == ns {
                assert(seq_has(path, ns));
            }
        }
    }
    assert forall|i: int| 0 <= i < p2.len() implies p2[i] < bound by {
        if i < path.len() {
            assert(p2[i] == path[i]);
        }
    }
}

/// A sequence of pairwise-distinct values below `bound` has at most `bound`
/// elements.
pub proof fn distinct_below_len(s: Seq<usize>, bound: usize)
    requires
        seq_distinct(s),
        seq_below(s, bound),
    ensures
        s.len() <= bound,
    decreases bound,
{
    if s.len() > 0 {
        if bound == 0 {
            assert(s[0] < 0);
        } else {
            let last = (bound - 1) as usize;
            if seq_has(s, last) {
                let i = choose|i: int| 0 <= i < s.len() && s[i] == last;
                let shorter = s.remove(i);
                assert(seq_below(shorter, last)) by {
                    assert forall|j: int| 0 <= j < shorter.len() implies shorter[j] < last by {
                        let orig = if j < i {
                            j
                        } else {
                            j + 1
                        };
                        assert(s[orig] == shorter[j]);
                        assert(shorter[j] < bound);
                        assert(shorter[j] != last);
                    }
                }
                assert(seq_distinct(shorter)) by {
                    assert forall|p: int, q: int|
                        0 <= p < q < shorter.len() implies shorter[p] != shorter[q] by {
                        let op = if p < i {
                            p
                        } else {
                            p + 1
                        };
                        let oq = if q < i {
                            q
                        } else {
                            q + 1
                        };
                        assert(s[op] == shorter[p] && s[oq] == shorter[q]);
                    }
                }
                distinct_below_len(shorter, last);
            } else {
                assert(seq_below(s, last)) by {
                    assert forall|j: int| 0 <= j < s.len() implies s[j] < last by {
                        assert(s[j] < bound);
                        assert(seq_has(s, s[j]));
                    }
                }
                distinct_below_len(s, last);
            }
        }
    }
}

} // verus!
