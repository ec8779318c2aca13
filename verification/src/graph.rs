//! Import evidence exported from bundler graphs, with location provenance.
use vstd::prelude::*;
use vstd::utf8::encode_utf8;

use crate::analysis::{Report, SourceRow};
use crate::recommendations::{build, candidate_recs, recs_ordered, recs_view, removal_recs, sums_fit};
use crate::bundle::{Warning, sha256, sha256_hex};
use crate::maps::{strip_prefix, strip_prefix_chars};
use crate::metadata::ImportPath;
use crate::source_path::{SourcePaths, find_char, find_from, lemma_find_char, resolved_source};
use crate::strings::{chars_of, extend_chars, same_chars, slice_chars, str_eq, string_of};
use crate::summary::{chars_less, lemma_name_less_irreflexive, lemma_name_less_transitive, name_less};

verus! {

/// How one module imports another.
#[derive(Debug, Clone, Copy, PartialEq, Eq, Structural)]
pub enum ImportKind {
    Static,
    Dynamic,
    Require,
    Unknown,
}

/// A one-based position in a module's source.
#[derive(Debug, Clone, Copy, PartialEq, Eq, Structural)]
pub struct Location {
    pub line: usize,
    pub column: usize,
}

/// One import edge of a path.
#[derive(Debug, Clone)]
pub struct ImportStep {
    pub from: String,
    pub to: String,
    pub kind: ImportKind,
    pub location: Option<Location>,
    pub location_evidence: Option<String>,
    pub specifier: Option<String>,
}

/// A chain of at least one import, every one static.
pub open spec fn static_chain(edges: Seq<ImportStep>) -> bool {
    edges.len() > 0 && forall|i: int| 0 <= i < edges.len() ==> (#[trigger] edges[i]).kind == ImportKind::Static
}

/// A chain that crosses an `import()`.
pub open spec fn dynamic_chain(edges: Seq<ImportStep>) -> bool {
    exists|i: int| 0 <= i < edges.len() && (#[trigger] edges[i]).kind == ImportKind::Dynamic
}

/// Whether every import of a nonempty chain is static.
pub fn is_static_chain(edges: &Vec<ImportStep>) -> (r: bool)
    ensures
        r == static_chain(edges@),
{
    if edges.len() == 0 {
        return false;
    }
    for i in 0..edges.len()
        invariant
            forall|j: int| 0 <= j < i ==> (#[trigger] edges@[j]).kind == ImportKind::Static,
    {
        if edges[i].kind != ImportKind::Static {
            return false;
        }
    }
    true
}

/// Whether a chain crosses an `import()`.
pub fn is_dynamic_chain(edges: &Vec<ImportStep>) -> (r: bool)
    ensures
        r == dynamic_chain(edges@),
{
    for i in 0..edges.len()
        invariant
            forall|j: int| 0 <= j < i ==> (#[trigger] edges@[j]).kind != ImportKind::Dynamic,
    {
        if edges[i].kind == ImportKind::Dynamic {
            return true;
        }
    }
    false
}

/// A module of an exported graph.
#[derive(Debug, Clone)]
pub struct Module {
    pub id: String,
    pub source: String,
    pub entry: bool,
    pub emitted_bytes: Option<usize>,
    pub source_sha256: Option<String>,
}

/// An exported bundler graph, as parsed.
#[derive(Debug, Clone)]
pub struct Graph {
    pub schema_version: u32,
    pub bundler: String,
    pub modules: Vec<Module>,
    pub edges: Vec<ImportStep>,
    pub warnings: Vec<String>,
}

/// Why a graph was refused.
#[derive(Debug, Clone, PartialEq, Eq)]
pub enum GraphError {
    /// A schema version other than 1.
    SchemaVersion,
    /// No modules.
    NoModules,
    /// Two modules with one id.
    DuplicateIds,
    /// An edge names a module the graph lacks.
    UnknownModule,
    /// A location that is not one-based.
    ZeroBasedLocation,
    /// No entry module.
    NoEntries,
    /// A module's recorded hash matches neither its embedded content nor its file.
    SnapshotDiffers(String),
}

/// Module ids are distinct.
pub open spec fn ids_distinct(modules: Seq<Module>) -> bool {
    forall|i: int, j: int| 0 <= i < j < modules.len() ==> (#[trigger] modules[i]).id@ != (#[trigger] modules[j]).id@
}

pub open spec fn known(modules: Seq<Module>, id: Seq<char>) -> bool {
    exists|i: int| 0 <= i < modules.len() && #[trigger] modules[i].id@ == id
}

/// The first error among the first `n` edges.
pub open spec fn edge_error(g: Graph, n: int) -> Option<GraphError>
    decreases n,
{
    if n <= 0 {
        None
    } else {
        match edge_error(g, n - 1) {
            Some(e) => Some(e),
            None => {
                let e = g.edges@[n - 1];
                if !known(g.modules@, e.from@) || !known(g.modules@, e.to@) {
                    Some(GraphError::UnknownModule)
                } else if e.location matches Some(l) && (l.line == 0 || l.column == 0) {
                    Some(GraphError::ZeroBasedLocation)
                } else {
                    None
                }
            },
        }
    }
}

/// The first problem of a graph's shape, `None` where it can be walked.
pub open spec fn graph_error(g: Graph) -> Option<GraphError> {
    if g.schema_version != 1 {
        Some(GraphError::SchemaVersion)
    } else if g.modules@.len() == 0 {
        Some(GraphError::NoModules)
    } else if !ids_distinct(g.modules@) {
        Some(GraphError::DuplicateIds)
    } else {
        match edge_error(g, g.edges@.len() as int) {
            Some(e) => Some(e),
            None => if !(exists|i: int| 0 <= i < g.modules@.len() && (#[trigger] g.modules@[i]).entry) {
                Some(GraphError::NoEntries)
            } else {
                None
            },
        }
    }
}

proof fn lemma_edge_error_shape(g: Graph, n: int)
    ensures
        edge_error(g, n) matches Some(e) ==> !(e is SnapshotDiffers),
    decreases n,
{
    if n > 0 {
        lemma_edge_error_shape(g, n - 1);
    }
}

fn find_module(modules: &Vec<Module>, id: &str) -> (r: Option<usize>)
    ensures
        match r {
            Some(i) => i < modules@.len() && modules@[i as int].id@ == id@,
            None => !known(modules@, id@),
        },
{
    for i in 0..modules.len()
        invariant
            forall|j: int| 0 <= j < i ==> modules@[j].id@ != id@,
    {
        if str_eq(modules[i].id.as_str(), id) {
            return Some(i);
        }
    }
    None
}

proof fn lemma_edge_error_sticks(g: Graph, k: int, n: int)
    requires
        0 <= k <= n,
        edge_error(g, k) is Some,
    ensures
        edge_error(g, n) == edge_error(g, k),
    decreases n - k,
{
    if n > k {
        lemma_edge_error_sticks(g, k, n - 1);
    }
}

/// Checks a graph's shape: schema version 1, some modules with distinct ids,
/// edges between known modules with one-based locations, an entry module.
pub fn validate(g: &Graph) -> (r: Result<(), GraphError>)
    ensures
        match r {
            Ok(()) => graph_error(*g) is None,
            Err(e) => graph_error(*g) == Some(e),
        },
{
    if g.schema_version != 1 {
        return Err(GraphError::SchemaVersion);
    }
    if g.modules.len() == 0 {
        return Err(GraphError::NoModules);
    }
    let n = g.modules.len();
    for i in 0..n
        invariant
            n == g.modules@.len(),
            g.schema_version == 1,
            n > 0,
            forall|a: int, b: int| 0 <= a < b < n && a < i ==> (#[trigger] g.modules@[a]).id@ != (#[trigger] g.modules@[b]).id@,
    {
        for j in i + 1..n
            invariant
                n == g.modules@.len(),
                g.schema_version == 1,
                i < n,
                forall|a: int, b: int| 0 <= a < b < n && a < i ==> (#[trigger] g.modules@[a]).id@ != (#[trigger] g.modules@[b]).id@,
                forall|b: int| i < b < j ==> g.modules@[i as int].id@ != (#[trigger] g.modules@[b]).id@,
        {
            if str_eq(g.modules[i].id.as_str(), g.modules[j].id.as_str()) {
                proof {
                    assert(!ids_distinct(g.modules@)) by {
                        assert(g.modules@[i as int].id@ == g.modules@[j as int].id@);
                    }
                }
                return Err(GraphError::DuplicateIds);
            }
        }
    }
    for k in 0..g.edges.len()
        invariant
            g.schema_version == 1,
            g.modules@.len() > 0,
            ids_distinct(g.modules@),
            edge_error(*g, k as int) is None,
    {
        let e = &g.edges[k];
        if find_module(&g.modules, e.from.as_str()).is_none() || find_module(&g.modules, e.to.as_str()).is_none() {
            proof {
                lemma_edge_error_sticks(*g, k + 1, g.edges@.len() as int);
            }
            return Err(GraphError::UnknownModule);
        }
        if let Some(l) = e.location {
            if l.line == 0 || l.column == 0 {
                proof {
                    lemma_edge_error_sticks(*g, k + 1, g.edges@.len() as int);
                }
                return Err(GraphError::ZeroBasedLocation);
            }
        }
    }
    for i in 0..g.modules.len()
        invariant
            g.schema_version == 1,
            g.modules@.len() > 0,
            ids_distinct(g.modules@),
            edge_error(*g, g.edges@.len() as int) is None,
            forall|j: int| 0 <= j < i ==> !(#[trigger] g.modules@[j]).entry,
    {
        if g.modules[i].entry {
            return Ok(());
        }
    }
    Err(GraphError::NoEntries)
}

/// Edge `a` ends where edge `b` starts.
pub open spec fn link(g: Graph, a: usize, b: usize) -> bool {
    g.edges@[a as int].to@ == g.edges@[b as int].from@
}

pub open spec fn is_static(g: Graph, e: usize) -> bool {
    g.edges@[e as int].kind == ImportKind::Static
}

/// Edge `e` starts at an entry module.
pub open spec fn from_entry(g: Graph, e: usize) -> bool {
    exists|r: int| 0 <= r < g.modules@.len() && #[trigger] g.modules@[r].entry && g.modules@[r].id@ == g.edges@[e as int].from@
}

/// `path` (edge indices) leads from an entry module to module `m`; with
/// `static_only`, over static imports alone.
#[verifier::opaque]
pub open spec fn leads_to(g: Graph, path: Seq<usize>, m: int, static_only: bool) -> bool {
    &&& 0 <= m < g.modules@.len()
    &&& forall|j: int| 0 <= j < path.len() ==> (#[trigger] path[j]) < g.edges@.len()
    &&& static_only ==> forall|j: int| 0 <= j < path.len() ==> #[trigger] is_static(g, path[j])
    &&& path.len() == 0 ==> g.modules@[m].entry
    &&& path.len() > 0 ==> {
        &&& from_entry(g, path[0])
        &&& g.edges@[path.last() as int].to@ == g.modules@[m].id@
        &&& forall|j: int| 0 <= j < path.len() - 1 ==> #[trigger] link(g, path[j], path[j + 1])
    }
}

/// Edge `e` may be followed from module `m`: it starts there, and is a
/// static import where only those count.
pub open spec fn follows(g: Graph, e: int, m: int, static_only: bool) -> bool {
    g.edges@[e].from@ == g.modules@[m].id@ && (!static_only || g.edges@[e].kind == ImportKind::Static)
}

/// Every module with a path passes one on along each edge it may follow.
pub open spec fn closed(g: Graph, paths: Seq<Option<Vec<usize>>>, static_only: bool) -> bool {
    forall|m: int, e: int, t: int|
        #![trigger follows(g, e, m, static_only), paths[t]]
        0 <= m < paths.len() && 0 <= e < g.edges@.len() && 0 <= t < paths.len() && paths[m] is Some && follows(
            g,
            e,
            m,
            static_only,
        ) && g.edges@[e].to@ == g.modules@[t].id@ ==> paths[t] is Some
}

proof fn lemma_edges_known(g: Graph, n: int)
    requires
        0 <= n <= g.edges@.len(),
        edge_error(g, n) is None,
    ensures
        forall|e: int|
            0 <= e < n ==> known(g.modules@, (#[trigger] g.edges@[e]).from@) && known(g.modules@, g.edges@[e].to@),
    decreases n,
{
    if n > 0 {
        lemma_edges_known(g, n - 1);
    }
}

/// A module that a path leads to has a path where the walk is closed.
proof fn lemma_reached(g: Graph, paths: Seq<Option<Vec<usize>>>, p: Seq<usize>, m: int, static_only: bool)
    requires
        graph_error(g) is None,
        paths.len() == g.modules@.len(),
        closed(g, paths, static_only),
        forall|x: int| 0 <= x < paths.len() && g.modules@[x].entry ==> (#[trigger] paths[x]) is Some,
        leads_to(g, p, m, static_only),
    ensures
        paths[m] is Some,
    decreases p.len(),
{
    reveal(leads_to);
    lemma_edges_known(g, g.edges@.len() as int);
    if p.len() > 0 {
        let e = p.last() as int;
        let q = p.drop_last();
        assert(p[p.len() - 1] == p.last());
        if q.len() == 0 {
            assert(p[0] == p.last());
            let r = choose|r: int| 0 <= r < g.modules@.len() && #[trigger] g.modules@[r].entry && g.modules@[r].id@ == g.edges@[p[0] as int].from@;
            if static_only {
                assert(is_static(g, p[0]));
            }
            assert(follows(g, e, r, static_only));
            assert(paths[r] is Some);
            assert(paths[m] is Some);
        } else {
            let prev = q.last() as int;
            assert(q[q.len() - 1] == p[p.len() - 2]);
            let j = p.len() - 2;
            assert(link(g, p[j], p[j + 1]));
            assert(known(g.modules@, g.edges@[prev].to@));
            let x = choose|x: int| 0 <= x < g.modules@.len() && #[trigger] g.modules@[x].id@ == g.edges@[prev].to@;
            assert(leads_to(g, q, x, static_only)) by {
                assert forall|j: int| 0 <= j < q.len() implies (#[trigger] q[j]) < g.edges@.len() by {
                    assert(q[j] == p[j]);
                }
                if static_only {
                    assert forall|j: int| 0 <= j < q.len() implies #[trigger] is_static(g, q[j]) by {
                        assert(q[j] == p[j]);
                    }
                }
                assert(q[0] == p[0]);
                assert forall|j: int| 0 <= j < q.len() - 1 implies #[trigger] link(g, q[j], q[j + 1]) by {
                    assert(q[j] == p[j] && q[j + 1] == p[j + 1]);
                }
            }
            lemma_reached(g, paths, q, x, static_only);
            if static_only {
                assert(is_static(g, p[p.len() - 1]));
            }
            assert(follows(g, e, x, static_only));
            assert(paths[m] is Some);
        }
    }
}

pub open spec fn count_some<T>(s: Seq<Option<T>>) -> int
    decreases s.len(),
{
    if s.len() == 0 {
        0
    } else {
        count_some(s.drop_last()) + if s.last() is Some { 1int } else { 0int }
    }
}

proof fn lemma_count_some_bound<T>(s: Seq<Option<T>>)
    ensures
        0 <= count_some(s) <= s.len(),
    decreases s.len(),
{
    if s.len() > 0 {
        lemma_count_some_bound(s.drop_last());
    }
}

proof fn lemma_count_some_update<T>(s: Seq<Option<T>>, i: int, x: T)
    requires
        0 <= i < s.len(),
        s[i] is None,
    ensures
        count_some(s.update(i, Some(x))) == count_some(s) + 1,
    decreases s.len(),
{
    let t = s.update(i, Some(x));
    if i == s.len() - 1 {
        assert(t.drop_last() =~= s.drop_last());
    } else {
        assert(t.drop_last() =~= s.drop_last().update(i, Some(x)));
        lemma_count_some_update(s.drop_last(), i, x);
    }
}

fn copy_path(p: &Vec<usize>) -> (r: Vec<usize>)
    ensures
        r@ == p@,
{
    let mut out: Vec<usize> = Vec::new();
    for i in 0..p.len()
        invariant
            out@ == p@.take(i as int),
    {
        out.push(p[i]);
        proof {
            assert(p@.take(i + 1) =~= p@.take(i as int).push(p@[i as int]));
        }
    }
    proof {
        assert(p@.take(p@.len() as int) =~= p@);
    }
    out
}

proof fn lemma_extend_path(g: Graph, base: Seq<usize>, from: int, e: usize, to: int, static_only: bool)
    requires
        leads_to(g, base, from, static_only),
        e < g.edges@.len(),
        0 <= to < g.modules@.len(),
        g.edges@[e as int].from@ == g.modules@[from].id@,
        g.edges@[e as int].to@ == g.modules@[to].id@,
        static_only ==> is_static(g, e),
    ensures
        leads_to(g, base.push(e), to, static_only),
{
    reveal(leads_to);
    let p = base.push(e);
    assert forall|j: int| 0 <= j < p.len() implies (#[trigger] p[j]) < g.edges@.len() by {
        if j < base.len() {
            assert(p[j] == base[j]);
        }
    }
    if static_only {
        assert forall|j: int| 0 <= j < p.len() implies #[trigger] is_static(g, p[j]) by {
            if j < base.len() {
                assert(p[j] == base[j]);
            }
        }
    }
    if base.len() == 0 {
        assert(g.modules@[from].entry);
        assert(from_entry(g, p[0]));
    } else {
        assert(p[0] == base[0]);
    }
    assert forall|j: int| 0 <= j < p.len() - 1 implies #[trigger] link(g, p[j], p[j + 1]) by {
        if j < base.len() - 1 {
            assert(p[j] == base[j] && p[j + 1] == base[j + 1]);
        } else {
            assert(p[j] == base.last());
        }
    }
}

/// One path of edges to each module reached from the entry modules,
/// breadth first; with `static_only`, over static imports alone.
#[verifier::spinoff_prover]
pub fn walk(g: &Graph, static_only: bool) -> (r: Vec<Option<Vec<usize>>>)
    ensures
        r@.len() == g.modules@.len(),
        forall|m: int| 0 <= m < r@.len() ==> ((#[trigger] r@[m]) matches Some(p) ==> leads_to(*g, p@, m, static_only)),
        forall|m: int| 0 <= m < r@.len() && g.modules@[m].entry ==> (#[trigger] r@[m]) is Some,
        graph_error(*g) is None ==> forall|m: int, p: Seq<usize>| #[trigger] leads_to(*g, p, m, static_only) ==> r@[m] is Some,
{
    let n = g.modules.len();
    let mut paths: Vec<Option<Vec<usize>>> = Vec::new();
    for i in 0..n
        invariant
            paths@.len() == i,
            forall|m: int| 0 <= m < i ==> (#[trigger] paths@[m]) is None,
    {
        paths.push(None);
    }
    proof {
        assert(count_some(paths@) == 0) by {
            lemma_count_none(paths@);
        }
    }
    let mut queue: Vec<usize> = Vec::new();
    for i in 0..n
        invariant
            n == g.modules@.len(),
            paths@.len() == n,
            queue@.len() == count_some(paths@),
            forall|q: int| 0 <= q < queue@.len() ==> (#[trigger] queue@[q]) < n && paths@[queue@[q] as int] is Some,
            forall|m: int| 0 <= m < n ==> ((#[trigger] paths@[m]) matches Some(p) ==> leads_to(*g, p@, m, static_only)),
            forall|m: int| 0 <= m < i && g.modules@[m].entry ==> (#[trigger] paths@[m]) is Some,
            forall|m: int| 0 <= m < n && (#[trigger] paths@[m]) is Some ==> exists|q: int| 0 <= q < queue@.len() && queue@[q] == m,
    {
        if g.modules[i].entry && paths[i].is_none() {
            let start: Vec<usize> = Vec::new();
            proof {
                lemma_count_some_update(paths@, i as int, start);
                reveal(leads_to);
                assert(leads_to(*g, start@, i as int, static_only));
            }
            let ghost before = paths@;
            let ghost bq = queue@;
            let ghost sv = start;
            paths.set(i, Some(start));
            queue.push(i);
            proof {
                assert(paths@ == before.update(i as int, Some(sv)));
                assert forall|m: int| 0 <= m < n && (#[trigger] paths@[m]) is Some implies exists|q: int|
                    0 <= q < queue@.len() && queue@[q] == m by {
                    if m == i {
                        assert(queue@[bq.len() as int] == m);
                    } else {
                        assert(before[m] is Some);
                        let q = choose|q: int| 0 <= q < bq.len() && bq[q] == m;
                        assert(queue@[q] == m);
                    }
                }
            }
        }
    }
    let mut head: usize = 0;
    while head < queue.len()
        invariant
            n == g.modules@.len(),
            paths@.len() == n,
            queue@.len() == count_some(paths@),
            head <= queue@.len(),
            forall|q: int| 0 <= q < queue@.len() ==> (#[trigger] queue@[q]) < n && paths@[queue@[q] as int] is Some,
            forall|m: int| 0 <= m < n ==> ((#[trigger] paths@[m]) matches Some(p) ==> leads_to(*g, p@, m, static_only)),
            forall|m: int| 0 <= m < n && g.modules@[m].entry ==> (#[trigger] paths@[m]) is Some,
            forall|m: int| 0 <= m < n && (#[trigger] paths@[m]) is Some ==> exists|q: int| 0 <= q < queue@.len() && queue@[q] == m,
            graph_error(*g) is None ==> forall|q: int, e: int, t: int|
                #![trigger queue@[q], g.edges@[e], paths@[t]]
                0 <= q < head && 0 <= e < g.edges@.len() && 0 <= t < n && follows(*g, e, queue@[q] as int, static_only)
                    && g.edges@[e].to@ == g.modules@[t].id@ ==> paths@[t] is Some,
        decreases n - head,
    {
        proof {
            lemma_count_some_bound(paths@);
        }
        let from = queue[head];
        let base = match &paths[from] {
            Some(p) => copy_path(p),
            None => Vec::new(),
        };
        proof {
            assert(paths@[from as int] is Some);
            assert(leads_to(*g, base@, from as int, static_only));
        }
        for e in 0..g.edges.len()
            invariant
                n == g.modules@.len(),
                paths@.len() == n,
                from < n,
                head < queue@.len(),
                queue@.len() == count_some(paths@),
                leads_to(*g, base@, from as int, static_only),
                forall|q: int| 0 <= q < queue@.len() ==> (#[trigger] queue@[q]) < n && paths@[queue@[q] as int] is Some,
                forall|m: int| 0 <= m < n ==> ((#[trigger] paths@[m]) matches Some(p) ==> leads_to(*g, p@, m, static_only)),
                forall|m: int| 0 <= m < n && g.modules@[m].entry ==> (#[trigger] paths@[m]) is Some,
                forall|m: int| 0 <= m < n && (#[trigger] paths@[m]) is Some ==> exists|q: int| 0 <= q < queue@.len() && queue@[q] == m,
                from == queue@[head as int],
                graph_error(*g) is None ==> forall|q: int, e2: int, t: int|
                    #![trigger queue@[q], g.edges@[e2], paths@[t]]
                    0 <= q < head && 0 <= e2 < g.edges@.len() && 0 <= t < n && follows(*g, e2, queue@[q] as int, static_only)
                        && g.edges@[e2].to@ == g.modules@[t].id@ ==> paths@[t] is Some,
                graph_error(*g) is None ==> forall|e2: int, t: int|
                    #![trigger g.edges@[e2], paths@[t]]
                    0 <= e2 < e && 0 <= t < n && follows(*g, e2, from as int, static_only) && g.edges@[e2].to@
                        == g.modules@[t].id@ ==> paths@[t] is Some,
        {
            let ghost before_paths = paths@;
            let ghost before_queue = queue@;
            let edge = &g.edges[e];
            if str_eq(edge.from.as_str(), g.modules[from].id.as_str()) && (!static_only || edge.kind == ImportKind::Static) {
                if let Some(to) = find_module(&g.modules, edge.to.as_str()) {
                    if paths[to].is_none() {
                        let mut next = copy_path(&base);
                        next.push(e);
                        proof {
                            assert(next@ =~= base@.push(e));
                            lemma_extend_path(*g, base@, from as int, e, to as int, static_only);
                            lemma_count_some_update(paths@, to as int, next);
                        }
                        let ghost before = paths@;
                        let ghost bq = queue@;
                        let ghost nv = next;
                        paths.set(to, Some(next));
                        queue.push(to);
                        proof {
                            assert(paths@ == before.update(to as int, Some(nv)));
                            assert forall|m: int| 0 <= m < n && (#[trigger] paths@[m]) is Some implies exists|q: int|
                                0 <= q < queue@.len() && queue@[q] == m by {
                                if m == to {
                                    assert(queue@[bq.len() as int] == m);
                                } else {
                                    assert(before[m] is Some);
                                    let q = choose|q: int| 0 <= q < bq.len() && bq[q] == m;
                                    assert(queue@[q] == m);
                                }
                            }
                        }
                    }
                }
            }
        }
        head = head + 1;
    }
    proof {
        if graph_error(*g) is None {
            assert(closed(*g, paths@, static_only)) by {
                assert forall|m: int, e: int, t: int|
                    #![trigger follows(*g, e, m, static_only), paths@[t]]
                    0 <= m < paths@.len() && 0 <= e < g.edges@.len() && 0 <= t < paths@.len() && paths@[m] is Some && follows(
                        *g,
                        e,
                        m,
                        static_only,
                    ) && g.edges@[e].to@ == g.modules@[t].id@ implies paths@[t] is Some by {
                    let q = choose|q: int| 0 <= q < queue@.len() && queue@[q] == m;
                    assert(follows(*g, e, queue@[q] as int, static_only));
                    assert(g.edges@[e] == g.edges@[e]);
                }
            }
            assert forall|m: int, p: Seq<usize>| #[trigger] leads_to(*g, p, m, static_only) implies paths@[m] is Some by {
                lemma_reached(*g, paths@, p, m, static_only);
            }
        }
    }
    paths
}

proof fn lemma_count_none<T>(s: Seq<Option<T>>)
    requires
        forall|m: int| 0 <= m < s.len() ==> (#[trigger] s[m]) is None,
    ensures
        count_some(s) == 0,
    decreases s.len(),
{
    if s.len() > 0 {
        lemma_count_none(s.drop_last());
    }
}

/// Leading slashes removed.
pub open spec fn trim_slashes(s: Seq<char>) -> Seq<char>
    decreases s.len(),
{
    if s.len() > 0 && s[0] == '/' {
        trim_slashes(s.drop_first())
    } else {
        s
    }
}

/// The identity a report source has on disk, where it can be told: a
/// `webpack://` source below its namespace, a `turbopack:///[project]/`
/// source, or any other source resolved at the analysis root.
pub open spec fn physical_of(root: Seq<char>, build: Seq<char>, source: Seq<char>) -> Option<Seq<char>> {
    match strip_prefix(source, "webpack://"@) {
        Some(rest) => {
            let i = find_char(rest, '/', 0);
            if i < rest.len() {
                Some(resolved_source(root, build, trim_slashes(rest.subrange(i + 1, rest.len() as int))))
            } else {
                None
            }
        },
        None => match strip_prefix(source, "turbopack:///"@) {
            Some(rest) => match strip_prefix(rest, "[project]/"@) {
                Some(p) => Some(resolved_source(root, build, p)),
                None => None,
            },
            None => Some(resolved_source(root, root, source)),
        },
    }
}

fn trim_slashes_exec(s: &Vec<char>) -> (r: Vec<char>)
    ensures
        r@ == trim_slashes(s@),
{
    let mut i: usize = 0;
    proof {
        assert(s@.subrange(0, s@.len() as int) =~= s@);
    }
    while i < s.len() && s[i] == '/'
        invariant
            i <= s@.len(),
            trim_slashes(s@) == trim_slashes(s@.subrange(i as int, s@.len() as int)),
        decreases s@.len() - i,
    {
        proof {
            assert(s@.subrange(i as int, s@.len() as int).drop_first() =~= s@.subrange(i + 1, s@.len() as int));
        }
        i = i + 1;
    }
    slice_chars(s, i, s.len())
}

/// The on-disk identity of a report source.
pub fn physical(root: &str, build: &str, source: &str) -> (r: Option<String>)
    ensures
        match r {
            Some(p) => physical_of(root@, build@, source@) == Some(p@),
            None => physical_of(root@, build@, source@) is None,
        },
{
    let chars = chars_of(source);
    let build_paths = SourcePaths { root: root.to_string(), directory: build.to_string() };
    if let Some(rest) = strip_prefix_chars(&chars, &chars_of("webpack://")) {
        let i = find_from(&rest, '/', 0);
        proof {
            lemma_find_char(rest@, '/', 0);
        }
        if i < rest.len() {
            let path = trim_slashes_exec(&slice_chars(&rest, i + 1, rest.len()));
            return Some(build_paths.resolve(string_of(&path).as_str()));
        }
        return None;
    }
    if let Some(rest) = strip_prefix_chars(&chars, &chars_of("turbopack:///")) {
        return match strip_prefix_chars(&rest, &chars_of("[project]/")) {
            Some(p) => Some(build_paths.resolve(string_of(&p).as_str())),
            None => None,
        };
    }
    let root_paths = SourcePaths { root: root.to_string(), directory: root.to_string() };
    Some(root_paths.resolve(source))
}

/// The order of import paths: by resolved source; then static chains,
/// dynamic chains, other chains, no chain; then shorter chains.
pub open spec fn path_rank(p: ImportPath) -> int {
    if p.path is None {
        3
    } else if static_chain(p.edges@) {
        0
    } else if dynamic_chain(p.edges@) {
        1
    } else {
        2
    }
}

pub open spec fn opt_less(a: Option<String>, b: Option<String>) -> bool {
    match (a, b) {
        (None, Some(_)) => true,
        (Some(x), Some(y)) => name_less(x@, y@),
        _ => false,
    }
}

pub open spec fn opt_same(a: Option<String>, b: Option<String>) -> bool {
    match (a, b) {
        (None, None) => true,
        (Some(x), Some(y)) => x@ == y@,
        _ => false,
    }
}

pub open spec fn path_before(a: ImportPath, b: ImportPath) -> bool {
    opt_less(a.resolved_source, b.resolved_source) || (opt_same(a.resolved_source, b.resolved_source) && (path_rank(a)
        < path_rank(b) || (path_rank(a) == path_rank(b) && a.edges@.len() < b.edges@.len())))
}

pub open spec fn paths_ordered(v: Seq<ImportPath>) -> bool {
    forall|i: int, j: int| 0 <= i < j < v.len() ==> !path_before(#[trigger] v[j], #[trigger] v[i])
}

proof fn lemma_opt_less_transitive(a: Option<String>, b: Option<String>, c: Option<String>)
    requires
        opt_less(a, b),
        opt_less(b, c),
    ensures
        opt_less(a, c),
{
    match (a, b, c) {
        (Some(x), Some(y), Some(z)) => lemma_name_less_transitive(x@, y@, z@),
        _ => {},
    }
}

proof fn lemma_opt_mixed(a: Option<String>, b: Option<String>, c: Option<String>)
    ensures
        opt_less(a, b) && opt_same(b, c) ==> opt_less(a, c),
        opt_same(a, b) && opt_less(b, c) ==> opt_less(a, c),
        opt_same(a, b) && opt_same(b, c) ==> opt_same(a, c),
        !opt_less(a, a),
        opt_same(a, a),
{
    if let Some(x) = a {
        lemma_name_less_irreflexive(x@);
    }
}

proof fn lemma_path_before_transitive(a: ImportPath, b: ImportPath, c: ImportPath)
    requires
        path_before(a, b),
        path_before(b, c),
    ensures
        path_before(a, c),
{
    lemma_opt_mixed(a.resolved_source, b.resolved_source, c.resolved_source);
    if opt_less(a.resolved_source, b.resolved_source) && opt_less(b.resolved_source, c.resolved_source) {
        lemma_opt_less_transitive(a.resolved_source, b.resolved_source, c.resolved_source);
    }
}

fn rank_of(p: &ImportPath) -> (r: u8)
    ensures
        r as int == path_rank(*p),
{
    if p.path.is_none() {
        3
    } else if is_static_chain(&p.edges) {
        0
    } else if is_dynamic_chain(&p.edges) {
        1
    } else {
        2
    }
}

fn path_first(a: &ImportPath, b: &ImportPath) -> (r: bool)
    ensures
        r == path_before(*a, *b),
{
    let less = match (&a.resolved_source, &b.resolved_source) {
        (None, Some(_)) => true,
        (Some(x), Some(y)) => chars_less(&chars_of(x.as_str()), &chars_of(y.as_str())),
        _ => false,
    };
    if less {
        return true;
    }
    let same = match (&a.resolved_source, &b.resolved_source) {
        (None, None) => true,
        (Some(x), Some(y)) => str_eq(x.as_str(), y.as_str()),
        _ => false,
    };
    if !same {
        return false;
    }
    let ra = rank_of(a);
    let rb = rank_of(b);
    ra < rb || (ra == rb && a.edges.len() < b.edges.len())
}

/// Orders import paths by resolved source, then evidence strength, then length.
fn sort_paths(items: Vec<ImportPath>) -> (r: Vec<ImportPath>)
    ensures
        r@.to_multiset() == items@.to_multiset(),
        paths_ordered(r@),
{
    broadcast use vstd::seq_lib::group_to_multiset_ensures;

    let mut rest = items;
    let mut out: Vec<ImportPath> = Vec::new();
    let ghost all = items@;
    proof {
        assert(out@ + rest@ =~= all);
    }
    while rest.len() > 0
        invariant
            (out@ + rest@).to_multiset() == all.to_multiset(),
            paths_ordered(out@),
            forall|i: int, j: int| 0 <= i < out@.len() && 0 <= j < rest@.len() ==> !path_before(#[trigger] rest@[j], #[trigger] out@[i]),
        decreases rest@.len(),
    {
        let ghost rv = rest@;
        let mut best: usize = 0;
        let mut k: usize = 1;
        proof {
            lemma_opt_mixed(rv[0].resolved_source, rv[0].resolved_source, rv[0].resolved_source);
        }
        while k < rest.len()
            invariant
                rv == rest@,
                rest@.len() > 0,
                best < k <= rest@.len(),
                forall|j: int| 0 <= j < k ==> !path_before(#[trigger] rv[j], rv[best as int]),
            decreases rest@.len() - k,
        {
            if path_first(&rest[k], &rest[best]) {
                proof {
                    assert forall|j: int| 0 <= j < k implies !path_before(#[trigger] rv[j], rv[k as int]) by {
                        if path_before(rv[j], rv[k as int]) {
                            lemma_path_before_transitive(rv[j], rv[k as int], rv[best as int]);
                        }
                    }
                    lemma_opt_mixed(rv[k as int].resolved_source, rv[k as int].resolved_source, rv[k as int].resolved_source);
                }
                best = k;
            }
            k = k + 1;
        }
        let ghost ov = out@;
        let item = rest.remove(best);
        out.push(item);
        proof {
            let x = rv[best as int];
            assert(out@ =~= ov.push(x));
            assert(rest@ =~= rv.remove(best as int));
            assert forall|i: int, j: int| 0 <= i < j < out@.len() implies !path_before(#[trigger] out@[j], #[trigger] out@[i]) by {
                if j < ov.len() {
                    assert(out@[j] == ov[j] && out@[i] == ov[i]);
                } else {
                    assert(out@[i] == ov[i]);
                }
            }
            assert forall|i: int, j: int| 0 <= i < out@.len() && 0 <= j < rest@.len() implies !path_before(#[trigger] rest@[j], #[trigger] out@[i]) by {
                let jj = if j < best { j } else { j + 1 };
                assert(rest@[j] == rv[jj]);
                if i < ov.len() {
                    assert(out@[i] == ov[i]);
                }
            }
            let base = ov + rv.remove(best as int);
            assert(ov + rv =~= base.insert(ov.len() + best, x));
            assert(out@ + rest@ =~= base.insert(ov.len() as int, x));
            vstd::seq_lib::to_multiset_insert(base, ov.len() + best, x);
            vstd::seq_lib::to_multiset_insert(base, ov.len() as int, x);
        }
    }
    proof {
        assert(out@ + rest@ =~= out@);
    }
    out
}

/// An attached import path comes from a module of the graph: its source,
/// emitted bytes and bundler, resolved to a report source with the same
/// identity on disk.
pub open spec fn path_from_module(g: Graph, root: Seq<char>, build: Seq<char>, p: ImportPath) -> bool {
    exists|m: int|
        0 <= m < g.modules@.len() && #[trigger] g.modules@[m].source@ == p.source@ && p.bytes_in_output == (match g.modules@[m].emitted_bytes {
            Some(b) => b,
            None => 0,
        }) && p.graph_format@ == g.bundler@ && (p.resolved_source matches Some(name) && physical_of(root, build, name@) == Some(
            resolved_source(root, build, g.modules@[m].source@),
        ))
}

/// The names of report source rows.
pub open spec fn source_names(rows: Seq<SourceRow>) -> Seq<Seq<char>> {
    rows.map_values(|r: SourceRow| r.source@)
}

/// Among the first `n` names, those whose on-disk identity is `ph`.
pub open spec fn sources_at(root: Seq<char>, build: Seq<char>, names: Seq<Seq<char>>, ph: Seq<char>, n: int) -> Seq<Seq<char>>
    decreases n,
{
    if n <= 0 {
        Seq::empty()
    } else if physical_of(root, build, names[n - 1]) == Some(ph) {
        sources_at(root, build, names, ph, n - 1).push(names[n - 1])
    } else {
        sources_at(root, build, names, ph, n - 1)
    }
}

/// The (module source, report source, reached) triples of the first `n`
/// modules: each module with every report source of the same identity on
/// disk, and whether an entry reaches the module.
pub open spec fn matched_pairs(g: Graph, root: Seq<char>, build: Seq<char>, names: Seq<Seq<char>>, n: int) -> Seq<(Seq<char>, Seq<char>, bool)>
    decreases n,
{
    if n <= 0 {
        Seq::empty()
    } else {
        let src = g.modules@[n - 1].source@;
        matched_pairs(g, root, build, names, n - 1) + sources_at(
            root,
            build,
            names,
            resolved_source(root, build, src),
            names.len() as int,
        ).map_values(|s: Seq<char>| (src, s, reached(g, n - 1)))
    }
}

/// The module source and report source of an attached path, and whether
/// it has a chain from an entry.
pub open spec fn path_pair(p: ImportPath) -> (Seq<char>, Seq<char>, bool) {
    (
        p.source@,
        match p.resolved_source {
            Some(s) => s@,
            None => Seq::empty(),
        },
        p.path is Some,
    )
}

/// Some path of imports leads from an entry to module `m`.
pub open spec fn reached(g: Graph, m: int) -> bool {
    exists|p: Seq<usize>| #[trigger] leads_to(g, p, m, false)
}

proof fn lemma_static_leads(g: Graph, p: Seq<usize>, m: int)
    requires
        leads_to(g, p, m, true),
    ensures
        leads_to(g, p, m, false),
{
    reveal(leads_to);
}

/// The identities on disk of the first `n` names that have one, with the name.
pub open spec fn alias_list(root: Seq<char>, build: Seq<char>, names: Seq<Seq<char>>, n: int) -> Seq<(Seq<char>, Seq<char>)>
    decreases n,
{
    if n <= 0 {
        Seq::empty()
    } else {
        match physical_of(root, build, names[n - 1]) {
            Some(ph) => alias_list(root, build, names, n - 1).push((ph, names[n - 1])),
            None => alias_list(root, build, names, n - 1),
        }
    }
}

/// The names among the first `n` aliases with identity `ph`.
pub open spec fn pick(a: Seq<(Seq<char>, Seq<char>)>, ph: Seq<char>, n: int) -> Seq<Seq<char>>
    decreases n,
{
    if n <= 0 {
        Seq::empty()
    } else if a[n - 1].0 == ph {
        pick(a, ph, n - 1).push(a[n - 1].1)
    } else {
        pick(a, ph, n - 1)
    }
}

proof fn lemma_pick_prefix(a: Seq<(Seq<char>, Seq<char>)>, b: Seq<(Seq<char>, Seq<char>)>, ph: Seq<char>, n: int)
    requires
        0 <= n <= a.len(),
        n <= b.len(),
        forall|i: int| 0 <= i < n ==> a[i] == b[i],
    ensures
        pick(a, ph, n) == pick(b, ph, n),
    decreases n,
{
    if n > 0 {
        lemma_pick_prefix(a, b, ph, n - 1);
    }
}

proof fn lemma_pick_aliases(root: Seq<char>, build: Seq<char>, names: Seq<Seq<char>>, ph: Seq<char>, n: int)
    requires
        0 <= n <= names.len(),
    ensures
        pick(alias_list(root, build, names, n), ph, alias_list(root, build, names, n).len() as int) == sources_at(
            root,
            build,
            names,
            ph,
            n,
        ),
    decreases n,
{
    if n > 0 {
        lemma_pick_aliases(root, build, names, ph, n - 1);
        let prev = alias_list(root, build, names, n - 1);
        let cur = alias_list(root, build, names, n);
        if let Some(x) = physical_of(root, build, names[n - 1]) {
            lemma_pick_prefix(cur, prev, ph, prev.len() as int);
        }
    }
}

/// The sources among the first `k` that embed their content: (name, content).
pub open spec fn source_contents(v: Seq<crate::analysis::BundleSource>, k: int) -> Seq<(Seq<char>, Seq<char>)>
    decreases k,
{
    if k <= 0 {
        Seq::empty()
    } else {
        match v[k - 1].content {
            Some(c) => source_contents(v, k - 1).push((v[k - 1].source@, c@)),
            None => source_contents(v, k - 1),
        }
    }
}

/// The embedded source contents of the first `n` bundles, in order.
pub open spec fn embedded(bundles: Seq<crate::analysis::BundleRow>, n: int) -> Seq<(Seq<char>, Seq<char>)>
    decreases n,
{
    if n <= 0 {
        Seq::empty()
    } else {
        embedded(bundles, n - 1) + source_contents(bundles[n - 1].sources@, bundles[n - 1].sources@.len() as int)
    }
}

/// Embedded content `c` belongs to a report source with identity `ph` on disk.
pub open spec fn content_at(
    root: Seq<char>,
    build: Seq<char>,
    names: Seq<Seq<char>>,
    c: (Seq<char>, Seq<char>),
    ph: Seq<char>,
) -> bool {
    names.contains(c.0) && physical_of(root, build, c.0) == Some(ph)
}

/// The snapshot of module `m` is accepted: it has none; no embedded content
/// has its identity; every such content has its digest; or its file on
/// disk has it.
pub open spec fn snapshot_accepted(
    g: Graph,
    report: Report,
    root: Seq<char>,
    build: Seq<char>,
    disk: Seq<(String, Option<String>)>,
    m: int,
) -> bool {
    let module = g.modules@[m];
    let ph = resolved_source(root, build, module.source@);
    let cs = embedded(report.bundles@, report.bundles@.len() as int);
    let names = source_names(report.sources@);
    match module.source_sha256 {
        None => true,
        Some(expected) => {
            ||| forall|c: int| 0 <= c < cs.len() ==> !content_at(root, build, names, #[trigger] cs[c], ph)
            ||| forall|c: int|
                0 <= c < cs.len() && content_at(root, build, names, #[trigger] cs[c], ph) ==> sha256_hex(encode_utf8(cs[c].1))
                    == expected@
            ||| exists|d: int|
                0 <= d < disk.len() && (#[trigger] disk[d]).0@ == module.source@ && disk[d].1 is Some && disk[d].1->0@
                    == expected@
        },
    }
}

proof fn lemma_alias_member(root: Seq<char>, build: Seq<char>, names: Seq<Seq<char>>, n: int, ph: Seq<char>, x: Seq<char>)
    requires
        0 <= n <= names.len(),
    ensures
        (exists|a: int| 0 <= a < alias_list(root, build, names, n).len() && #[trigger] alias_list(root, build, names, n)[a] == (ph, x))
            <==> (names.take(n).contains(x) && physical_of(root, build, x) == Some(ph)),
    decreases n,
{
    let cur = alias_list(root, build, names, n);
    if n > 0 {
        lemma_alias_member(root, build, names, n - 1, ph, x);
        let prev = alias_list(root, build, names, n - 1);
        let t = names.take(n);
        let t1 = names.take(n - 1);
        assert forall|i: int| 0 <= i < t1.len() implies t[i] == t1[i] by {}
        assert(t[n - 1] == names[n - 1]);
        if exists|a: int| 0 <= a < cur.len() && #[trigger] cur[a] == (ph, x) {
            let a = choose|a: int| 0 <= a < cur.len() && #[trigger] cur[a] == (ph, x);
            if a < prev.len() {
                assert(cur[a] == prev[a]);
                assert(exists|a2: int| 0 <= a2 < prev.len() && #[trigger] prev[a2] == (ph, x));
                let i = choose|i: int| 0 <= i < t1.len() && t1[i] == x;
                assert(t[i] == x);
            } else {
                assert(x == names[n - 1]);
                assert(t[n - 1] == x);
            }
            assert(t.contains(x));
        }
        if t.contains(x) && physical_of(root, build, x) == Some(ph) {
            let i = choose|i: int| 0 <= i < t.len() && t[i] == x;
            if i < n - 1 {
                assert(t1[i] == x);
                assert(t1.contains(x));
                let a = choose|a: int| 0 <= a < prev.len() && #[trigger] prev[a] == (ph, x);
                assert(cur[a] == prev[a]);
            } else {
                assert(names[n - 1] == x);
                assert(cur[prev.len() as int] == (ph, x));
            }
        }
    } else {
        assert(names.take(0) =~= Seq::<Seq<char>>::empty());
    }
}

fn copy_step(step: &ImportStep, from: String, to: String, evidence: Option<String>) -> (r: ImportStep)
    ensures
        r.kind == step.kind,
        r.from == from,
        r.to == to,
{
    ImportStep {
        from,
        to,
        kind: step.kind,
        location: step.location,
        location_evidence: evidence,
        specifier: match &step.specifier {
            Some(s) => Some(s.clone()),
            None => None,
        },
    }
}

/// Attaches the import paths of a bundler graph to a report: for each
/// module whose on-disk identity matches report sources, one path from an
/// entry module (static imports preferred), once per matching source.
/// Module snapshots are checked against embedded contents, else against the
/// file on disk (`disk_sha256`: each module source with the digest of its
/// file, where it could be read). Then the recommendations are rebuilt.
#[verifier::rlimit(100)]
#[verifier::spinoff_prover]
pub fn attach(
    report: &mut Report,
    g: &Graph,
    root: &str,
    build_root: &str,
    disk_sha256: &Vec<(String, Option<String>)>,
) -> (r: Result<(), GraphError>)
    requires
        sums_fit(*old(report)),
    ensures
        graph_error(*g) matches Some(e) ==> r == Err::<(), GraphError>(e),
        r matches Err(e) ==> graph_error(*g) == Some(e) || e is SnapshotDiffers,
        graph_error(*g) is None ==> (r is Ok <==> forall|m: int|
            0 <= m < g.modules@.len() ==> #[trigger] snapshot_accepted(*g, *old(report), root@, build_root@, disk_sha256@, m)),
        r is Err ==> *final(report) == *old(report),
        r matches Err(GraphError::SnapshotDiffers(s)) ==> exists|m: int|
            0 <= m < g.modules@.len() && !#[trigger] snapshot_accepted(*g, *old(report), root@, build_root@, disk_sha256@, m)
                && g.modules@[m].source@ == s@,
        r is Ok ==> {
            &&& final(report).bundles == old(report).bundles
            &&& final(report).sources == old(report).sources
            &&& final(report).totals == old(report).totals
            &&& final(report).scenario_reports == old(report).scenario_reports
            &&& final(report).import_paths matches Some(paths) && paths_ordered(paths@) && (forall|i: int|
                0 <= i < paths@.len() ==> path_from_module(*g, root@, build_root@, #[trigger] paths@[i]))
                && paths@.map_values(|p: ImportPath| path_pair(p)).to_multiset() == matched_pairs(
                *g,
                root@,
                build_root@,
                source_names(old(report).sources@),
                g.modules@.len() as int,
            ).to_multiset()
            &&& recs_view(final(report).recommendations@).to_multiset() == (candidate_recs(
                *final(report),
                final(report).scenario_reports@.len() as int,
            ) + removal_recs(*final(report), final(report).sources@.len() as int)).to_multiset()
            &&& recs_ordered(recs_view(final(report).recommendations@))
        },
{
    match validate(g) {
        Err(e) => {
            proof {
                lemma_edge_error_shape(*g, g.edges@.len() as int);
            }
            return Err(e);
        },
        Ok(()) => {},
    }
    let statics = walk(g, true);
    let everything = walk(g, false);
    let build_paths = SourcePaths { root: root.to_string(), directory: build_root.to_string() };
    let ghost names = source_names(old(report).sources@);
    let mut aliases: Vec<(String, String)> = Vec::new();
    for i in 0..report.sources.len()
        invariant
            *report == *old(report),
            names == source_names(old(report).sources@),
            forall|a: int| 0 <= a < aliases@.len() ==> physical_of(root@, build_root@, (#[trigger] aliases@[a]).1@) == Some(aliases@[a].0@),
            crate::evidence::pairs(aliases@) == alias_list(root@, build_root@, names, i as int),
    {
        let name = &report.sources[i].source;
        let ghost before = crate::evidence::pairs(aliases@);
        proof {
            assert(names[i as int] == name@);
        }
        if let Some(ph) = physical(root, build_root, name.as_str()) {
            aliases.push((ph, name.clone()));
            proof {
                assert(crate::evidence::pairs(aliases@) =~= before.push((ph@, name@)));
            }
        }
    }
    let mut contents: Vec<(String, String)> = Vec::new();
    for i in 0..report.bundles.len()
        invariant
            *report == *old(report),
            crate::evidence::pairs(contents@) == embedded(report.bundles@, i as int),
    {
        let sources = &report.bundles[i].sources;
        let ghost base = crate::evidence::pairs(contents@);
        for k in 0..sources.len()
            invariant
                crate::evidence::pairs(contents@) == base + source_contents(sources@, k as int),
        {
            let ghost before = crate::evidence::pairs(contents@);
            if let Some(c) = &sources[k].content {
                contents.push((sources[k].source.clone(), c.clone()));
                proof {
                    assert(crate::evidence::pairs(contents@) =~= before.push((sources@[k as int].source@, c@)));
                }
            }
        }
    }
    let mut verified: Vec<bool> = Vec::new();
    let mut verified_count: usize = 0;
    let mut on_disk_only: usize = 0;
    let mut unchecked: usize = 0;
    let n = g.modules.len();
    for m in 0..n
        invariant
            n == g.modules@.len(),
            verified@.len() == m,
            verified_count <= m,
            on_disk_only <= m,
            unchecked <= m,
            graph_error(*g) is None,
            *report == *old(report),
            names == source_names(old(report).sources@),
            crate::evidence::pairs(aliases@) == alias_list(root@, build_root@, names, names.len() as int),
            crate::evidence::pairs(contents@) == embedded(old(report).bundles@, old(report).bundles@.len() as int),
            build_paths.root@ == root@,
            build_paths.directory@ == build_root@,
            forall|q: int| 0 <= q < m ==> #[trigger] snapshot_accepted(*g, *old(report), root@, build_root@, disk_sha256@, q),
    {
        let module = &g.modules[m];
        let ghost al = crate::evidence::pairs(aliases@);
        let ghost cs = crate::evidence::pairs(contents@);
        match &module.source_sha256 {
            None => verified.push(false),
            Some(expected) => {
                let ph = build_paths.resolve(module.source.as_str());
                let mut any = false;
                let mut all_match = true;
                for c in 0..contents.len()
                    invariant
                        al == crate::evidence::pairs(aliases@),
                        cs == crate::evidence::pairs(contents@),
                        any == exists|c2: int| 0 <= c2 < c && content_at(root@, build_root@, names, #[trigger] cs[c2], ph@),
                        all_match == forall|c2: int|
                            0 <= c2 < c && content_at(root@, build_root@, names, #[trigger] cs[c2], ph@) ==> sha256_hex(
                                encode_utf8(cs[c2].1),
                            ) == expected@,
                        names.len() == old(report).sources@.len(),
                        names == source_names(old(report).sources@),
                        al == alias_list(root@, build_root@, names, names.len() as int),
                        cs == embedded(old(report).bundles@, old(report).bundles@.len() as int),
                {
                    let mut alias = false;
                    for a in 0..aliases.len()
                        invariant
                            c < contents@.len(),
                            al == crate::evidence::pairs(aliases@),
                            alias == exists|a2: int| 0 <= a2 < a && #[trigger] al[a2] == (ph@, contents@[c as int].0@),
                    {
                        proof {
                            assert(al[a as int] == (aliases@[a as int].0@, aliases@[a as int].1@));
                        }
                        if !alias && str_eq(aliases[a].0.as_str(), ph.as_str()) && str_eq(
                            aliases[a].1.as_str(),
                            contents[c].0.as_str(),
                        ) {
                            alias = true;
                        }
                    }
                    proof {
                        let x = contents@[c as int].0@;
                        let ali = alias_list(root@, build_root@, names, names.len() as int);
                        lemma_alias_member(root@, build_root@, names, names.len() as int, ph@, x);
                        assert(names.take(names.len() as int) =~= names);
                        assert(cs[c as int] == (x, contents@[c as int].1@));
                        if alias {
                            let a2 = choose|a2: int| 0 <= a2 < aliases@.len() && #[trigger] al[a2] == (ph@, x);
                            assert(ali[a2] == (ph@, x));
                        }
                        if content_at(root@, build_root@, names, cs[c as int], ph@) {
                            let a2 = choose|a2: int| 0 <= a2 < ali.len() && #[trigger] ali[a2] == (ph@, x);
                            assert(al[a2] == (ph@, x));
                        }
                        assert(alias == content_at(root@, build_root@, names, cs[c as int], ph@));
                    }
                    if alias {
                        any = true;
                        if !str_eq(sha256(contents[c].1.as_str().as_bytes()).as_str(), expected.as_str()) {
                            all_match = false;
                        }
                    }
                }
                if !any {
                    unchecked = unchecked + 1;
                    verified.push(false);
                } else if all_match {
                    verified_count = verified_count + 1;
                    verified.push(true);
                } else {
                    let mut on_disk = false;
                    for d in 0..disk_sha256.len()
                        invariant
                            on_disk == exists|d2: int|
                                0 <= d2 < d && (#[trigger] disk_sha256@[d2]).0@ == module.source@ && disk_sha256@[d2].1 is Some
                                    && disk_sha256@[d2].1->0@ == expected@,
                    {
                        if !on_disk && str_eq(disk_sha256[d].0.as_str(), module.source.as_str()) {
                            if let Some(h) = &disk_sha256[d].1 {
                                if str_eq(h.as_str(), expected.as_str()) {
                                    on_disk = true;
                                }
                            }
                        }
                    }
                    if !on_disk {
                        proof {
                            assert(ph@ == resolved_source(root@, build_root@, g.modules@[m as int].source@));
                            assert(!snapshot_accepted(*g, *old(report), root@, build_root@, disk_sha256@, m as int));
                        }
                        return Err(GraphError::SnapshotDiffers(module.source.clone()));
                    }
                    on_disk_only = on_disk_only + 1;
                    verified.push(false);
                }
            },
        }
    }
    let mut found: Vec<ImportPath> = Vec::new();
    for m in 0..n
        invariant
            n == g.modules@.len(),
            verified@.len() == n,
            statics@.len() == n,
            everything@.len() == n,
            build_paths.root@ == root@,
            build_paths.directory@ == build_root@,
            forall|q: int| 0 <= q < n ==> ((#[trigger] statics@[q]) matches Some(p) ==> leads_to(*g, p@, q, true)),
            forall|q: int| 0 <= q < n ==> ((#[trigger] everything@[q]) matches Some(p) ==> leads_to(*g, p@, q, false)),
            forall|q: int, p: Seq<usize>| #[trigger] leads_to(*g, p, q, false) ==> everything@[q] is Some,
            forall|a: int| 0 <= a < aliases@.len() ==> physical_of(root@, build_root@, (#[trigger] aliases@[a]).1@) == Some(aliases@[a].0@),
            forall|i: int| 0 <= i < found@.len() ==> path_from_module(*g, root@, build_root@, #[trigger] found@[i]),
            names == source_names(old(report).sources@),
            crate::evidence::pairs(aliases@) == alias_list(root@, build_root@, names, names.len() as int),
            found@.map_values(|p: ImportPath| path_pair(p)) == matched_pairs(*g, root@, build_root@, names, m as int),
    {
        let module = &g.modules[m];
        let ph = build_paths.resolve(module.source.as_str());
        let chosen: Option<&Vec<usize>> = match &statics[m] {
            Some(p) => Some(p),
            None => match &everything[m] {
                Some(p) => Some(p),
                None => None,
            },
        };
        let mut steps: Vec<ImportStep> = Vec::new();
        let mut chain: Option<Vec<String>> = None;
        if let Some(p) = chosen {
            let mut names: Vec<String> = Vec::new();
            for j in 0..p.len() {
                let idx = p[j];
                if idx < g.edges.len() {
                    let edge = &g.edges[idx];
                    let from_module = find_module(&g.modules, edge.from.as_str());
                    let to_module = find_module(&g.modules, edge.to.as_str());
                    let from = match from_module {
                        Some(f) => g.modules[f].source.clone(),
                        None => edge.from.clone(),
                    };
                    let to = match to_module {
                        Some(t) => g.modules[t].source.clone(),
                        None => edge.to.clone(),
                    };
                    let checked = match from_module {
                        Some(f) => f < verified.len() && verified[f],
                        None => false,
                    };
                    let evidence = if edge.location.is_some() && checked {
                        let mut text = match &edge.location_evidence {
                            Some(e) => chars_of(e.as_str()),
                            None => chars_of("graph"),
                        };
                        extend_chars(&mut text, &chars_of("+sources-content-sha256"));
                        Some(string_of(&text))
                    } else {
                        match &edge.location_evidence {
                            Some(e) => Some(e.clone()),
                            None => None,
                        }
                    };
                    names.push(from.clone());
                    steps.push(copy_step(edge, from, to, evidence));
                }
            }
            names.push(module.source.clone());
            chain = Some(names);
        }
        proof {
            if statics@[m as int] is Some {
                lemma_static_leads(*g, statics@[m as int]->0@, m as int);
            }
            if everything@[m as int] is Some {
                assert(leads_to(*g, everything@[m as int]->0@, m as int, false));
            }
            if reached(*g, m as int) {
                let p = choose|p: Seq<usize>| #[trigger] leads_to(*g, p, m as int, false);
                assert(everything@[m as int] is Some);
            }
        }
        let ghost al = crate::evidence::pairs(aliases@);
        let ghost src = module.source@;
        for a in 0..aliases.len()
            invariant
                forall|q: int| 0 <= q < aliases@.len() ==> physical_of(root@, build_root@, (#[trigger] aliases@[q]).1@) == Some(aliases@[q].0@),
                forall|i: int| 0 <= i < found@.len() ==> path_from_module(*g, root@, build_root@, #[trigger] found@[i]),
                ph@ == resolved_source(root@, build_root@, module.source@),
                module == g.modules@[m as int],
                m < g.modules@.len(),
                al == crate::evidence::pairs(aliases@),
                src == module.source@,
                found@.map_values(|p: ImportPath| path_pair(p)) == matched_pairs(*g, root@, build_root@, names, m as int) + pick(
                    al,
                    ph@,
                    a as int,
                ).map_values(|s: Seq<char>| (src, s, reached(*g, m as int))),
                chain is Some == reached(*g, m as int),
        {
            let ghost before = found@.map_values(|p: ImportPath| path_pair(p));
            proof {
                assert(al[a as int] == (aliases@[a as int].0@, aliases@[a as int].1@));
            }
            if str_eq(aliases[a].0.as_str(), ph.as_str()) {
                let p = ImportPath {
                    source: module.source.clone(),
                    resolved_source: Some(aliases[a].1.clone()),
                    bytes_in_output: match module.emitted_bytes {
                        Some(b) => b,
                        None => 0,
                    },
                    path: chain.clone(),
                    graph_format: g.bundler.clone(),
                    edges: steps.clone(),
                };
                proof {
                    assert(g.modules@[m as int].source@ == p.source@);
                    assert(path_from_module(*g, root@, build_root@, p));
                }
                found.push(p);
                proof {
                    assert(found@.map_values(|p: ImportPath| path_pair(p)) =~= before.push(
                        (src, aliases@[a as int].1@, reached(*g, m as int)),
                    ));
                    assert(pick(al, ph@, a + 1).map_values(|s: Seq<char>| (src, s, reached(*g, m as int))) =~= pick(
                        al,
                        ph@,
                        a as int,
                    ).map_values(|s: Seq<char>| (src, s, reached(*g, m as int))).push(
                        (src, aliases@[a as int].1@, reached(*g, m as int)),
                    ));
                }
            }
        }
        proof {
            lemma_pick_aliases(root@, build_root@, names, ph@, names.len() as int);
            assert(al.len() == aliases@.len());
            assert(found@.map_values(|p: ImportPath| path_pair(p)) =~= matched_pairs(*g, root@, build_root@, names, m + 1));
        }
    }
    let ghost found_view = found@;
    let sorted = sort_paths(found);
    proof {
        broadcast use vstd::seq_lib::group_to_multiset_ensures;

        crate::sort::lemma_map_multiset(sorted@, found_view, |p: ImportPath| path_pair(p));

        assert forall|i: int| 0 <= i < sorted@.len() implies path_from_module(*g, root@, build_root@, #[trigger] sorted@[i]) by {
            assert(sorted@.to_multiset().count(sorted@[i]) > 0);
            assert(found@.contains(sorted@[i]));
        }
    }
    let empty = sorted.len() == 0;
    let ghost fixed = *report;
    for w in 0..g.warnings.len()
        invariant
            report.bundles == fixed.bundles,
            report.sources == fixed.sources,
            report.totals == fixed.totals,
            report.scenario_reports == fixed.scenario_reports,
            fixed == *old(report),
    {
        report.warnings.push(Warning::Graph(g.warnings[w].clone()));
    }
    report.warnings.push(Warning::GraphSnapshots(verified_count, on_disk_only, unchecked));
    if empty {
        report.warnings.push(Warning::NoGraphMatches);
    }
    report.import_paths = Some(sorted);
    let recs = build(report);
    let ghost before = *report;
    report.recommendations = recs;
    proof {
        crate::recommendations::lemma_recs_depend_on_inputs(before, *report);
    }
    Ok(())
}

} // verus!
