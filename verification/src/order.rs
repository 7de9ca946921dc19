//! Dependency-first ordering: a deterministic variant of Kahn's
//! algorithm. Files whose remaining dependency count is zero are ready;
//! the ready file with the least `(normalized path, index)` key is
//! appended next. When a dependency cycle leaves files unprocessed,
//! they are appended at the end sorted by normalized path, so the order
//! is total for every input.

use vstd::prelude::*;

verus! {

use crate::graph::{build_dependency_graph, dep_count, edges_wf, indegree_ok, norm_paths, references};
use crate::models::FileContent;
use crate::paths::normalize_spec;
use crate::text::{lex_le, seq_views, str_le};

/// `rank` orders every edge: each dependency ranks below its dependent.
pub open spec fn edges_respect_rank(edges: Seq<Vec<usize>>, rank: Map<int, int>) -> bool {
    forall|d: int, x: usize|
        0 <= d < edges.len() && #[trigger] edges[d]@.contains(x) ==> rank[d] < rank[x as int]
}

/// The edge set has no cycle: some ranking orders every edge.
pub open spec fn edges_acyclic(edges: Seq<Vec<usize>>) -> bool {
    exists|rank: Map<int, int>| #[trigger] edges_respect_rank(edges, rank)
}

/// The reference relation has no cycle: some ranking places every
/// referenced file below the file that references it.
pub open spec fn refs_acyclic(files: Seq<FileContent>) -> bool {
    exists|rank: Map<int, int>| #[trigger] rank_respects_refs(files, rank)
}

/// `rank` orders every reference: a referenced file ranks below the
/// file that references it.
pub open spec fn rank_respects_refs(files: Seq<FileContent>, rank: Map<int, int>) -> bool {
    forall|a: int, b: int|
        0 <= a < files.len() && 0 <= b < files.len() && a != b && #[trigger] references(
            files,
            b,
            a,
        ) ==> rank[a] < rank[b]
}

/// How many dependencies of `x` among `0..upto` are not yet ordered.
pub open spec fn unpopped_count(
    edges: Seq<Vec<usize>>,
    x: usize,
    order: Seq<usize>,
    upto: int,
) -> int
    decreases upto,
{
    if upto <= 0 {
        0
    } else {
        unpopped_count(edges, x, order, upto - 1) + if edges[upto - 1]@.contains(x)
            && !order.contains((upto - 1) as usize) {
            1int
        } else {
            0int
        }
    }
}

proof fn lemma_unpopped_zero(edges: Seq<Vec<usize>>, x: usize, order: Seq<usize>, upto: int)
    requires
        unpopped_count(edges, x, order, upto) == 0,
    ensures
        forall|d: int| 0 <= d < upto && #[trigger] edges[d]@.contains(x) ==> order.contains(
            d as usize,
        ),
    decreases upto,
{
    if upto > 0 {
        lemma_unpopped_le(edges, x, order, upto - 1);
        lemma_unpopped_zero(edges, x, order, upto - 1);
    }
}

proof fn lemma_unpopped_le(edges: Seq<Vec<usize>>, x: usize, order: Seq<usize>, upto: int)
    ensures
        0 <= unpopped_count(edges, x, order, upto),
    decreases upto,
{
    if upto > 0 {
        lemma_unpopped_le(edges, x, order, upto - 1);
    }
}

proof fn lemma_unpopped_pos(edges: Seq<Vec<usize>>, x: usize, order: Seq<usize>, upto: int)
    requires
        unpopped_count(edges, x, order, upto) > 0,
    ensures
        exists|d: int|
            0 <= d < upto && #[trigger] edges[d]@.contains(x) && !order.contains(d as usize),
    decreases upto,
{
    if upto > 0 {
        if edges[upto - 1]@.contains(x) && !order.contains((upto - 1) as usize) {
            assert(edges[upto - 1]@.contains(x) && !order.contains((upto - 1) as usize));
        } else {
            lemma_unpopped_pos(edges, x, order, upto - 1);
        }
    }
}

/// Appending a newly popped value decreases the count exactly on the
/// rows that list it as a dependency.
proof fn lemma_unpopped_push(
    edges: Seq<Vec<usize>>,
    y: usize,
    order: Seq<usize>,
    x: usize,
    upto: int,
)
    requires
        !order.contains(x),
        upto <= usize::MAX as int,
    ensures
        unpopped_count(edges, y, order.push(x), upto) == unpopped_count(edges, y, order, upto) - (
        if (x as int) < upto && edges[x as int]@.contains(y) {
            1int
        } else {
            0int
        }),
    decreases upto,
{
    if upto > 0 {
        lemma_unpopped_push(edges, y, order, x, upto - 1);
        let d = (upto - 1) as usize;
        assert(d as int == upto - 1);
        assert(order.push(x).contains(d) == (order.contains(d) || d == x)) by {
            crate::graph::lemma_push_contains_eq(order, x, d);
        }
        if d == x {
            assert(!order.push(x).contains(d) == false);
        }
    }
}

proof fn lemma_unpopped_of_empty(edges: Seq<Vec<usize>>, x: usize, order: Seq<usize>, upto: int)
    requires
        order.len() == 0,
    ensures
        unpopped_count(edges, x, order, upto) == dep_count(edges, x, upto),
    decreases upto,
{
    if upto > 0 {
        lemma_unpopped_of_empty(edges, x, order, upto - 1);
    }
}

/// A sequence of distinct values below `n` has at most `n` entries.
proof fn lemma_distinct_bounded(s: Seq<usize>, n: int)
    requires
        s.no_duplicates(),
        forall|j: int| 0 <= j < s.len() ==> (#[trigger] s[j]) < n,
        0 <= n,
    ensures
        s.len() <= n,
{
    let si = s.map_values(|v: usize| v as int);
    assert(si.no_duplicates()) by {
        assert forall|i: int, j: int|
            0 <= i < si.len() && 0 <= j < si.len() && i != j implies si[i] != si[j] by {
            assert(s[i] != s[j]);
        }
    }
    si.unique_seq_to_set();
    let range = vstd::set_lib::set_int_range(0, n);
    assert(si.to_set().subset_of(range)) by {
        assert forall|e: int| si.to_set().contains(e) implies range.contains(e) by {
            let i = choose|i: int| 0 <= i < si.len() && #[trigger] si[i] == e;
            assert(s[i] < n);
        }
    }
    vstd::set_lib::lemma_int_range(0, n);
    vstd::set_lib::lemma_len_subset(si.to_set(), range);
}

/// A sequence of distinct values covering `0..n` has exactly `n`.
proof fn lemma_distinct_cover(s: Seq<usize>, n: int)
    requires
        s.no_duplicates(),
        forall|j: int| 0 <= j < s.len() ==> (#[trigger] s[j]) < n,
        forall|v: usize| (v as int) < n ==> s.contains(v),
        0 <= n <= usize::MAX as int,
    ensures
        s.len() == n,
{
    lemma_distinct_bounded(s, n);
    let si = s.map_values(|v: usize| v as int);
    assert(si.no_duplicates()) by {
        assert forall|i: int, j: int|
            0 <= i < si.len() && 0 <= j < si.len() && i != j implies si[i] != si[j] by {
            assert(s[i] != s[j]);
        }
    }
    si.unique_seq_to_set();
    let range = vstd::set_lib::set_int_range(0, n);
    assert(range.subset_of(si.to_set())) by {
        assert forall|e: int| range.contains(e) implies si.to_set().contains(e) by {
            assert(s.contains(e as usize));
            let i = choose|i: int| 0 <= i < s.len() && #[trigger] s[i] == e as usize;
            assert((e as usize) as int == e);
            assert(si[i] == s[i] as int);
            assert(si[i] == e);
        }
    }
    vstd::set_lib::lemma_int_range(0, n);
    vstd::set_lib::lemma_len_subset(range, si.to_set());
}

/// Position `j` holds an element of minimal rank.
spec fn is_min_rank(s: Seq<usize>, rank: Map<int, int>, j: int) -> bool {
    0 <= j < s.len() && forall|j2: int|
        0 <= j2 < s.len() ==> rank[(s[j]) as int] <= rank[(#[trigger] s[j2]) as int]
}

/// Some element of a non-empty sequence has minimal rank.
#[verifier::rlimit(50)]
proof fn lemma_min_rank_elem(s: Seq<usize>, rank: Map<int, int>)
    requires
        s.len() > 0,
    ensures
        exists|j: int| #[trigger] is_min_rank(s, rank, j),
    decreases s.len(),
{
    if s.len() == 1 {
        assert(is_min_rank(s, rank, 0));
    } else {
        let t = s.drop_last();
        lemma_min_rank_elem(t, rank);
        let j = choose|j: int| #[trigger] is_min_rank(t, rank, j);
        assert(forall|j2: int| 0 <= j2 < t.len() ==> t[j2] == s[j2]);
        if rank[s[j] as int] <= rank[s.last() as int] {
            assert forall|j2: int|
                0 <= j2 < s.len() implies rank[(s[j]) as int] <= rank[(#[trigger] s[j2]) as int] by {
                if j2 < t.len() {
                    assert(rank[(t[j]) as int] <= rank[(t[j2]) as int]);
                }
            }
            assert(is_min_rank(s, rank, j));
        } else {
            let lj = s.len() - 1;
            assert forall|j2: int|
                0 <= j2 < s.len() implies rank[(s[lj]) as int] <= rank[(#[trigger] s[j2]) as int] by {
                if j2 < t.len() {
                    assert(rank[(t[j]) as int] <= rank[(t[j2]) as int]);
                }
            }
            assert(is_min_rank(s, rank, lj));
        }
    }
}

/// Pick the position of the ready entry with the least
/// `(normalized path, index)` key.
fn pick_min_ready(ready: &Vec<usize>, paths: &Vec<String>) -> (r: usize)
    requires
        ready@.len() > 0,
        forall|j: int| 0 <= j < ready@.len() ==> (#[trigger] ready@[j]) < paths@.len(),
    ensures
        r < ready@.len(),
        forall|j: int|
            0 <= j < ready@.len() ==> ready_key_le(
                seq_views(paths@),
                ready@[r as int],
                #[trigger] ready@[j],
            ),
{
    let ghost pv = seq_views(paths@);
    let mut best: usize = 0;
    let mut j: usize = 1;
    while j < ready.len()
        invariant
            pv == seq_views(paths@),
            ready@.len() > 0,
            forall|jj: int| 0 <= jj < ready@.len() ==> (#[trigger] ready@[jj]) < paths@.len(),
            0 <= best < ready@.len(),
            1 <= j <= ready@.len(),
            forall|jj: int|
                0 <= jj < j ==> ready_key_le(pv, ready@[best as int], #[trigger] ready@[jj]),
        decreases ready@.len() - j,
    {
        let a = ready[j];
        let b = ready[best];
        let pa = paths[a].as_str();
        let pb = paths[b].as_str();
        proof {
            assert(pv[a as int] == paths@[a as int]@);
            assert(pv[b as int] == paths@[b as int]@);
        }
        let a_less = str_le(pa, pb) && (!str_le(pb, pa) || a < b);
        proof {
            crate::text::lemma_lex_le_total(pv[a as int], pv[b as int]);
            if lex_le(pv[a as int], pv[b as int]) && lex_le(pv[b as int], pv[a as int]) {
                crate::text::lemma_lex_le_antisym(pv[a as int], pv[b as int]);
            }
            if a_less {
                assert(ready_key_le(pv, a, b));
            } else {
                assert(ready_key_le(pv, b, a));
            }
        }
        if a_less {
            let ghost old_best = best;
            best = j;
            proof {
                assert forall|jj: int|
                    0 <= jj < j + 1 implies ready_key_le(
                    pv,
                    ready@[best as int],
                    #[trigger] ready@[jj],
                ) by {
                    if jj < j {
                        lemma_ready_key_le_trans(pv, a, b, ready@[jj]);
                    }
                }
            }
        } else {
            proof {
                assert forall|jj: int|
                    0 <= jj < j + 1 implies ready_key_le(
                    pv,
                    ready@[best as int],
                    #[trigger] ready@[jj],
                ) by {}
            }
        }
        j += 1;
    }
    best
}

/// `v` is ready at step `k` of the order: in range, not yet emitted,
/// and with every one of its dependencies already emitted.
pub open spec fn ready_at(edges: Seq<Vec<usize>>, r: Seq<usize>, k: int, v: usize) -> bool {
    &&& (v as int) < edges.len()
    &&& !r.take(k).contains(v)
    &&& forall|d: int|
        0 <= d < edges.len() && #[trigger] edges[d]@.contains(v) ==> r.take(k).contains(d as usize)
}

/// The deterministic extraction order on ready entries: by path, then
/// by index.
pub open spec fn ready_key_le(paths: Seq<Seq<char>>, a: usize, b: usize) -> bool {
    if paths[a as int] == paths[b as int] {
        a <= b
    } else {
        lex_le(paths[a as int], paths[b as int])
    }
}

/// The entry emitted at step `k` is the ready entry with the least
/// `(path, index)` key.
pub open spec fn min_ready_at(
    paths: Seq<Seq<char>>,
    edges: Seq<Vec<usize>>,
    r: Seq<usize>,
    k: int,
) -> bool {
    &&& ready_at(edges, r, k, r[k])
    &&& forall|v: usize| #[trigger] ready_at(edges, r, k, v) ==> ready_key_le(paths, r[k], v)
}

pub proof fn lemma_ready_key_le_trans(paths: Seq<Seq<char>>, a: usize, b: usize, c: usize)
    requires
        ready_key_le(paths, a, b),
        ready_key_le(paths, b, c),
    ensures
        ready_key_le(paths, a, c),
{
    let pa = paths[a as int];
    let pb = paths[b as int];
    let pc = paths[c as int];
    if pa != pb && pb != pc {
        if pa == pc {
            crate::text::lemma_lex_le_antisym(pb, pc);
        } else {
            crate::text::lemma_lex_le_trans(pa, pb, pc);
        }
    }
}

proof fn lemma_unpopped_zero_conv(edges: Seq<Vec<usize>>, x: usize, order: Seq<usize>, upto: int)
    requires
        forall|d: int| 0 <= d < upto && #[trigger] edges[d]@.contains(x) ==> order.contains(
            d as usize,
        ),
        upto <= usize::MAX as int,
    ensures
        unpopped_count(edges, x, order, upto) == 0,
    decreases upto,
{
    if upto > 0 {
        lemma_unpopped_zero_conv(edges, x, order, upto - 1);
    }
}

/// The shape of the finished order, split at `m`: the first `m` entries
/// are the worklist-emitted prefix, in which every dependency of an
/// entry appears earlier; the rest are the files stranded by dependency
/// cycles, sorted by path (equal paths by index), each of them with at
/// least one dependency also stranded.
pub open spec fn kahn_split(
    paths: Seq<Seq<char>>,
    edges: Seq<Vec<usize>>,
    r: Seq<usize>,
    m: int,
) -> bool {
    &&& 0 <= m <= r.len()
    &&& forall|k: int, d: int|
        0 <= k < m && 0 <= d < edges.len() && #[trigger] edges[d]@.contains(r[k]) ==> r.take(
            k,
        ).contains(d as usize)
    &&& forall|a: int, b: int|
        m <= a < b < r.len() ==> lex_le(
            paths[(#[trigger] r[a]) as int],
            paths[(#[trigger] r[b]) as int],
        )
    &&& forall|a: int, b: int|
        m <= a < b < r.len() && paths[(#[trigger] r[a]) as int] == paths[(#[trigger] r[b]) as int]
            ==> r[a] < r[b]
    &&& forall|b: int|
        m <= b < r.len() ==> #[trigger] has_stranded_dep(edges, r, m, b)
    &&& forall|k: int| 0 <= k < m ==> #[trigger] min_ready_at(paths, edges, r, k)
}

/// Some entry of the stranded suffix is a dependency of entry `b`.
pub open spec fn has_stranded_dep(edges: Seq<Vec<usize>>, r: Seq<usize>, m: int, b: int) -> bool {
    exists|a: int| m <= a < r.len() && #[trigger] edges[(r[a]) as int]@.contains(r[b])
}

/// Kahn's algorithm over a well-formed graph. The result visits every
/// node exactly once; when the edges admit a ranking (no cycle), every
/// dependency comes before each of its dependents; some split position
/// witnesses the shape: a least-ready-first prefix, then the stranded
/// nodes sorted by path.
#[verifier::rlimit(100)]
fn kahn_order(paths: &Vec<String>, edges: &Vec<Vec<usize>>, indegree0: &Vec<usize>) -> (r: Vec<
    usize,
>)
    requires
        edges_wf(edges@, paths@.len() as int),
        indegree_ok(indegree0@, edges@, paths@.len() as int),
        forall|d: int| 0 <= d < edges@.len() ==> !(#[trigger] edges@[d]@).contains(d as usize),
    ensures
        r@.no_duplicates(),
        r@.len() == paths@.len(),
        forall|j: int| 0 <= j < r@.len() ==> (#[trigger] r@[j]) < paths@.len(),
        forall|v: usize| (v as int) < paths@.len() ==> r@.contains(v),
        edges_acyclic(edges@) ==> forall|i: int, j: int|
            0 <= i < r@.len() && 0 <= j < r@.len() && #[trigger] edges@[r@[i] as int]@.contains(
                r@[j],
            ) ==> i < j,
        exists|m: int| #[trigger] kahn_split(seq_views(paths@), edges@, r@, m),
{
    let n = paths.len();
    let mut indegree: Vec<usize> = indegree0.clone();
    let mut order: Vec<usize> = Vec::new();
    let mut in_order: Vec<bool> = Vec::new();
    let mut ready: Vec<usize> = Vec::new();
    let mut i: usize = 0;
    while i < n
        invariant
            0 <= i <= n,
            in_order@.len() == i,
            forall|v: int| 0 <= v < i ==> !(#[trigger] in_order@[v]),
        decreases n - i,
    {
        in_order.push(false);
        i += 1;
    }
    let mut v: usize = 0;
    while v < n
        invariant
            n == paths@.len(),
            indegree@ == indegree0@,
            indegree_ok(indegree@, edges@, n as int),
            0 <= v <= n,
            forall|j: int| 0 <= j < ready@.len() ==> (#[trigger] ready@[j]) < v,
            ready@.no_duplicates(),
            forall|j: int|
                0 <= j < ready@.len() ==> indegree@[(#[trigger] ready@[j]) as int] == 0,
            forall|w: usize|
                (w as int) < v && indegree@[w as int] == 0 ==> ready@.contains(w),
        decreases n - v,
    {
        if indegree[v] == 0 {
            let ghost old_ready = ready@;
            ready.push(v);
            proof {
                assert forall|w: usize|
                    (w as int) < v + 1 && indegree@[w as int] == 0 implies ready@.contains(w) by {
                    if (w as int) < v {
                        let jj = choose|jj: int|
                            0 <= jj < old_ready.len() && #[trigger] old_ready[jj] == w;
                        assert(ready@[jj] == w);
                    } else {
                        assert(ready@[old_ready.len() as int] == v);
                    }
                }
                assert forall|j: int, k: int|
                    0 <= j < k < ready@.len() implies ready@[j] != ready@[k] by {
                    if k == old_ready.len() {
                        assert(ready@[k] == v);
                        assert(ready@[j] == old_ready[j]);
                    }
                }
            }
        } else {
            proof {
                assert forall|w: usize|
                    (w as int) < v + 1 && indegree@[w as int] == 0 implies ready@.contains(w) by {}
            }
        }
        v += 1;
    }
    proof {
        assert forall|x: int|
            0 <= x < n implies (#[trigger] indegree@[x]) as int == unpopped_count(
            edges@,
            x as usize,
            order@,
            n as int,
        ) by {
            lemma_unpopped_of_empty(edges@, x as usize, order@, n as int);
        }
        assert forall|v2: int|
            0 <= v2 < n implies in_order@[v2] == order@.contains(v2 as usize) by {
            assert(!order@.contains(v2 as usize));
        }
    }

    while ready.len() > 0
        invariant
            n == paths@.len(),
            edges_wf(edges@, n as int),
            forall|d: int| 0 <= d < n ==> !(#[trigger] edges@[d]@).contains(d as usize),
            indegree@.len() == n,
            in_order@.len() == n,
            order@.no_duplicates(),
            forall|j: int| 0 <= j < order@.len() ==> (#[trigger] order@[j]) < n,
            forall|v2: int| 0 <= v2 < n ==> in_order@[v2] == order@.contains(v2 as usize),
            forall|j: int| 0 <= j < ready@.len() ==> (#[trigger] ready@[j]) < n,
            ready@.no_duplicates(),
            forall|j: int|
                0 <= j < ready@.len() ==> indegree@[(#[trigger] ready@[j]) as int] == 0
                    && !order@.contains(ready@[j]),
            forall|x: int|
                0 <= x < n ==> (#[trigger] indegree@[x]) as int == unpopped_count(
                    edges@,
                    x as usize,
                    order@,
                    n as int,
                ),
            forall|x: usize|
                (x as int) < n && !order@.contains(x) && indegree@[x as int] == 0
                    ==> ready@.contains(x),
            forall|k: int, d: int|
                0 <= k < order@.len() && 0 <= d < n && #[trigger] edges@[d]@.contains(order@[k])
                    ==> order@.take(k).contains(d as usize),
            forall|k: int|
                0 <= k < order@.len() ==> #[trigger] min_ready_at(
                    seq_views(paths@),
                    edges@,
                    order@,
                    k,
                ),
        decreases n - order@.len(),
    {
        let m = pick_min_ready(&ready, paths);
        let x = ready[m];
        let ghost pre_ready = ready@;
        ready.remove(m);
        proof {
            assert(ready@ =~= pre_ready.remove(m as int));
            assert forall|w: usize| ready@.contains(w) implies pre_ready.contains(w) by {
                let jj = choose|jj: int| 0 <= jj < ready@.len() && #[trigger] ready@[jj] == w;
                if jj < m {
                    assert(pre_ready[jj] == w);
                } else {
                    assert(pre_ready[jj + 1] == w);
                }
            }
            assert forall|w: usize|
                pre_ready.contains(w) && w != x implies ready@.contains(w) by {
                let jj = choose|jj: int| 0 <= jj < pre_ready.len() && #[trigger] pre_ready[jj] == w;
                if jj < m {
                    assert(ready@[jj] == w);
                } else if jj > m {
                    assert(ready@[jj - 1] == w);
                } else {
                    assert(w == x);
                }
            }
            assert forall|j: int, k: int|
                0 <= j < k < ready@.len() implies ready@[j] != ready@[k] by {
                let a = if j < m {
                    j
                } else {
                    j + 1
                };
                let b = if k < m {
                    k
                } else {
                    k + 1
                };
                assert(ready@[j] == pre_ready[a] && ready@[k] == pre_ready[b]);
            }
        }
        let ghost pre_order = order@;
        order.push(x);
        in_order[x] = true;
        proof {
            assert(order@[order@.len() - 1] == x);
            assert(order@.contains(x)) by {
                assert(order@[order@.len() - 1] == x);
            }
            assert forall|v2: int|
                0 <= v2 < n implies in_order@[v2] == order@.contains(v2 as usize) by {
                crate::graph::lemma_push_contains_eq(pre_order, x, v2 as usize);
                if v2 == x as int {
                    assert(in_order@[v2]);
                } else {
                    assert(in_order@[v2] == pre_order.contains(v2 as usize));
                }
            }
            // the popped node's dependencies are all already ordered
            assert(indegree@[x as int] == 0);
            lemma_unpopped_zero(edges@, x, pre_order, n as int);
            assert forall|k: int, d: int|
                0 <= k < order@.len() && 0 <= d < n && #[trigger] edges@[d]@.contains(order@[k])
                    implies order@.take(k).contains(d as usize) by {
                if k < pre_order.len() {
                    assert(pre_order.take(k).contains(d as usize));
                    let jj = choose|jj: int|
                        0 <= jj < pre_order.take(k).len() && #[trigger] pre_order.take(k)[jj]
                            == d as usize;
                    assert(order@.take(k)[jj] == d as usize);
                } else {
                    assert(order@[k] == x);
                    assert(pre_order.contains(d as usize));
                    let jj = choose|jj: int|
                        0 <= jj < pre_order.len() && #[trigger] pre_order[jj] == d as usize;
                    assert(order@.take(k)[jj] == d as usize);
                }
            }
            assert forall|j: int, k: int|
                0 <= j < k < order@.len() implies order@[j] != order@[k] by {
                if k == pre_order.len() {
                    assert(order@[k] == x && !pre_order.contains(x));
                    if order@[j] == x {
                        assert(pre_order[j] == x);
                        assert(pre_order.contains(x));
                    }
                }
            }
            // the emitted entry is the least ready entry; earlier steps
            // keep their minimality since their prefixes are unchanged
            assert forall|k: int|
                0 <= k < order@.len() implies #[trigger] min_ready_at(
                seq_views(paths@),
                edges@,
                order@,
                k,
            ) by {
                let pv2 = seq_views(paths@);
                if k < pre_order.len() {
                    assert(order@.take(k) =~= pre_order.take(k));
                    assert(min_ready_at(pv2, edges@, pre_order, k));
                    assert(order@[k] == pre_order[k]);
                    assert(ready_at(edges@, order@, k, order@[k])) by {
                        assert(ready_at(edges@, pre_order, k, pre_order[k]));
                    }
                    assert forall|v: usize|
                        #[trigger] ready_at(edges@, order@, k, v) implies ready_key_le(
                        pv2,
                        order@[k],
                        v,
                    ) by {
                        assert(ready_at(edges@, pre_order, k, v));
                    }
                } else {
                    assert(order@[k] == x);
                    assert(order@.take(k) =~= pre_order);
                    assert(ready_at(edges@, order@, k, x)) by {
                        assert(!pre_order.contains(x));
                        assert(forall|d: int|
                            0 <= d < n && #[trigger] edges@[d]@.contains(x)
                                ==> pre_order.contains(d as usize));
                    }
                    assert forall|v: usize|
                        #[trigger] ready_at(edges@, order@, k, v) implies ready_key_le(
                        pv2,
                        x,
                        v,
                    ) by {
                        assert(!pre_order.contains(v));
                        assert(forall|d: int|
                            0 <= d < n && #[trigger] edges@[d]@.contains(v)
                                ==> pre_order.contains(d as usize));
                        lemma_unpopped_zero_conv(edges@, v, pre_order, n as int);
                        assert(indegree@[v as int] == 0);
                        assert(pre_ready.contains(v));
                        let jj = choose|jj: int|
                            0 <= jj < pre_ready.len() && #[trigger] pre_ready[jj] == v;
                        assert(ready_key_le(pv2, pre_ready[m as int], pre_ready[jj]));
                        assert(pre_ready[m as int] == x);
                    }
                }
            }
            // indegree now over-counts each dependent of x by one
            assert forall|y: int|
                0 <= y < n implies (#[trigger] indegree@[y]) as int == unpopped_count(
                edges@,
                y as usize,
                order@,
                n as int,
            ) + if edges@[x as int]@.contains(y as usize) {
                1int
            } else {
                0int
            } by {
                lemma_unpopped_push(edges@, y as usize, pre_order, x, n as int);
            }
            // everything ready before the pop and distinct from x is still ready
            assert forall|y: usize|
                (y as int) < n && !order@.contains(y) && indegree@[y as int] == 0
                    implies ready@.contains(y) by {
                crate::graph::lemma_push_contains_eq(pre_order, x, y);
                assert(y != x);
                assert(!pre_order.contains(y));
                assert(pre_ready.contains(y));
            }
        }
        // decrement each dependent of x once
        let row_len = edges[x].len();
        let mut j: usize = 0;
        proof {
            assert(edges@[x as int]@.take(0) =~= Seq::<usize>::empty());
        }
        while j < row_len
            invariant
                n == paths@.len(),
                edges_wf(edges@, n as int),
                forall|d: int| 0 <= d < n ==> !(#[trigger] edges@[d]@).contains(d as usize),
                (x as int) < n,
                order@.contains(x),
                order@.len() > 0,
                order@[order@.len() - 1] == x,
                row_len == edges@[x as int]@.len(),
                0 <= j <= row_len,
                indegree@.len() == n,
                in_order@.len() == n,
                order@.no_duplicates(),
                forall|jj: int| 0 <= jj < order@.len() ==> (#[trigger] order@[jj]) < n,
                forall|v2: int| 0 <= v2 < n ==> in_order@[v2] == order@.contains(v2 as usize),
                forall|jj: int| 0 <= jj < ready@.len() ==> (#[trigger] ready@[jj]) < n,
                ready@.no_duplicates(),
                forall|jj: int|
                    0 <= jj < ready@.len() ==> indegree@[(#[trigger] ready@[jj]) as int] == 0
                        && !order@.contains(ready@[jj]),
                forall|y: int|
                    0 <= y < n ==> (#[trigger] indegree@[y]) as int == unpopped_count(
                        edges@,
                        y as usize,
                        order@,
                        n as int,
                    ) + if edges@[x as int]@.contains(y as usize) && !edges@[x as int]@.take(
                        j as int,
                    ).contains(y as usize) {
                        1int
                    } else {
                        0int
                    },
                forall|y: usize|
                    (y as int) < n && !order@.contains(y) && indegree@[y as int] == 0
                        ==> ready@.contains(y),
                forall|k: int, d: int|
                    0 <= k < order@.len() && 0 <= d < n && #[trigger] edges@[d]@.contains(
                        order@[k],
                    ) ==> order@.take(k).contains(d as usize),
            decreases row_len - j,
        {
            let y = edges[x][j];
            proof {
                let row = edges@[x as int]@;
                assert(row[j as int] == y);
                assert(row.contains(y)) by {
                    assert(row[j as int] == y);
                }
                // y is not yet counted as processed in this row
                assert(!row.take(j as int).contains(y)) by {
                    if row.take(j as int).contains(y) {
                        let jj = choose|jj: int|
                            0 <= jj < j && #[trigger] row.take(j as int)[jj] == y;
                        assert(row[jj] == y && row[j as int] == y);
                    }
                }
                assert(indegree@[y as int] as int == unpopped_count(
                    edges@,
                    y,
                    order@,
                    n as int,
                ) + 1);
                lemma_unpopped_le(edges@, y, order@, n as int);
            }
            let cur = indegree[y];
            indegree[y] = cur - 1;
            proof {
                let row = edges@[x as int]@;
                assert forall|y2: int|
                    0 <= y2 < n implies (#[trigger] indegree@[y2]) as int == unpopped_count(
                    edges@,
                    y2 as usize,
                    order@,
                    n as int,
                ) + if row.contains(y2 as usize) && !row.take(j + 1).contains(y2 as usize) {
                    1int
                } else {
                    0int
                } by {
                    crate::text::lemma_take_contains_step(row, j as int, y2 as usize);
                }
                // y itself cannot be ordered already: all its dependencies
                // would have to precede it, yet x was appended only now
                assert(y != x) by {
                    assert(!edges@[x as int]@.contains(x));
                }
                assert(!order@.contains(y)) by {
                    if order@.contains(y) {
                        let k = choose|k: int| 0 <= k < order@.len() && #[trigger] order@[k] == y;
                        assert(edges@[x as int]@.contains(order@[k]));
                        assert(order@.take(k).contains(x));
                        let jj = choose|jj: int|
                            0 <= jj < k && #[trigger] order@.take(k)[jj] == x;
                        assert(order@[jj] == x);
                        assert(k < order@.len() - 1) by {
                            assert(order@[order@.len() - 1] == x);
                        }
                        assert(jj != order@.len() - 1);
                        assert(order@[jj] != order@[order@.len() - 1]);
                    }
                }
            }
            if indegree[y] == 0 {
                let ghost pre_r = ready@;
                ready.push(y);
                proof {
                    assert forall|jj: int, kk: int|
                        0 <= jj < kk < ready@.len() implies ready@[jj] != ready@[kk] by {
                        if kk == pre_r.len() {
                            assert(ready@[kk] == y);
                            if ready@[jj] == y {
                                assert(pre_r[jj] == y);
                                assert(indegree@[y as int] == 0);
                            }
                        }
                    }
                    assert forall|w: usize|
                        (w as int) < n && !order@.contains(w) && indegree@[w as int] == 0
                            implies ready@.contains(w) by {
                        if w == y {
                            assert(ready@[pre_r.len() as int] == y);
                        } else {
                            assert(pre_r.contains(w));
                            let jj = choose|jj: int|
                                0 <= jj < pre_r.len() && #[trigger] pre_r[jj] == w;
                            assert(ready@[jj] == w);
                        }
                    }
                }
            } else {
                proof {
                    assert forall|w: usize|
                        (w as int) < n && !order@.contains(w) && indegree@[w as int] == 0
                            implies ready@.contains(w) by {}
                }
            }
            j += 1;
        }
        proof {
            let row = edges@[x as int]@;
            assert(row.take(row.len() as int) =~= row);
            lemma_distinct_bounded(order@, n as int);
        }
    }

    // cycle fallback: append whatever is left, sorted by path
    let mut remaining: Vec<usize> = Vec::new();
    let mut w: usize = 0;
    while w < n
        invariant
            n == paths@.len(),
            in_order@.len() == n,
            0 <= w <= n,
            forall|j: int| 0 <= j < remaining@.len() ==> (#[trigger] remaining@[j]) < n,
            remaining@.no_duplicates(),
            forall|j: int|
                0 <= j < remaining@.len() ==> !in_order@[(#[trigger] remaining@[j]) as int],
            forall|y: usize|
                (y as int) < w && !in_order@[y as int] ==> remaining@.contains(y),
            forall|j: int| 0 <= j < remaining@.len() ==> (#[trigger] remaining@[j]) < w,
            forall|a: int, b: int|
                0 <= a < b < remaining@.len() ==> remaining@[a] < remaining@[b],
        decreases n - w,
    {
        if !in_order[w] {
            let ghost pre = remaining@;
            remaining.push(w);
            proof {
                assert forall|y: usize|
                    (y as int) < w + 1 && !in_order@[y as int] implies remaining@.contains(y) by {
                    if (y as int) < w {
                        let jj = choose|jj: int| 0 <= jj < pre.len() && #[trigger] pre[jj] == y;
                        assert(remaining@[jj] == y);
                    } else {
                        assert(remaining@[pre.len() as int] == y);
                    }
                }
                assert forall|j: int, k: int|
                    0 <= j < k < remaining@.len() implies remaining@[j] < remaining@[k] by {
                    if k == pre.len() {
                        assert(remaining@[k] == w);
                        assert(remaining@[j] == pre[j]);
                    }
                }
            }
        } else {
            proof {
                assert forall|y: usize|
                    (y as int) < w + 1 && !in_order@[y as int] implies remaining@.contains(y) by {}
            }
        }
        w += 1;
    }

    let sorted_remaining = sort_by_path(&remaining, paths);
    let ghost popped = order@;
    let ghost rem = sorted_remaining@;
    let mut tail = sorted_remaining;
    order.append(&mut tail);
    proof {
        broadcast use vstd::seq_lib::to_multiset_contains;

        assert(order@ == popped + rem);
        // the two halves are disjoint and together cover 0..n
        assert forall|y: usize| rem.contains(y) implies remaining@.contains(y) by {
            assert(rem.to_multiset().count(y) == remaining@.to_multiset().count(y));
        }
        assert forall|y: usize| remaining@.contains(y) implies rem.contains(y) by {
            assert(rem.to_multiset().count(y) == remaining@.to_multiset().count(y));
        }
        assert forall|j: int, k: int|
            0 <= j < k < order@.len() implies order@[j] != order@[k] by {
            if j < popped.len() && k >= popped.len() {
                assert(order@[j] == popped[j] && order@[k] == rem[k - popped.len()]);
                assert(rem.contains(rem[k - popped.len()])) by {
                    assert(rem[k - popped.len()] == order@[k]);
                }
                assert(remaining@.contains(order@[k]));
                assert(!in_order@[order@[k] as int]);
                assert(popped.contains(popped[j]));
            } else if j >= popped.len() {
                let a = j - popped.len();
                let b = k - popped.len();
                assert(rem[a] != rem[b]) by {
                    assert(rem.no_duplicates());
                }
            }
        }
        assert forall|y: usize| (y as int) < n implies order@.contains(y) by {
            if in_order@[y as int] {
                let jj = choose|jj: int| 0 <= jj < popped.len() && #[trigger] popped[jj] == y;
                assert(order@[jj] == y);
            } else {
                assert(remaining@.contains(y));
                assert(rem.contains(y));
                let jj = choose|jj: int| 0 <= jj < rem.len() && #[trigger] rem[jj] == y;
                assert(order@[popped.len() + jj] == y);
            }
        }
        assert forall|j: int| 0 <= j < order@.len() implies (#[trigger] order@[j]) < n by {
            if j >= popped.len() {
                assert(rem.contains(rem[j - popped.len()])) by {
                    assert(0 <= j - popped.len() < rem.len());
                }
                assert(remaining@.contains(order@[j]));
            }
        }
        lemma_distinct_cover(order@, n as int);
        // the order splits at the worklist prefix: precedence inside
        // it, the stranded files sorted by path behind it, each of
        // them with a stranded dependency
        let m = popped.len() as int;
        let pv = seq_views(paths@);
        {
            assert forall|k: int, d: int|
                0 <= k < m && 0 <= d < edges@.len() && #[trigger] edges@[d]@.contains(order@[k])
                implies order@.take(k).contains(d as usize) by {
                assert(order@[k] == popped[k]);
                assert(popped.take(k).contains(d as usize));
                let jj = choose|jj: int|
                    0 <= jj < popped.take(k).len() && #[trigger] popped.take(k)[jj] == d as usize;
                assert(order@.take(k)[jj] == d as usize);
            }
            assert forall|a: int, b: int|
                m <= a < b < order@.len() implies lex_le(
                pv[(#[trigger] order@[a]) as int],
                pv[(#[trigger] order@[b]) as int],
            ) by {
                assert(order@[a] == rem[a - m] && order@[b] == rem[b - m]);
            }
            assert forall|a: int, b: int|
                m <= a < b < order@.len() && pv[(#[trigger] order@[a]) as int] == pv[(
            #[trigger] order@[b]) as int] implies order@[a] < order@[b] by {
                assert(order@[a] == rem[a - m] && order@[b] == rem[b - m]);
            }
            assert forall|b: int|
                m <= b < order@.len() implies #[trigger] has_stranded_dep(
                edges@,
                order@,
                m,
                b,
            ) by {
                let x = order@[b];
                assert(x == rem[b - m]);
                assert(rem.contains(x)) by {
                    assert(0 <= b - m < rem.len());
                }
                assert(remaining@.contains(x));
                assert(!in_order@[x as int]);
                assert(!popped.contains(x));
                assert(indegree@[x as int] != 0);
                lemma_unpopped_le(edges@, x, popped, n as int);
                lemma_unpopped_pos(edges@, x, popped, n as int);
                let d = choose|d: int|
                    0 <= d < n && #[trigger] edges@[d]@.contains(x) && !popped.contains(
                        d as usize,
                    );
                assert(!in_order@[d]);
                assert(remaining@.contains(d as usize));
                assert(rem.contains(d as usize));
                let jj = choose|jj: int| 0 <= jj < rem.len() && #[trigger] rem[jj] == d as usize;
                assert(order@[m + jj] == d as usize);
                assert(edges@[(order@[m + jj]) as int]@.contains(order@[b]));
                assert(has_stranded_dep(edges@, order@, m, b));
            }
            assert forall|k: int|
                0 <= k < m implies #[trigger] min_ready_at(pv, edges@, order@, k) by {
                assert(order@.take(k) =~= popped.take(k));
                assert(min_ready_at(pv, edges@, popped, k));
                assert(order@[k] == popped[k]);
                assert(ready_at(edges@, order@, k, order@[k])) by {
                    assert(ready_at(edges@, popped, k, popped[k]));
                }
                assert forall|v: usize|
                    #[trigger] ready_at(edges@, order@, k, v) implies ready_key_le(
                    pv,
                    order@[k],
                    v,
                ) by {
                    assert(ready_at(edges@, popped, k, v));
                }
            }
            assert(kahn_split(pv, edges@, order@, m));
        }
        // under any edge-ranking nothing can remain, so the popped
        // prefix is the whole order and precedence carries over
        if edges_acyclic(edges@) {
            let rank = choose|rank: Map<int, int>| #[trigger] edges_respect_rank(edges@, rank);
            if rem.len() > 0 {
                lemma_min_rank_elem(rem, rank);
                let jstar = choose|j: int| #[trigger] is_min_rank(rem, rank, j);
                let xstar = rem[jstar];
                assert(rem.contains(xstar)) by {
                    assert(0 <= jstar < rem.len() && rem[jstar] == xstar);
                }
                assert(remaining@.contains(xstar));
                assert(!in_order@[xstar as int]);
                assert(!popped.contains(xstar));
                assert(indegree@[xstar as int] != 0);
                lemma_unpopped_le(edges@, xstar, popped, n as int);
                lemma_unpopped_pos(edges@, xstar, popped, n as int);
                let d = choose|d: int|
                    0 <= d < n && #[trigger] edges@[d]@.contains(xstar) && !popped.contains(
                        d as usize,
                    );
                assert(!in_order@[d]);
                assert(remaining@.contains(d as usize));
                assert(rem.contains(d as usize));
                let jd = choose|jd: int| 0 <= jd < rem.len() && #[trigger] rem[jd] == d as usize;
                assert(rank[d] < rank[xstar as int]);
                assert(rank[rem[jstar] as int] <= rank[rem[jd] as int]);
                assert(false);
            }
            assert(order@ =~= popped);
            assert forall|i2: int, j2: int|
                0 <= i2 < order@.len() && 0 <= j2 < order@.len()
                    && #[trigger] edges@[order@[i2] as int]@.contains(order@[j2]) implies i2
                < j2 by {
                assert(order@.take(j2).contains(order@[i2] as usize));
                let jj = choose|jj: int|
                    0 <= jj < j2 && #[trigger] order@.take(j2)[jj] == order@[i2] as usize;
                assert(order@[jj] == order@[i2]);
                if i2 != jj {
                    assert(false);
                }
            }
        }
    }
    order
}

/// Sort indices by their normalized path, lexicographically; ties keep
/// their incoming order.
/// Sort indices by their path, lexicographically; equal paths keep
/// ascending index order.
fn sort_by_path(v: &Vec<usize>, paths: &Vec<String>) -> (r: Vec<usize>)
    requires
        forall|j: int| 0 <= j < v@.len() ==> (#[trigger] v@[j]) < paths@.len(),
        forall|a: int, b: int| 0 <= a < b < v@.len() ==> v@[a] < v@[b],
    ensures
        r@.to_multiset() == v@.to_multiset(),
        r@.no_duplicates() <== v@.no_duplicates(),
        forall|j: int| 0 <= j < r@.len() ==> (#[trigger] r@[j]) < paths@.len(),
        forall|a: int, b: int|
            0 <= a < b < r@.len() ==> lex_le(
                seq_views(paths@)[(#[trigger] r@[a]) as int],
                seq_views(paths@)[(#[trigger] r@[b]) as int],
            ),
        forall|a: int, b: int|
            0 <= a < b < r@.len() && seq_views(paths@)[(#[trigger] r@[a]) as int] == seq_views(
                paths@,
            )[(#[trigger] r@[b]) as int] ==> r@[a] < r@[b],
{
    let mut out: Vec<usize> = Vec::new();
    let mut i: usize = 0;
    proof {
        broadcast use vstd::seq_lib::group_to_multiset_ensures;

        assert(v@.take(0) =~= Seq::<usize>::empty());
        assert(out@.to_multiset() =~= v@.take(0).to_multiset());
    }
    while i < v.len()
        invariant
            forall|j: int| 0 <= j < v@.len() ==> (#[trigger] v@[j]) < paths@.len(),
            0 <= i <= v@.len(),
            forall|a: int, b: int| 0 <= a < b < v@.len() ==> v@[a] < v@[b],
            out@.to_multiset() == v@.take(i as int).to_multiset(),
            forall|j: int| 0 <= j < out@.len() ==> (#[trigger] out@[j]) < paths@.len(),
            forall|k: int|
                0 <= k < out@.len() ==> exists|j: int| 0 <= j < i && (#[trigger] out@[k]) == v@[j],
            forall|a: int, b: int|
                0 <= a < b < out@.len() ==> lex_le(
                    seq_views(paths@)[(#[trigger] out@[a]) as int],
                    seq_views(paths@)[(#[trigger] out@[b]) as int],
                ),
            forall|a: int, b: int|
                0 <= a < b < out@.len() && seq_views(paths@)[(#[trigger] out@[a]) as int]
                    == seq_views(paths@)[(#[trigger] out@[b]) as int] ==> out@[a] < out@[b],
        decreases v@.len() - i,
    {
        let x = v[i];
        let mut p: usize = 0;
        while p < out.len() && str_le(paths[out[p]].as_str(), paths[x].as_str())
            invariant
                forall|j: int| 0 <= j < out@.len() ==> (#[trigger] out@[j]) < paths@.len(),
                x < paths@.len(),
                0 <= p <= out@.len(),
                forall|j: int|
                    0 <= j < p ==> lex_le(
                        seq_views(paths@)[(#[trigger] out@[j]) as int],
                        seq_views(paths@)[x as int],
                    ),
            decreases out@.len() - p,
    {
            proof {
                assert(seq_views(paths@)[(out@[p as int]) as int] == paths@[(out@[
                    p as int]) as int]@);
                assert(seq_views(paths@)[x as int] == paths@[x as int]@);
            }
            p += 1;
        }
        let ghost old_out = out@;
        let ghost pv = seq_views(paths@);
        proof {
            assert(pv[x as int] == paths@[x as int]@);
            if (p as int) < old_out.len() {
                assert(pv[(old_out[p as int]) as int] == paths@[(old_out[p as int]) as int]@);
                crate::text::lemma_lex_le_total(pv[(old_out[p as int]) as int], pv[x as int]);
            }
        }
        out.insert(p, x);
        proof {
            broadcast use vstd::seq_lib::to_multiset_insert;
            broadcast use vstd::seq_lib::to_multiset_build;

            assert(out@ == old_out.insert(p as int, x));
            assert(v@.take(i + 1) =~= v@.take(i as int).push(x));
            assert(out@.to_multiset() =~= v@.take(i + 1).to_multiset());
            assert(forall|k: int| 0 <= k < p ==> out@[k] == old_out[k]);
            assert(out@[p as int] == x);
            assert(forall|k: int| p < k < out@.len() ==> out@[k] == old_out[k - 1]);
            assert forall|k: int|
                0 <= k < out@.len() implies exists|j: int|
                0 <= j < i + 1 && (#[trigger] out@[k]) == v@[j] by {
                if k == p {
                    assert(out@[k] == v@[i as int]);
                } else {
                    let k2 = if k < p {
                        k
                    } else {
                        k - 1
                    };
                    assert(old_out[k2] == out@[k]);
                    assert(old_out.contains(old_out[k2])) by {
                        assert(0 <= k2 < old_out.len());
                    }
                    let j = choose|j: int| 0 <= j < i && #[trigger] old_out[k2] == v@[j];
                    assert(out@[k] == v@[j]);
                }
            }
            // every already-placed index is a smaller value than `x`
            assert forall|k: int| 0 <= k < old_out.len() implies old_out[k] < x by {
                let j = choose|j: int| 0 <= j < i && #[trigger] old_out[k] == v@[j];
                assert(v@[j] < v@[i as int]);
            }
            assert forall|a: int, b: int|
                0 <= a < b < out@.len() implies lex_le(
                pv[(#[trigger] out@[a]) as int],
                pv[(#[trigger] out@[b]) as int],
            ) by {
                if a < p && b == p {
                    assert(out@[a] == old_out[a]);
                } else if a == p && b > p {
                    assert(out@[b] == old_out[b - 1]);
                    if b - 1 > p {
                        assert(lex_le(pv[(old_out[p as int]) as int], pv[(old_out[b
                            - 1]) as int]));
                        crate::text::lemma_lex_le_trans(
                            pv[x as int],
                            pv[(old_out[p as int]) as int],
                            pv[(old_out[b - 1]) as int],
                        );
                    }
                } else if a != p && b != p {
                    let a2 = if a < p {
                        a
                    } else {
                        a - 1
                    };
                    let b2 = if b < p {
                        b
                    } else {
                        b - 1
                    };
                    assert(out@[a] == old_out[a2] && out@[b] == old_out[b2]);
                }
            }
            assert forall|a: int, b: int|
                0 <= a < b < out@.len() && pv[(#[trigger] out@[a]) as int] == pv[(
            #[trigger] out@[b]) as int] implies out@[a] < out@[b] by {
                if a < p && b == p {
                    assert(out@[a] == old_out[a] && out@[b] == x);
                } else if a == p && b > p {
                    // beyond the insertion point the path is strictly greater
                    assert(out@[b] == old_out[b - 1]);
                    assert(!lex_le(pv[(old_out[p as int]) as int], pv[x as int]));
                    if b - 1 > p {
                        assert(lex_le(pv[(old_out[p as int]) as int], pv[(old_out[b
                            - 1]) as int]));
                    }
                    assert(false);
                } else if a != p && b != p {
                    let a2 = if a < p {
                        a
                    } else {
                        a - 1
                    };
                    let b2 = if b < p {
                        b
                    } else {
                        b - 1
                    };
                    assert(out@[a] == old_out[a2] && out@[b] == old_out[b2]);
                }
            }
        }
        i += 1;
    }
    proof {
        assert(v@.take(v@.len() as int) =~= v@);
        broadcast use vstd::seq_lib::to_multiset_contains;
        broadcast use vstd::seq_lib::to_multiset_len;

        if v@.no_duplicates() {
            v@.lemma_multiset_has_no_duplicates();
            out@.lemma_multiset_has_no_duplicates_conv();
        }
    }
    out
}

/// The shape of the computed order, split at `m`: the first `m` files
/// are the worklist-emitted prefix, in which every resolvable reference
/// points backwards; the rest are the files stranded by reference
/// cycles, sorted by normalized path (equal paths by index), each of
/// them referencing another stranded file.
pub open spec fn order_split(files: Seq<FileContent>, r: Seq<usize>, m: int) -> bool {
    &&& 0 <= m <= r.len()
    &&& forall|k: int, d: usize|
        0 <= k < m && (d as int) < files.len() && d != r[k] && #[trigger] references(
            files,
            r[k] as int,
            d as int,
        ) ==> r.take(k).contains(d)
    &&& forall|a: int, b: int|
        m <= a < b < r.len() ==> lex_le(
            normalize_spec(files[(#[trigger] r[a]) as int].path@),
            normalize_spec(files[(#[trigger] r[b]) as int].path@),
        )
    &&& forall|a: int, b: int|
        m <= a < b < r.len() && normalize_spec(files[(#[trigger] r[a]) as int].path@)
            == normalize_spec(files[(#[trigger] r[b]) as int].path@) ==> r[a] < r[b]
    &&& forall|b: int|
        m <= b < r.len() ==> #[trigger] references_stranded(files, r, m, b)
    &&& forall|k: int| 0 <= k < m ==> #[trigger] min_ready_at_files(files, r, k)
}

/// `v` is ready at step `k`: in range, not yet emitted, and with every
/// file it resolvably references already emitted.
pub open spec fn ready_at_files(files: Seq<FileContent>, r: Seq<usize>, k: int, v: usize) -> bool {
    &&& (v as int) < files.len()
    &&& !r.take(k).contains(v)
    &&& forall|d: usize|
        (d as int) < files.len() && d != v && #[trigger] references(files, v as int, d as int)
            ==> r.take(k).contains(d)
}

/// The file emitted at step `k` is the ready file with the least
/// `(normalized path, index)` key.
pub open spec fn min_ready_at_files(files: Seq<FileContent>, r: Seq<usize>, k: int) -> bool {
    &&& ready_at_files(files, r, k, r[k])
    &&& forall|v: usize|
        #[trigger] ready_at_files(files, r, k, v) ==> ready_key_le(norm_paths(files), r[k], v)
}

/// File `r[b]` references some other file of the stranded suffix.
pub open spec fn references_stranded(
    files: Seq<FileContent>,
    r: Seq<usize>,
    m: int,
    b: int,
) -> bool {
    exists|a: int|
        m <= a < r.len() && r[a] != r[b] && #[trigger] references(
            files,
            r[b] as int,
            r[a] as int,
        )
}

/// Build a dependency-first order over the input files: if one file
/// references another, the referenced file is placed first whenever the
/// reference relation admits no cycle, and every file appears exactly
/// once in every case. Some split position witnesses the exact shape:
/// a prefix built by repeatedly emitting the least ready file by
/// `(normalized path, index)`, followed by the cycle-stranded files
/// sorted by normalized path. Together these pin the result.
pub fn compute_dependency_order(files: &Vec<FileContent>) -> (r: Vec<usize>)
    ensures
        r@.no_duplicates(),
        r@.len() == files@.len(),
        forall|j: int| 0 <= j < r@.len() ==> (#[trigger] r@[j]) < files@.len(),
        forall|v: usize| (v as int) < files@.len() ==> r@.contains(v),
        refs_acyclic(files@) ==> forall|i: int, j: int|
            0 <= i < r@.len() && 0 <= j < r@.len() && r@[i] != r@[j] && #[trigger] references(
                files@,
                r@[j] as int,
                r@[i] as int,
            ) ==> i < j,
        exists|m: int| #[trigger] order_split(files@, r@, m),
{
    let n = files.len();
    if n <= 1 {
        let mut order: Vec<usize> = Vec::new();
        if n == 1 {
            order.push(0);
        }
        proof {
            assert forall|v: usize| (v as int) < files@.len() implies order@.contains(v) by {
                assert(order@[0] == 0usize);
            }
            // the whole order is the prefix: with at most one file no
            // reference can point to a different file
            assert(order_split(files@, order@, order@.len() as int)) by {
                assert forall|k: int, d: usize|
                    0 <= k < order@.len() && (d as int) < files@.len() && d != order@[k]
                    && #[trigger] references(files@, order@[k] as int, d as int)
                    implies order@.take(k).contains(d) by {
                    assert((d as int) == 0 && order@[k] == 0usize);
                }
                assert forall|k: int|
                    0 <= k < order@.len() implies #[trigger] min_ready_at_files(
                    files@,
                    order@,
                    k,
                ) by {
                    assert(order@[0] == 0usize);
                    assert(ready_at_files(files@, order@, 0, 0usize)) by {
                        assert(order@.take(0) =~= Seq::<usize>::empty());
                    }
                    assert forall|v: usize|
                        #[trigger] ready_at_files(files@, order@, 0, v) implies ready_key_le(
                        norm_paths(files@),
                        0usize,
                        v,
                    ) by {
                        assert((v as int) == 0);
                    }
                }
            }
        }
        return order;
    }
    let (normalized_paths, edges, indegree) = build_dependency_graph(files);
    proof {
        assert(seq_views(normalized_paths@).len() == norm_paths(files@).len());
        assert(normalized_paths@.len() == files@.len());
        assert forall|d: int|
            0 <= d < edges@.len() implies !(#[trigger] edges@[d]@).contains(d as usize) by {
            if edges@[d]@.contains(d as usize) {
                assert((d as usize as int) != d);
            }
        }
    }
    let r = kahn_order(&normalized_paths, &edges, &indegree);
    proof {
        if refs_acyclic(files@) {
            let rank = choose|rank: Map<int, int>| #[trigger] rank_respects_refs(files@, rank);
            assert(edges_respect_rank(edges@, rank)) by {
                assert forall|d: int, x: usize|
                    0 <= d < edges@.len() && #[trigger] edges@[d]@.contains(x) implies rank[d]
                    < rank[x as int] by {
                    assert(references(files@, x as int, d));
                }
            }
            assert(edges_acyclic(edges@));
            assert forall|i: int, j: int|
                0 <= i < r@.len() && 0 <= j < r@.len() && r@[i] != r@[j] && #[trigger] references(
                    files@,
                    r@[j] as int,
                    r@[i] as int,
                ) implies i < j by {
                assert(edges@[r@[i] as int]@.contains(r@[j]));
            }
        }
        // translate the worklist split from edges to references
        let m = choose|m: int|
            #[trigger] kahn_split(seq_views(normalized_paths@), edges@, r@, m);
        let pv = seq_views(normalized_paths@);
        {
            assert forall|k: int, d: usize|
                0 <= k < m && (d as int) < files@.len() && d != r@[k] && #[trigger] references(
                    files@,
                    r@[k] as int,
                    d as int,
                ) implies r@.take(k).contains(d) by {
                assert(edges@[d as int]@.contains(r@[k]));
                assert(r@.take(k).contains((d as int) as usize));
            }
            assert forall|a: int, b: int|
                m <= a < b < r@.len() implies lex_le(
                normalize_spec(files@[(#[trigger] r@[a]) as int].path@),
                normalize_spec(files@[(#[trigger] r@[b]) as int].path@),
            ) by {
                assert(pv[r@[a] as int] == normalize_spec(files@[r@[a] as int].path@));
                assert(pv[r@[b] as int] == normalize_spec(files@[r@[b] as int].path@));
            }
            assert forall|a: int, b: int|
                m <= a < b < r@.len() && normalize_spec(files@[(#[trigger] r@[a]) as int].path@)
                    == normalize_spec(files@[(#[trigger] r@[b]) as int].path@) implies r@[a]
                < r@[b] by {
                assert(pv[r@[a] as int] == normalize_spec(files@[r@[a] as int].path@));
                assert(pv[r@[b] as int] == normalize_spec(files@[r@[b] as int].path@));
            }
            assert forall|b: int|
                m <= b < r@.len() implies #[trigger] references_stranded(files@, r@, m, b) by {
                assert(has_stranded_dep(edges@, r@, m, b));
                let a = choose|a: int|
                    m <= a < r@.len() && #[trigger] edges@[(r@[a]) as int]@.contains(r@[b]);
                assert(references(files@, r@[b] as int, r@[a] as int) && r@[b] != r@[a]);
            }
            assert forall|k: int|
                0 <= k < m implies #[trigger] min_ready_at_files(files@, r@, k) by {
                assert(min_ready_at(pv, edges@, r@, k));
                assert(ready_at_files(files@, r@, k, r@[k])) by {
                    assert(ready_at(edges@, r@, k, r@[k]));
                    assert forall|d: usize|
                        (d as int) < files@.len() && d != r@[k] && #[trigger] references(
                            files@,
                            r@[k] as int,
                            d as int,
                        ) implies r@.take(k).contains(d) by {
                        assert(edges@[d as int]@.contains(r@[k]));
                        assert(r@.take(k).contains((d as int) as usize));
                    }
                }
                assert forall|v: usize|
                    #[trigger] ready_at_files(files@, r@, k, v) implies ready_key_le(
                    norm_paths(files@),
                    r@[k],
                    v,
                ) by {
                    assert(ready_at(edges@, r@, k, v)) by {
                        assert forall|d: int|
                            0 <= d < edges@.len() && #[trigger] edges@[d]@.contains(v)
                            implies r@.take(k).contains(d as usize) by {
                            assert((v as int) < files@.len() && (v as int) != d && references(
                                files@,
                                v as int,
                                d,
                            ));
                            assert(r@.take(k).contains((d as usize)));
                        }
                    }
                    assert(ready_key_le(pv, r@[k], v));
                    assert(pv == norm_paths(files@));
                }
            }
            assert(order_split(files@, r@, m));
        }
    }
    r
}

} // verus!
