//! The dependency graph: for every file, every extracted specifier that
//! resolves to another file adds a directed dependency→dependent edge
//! (deduplicated, with indegree counts) and an undirected related edge.

use vstd::prelude::*;

verus! {

use crate::extract::{extract_module_specifiers, extract_spec};
use crate::models::FileContent;
use crate::paths::{normalize_path, normalize_spec};
use crate::resolve::{resolve_module_specifier, resolve_spec};
use crate::text::{seq_views, split_char};

/// The normalized path of every input file, in input order.
pub open spec fn norm_paths(files: Seq<FileContent>) -> Seq<Seq<char>> {
    files.map_values(|f: FileContent| normalize_spec(f.path@))
}

/// File `dependent` references file `dependency`: some specifier
/// extracted from the dependent's text resolves to the dependency.
pub open spec fn references(files: Seq<FileContent>, dependent: int, dependency: int) -> bool {
    exists|s: Seq<char>|
        #[trigger] extract_spec(split_char(files[dependent].content@, '\n')).contains(s)
            && resolve_spec(s, norm_paths(files)[dependent], norm_paths(files)) == Some(dependency)
}

/// How many of the first `upto` edge rows contain `x`: the indegree of
/// `x` counted over dependencies `0..upto`.
pub open spec fn dep_count(edges: Seq<Vec<usize>>, x: usize, upto: int) -> int
    decreases upto,
{
    if upto <= 0 {
        0
    } else {
        dep_count(edges, x, upto - 1) + if edges[upto - 1]@.contains(x) {
            1int
        } else {
            0int
        }
    }
}

/// Well-formed edge rows: `n` of them, deduplicated, in-range.
pub open spec fn edges_wf(edges: Seq<Vec<usize>>, n: int) -> bool {
    &&& edges.len() == n
    &&& forall|d: int| 0 <= d < n ==> (#[trigger] edges[d])@.no_duplicates()
    &&& forall|d: int, j: int|
        0 <= d < n && 0 <= j < edges[d]@.len() ==> (#[trigger] edges[d]@[j]) < n
}

/// Every indegree entry counts the distinct dependencies of its file.
pub open spec fn indegree_ok(indegree: Seq<usize>, edges: Seq<Vec<usize>>, n: int) -> bool {
    &&& indegree.len() == n
    &&& forall|x: int|
        0 <= x < n ==> (#[trigger] indegree[x]) as int == dep_count(edges, x as usize, n)
}

/// The meaning of the finished edge set: row `d` holds exactly the
/// files that reference file `d`, other than `d` itself.
pub open spec fn edges_meaning(edges: Seq<Vec<usize>>, files: Seq<FileContent>) -> bool {
    forall|d: int, x: usize|
        0 <= d < files.len() ==> ((#[trigger] edges[d]@.contains(x)) <==> ((x as int) < files.len()
            && (x as int) != d && references(files, x as int, d)))
}

pub proof fn lemma_dep_count_le(edges: Seq<Vec<usize>>, x: usize, upto: int)
    ensures
        0 <= dep_count(edges, x, upto) <= if upto >= 0 {
            upto
        } else {
            0
        },
    decreases upto,
{
    if upto > 0 {
        lemma_dep_count_le(edges, x, upto - 1);
    }
}

pub proof fn lemma_dep_count_missing(edges: Seq<Vec<usize>>, x: usize, dep: int, upto: int)
    requires
        0 <= dep < upto,
        !edges[dep]@.contains(x),
    ensures
        dep_count(edges, x, upto) <= upto - 1,
    decreases upto,
{
    lemma_dep_count_le(edges, x, upto);
    if dep == upto - 1 {
        lemma_dep_count_le(edges, x, upto - 1);
    } else {
        lemma_dep_count_missing(edges, x, dep, upto - 1);
    }
}

pub proof fn lemma_dep_count_same(e1: Seq<Vec<usize>>, e2: Seq<Vec<usize>>, x: usize, upto: int)
    requires
        forall|d: int| 0 <= d < upto ==> (#[trigger] e1[d]@.contains(x)) == e2[d]@.contains(x),
    ensures
        dep_count(e1, x, upto) == dep_count(e2, x, upto),
    decreases upto,
{
    if upto > 0 {
        lemma_dep_count_same(e1, e2, x, upto - 1);
        assert(e1[upto - 1]@.contains(x) == e2[upto - 1]@.contains(x));
    }
}

pub proof fn lemma_dep_count_bump(e1: Seq<Vec<usize>>, e2: Seq<Vec<usize>>, x: usize, dep: int, upto: int)
    requires
        0 <= dep,
        forall|d: int| 0 <= d < upto && d != dep ==> (#[trigger] e1[d]@.contains(x)) == e2[d]@.contains(x),
        dep < upto ==> !e1[dep]@.contains(x),
        dep < upto ==> e2[dep]@.contains(x),
    ensures
        dep_count(e2, x, upto) == dep_count(e1, x, upto) + if dep < upto {
            1int
        } else {
            0int
        },
    decreases upto,
{
    if upto > 0 {
        lemma_dep_count_bump(e1, e2, x, dep, upto - 1);
    }
}

/// Does the sequence hold the value?
pub fn vec_contains_usize(v: &Vec<usize>, x: usize) -> (r: bool)
    ensures
        r == v@.contains(x),
{
    let mut i: usize = 0;
    while i < v.len()
        invariant
            0 <= i <= v@.len(),
            forall|j: int| 0 <= j < i ==> v@[j] != x,
        decreases v@.len() - i,
    {
        if v[i] == x {
            assert(v@[i as int] == x);
            return true;
        }
        i += 1;
    }
    false
}

/// The normalized paths of the input files, as runtime strings.
pub fn normalized_paths_of(files: &Vec<FileContent>) -> (r: Vec<String>)
    ensures
        seq_views(r@) == norm_paths(files@),
{
    let mut out: Vec<String> = Vec::new();
    let mut i: usize = 0;
    while i < files.len()
        invariant
            0 <= i <= files@.len(),
            out@.len() == i,
            forall|j: int| 0 <= j < i ==> (#[trigger] out@[j])@ == normalize_spec(files@[j].path@),
        decreases files@.len() - i,
    {
        out.push(normalize_path(files[i].path.as_str()));
        i += 1;
    }
    proof {
        assert(seq_views(out@) =~= norm_paths(files@));
    }
    out
}

/// Build the directed dependency graph: normalized paths, for each file
/// the deduplicated list of its dependents, and each file's indegree
/// (its number of distinct dependencies).
pub fn build_dependency_graph(files: &Vec<FileContent>) -> (r: (Vec<String>, Vec<Vec<usize>>, Vec<usize>))
    ensures
        seq_views(r.0@) == norm_paths(files@),
        edges_wf(r.1@, files@.len() as int),
        edges_meaning(r.1@, files@),
        indegree_ok(r.2@, r.1@, files@.len() as int),
{
    let n = files.len();
    let normalized_paths = normalized_paths_of(files);

    let mut edges: Vec<Vec<usize>> = Vec::new();
    let mut indegree: Vec<usize> = Vec::new();
    let mut i: usize = 0;
    while i < n
        invariant
            0 <= i <= n,
            edges@.len() == i,
            indegree@.len() == i,
            forall|d: int| 0 <= d < i ==> (#[trigger] edges@[d])@.len() == 0,
            forall|d: int| 0 <= d < i ==> (#[trigger] indegree@[d]) == 0,
        decreases n - i,
    {
        edges.push(Vec::new());
        indegree.push(0);
        i += 1;
    }
    proof {
        assert forall|x: int| 0 <= x < n implies (#[trigger] indegree@[x]) as int == dep_count(
            edges@,
            x as usize,
            n as int,
        ) by {
            lemma_dep_count_all_empty(edges@, x as usize, n as int);
        }
    }

    let ghost np = norm_paths(files@);
    let mut idx: usize = 0;
    while idx < n
        invariant
            n == files@.len(),
            np == norm_paths(files@),
            seq_views(normalized_paths@) == np,
            0 <= idx <= n,
            edges_wf(edges@, n as int),
            indegree_ok(indegree@, edges@, n as int),
            forall|d: int, x: usize|
                0 <= d < n ==> ((#[trigger] edges@[d]@.contains(x)) <==> ((x as int) < idx && (
                x as int) != d && references(files@, x as int, d))),
        decreases n - idx,
    {
        let specs = extract_module_specifiers(files[idx].content.as_str());
        let ghost sv = seq_views(specs@);
        let ghost content_set = extract_spec(split_char(files@[idx as int].content@, '\n'));
        let mut k: usize = 0;
        while k < specs.len()
            invariant
                n == files@.len(),
                np == norm_paths(files@),
                seq_views(normalized_paths@) == np,
                0 <= idx < n,
                sv == seq_views(specs@),
                0 <= k <= sv.len(),
                edges_wf(edges@, n as int),
                indegree_ok(indegree@, edges@, n as int),
                forall|d: int, x: usize|
                    0 <= d < n ==> ((#[trigger] edges@[d]@.contains(x)) <==> ((x as int) < idx && (
                    x as int) != d && references(files@, x as int, d)) || ((x as int) == idx && (
                    x as int) != d && exists|kk: int|
                        0 <= kk < k && resolve_spec(#[trigger] sv[kk], np[idx as int], np) == Some(
                            d,
                        ))),
            decreases sv.len() - k,
        {
            let res = resolve_module_specifier(
                specs[k].as_str(),
                normalized_paths[idx].as_str(),
                &normalized_paths,
            );
            proof {
                assert(sv[k as int] == specs@[k as int]@);
                assert(np[idx as int] == seq_views(normalized_paths@)[idx as int]);
            }
            match res {
                Some(dep) => {
                    proof {
                        crate::resolve::lemma_resolve_in_range(sv[k as int], np[idx as int], np);
                    }
                    if dep != idx {
                        let already = vec_contains_usize(&edges[dep], idx);
                        if !already {
                            let ghost old_edges = edges@;
                            edges[dep].push(idx);
                            proof {
                                assert(edges@ == old_edges.update(
                                    dep as int,
                                    edges@[dep as int],
                                ));
                                assert(edges@[dep as int]@ =~= old_edges[dep as int]@.push(idx));
                                lemma_graph_insert(
                                    old_edges,
                                    edges@,
                                    files@,
                                    sv,
                                    np,
                                    idx,
                                    dep,
                                    k as int,
                                );
                            }
                            let cur = indegree[idx];
                            proof {
                                lemma_dep_count_missing(old_edges, idx, dep as int, n as int);
                            }
                            indegree[idx] = cur + 1;
                            proof {
                                let ghost old_indegree = indegree@;
                                assert forall|x: int|
                                    0 <= x < n implies (#[trigger] indegree@[x]) as int
                                    == dep_count(edges@, x as usize, n as int) by {
                                    if x == idx {
                                        lemma_dep_count_bump(
                                            old_edges,
                                            edges@,
                                            idx,
                                            dep as int,
                                            n as int,
                                        );
                                    } else {
                                        assert forall|d: int|
                                            0 <= d < n implies (#[trigger] old_edges[d]@.contains(
                                            x as usize,
                                        )) == edges@[d]@.contains(x as usize) by {
                                            lemma_push_contains_other(
                                                old_edges[dep as int]@,
                                                idx,
                                                x as usize,
                                            );
                                        }
                                        lemma_dep_count_same(
                                            old_edges,
                                            edges@,
                                            x as usize,
                                            n as int,
                                        );
                                    }
                                }
                            }
                        } else {
                            proof {
                                lemma_edge_iff_step_noop(edges@, files@, sv, np, idx, k as int, n as int, Some(dep as int));
                            }
                        }
                    } else {
                        proof {
                            lemma_edge_iff_step_noop(edges@, files@, sv, np, idx, k as int, n as int, Some(dep as int));
                        }
                    }
                },
                None => {
                    proof {
                        lemma_edge_iff_step_noop(edges@, files@, sv, np, idx, k as int, n as int, None);
                    }
                },
            }
            k += 1;
        }
        proof {
            assert(sv.to_set() == content_set);
            assert forall|d: int, x: usize|
                0 <= d < n implies ((#[trigger] edges@[d]@.contains(x)) <==> ((x as int) < idx + 1
                && (x as int) != d && references(files@, x as int, d))) by {
                if (x as int) == idx && (x as int) != d {
                    if edges@[d]@.contains(x) {
                        let kk = choose|kk: int|
                            0 <= kk < sv.len() && resolve_spec(
                                #[trigger] sv[kk],
                                np[idx as int],
                                np,
                            ) == Some(d);
                        assert(sv.contains(sv[kk]));
                        assert(content_set.contains(sv[kk]));
                        assert(references(files@, idx as int, d));
                    }
                    if references(files@, x as int, d) {
                        let s = choose|s: Seq<char>|
                            #[trigger] extract_spec(
                                split_char(files@[idx as int].content@, '\n'),
                            ).contains(s) && resolve_spec(s, np[idx as int], np) == Some(d);
                        assert(sv.to_set().contains(s));
                        assert(sv.contains(s));
                        let kk = choose|kk: int| 0 <= kk < sv.len() && sv[kk] == s;
                        assert(resolve_spec(sv[kk], np[idx as int], np) == Some(d));
                        assert(edges@[d]@.contains(x));
                    }
                }
            }
        }
        idx += 1;
    }
    proof {
        assert(edges_meaning(edges@, files@));
    }
    (normalized_paths, edges, indegree)
}

/// The meaning of the finished related adjacency: `a` and `b` are
/// neighbours exactly when one of them references the other.
pub open spec fn related_meaning(adj: Seq<Vec<usize>>, files: Seq<FileContent>) -> bool {
    forall|a: int, b: usize|
        0 <= a < files.len() ==> ((#[trigger] adj[a]@.contains(b)) <==> ((b as int) < files.len()
            && (b as int) != a && (references(files, a, b as int) || references(
            files,
            b as int,
            a,
        ))))
}

/// The partially built related adjacency: files before `idx` processed
/// in full, and the first `k` specifiers of file `idx`.
spec fn related_partial(
    adj: Seq<Vec<usize>>,
    files: Seq<FileContent>,
    idx: int,
    sv: Seq<Seq<char>>,
    k: int,
) -> bool {
    forall|a: int, b: usize|
        0 <= a < files.len() ==> ((#[trigger] adj[a]@.contains(b)) <==> ((b as int) < files.len()
            && (b as int) != a && ((a < idx && references(files, a, b as int)) || ((b as int) < idx
            && references(files, b as int, a)) || (a == idx && exists|kk: int|
            0 <= kk < k && resolve_spec(#[trigger] sv[kk], norm_paths(files)[idx], norm_paths(files))
                == Some(b as int)) || ((b as int) == idx && exists|kk: int|
            0 <= kk < k && resolve_spec(#[trigger] sv[kk], norm_paths(files)[idx], norm_paths(files))
                == Some(a)))))
}

/// Build the undirected related adjacency from the same resolutions.
pub fn build_related_adjacency(files: &Vec<FileContent>) -> (r: Vec<Vec<usize>>)
    ensures
        edges_wf(r@, files@.len() as int),
        related_meaning(r@, files@),
{
    let n = files.len();
    let normalized_paths = normalized_paths_of(files);
    let mut adj: Vec<Vec<usize>> = Vec::new();
    let mut i: usize = 0;
    while i < n
        invariant
            0 <= i <= n,
            adj@.len() == i,
            forall|d: int| 0 <= d < i ==> (#[trigger] adj@[d])@.len() == 0,
        decreases n - i,
    {
        adj.push(Vec::new());
        i += 1;
    }

    let ghost np = norm_paths(files@);
    let mut idx: usize = 0;
    while idx < n
        invariant
            n == files@.len(),
            np == norm_paths(files@),
            seq_views(normalized_paths@) == np,
            0 <= idx <= n,
            edges_wf(adj@, n as int),
            related_partial(adj@, files@, idx as int, Seq::<Seq<char>>::empty(), 0),
        decreases n - idx,
    {
        let specs = extract_module_specifiers(files[idx].content.as_str());
        let ghost sv = seq_views(specs@);
        let ghost content_set = extract_spec(split_char(files@[idx as int].content@, '\n'));
        proof {
            assert(related_partial(adj@, files@, idx as int, sv, 0)) by {
                assert forall|a: int, b: usize|
                    0 <= a < n implies ((#[trigger] adj@[a]@.contains(b)) <==> ((b as int) < n && (
                b as int) != a && ((a < idx as int && references(files@, a, b as int)) || ((
                b as int) < idx as int && references(files@, b as int, a)) || (a == idx as int
                    && exists|kk: int|
                    0 <= kk < 0 && resolve_spec(#[trigger] sv[kk], np[idx as int], np) == Some(
                        b as int,
                    )) || ((b as int) == idx as int && exists|kk: int|
                    0 <= kk < 0 && resolve_spec(#[trigger] sv[kk], np[idx as int], np) == Some(
                        a,
                    ))))) by {}
            }
        }
        let mut k: usize = 0;
        while k < specs.len()
            invariant
                n == files@.len(),
                np == norm_paths(files@),
                seq_views(normalized_paths@) == np,
                0 <= idx < n,
                sv == seq_views(specs@),
                0 <= k <= sv.len(),
                edges_wf(adj@, n as int),
                related_partial(adj@, files@, idx as int, sv, k as int),
            decreases sv.len() - k,
        {
            let res = resolve_module_specifier(
                specs[k].as_str(),
                normalized_paths[idx].as_str(),
                &normalized_paths,
            );
            proof {
                assert(sv[k as int] == specs@[k as int]@);
                assert(np[idx as int] == seq_views(normalized_paths@)[idx as int]);
            }
            match res {
                Some(dep) => {
                    proof {
                        crate::resolve::lemma_resolve_in_range(sv[k as int], np[idx as int], np);
                    }
                    if dep != idx {
                        let ghost pre_adj = adj@;
                        let has_fwd = vec_contains_usize(&adj[idx], dep);
                        if !has_fwd {
                            adj[idx].push(dep);
                        }
                        let ghost mid_adj = adj@;
                        let has_bwd = vec_contains_usize(&adj[dep], idx);
                        if !has_bwd {
                            adj[dep].push(idx);
                        }
                        proof {
                            lemma_related_insert(
                                pre_adj,
                                mid_adj,
                                adj@,
                                files@,
                                sv,
                                np,
                                idx,
                                dep,
                                k as int,
                            );
                        }
                    } else {
                        proof {
                            lemma_related_step_noop(
                                adj@,
                                files@,
                                sv,
                                np,
                                idx,
                                k as int,
                                Some(dep as int),
                            );
                        }
                    }
                },
                None => {
                    proof {
                        lemma_related_step_noop(adj@, files@, sv, np, idx, k as int, None);
                    }
                },
            }
            k += 1;
        }
        proof {
            assert(sv.to_set() == content_set);
            assert forall|a: int, b: usize|
                0 <= a < n implies ((#[trigger] adj@[a]@.contains(b)) <==> ((b as int) < n && (
            b as int) != a && ((a < idx + 1 && references(files@, a, b as int)) || ((b as int) < idx
                + 1 && references(files@, b as int, a))))) by {
                if a == idx as int || (b as int) == idx as int {
                    if adj@[a]@.contains(b) {
                        if a == idx as int && !((b as int) < idx as int && references(
                            files@,
                            b as int,
                            a,
                        )) && !(a < idx as int && references(files@, a, b as int)) {
                            let kk = choose|kk: int|
                                0 <= kk < sv.len() && resolve_spec(
                                    #[trigger] sv[kk],
                                    np[idx as int],
                                    np,
                                ) == Some(b as int);
                            assert(sv.contains(sv[kk]));
                            assert(content_set.contains(sv[kk]));
                            assert(references(files@, idx as int, b as int));
                        }
                        if (b as int) == idx as int && !(a < idx as int && references(
                            files@,
                            a,
                            b as int,
                        )) && !((b as int) < idx as int && references(files@, b as int, a)) {
                            let kk = choose|kk: int|
                                0 <= kk < sv.len() && resolve_spec(
                                    #[trigger] sv[kk],
                                    np[idx as int],
                                    np,
                                ) == Some(a);
                            assert(sv.contains(sv[kk]));
                            assert(content_set.contains(sv[kk]));
                            assert(references(files@, idx as int, a));
                        }
                    }
                    if (b as int) < n && (b as int) != a {
                        if a == idx as int && references(files@, a, b as int) {
                            let s = choose|s: Seq<char>|
                                #[trigger] extract_spec(
                                    split_char(files@[idx as int].content@, '\n'),
                                ).contains(s) && resolve_spec(s, np[idx as int], np) == Some(
                                    b as int,
                                );
                            assert(sv.to_set().contains(s));
                            assert(sv.contains(s));
                            let kk = choose|kk: int| 0 <= kk < sv.len() && sv[kk] == s;
                            assert(resolve_spec(sv[kk], np[idx as int], np) == Some(b as int));
                            assert(adj@[a]@.contains(b));
                        }
                        if (b as int) == idx as int && references(files@, b as int, a) {
                            let s = choose|s: Seq<char>|
                                #[trigger] extract_spec(
                                    split_char(files@[idx as int].content@, '\n'),
                                ).contains(s) && resolve_spec(s, np[idx as int], np) == Some(a);
                            assert(sv.to_set().contains(s));
                            assert(sv.contains(s));
                            let kk = choose|kk: int| 0 <= kk < sv.len() && sv[kk] == s;
                            assert(resolve_spec(sv[kk], np[idx as int], np) == Some(a));
                            assert(adj@[a]@.contains(b));
                        }
                    }
                }
            }
            assert(related_partial(adj@, files@, idx + 1, Seq::<Seq<char>>::empty(), 0));
        }
        idx += 1;
    }
    proof {
        assert(related_meaning(adj@, files@));
    }
    adj
}

/// Recording the mutual pair `(idx, dep)` advances the partial
/// characterisation by one specifier.
#[verifier::spinoff_prover]
#[verifier::rlimit(50)]
proof fn lemma_related_insert(
    pre: Seq<Vec<usize>>,
    mid: Seq<Vec<usize>>,
    post: Seq<Vec<usize>>,
    files: Seq<FileContent>,
    sv: Seq<Seq<char>>,
    np: Seq<Seq<char>>,
    idx: usize,
    dep: usize,
    k: int,
)
    requires
        np == norm_paths(files),
        0 <= (idx as int) < files.len(),
        0 <= (dep as int) < files.len(),
        dep != idx,
        0 <= k < sv.len(),
        resolve_spec(sv[k], np[idx as int], np) == Some(dep as int),
        pre.len() == files.len(),
        mid.len() == files.len(),
        post.len() == files.len(),
        mid == if pre[idx as int]@.contains(dep) {
            pre
        } else {
            pre.update(idx as int, mid[idx as int])
        },
        mid[idx as int]@ == if pre[idx as int]@.contains(dep) {
            pre[idx as int]@
        } else {
            pre[idx as int]@.push(dep)
        },
        post == if mid[dep as int]@.contains(idx) {
            mid
        } else {
            mid.update(dep as int, post[dep as int])
        },
        post[dep as int]@ == if mid[dep as int]@.contains(idx) {
            mid[dep as int]@
        } else {
            mid[dep as int]@.push(idx)
        },
        related_partial(pre, files, idx as int, sv, k),
    ensures
        related_partial(post, files, idx as int, sv, k + 1),
{
    let n = files.len();
    assert forall|a: int, b: usize|
        0 <= a < n implies ((#[trigger] post[a]@.contains(b)) <==> ((b as int) < n && (b as int)
        != a && ((a < idx as int && references(files, a, b as int)) || ((b as int) < idx as int
        && references(files, b as int, a)) || (a == idx as int && exists|kk: int|
        0 <= kk < k + 1 && resolve_spec(#[trigger] sv[kk], np[idx as int], np) == Some(b as int))
        || ((b as int) == idx as int && exists|kk: int|
        0 <= kk < k + 1 && resolve_spec(#[trigger] sv[kk], np[idx as int], np) == Some(
            a,
        ))))) by {
        // how row a changed from pre to post
        if a == idx as int {
            assert(post[a]@.contains(b) == (pre[a]@.contains(b) || b == dep)) by {
                lemma_push_contains_eq(pre[a]@, dep, b);
                if (dep as int) != a {
                    assert(post[a] == mid[a]);
                }
            }
        } else if a == dep as int {
            assert(post[a]@.contains(b) == (pre[a]@.contains(b) || b == idx)) by {
                assert(mid[a] == pre[a]);
                lemma_push_contains_eq(mid[a]@, idx, b);
            }
        } else {
            assert(post[a] == pre[a]);
        }
        // right-hand sides: the new specifier only adds the pair itself
        if a == idx as int {
            if b == dep {
                assert(resolve_spec(sv[k], np[idx as int], np) == Some(b as int));
                assert(post[a]@.contains(b));
            }
        }
        if a == dep as int && b == idx {
            assert(resolve_spec(sv[k], np[idx as int], np) == Some(a));
            assert(post[a]@.contains(b));
        }
        if post[a]@.contains(b) && !pre[a]@.contains(b) {
            assert((a == idx as int && b == dep) || (a == dep as int && b == idx));
        }
        if !post[a]@.contains(b) {
            if (b as int) < n && (b as int) != a {
                if a == idx as int && exists|kk: int|
                    0 <= kk < k + 1 && resolve_spec(#[trigger] sv[kk], np[idx as int], np) == Some(
                        b as int,
                    ) {
                    let kk = choose|kk: int|
                        0 <= kk < k + 1 && resolve_spec(#[trigger] sv[kk], np[idx as int], np)
                            == Some(b as int);
                    if kk == k {
                        assert(b == dep);
                        assert(false);
                    } else {
                        assert(pre[a]@.contains(b));
                        assert(false);
                    }
                }
                if (b as int) == idx as int && exists|kk: int|
                    0 <= kk < k + 1 && resolve_spec(#[trigger] sv[kk], np[idx as int], np) == Some(
                        a,
                    ) {
                    let kk = choose|kk: int|
                        0 <= kk < k + 1 && resolve_spec(#[trigger] sv[kk], np[idx as int], np)
                            == Some(a);
                    if kk == k {
                        assert(a == dep as int);
                        assert(false);
                    } else {
                        assert(pre[a]@.contains(b));
                        assert(false);
                    }
                }
            }
        }
    }
}

/// A specifier that resolves nowhere or to the file itself changes no
/// row, and the partial characterisation still advances.
proof fn lemma_related_step_noop(
    adj: Seq<Vec<usize>>,
    files: Seq<FileContent>,
    sv: Seq<Seq<char>>,
    np: Seq<Seq<char>>,
    idx: usize,
    k: int,
    res: Option<int>,
)
    requires
        np == norm_paths(files),
        0 <= (idx as int) < files.len(),
        0 <= k < sv.len(),
        match res {
            Some(d) => resolve_spec(sv[k], np[idx as int], np) == Some(d) && d == idx as int,
            None => resolve_spec(sv[k], np[idx as int], np) is None,
        },
        related_partial(adj, files, idx as int, sv, k),
    ensures
        related_partial(adj, files, idx as int, sv, k + 1),
{
    let n = files.len();
    assert forall|a: int, b: usize|
        0 <= a < n implies ((#[trigger] adj[a]@.contains(b)) <==> ((b as int) < n && (b as int)
        != a && ((a < idx as int && references(files, a, b as int)) || ((b as int) < idx as int
        && references(files, b as int, a)) || (a == idx as int && exists|kk: int|
        0 <= kk < k + 1 && resolve_spec(#[trigger] sv[kk], np[idx as int], np) == Some(b as int))
        || ((b as int) == idx as int && exists|kk: int|
        0 <= kk < k + 1 && resolve_spec(#[trigger] sv[kk], np[idx as int], np) == Some(
            a,
        ))))) by {
        if (b as int) < n && (b as int) != a {
            if a == idx as int && exists|kk: int|
                0 <= kk < k + 1 && resolve_spec(#[trigger] sv[kk], np[idx as int], np) == Some(
                    b as int,
                ) {
                let kk = choose|kk: int|
                    0 <= kk < k + 1 && resolve_spec(#[trigger] sv[kk], np[idx as int], np) == Some(
                        b as int,
                    );
                if kk == k {
                    assert((b as int) == idx as int);
                    assert(false);
                } else {
                    assert(adj[a]@.contains(b));
                }
            }
            if (b as int) == idx as int && exists|kk: int|
                0 <= kk < k + 1 && resolve_spec(#[trigger] sv[kk], np[idx as int], np) == Some(
                    a,
                ) {
                let kk = choose|kk: int|
                    0 <= kk < k + 1 && resolve_spec(#[trigger] sv[kk], np[idx as int], np) == Some(
                        a,
                    );
                if kk == k {
                    assert(a == idx as int);
                    assert(false);
                } else {
                    assert(adj[a]@.contains(b));
                }
            }
        }
    }
}

proof fn lemma_dep_count_all_empty(edges: Seq<Vec<usize>>, x: usize, upto: int)
    requires
        forall|d: int| 0 <= d < upto ==> (#[trigger] edges[d])@.len() == 0,
    ensures
        dep_count(edges, x, upto) == 0,
    decreases upto,
{
    if upto > 0 {
        lemma_dep_count_all_empty(edges, x, upto - 1);
    }
}

/// Membership after a push: the old members plus the pushed value.
pub proof fn lemma_push_contains_eq(s: Seq<usize>, x: usize, y: usize)
    ensures
        s.push(x).contains(y) == (s.contains(y) || y == x),
{
    if s.push(x).contains(y) {
        let i = choose|i: int| 0 <= i < s.push(x).len() && #[trigger] s.push(x)[i] == y;
        if i < s.len() {
            assert(s[i] == y);
        }
    }
    if s.contains(y) {
        let i = choose|i: int| 0 <= i < s.len() && #[trigger] s[i] == y;
        assert(s.push(x)[i] == y);
    }
    if y == x {
        assert(s.push(x)[s.len() as int] == y);
    }
}

proof fn lemma_push_contains_other(row: Seq<usize>, x: usize, y: usize)
    requires
        y != x,
    ensures
        row.push(x).contains(y) == row.contains(y),
{
    if row.push(x).contains(y) {
        let i = choose|i: int| 0 <= i < row.push(x).len() && #[trigger] row.push(x)[i] == y;
        assert(i < row.len());
        assert(row[i] == y);
    }
    if row.contains(y) {
        let i = choose|i: int| 0 <= i < row.len() && #[trigger] row[i] == y;
        assert(row.push(x)[i] == y);
    }
}

/// After inserting dependent `idx` into row `dep` for specifier `k`,
/// the per-step edge characterisation advances from `k` to `k + 1`.
#[verifier::spinoff_prover]
proof fn lemma_graph_insert(
    old_edges: Seq<Vec<usize>>,
    new_edges: Seq<Vec<usize>>,
    files: Seq<FileContent>,
    sv: Seq<Seq<char>>,
    np: Seq<Seq<char>>,
    idx: usize,
    dep: usize,
    k: int,
)
    requires
        np == norm_paths(files),
        0 <= (idx as int) < files.len(),
        0 <= (dep as int) < files.len(),
        dep != idx,
        0 <= k < sv.len(),
        resolve_spec(sv[k], np[idx as int], np) == Some(dep as int),
        old_edges.len() == files.len(),
        new_edges == old_edges.update(dep as int, new_edges[dep as int]),
        new_edges[dep as int]@ == old_edges[dep as int]@.push(idx),
        !old_edges[dep as int]@.contains(idx),
        forall|d: int, x: usize|
            0 <= d < files.len() ==> ((#[trigger] old_edges[d]@.contains(x)) <==> ((x as int) < idx
                && (x as int) != d && references(files, x as int, d)) || ((x as int) == idx && (
            x as int) != d && exists|kk: int|
                0 <= kk < k && resolve_spec(#[trigger] sv[kk], np[idx as int], np) == Some(d))),
    ensures
        forall|d: int, x: usize|
            0 <= d < files.len() ==> ((#[trigger] new_edges[d]@.contains(x)) <==> ((x as int) < idx
                && (x as int) != d && references(files, x as int, d)) || ((x as int) == idx && (
            x as int) != d && exists|kk: int|
                0 <= kk < k + 1 && resolve_spec(#[trigger] sv[kk], np[idx as int], np) == Some(d))),
{
    assert forall|d: int, x: usize|
        0 <= d < files.len() implies ((#[trigger] new_edges[d]@.contains(x)) <==> ((x as int) < idx
        && (x as int) != d && references(files, x as int, d)) || ((x as int) == idx && (x as int)
        != d && exists|kk: int|
        0 <= kk < k + 1 && resolve_spec(#[trigger] sv[kk], np[idx as int], np) == Some(d))) by {
        if d == dep as int {
            if x == idx {
                assert(new_edges[d]@.contains(x)) by {
                    assert(new_edges[d]@[old_edges[d]@.len() as int] == idx);
                }
                assert(resolve_spec(sv[k], np[idx as int], np) == Some(d));
            } else {
                lemma_push_contains_other(old_edges[d]@, idx, x);
                if new_edges[d]@.contains(x) {
                    assert(old_edges[d]@.contains(x));
                }
                if ((x as int) == idx && (x as int) != d && exists|kk: int|
                    0 <= kk < k + 1 && resolve_spec(#[trigger] sv[kk], np[idx as int], np) == Some(
                        d,
                    )) {
                    assert(x == idx);
                }
            }
        } else {
            assert(new_edges[d] == old_edges[d]);
            if ((x as int) == idx && (x as int) != d && exists|kk: int|
                0 <= kk < k + 1 && resolve_spec(#[trigger] sv[kk], np[idx as int], np) == Some(
                    d,
                )) {
                let kk = choose|kk: int|
                    0 <= kk < k + 1 && resolve_spec(#[trigger] sv[kk], np[idx as int], np) == Some(
                        d,
                    );
                if kk == k {
                    assert(Some(d) == Some(dep as int));
                    assert(false);
                } else {
                    assert(0 <= kk < k && resolve_spec(sv[kk], np[idx as int], np) == Some(d));
                }
            }
        }
    }
}

/// When a specifier resolves nowhere, to the file itself, or to an
/// already-recorded dependency, the edge rows do not change and the
/// per-step characterisation still advances.
proof fn lemma_edge_iff_step_noop(
    edges: Seq<Vec<usize>>,
    files: Seq<FileContent>,
    sv: Seq<Seq<char>>,
    np: Seq<Seq<char>>,
    idx: usize,
    k: int,
    n: int,
    res: Option<int>,
)
    requires
        n == files.len(),
        np == norm_paths(files),
        0 <= (idx as int) < n,
        0 <= k < sv.len(),
        match res {
            Some(d) => resolve_spec(sv[k], np[idx as int], np) == Some(d) && (d == idx as int || (0
                <= d < n && edges[d]@.contains(idx))),
            None => resolve_spec(sv[k], np[idx as int], np) is None,
        },
        forall|d: int, x: usize|
            0 <= d < n ==> ((#[trigger] edges[d]@.contains(x)) <==> ((x as int) < idx && (x as int)
                != d && references(files, x as int, d)) || ((x as int) == idx && (x as int) != d
                && exists|kk: int|
                0 <= kk < k && resolve_spec(#[trigger] sv[kk], np[idx as int], np) == Some(d))),
    ensures
        forall|d: int, x: usize|
            0 <= d < n ==> ((#[trigger] edges[d]@.contains(x)) <==> ((x as int) < idx && (x as int)
                != d && references(files, x as int, d)) || ((x as int) == idx && (x as int) != d
                && exists|kk: int|
                0 <= kk < k + 1 && resolve_spec(#[trigger] sv[kk], np[idx as int], np) == Some(
                    d,
                ))),
{
    assert forall|d: int, x: usize|
        0 <= d < n implies ((#[trigger] edges[d]@.contains(x)) <==> ((x as int) < idx && (x as int)
        != d && references(files, x as int, d)) || ((x as int) == idx && (x as int) != d && exists|
    kk: int|
        0 <= kk < k + 1 && resolve_spec(#[trigger] sv[kk], np[idx as int], np) == Some(d))) by {
        if ((x as int) == idx && (x as int) != d && exists|kk: int|
            0 <= kk < k + 1 && resolve_spec(#[trigger] sv[kk], np[idx as int], np) == Some(d)) {
            let kk = choose|kk: int|
                0 <= kk < k + 1 && resolve_spec(#[trigger] sv[kk], np[idx as int], np) == Some(d);
            if kk == k {
                match res {
                    Some(d2) => {
                        assert(d == d2);
                        assert(edges[d]@.contains(x));
                    },
                    None => {
                        assert(false);
                    },
                }
            } else {
                assert(0 <= kk < k && resolve_spec(sv[kk], np[idx as int], np) == Some(d));
            }
        }
    }
}

} // verus!
