//! Grouping of the code subsequence by import-connected components:
//! a traversal of the related adjacency restricted to the subsequence,
//! emitting each component contiguously, members ordered by their
//! position in the incoming sequence, components by their earliest
//! member.

use vstd::prelude::*;

verus! {

use crate::graph::edges_wf;
use vstd::multiset::Multiset;

/// The related rows are an undirected graph: every edge runs both ways.
pub open spec fn rows_symmetric(related: Seq<Vec<usize>>) -> bool {
    forall|a: int, b: usize|
        0 <= a < related.len() && #[trigger] related[a]@.contains(b) ==> related[b as int]@.contains(
            a as usize,
        )
}

/// An adjacency with the related-graph meaning is symmetric.
pub proof fn lemma_meaning_symmetric(adj: Seq<Vec<usize>>, files: Seq<crate::models::FileContent>)
    requires
        crate::graph::related_meaning(adj, files),
        adj.len() == files.len(),
        files.len() <= usize::MAX as int,
    ensures
        rows_symmetric(adj),
{
    assert forall|a: int, b: usize|
        0 <= a < adj.len() && #[trigger] adj[a]@.contains(b) implies adj[b as int]@.contains(
        a as usize,
    ) by {
        if 0 <= a < files.len() {
            assert((b as int) < files.len() && (b as int) != a && (crate::graph::references(
                files,
                a,
                b as int,
            ) || crate::graph::references(files, b as int, a)));
            assert(((a as usize) as int) < files.len() && ((a as usize) as int) != b as int);
            assert(adj[b as int]@.contains(a as usize));
        }
    }
}

/// A walk along the related rows whose every node lies in the code
/// subsequence.
pub open spec fn related_path(
    related: Seq<Vec<usize>>,
    code_order: Seq<usize>,
    p: Seq<usize>,
) -> bool {
    &&& p.len() > 0
    &&& forall|i: int| 0 <= i < p.len() ==> code_order.contains(#[trigger] p[i])
    &&& forall|i: int|
        0 <= i < p.len() - 1 ==> #[trigger] related[p[i] as int]@.contains(p[i + 1])
}

/// Two files of the code subsequence joined by resolvable references:
/// some walk inside the subsequence leads from one to the other.
pub open spec fn connected(
    related: Seq<Vec<usize>>,
    code_order: Seq<usize>,
    x: usize,
    y: usize,
) -> bool {
    exists|p: Seq<usize>|
        #[trigger] related_path(related, code_order, p) && p.first() == x && p.last() == y
}

/// The position of the earliest member of `x`'s component in the code
/// subsequence, scanning from position `j`.
pub open spec fn comp_pos_from(
    related: Seq<Vec<usize>>,
    code_order: Seq<usize>,
    x: usize,
    j: int,
) -> int
    decreases code_order.len() - j,
{
    if j < 0 || j >= code_order.len() {
        code_order.len() as int
    } else if connected(related, code_order, x, code_order[j]) {
        j
    } else {
        comp_pos_from(related, code_order, x, j + 1)
    }
}

/// The position of the earliest member of `x`'s component in the code
/// subsequence: the key by which the grouped sequence is ordered.
pub open spec fn comp_pos(related: Seq<Vec<usize>>, code_order: Seq<usize>, x: usize) -> int {
    comp_pos_from(related, code_order, x, 0)
}

pub proof fn lemma_connected_refl(related: Seq<Vec<usize>>, code_order: Seq<usize>, x: usize)
    requires
        code_order.contains(x),
    ensures
        connected(related, code_order, x, x),
{
    let p = seq![x];
    assert(p[0] == x);
    assert(related_path(related, code_order, p));
}

pub proof fn lemma_connected_step(
    related: Seq<Vec<usize>>,
    code_order: Seq<usize>,
    x: usize,
    y: usize,
    z: usize,
)
    requires
        connected(related, code_order, x, y),
        related[y as int]@.contains(z),
        code_order.contains(z),
    ensures
        connected(related, code_order, x, z),
{
    let p = choose|p: Seq<usize>|
        #[trigger] related_path(related, code_order, p) && p.first() == x && p.last() == y;
    let q = p.push(z);
    assert(related_path(related, code_order, q)) by {
        assert(forall|i: int| 0 <= i < p.len() ==> q[i] == p[i]);
        assert(q[q.len() - 1] == z);
        assert forall|i: int|
            0 <= i < q.len() - 1 implies #[trigger] related[q[i] as int]@.contains(q[i + 1]) by {
            if i < p.len() - 1 {
                assert(related[p[i] as int]@.contains(p[i + 1]));
            } else {
                assert(q[i] == p[p.len() - 1] && q[i + 1] == z);
            }
        }
    }
    assert(q.first() == x && q.last() == z);
}

proof fn lemma_path_sym(related: Seq<Vec<usize>>, code_order: Seq<usize>, p: Seq<usize>)
    requires
        rows_symmetric(related),
        forall|j: int| 0 <= j < code_order.len() ==> (#[trigger] code_order[j]) < related.len(),
        related_path(related, code_order, p),
    ensures
        connected(related, code_order, p.last(), p.first()),
    decreases p.len(),
{
    if p.len() == 1 {
        lemma_connected_refl(related, code_order, p.first());
    } else {
        let q = p.skip(1);
        assert(related_path(related, code_order, q)) by {
            assert(forall|i: int| 0 <= i < q.len() ==> q[i] == p[i + 1]);
            assert forall|i: int|
                0 <= i < q.len() - 1 implies #[trigger] related[q[i] as int]@.contains(
                q[i + 1],
            ) by {
                let k = i + 1;
                assert(related[p[k] as int]@.contains(p[k + 1]));
                assert(q[i] == p[k] && q[i + 1] == p[k + 1]);
            }
        }
        lemma_path_sym(related, code_order, q);
        assert(q.last() == p.last() && q.first() == p[1]);
        let k0 = 0int;
        assert(related[p[k0] as int]@.contains(p[k0 + 1]));
        assert(related[p[0] as int]@.contains(p[1]));
        assert(p[0] < related.len()) by {
            let jj = choose|jj: int|
                0 <= jj < code_order.len() && #[trigger] code_order[jj] == p[0];
        }
        assert(related[p[1] as int]@.contains(p[0] as usize));
        lemma_connected_step(related, code_order, p.last(), p[1], p[0]);
        assert(p.first() == p[0]);
    }
}

/// With symmetric rows, connectivity runs both ways.
pub proof fn lemma_connected_sym(
    related: Seq<Vec<usize>>,
    code_order: Seq<usize>,
    x: usize,
    y: usize,
)
    requires
        rows_symmetric(related),
        forall|j: int| 0 <= j < code_order.len() ==> (#[trigger] code_order[j]) < related.len(),
        connected(related, code_order, x, y),
    ensures
        connected(related, code_order, y, x),
{
    let p = choose|p: Seq<usize>|
        #[trigger] related_path(related, code_order, p) && p.first() == x && p.last() == y;
    lemma_path_sym(related, code_order, p);
}

/// Connectivity is transitive: walks concatenate.
pub proof fn lemma_connected_trans(
    related: Seq<Vec<usize>>,
    code_order: Seq<usize>,
    x: usize,
    y: usize,
    z: usize,
)
    requires
        connected(related, code_order, x, y),
        connected(related, code_order, y, z),
    ensures
        connected(related, code_order, x, z),
{
    let p = choose|p: Seq<usize>|
        #[trigger] related_path(related, code_order, p) && p.first() == x && p.last() == y;
    let q = choose|q: Seq<usize>|
        #[trigger] related_path(related, code_order, q) && q.first() == y && q.last() == z;
    let w = p + q.skip(1);
    if q.len() == 1 {
        assert(p.first() == x && p.last() == z);
    } else {
        assert(related_path(related, code_order, w)) by {
            assert(forall|i: int| 0 <= i < p.len() ==> w[i] == p[i]);
            assert(forall|i: int| p.len() <= i < w.len() ==> w[i] == q[i - p.len() + 1]);
            assert forall|i: int| 0 <= i < w.len() implies code_order.contains(#[trigger] w[i]) by {
                if i < p.len() {
                    assert(code_order.contains(p[i]));
                } else {
                    assert(code_order.contains(q[i - p.len() + 1]));
                }
            }
            assert forall|i: int|
                0 <= i < w.len() - 1 implies #[trigger] related[w[i] as int]@.contains(
                w[i + 1],
            ) by {
                if i < p.len() - 1 {
                    assert(related[p[i] as int]@.contains(p[i + 1]));
                } else if i == p.len() - 1 {
                    assert(w[i] == p.last() && p.last() == q[0]);
                    assert(related[q[0] as int]@.contains(q[1]));
                } else {
                    assert(w[i] == q[i - p.len() + 1] && w[i + 1] == q[i - p.len() + 2]);
                    assert(related[q[i - p.len() + 1] as int]@.contains(q[i - p.len() + 2]));
                }
            }
        }
        assert(w.first() == x && w.last() == z);
    }
}

pub proof fn lemma_comp_pos_from_props(
    related: Seq<Vec<usize>>,
    code_order: Seq<usize>,
    x: usize,
    j: int,
)
    requires
        0 <= j <= code_order.len(),
    ensures
        j <= comp_pos_from(related, code_order, x, j) <= code_order.len(),
        comp_pos_from(related, code_order, x, j) < code_order.len() ==> connected(
            related,
            code_order,
            x,
            code_order[comp_pos_from(related, code_order, x, j)],
        ),
        forall|k: int|
            j <= k < comp_pos_from(related, code_order, x, j) ==> !connected(
                related,
                code_order,
                x,
                #[trigger] code_order[k],
            ),
    decreases code_order.len() - j,
{
    if j < code_order.len() && !connected(related, code_order, x, code_order[j]) {
        lemma_comp_pos_from_props(related, code_order, x, j + 1);
    }
}

/// `comp_pos` is pinned by the first-connected-position properties.
pub proof fn lemma_comp_pos_unique(
    related: Seq<Vec<usize>>,
    code_order: Seq<usize>,
    x: usize,
    s: int,
)
    requires
        0 <= s < code_order.len(),
        connected(related, code_order, x, code_order[s]),
        forall|k: int| 0 <= k < s ==> !connected(related, code_order, x, #[trigger] code_order[k]),
    ensures
        comp_pos(related, code_order, x) == s,
{
    lemma_comp_pos_from_props(related, code_order, x, 0);
    let c = comp_pos(related, code_order, x);
    if c < s {
        assert(!connected(related, code_order, x, code_order[c]));
    }
    if s < c {
        assert(!connected(related, code_order, x, code_order[s]));
    }
}

/// Connected members share their component's earliest position.
pub proof fn lemma_comp_pos_eq(
    related: Seq<Vec<usize>>,
    code_order: Seq<usize>,
    x: usize,
    y: usize,
)
    requires
        rows_symmetric(related),
        forall|j: int| 0 <= j < code_order.len() ==> (#[trigger] code_order[j]) < related.len(),
        connected(related, code_order, x, y),
    ensures
        comp_pos(related, code_order, x) == comp_pos(related, code_order, y),
{
    lemma_comp_pos_from_eq(related, code_order, x, y, 0);
}

proof fn lemma_comp_pos_from_eq(
    related: Seq<Vec<usize>>,
    code_order: Seq<usize>,
    x: usize,
    y: usize,
    j: int,
)
    requires
        rows_symmetric(related),
        forall|jj: int| 0 <= jj < code_order.len() ==> (#[trigger] code_order[jj]) < related.len(),
        connected(related, code_order, x, y),
    ensures
        comp_pos_from(related, code_order, x, j) == comp_pos_from(related, code_order, y, j),
    decreases code_order.len() - j,
{
    if 0 <= j < code_order.len() {
        assert(connected(related, code_order, x, code_order[j]) == connected(
            related,
            code_order,
            y,
            code_order[j],
        )) by {
            lemma_connected_sym(related, code_order, x, y);
            if connected(related, code_order, x, code_order[j]) {
                lemma_connected_trans(related, code_order, y, x, code_order[j]);
            }
            if connected(related, code_order, y, code_order[j]) {
                lemma_connected_trans(related, code_order, x, y, code_order[j]);
            }
        }
        if !connected(related, code_order, x, code_order[j]) {
            lemma_comp_pos_from_eq(related, code_order, x, y, j + 1);
        }
    }
}

/// A walk that starts inside a neighbour-closed set cannot leave it.
proof fn lemma_closed_path(
    related: Seq<Vec<usize>>,
    code_order: Seq<usize>,
    g: Seq<usize>,
    p: Seq<usize>,
)
    requires
        forall|v: usize, w: usize|
            g.contains(v) && #[trigger] related[v as int]@.contains(w) && code_order.contains(w)
                ==> #[trigger] g.contains(w),
        related_path(related, code_order, p),
        g.contains(p.first()),
    ensures
        g.contains(p.last()),
    decreases p.len(),
{
    if p.len() > 1 {
        let q = p.skip(1);
        assert(related_path(related, code_order, q)) by {
            assert(forall|i: int| 0 <= i < q.len() ==> q[i] == p[i + 1]);
            assert forall|i: int|
                0 <= i < q.len() - 1 implies #[trigger] related[q[i] as int]@.contains(
                q[i + 1],
            ) by {
                let k = i + 1;
                assert(related[p[k] as int]@.contains(p[k + 1]));
                assert(q[i] == p[k] && q[i + 1] == p[k + 1]);
            }
        }
        let k0 = 0int;
        assert(related[p[k0] as int]@.contains(p[k0 + 1]));
        assert(related[p[0] as int]@.contains(p[1]));
        assert(code_order.contains(p[1]));
        assert(g.contains(p[1]));
        assert(q.first() == p[1]);
        lemma_closed_path(related, code_order, g, q);
    }
}

proof fn lemma_nodup_count(s: Seq<usize>, v: usize)
    requires
        s.no_duplicates(),
    ensures
        s.to_multiset().count(v) == if s.contains(v) {
            1nat
        } else {
            0nat
        },
    decreases s.len(),
{
    broadcast use vstd::seq_lib::group_to_multiset_ensures;

    if s.len() == 0 {
        assert(s.to_multiset() =~= Multiset::<usize>::empty());
        if s.contains(v) {
            let i = choose|i: int| 0 <= i < s.len() && #[trigger] s[i] == v;
        }
    } else {
        let t = s.drop_last();
        assert(t.no_duplicates());
        lemma_nodup_count(t, v);
        assert(s =~= t.push(s.last()));
        assert(s.to_multiset() =~= t.to_multiset().insert(s.last()));
        if v == s.last() {
            assert(!t.contains(v)) by {
                if t.contains(v) {
                    let i = choose|i: int| 0 <= i < t.len() && #[trigger] t[i] == v;
                    assert(s[i] == v && s[s.len() - 1] == v);
                }
            }
            assert(s.contains(v)) by {
                assert(s[s.len() - 1] == v);
            }
        } else {
            assert(s.contains(v) == t.contains(v)) by {
                crate::graph::lemma_push_contains_eq(t, s.last(), v);
            }
        }
    }
}

/// Two deduplicated sequences holding the same values hold them with
/// the same (single) multiplicities.
pub proof fn lemma_nodup_same_set_multiset(a: Seq<usize>, b: Seq<usize>)
    requires
        a.no_duplicates(),
        b.no_duplicates(),
        forall|v: usize| a.contains(v) == #[trigger] b.contains(v),
    ensures
        a.to_multiset() == b.to_multiset(),
{
    assert forall|v: usize| a.to_multiset().count(v) == b.to_multiset().count(v) by {
        lemma_nodup_count(a, v);
        lemma_nodup_count(b, v);
    }
    assert(a.to_multiset() =~= b.to_multiset());
}

/// Sort component members by their position key; ties keep order.
fn sort_by_position(v: &Vec<usize>, position: &Vec<usize>) -> (r: Vec<usize>)
    requires
        forall|j: int| 0 <= j < v@.len() ==> (#[trigger] v@[j]) < position@.len(),
    ensures
        r@.to_multiset() == v@.to_multiset(),
        v@.no_duplicates() ==> r@.no_duplicates(),
        forall|j: int| 0 <= j < r@.len() ==> (#[trigger] r@[j]) < position@.len(),
        forall|a: int, b: int|
            0 <= a < b < r@.len() ==> position@[(#[trigger] r@[a]) as int] <= position@[(
            #[trigger] r@[b]) as int],
{
    let mut out: Vec<usize> = Vec::new();
    let mut i: usize = 0;
    proof {
        broadcast use vstd::seq_lib::group_to_multiset_ensures;

        assert(v@.take(0) =~= Seq::<usize>::empty());
        assert(out@.to_multiset() =~= v@.take(0).to_multiset());
    }
    while i < v.len()
        invariant
            forall|j: int| 0 <= j < v@.len() ==> (#[trigger] v@[j]) < position@.len(),
            0 <= i <= v@.len(),
            out@.to_multiset() == v@.take(i as int).to_multiset(),
            forall|j: int| 0 <= j < out@.len() ==> (#[trigger] out@[j]) < position@.len(),
            forall|a: int, b: int|
                0 <= a < b < out@.len() ==> position@[(#[trigger] out@[a]) as int] <= position@[(
                #[trigger] out@[b]) as int],
        decreases v@.len() - i,
    {
        let x = v[i];
        let mut p: usize = 0;
        while p < out.len() && position[out[p]] <= position[x]
            invariant
                forall|j: int| 0 <= j < out@.len() ==> (#[trigger] out@[j]) < position@.len(),
                x < position@.len(),
                0 <= p <= out@.len(),
                forall|j: int|
                    0 <= j < p ==> position@[(#[trigger] out@[j]) as int] <= position@[x as int],
            decreases out@.len() - p,
        {
            p += 1;
        }
        let ghost old_out = out@;
        out.insert(p, x);
        proof {
            broadcast use vstd::seq_lib::to_multiset_insert;
            broadcast use vstd::seq_lib::to_multiset_build;

            assert(out@ == old_out.insert(p as int, x));
            assert(v@.take(i + 1) =~= v@.take(i as int).push(x));
            assert(out@.to_multiset() =~= v@.take(i + 1).to_multiset());
            assert(forall|k: int| 0 <= k < p ==> out@[k] == old_out[k]);
            assert(out@[p as int] == x);
            assert(forall|k: int| p < k < out@.len() ==> out@[k] == old_out[k - 1]);
            assert forall|a: int, b: int|
                0 <= a < b < out@.len() implies position@[(#[trigger] out@[a]) as int]
                <= position@[(#[trigger] out@[b]) as int] by {
                if a == p && b > p {
                    assert(out@[b] == old_out[b - 1]);
                    assert(position@[old_out[p as int] as int] > position@[x as int]);
                    if b - 1 > p {
                        assert(position@[old_out[p as int] as int] <= position@[old_out[b
                            - 1] as int]);
                    }
                } else if a < p && b == p {
                    assert(out@[a] == old_out[a]);
                } else if a != p && b != p {
                    let a2 = if a < p {
                        a
                    } else {
                        a - 1
                    };
                    let b2 = if b < p {
                        b
                    } else {
                        b - 1
                    };
                    assert(out@[a] == old_out[a2] && out@[b] == old_out[b2]);
                }
            }
        }
        i += 1;
    }
    proof {
        assert(v@.take(v@.len() as int) =~= v@);
        broadcast use vstd::seq_lib::to_multiset_contains;
        broadcast use vstd::seq_lib::to_multiset_len;

        if v@.no_duplicates() {
            v@.lemma_multiset_has_no_duplicates();
            out@.lemma_multiset_has_no_duplicates_conv();
        }
    }
    out
}

/// Reorder the code subsequence so that import-connected files are
/// contiguous: the result is ordered by each file's component key (the
/// position of its component's earliest member in the incoming
/// sequence), files with the same key keep their incoming relative
/// order, and every incoming index appears exactly once. These clauses
/// pin the result: it is the stable sort of the subsequence by
/// component key.
pub fn group_code_by_related_components(code_order: &Vec<usize>, related: &Vec<Vec<usize>>) -> (r:
    Vec<usize>)
    requires
        forall|j: int| 0 <= j < code_order@.len() ==> (#[trigger] code_order@[j])
            < related@.len(),
        code_order@.no_duplicates(),
        edges_wf(related@, related@.len() as int),
        rows_symmetric(related@),
    ensures
        r@.to_multiset() == code_order@.to_multiset(),
        r@.no_duplicates(),
        forall|j: int| 0 <= j < r@.len() ==> (#[trigger] r@[j]) < related@.len(),
        forall|j: int| 0 <= j < r@.len() ==> code_order@.contains(#[trigger] r@[j]),
        forall|a: int, b: int|
            0 <= a < b < r@.len() ==> comp_pos(related@, code_order@, #[trigger] r@[a])
                <= comp_pos(related@, code_order@, #[trigger] r@[b]),
        forall|a: int, b: int, i: int, j: int|
            #![trigger r@[a], r@[b], code_order@[i], code_order@[j]]
            0 <= a < b < r@.len() && 0 <= i < code_order@.len() && 0 <= j < code_order@.len()
                && code_order@[i] == r@[a] && code_order@[j] == r@[b] && comp_pos(
                related@,
                code_order@,
                r@[a],
            ) == comp_pos(related@, code_order@, r@[b]) ==> i < j,
{
    let n = related.len();
    let mut allowed: Vec<bool> = Vec::new();
    let mut visited: Vec<bool> = Vec::new();
    let mut position: Vec<usize> = Vec::new();
    let mut i: usize = 0;
    while i < n
        invariant
            0 <= i <= n,
            allowed@.len() == i,
            visited@.len() == i,
            position@.len() == i,
            forall|v: int| 0 <= v < i ==> !(#[trigger] allowed@[v]),
            forall|v: int| 0 <= v < i ==> !(#[trigger] visited@[v]),
        decreases n - i,
    {
        allowed.push(false);
        visited.push(false);
        position.push(0);
        i += 1;
    }
    let mut j: usize = 0;
    while j < code_order.len()
        invariant
            n == related@.len(),
            forall|jj: int| 0 <= jj < code_order@.len() ==> (#[trigger] code_order@[jj]) < n,
            code_order@.no_duplicates(),
            0 <= j <= code_order@.len(),
            allowed@.len() == n,
            visited@.len() == n,
            position@.len() == n,
            forall|v: int| 0 <= v < n ==> !(#[trigger] visited@[v]),
            forall|v: usize|
                (v as int) < n ==> (#[trigger] allowed@[v as int] == code_order@.take(
                    j as int,
                ).contains(v)),
            forall|jj: int|
                0 <= jj < j ==> position@[(#[trigger] code_order@[jj]) as int] == jj,
        decreases code_order@.len() - j,
    {
        let v = code_order[j];
        allowed[v] = true;
        position[v] = j;
        proof {
            assert forall|w: usize|
                (w as int) < n implies (#[trigger] allowed@[w as int] == code_order@.take(
                j + 1,
            ).contains(w)) by {
                crate::text::lemma_take_contains_step(code_order@, j as int, w);
            }
            assert forall|jj: int|
                0 <= jj < j + 1 implies position@[(#[trigger] code_order@[jj]) as int] == jj by {
                if jj < j {
                    assert(code_order@[jj] != code_order@[j as int]);
                }
            }
        }
        j += 1;
    }
    proof {
        assert(code_order@.take(code_order@.len() as int) =~= code_order@);
    }

    let mut grouped: Vec<usize> = Vec::new();
    let mut s: usize = 0;
    while s < code_order.len()
        invariant
            n == related@.len(),
            edges_wf(related@, n as int),
            rows_symmetric(related@),
            forall|jj: int| 0 <= jj < code_order@.len() ==> (#[trigger] code_order@[jj]) < n,
            code_order@.no_duplicates(),
            0 <= s <= code_order@.len(),
            allowed@.len() == n,
            visited@.len() == n,
            position@.len() == n,
            forall|v: usize|
                (v as int) < n ==> (#[trigger] allowed@[v as int] == code_order@.contains(v)),
            forall|jj: int|
                0 <= jj < code_order@.len() ==> position@[(#[trigger] code_order@[jj]) as int]
                    == jj,
            grouped@.no_duplicates(),
            forall|jj: int| 0 <= jj < grouped@.len() ==> (#[trigger] grouped@[jj]) < n,
            forall|v: usize| #[trigger] grouped@.contains(v) ==> (v as int) < n,
            forall|v: usize|
                (v as int) < n ==> (#[trigger] visited@[v as int] == grouped@.contains(v)),
            forall|v: usize| #[trigger] grouped@.contains(v) ==> allowed@[v as int],
            forall|jj: int|
                0 <= jj < s ==> (#[trigger] visited@[code_order@[jj] as int]),
            forall|v: usize, w: usize|
                #![trigger grouped@.contains(v), related@[v as int]@.contains(w)]
                grouped@.contains(v) && related@[v as int]@.contains(w) && code_order@.contains(w)
                    ==> grouped@.contains(w),
            forall|a: int, b: int|
                0 <= a < b < grouped@.len() ==> comp_pos(
                    related@,
                    code_order@,
                    #[trigger] grouped@[a],
                ) <= comp_pos(related@, code_order@, #[trigger] grouped@[b]),
            forall|jj: int|
                0 <= jj < grouped@.len() ==> comp_pos(
                    related@,
                    code_order@,
                    #[trigger] grouped@[jj],
                ) < s,
            forall|a: int, b: int, i2: int, j2: int|
                #![trigger grouped@[a], grouped@[b], code_order@[i2], code_order@[j2]]
                0 <= a < b < grouped@.len() && 0 <= i2 < code_order@.len() && 0 <= j2
                    < code_order@.len() && code_order@[i2] == grouped@[a] && code_order@[j2]
                    == grouped@[b] && comp_pos(related@, code_order@, grouped@[a]) == comp_pos(
                    related@,
                    code_order@,
                    grouped@[b],
                ) ==> i2 < j2,
        decreases code_order@.len() - s,
    {
        let start = code_order[s];
        if !visited[start] {
            let ghost entry_grouped = grouped@;
            proof {
                assert forall|jj: int|
                    0 <= jj < s implies #[trigger] entry_grouped.contains(
                    code_order@[jj] as usize,
                ) by {
                    assert(visited@[code_order@[jj] as int]);
                }
            }
            visited[start] = true;
            let mut stack: Vec<usize> = Vec::new();
            let mut component: Vec<usize> = Vec::new();
            stack.push(start);
            component.push(start);
            let ghost pre_grouped = grouped@;
            proof {
                assert(component@ =~= seq![start]);
                assert forall|v: usize|
                    (v as int) < n implies (#[trigger] visited@[v as int] == (
                pre_grouped.contains(v) || component@.contains(v))) by {
                    if component@.contains(v) {
                        assert(component@[0] == start);
                        assert(v == start);
                    }
                    if v == start {
                        assert(component@[0] == start);
                        assert(component@.contains(v));
                    }
                }
                assert forall|v: usize| component@.contains(v) implies allowed@[v as int]
                    && !pre_grouped.contains(v) by {
                    assert(component@[0] == start);
                }
                assert forall|v: usize|
                    #[trigger] component@.contains(v) implies connected(
                    related@,
                    code_order@,
                    start,
                    v,
                ) by {
                    assert(component@[0] == start);
                    assert(v == start);
                    assert(code_order@[s as int] == start);
                    assert(code_order@.contains(start));
                    lemma_connected_refl(related@, code_order@, start);
                }
                lemma_distinct_bounded_group(component@, n as int);
            }
            while stack.len() > 0
                invariant
                    n == related@.len(),
                    edges_wf(related@, n as int),
                    rows_symmetric(related@),
                    forall|jj: int| 0 <= jj < code_order@.len() ==> (#[trigger] code_order@[jj])
                        < n,
                    allowed@.len() == n,
                    visited@.len() == n,
                    grouped@ == pre_grouped,
                    start == code_order@[s as int],
                    0 <= s < code_order@.len(),
                    forall|v: usize|
                        (v as int) < n ==> (#[trigger] allowed@[v as int] == code_order@.contains(
                            v,
                        )),
                    forall|jj: int| 0 <= jj < stack@.len() ==> (#[trigger] stack@[jj]) < n,
                    forall|jj: int| 0 <= jj < component@.len() ==> (#[trigger] component@[jj])
                        < n,
                    component@.no_duplicates(),
                    component@.len() <= n,
                    component@.contains(start),
                    stack@.no_duplicates(),
                    forall|v: usize| #[trigger] stack@.contains(v) ==> component@.contains(v),
                    forall|v: usize|
                        (v as int) < n ==> (#[trigger] visited@[v as int] == (pre_grouped.contains(
                            v,
                        ) || component@.contains(v))),
                    forall|v: usize|
                        #[trigger] component@.contains(v) ==> allowed@[v as int]
                            && !pre_grouped.contains(v),
                    forall|v: usize| #[trigger] pre_grouped.contains(v) ==> allowed@[v as int],
                    forall|v: usize|
                        #[trigger] component@.contains(v) ==> connected(
                            related@,
                            code_order@,
                            start,
                            v,
                        ),
                    forall|v: usize, w: usize|
                        #![trigger component@.contains(v), related@[v as int]@.contains(w)]
                        component@.contains(v) && !stack@.contains(v) && related@[
                        v as int]@.contains(w) && allowed@[w as int] ==> visited@[w as int],
                    grouped@.no_duplicates(),
                    forall|jj: int| 0 <= jj < grouped@.len() ==> (#[trigger] grouped@[jj]) < n,
                decreases n - component@.len(), stack@.len(),
            {
                let ghost pre_stack = stack@;
                let node = stack.pop().unwrap();
                proof {
                    assert(pre_stack[pre_stack.len() - 1] == node);
                    assert(pre_stack.contains(node)) by {
                        assert(pre_stack[pre_stack.len() - 1] == node);
                    }
                    assert(node < n);
                    assert(component@.contains(node));
                    assert(visited@[node as int]);
                    assert(forall|jj: int| 0 <= jj < stack@.len() ==> stack@[jj] == pre_stack[jj]);
                    assert forall|v: usize| #[trigger] stack@.contains(v) implies component@.contains(v) by {
                        let jj = choose|jj: int|
                            0 <= jj < stack@.len() && #[trigger] stack@[jj] == v;
                        assert(0 <= jj < pre_stack.len() && pre_stack[jj] == v);
                        assert(pre_stack.contains(v));
                    }
                    assert(!stack@.contains(node)) by {
                        if stack@.contains(node) {
                            let jj = choose|jj: int|
                                0 <= jj < stack@.len() && #[trigger] stack@[jj] == node;
                            assert(pre_stack[jj] == node);
                            assert(pre_stack[pre_stack.len() - 1] == node);
                            assert(jj != pre_stack.len() - 1);
                        }
                    }
                    assert forall|v: usize, w: usize|
                        component@.contains(v) && !stack@.contains(v) && v != node
                        && #[trigger] related@[v as int]@.contains(w) && allowed@[w as int]
                        implies #[trigger] visited@[w as int] by {
                        assert(!pre_stack.contains(v)) by {
                            if pre_stack.contains(v) {
                                let jj = choose|jj: int|
                                    0 <= jj < pre_stack.len() && #[trigger] pre_stack[jj] == v;
                                if jj < pre_stack.len() - 1 {
                                    assert(stack@[jj] == v);
                                    assert(stack@.contains(v));
                                }
                            }
                        }
                    }
                }
                let row_len = related[node].len();
                let mut q: usize = 0;
                let ghost comp_at_entry = component@;
                while q < row_len
                    invariant
                        n == related@.len(),
                        edges_wf(related@, n as int),
                        rows_symmetric(related@),
                        forall|jj: int|
                            0 <= jj < code_order@.len() ==> (#[trigger] code_order@[jj]) < n,
                        allowed@.len() == n,
                        visited@.len() == n,
                        grouped@ == pre_grouped,
                        start == code_order@[s as int],
                        0 <= s < code_order@.len(),
                        forall|v: usize|
                            (v as int) < n ==> (#[trigger] allowed@[v as int]
                                == code_order@.contains(v)),
                        (node as int) < n,
                        component@.contains(node),
                        visited@[node as int],
                        !stack@.contains(node),
                        row_len == related@[node as int]@.len(),
                        0 <= q <= row_len,
                        forall|jj: int| 0 <= jj < stack@.len() ==> (#[trigger] stack@[jj]) < n,
                        forall|jj: int|
                            0 <= jj < component@.len() ==> (#[trigger] component@[jj]) < n,
                        component@.no_duplicates(),
                        component@.len() <= n,
                        comp_at_entry.len() <= component@.len(),
                        component@.contains(start),
                        stack@.no_duplicates(),
                        stack@.len() == pre_stack.len() - 1 + component@.len()
                            - comp_at_entry.len(),
                        forall|v: usize| #[trigger] stack@.contains(v) ==> component@.contains(v),
                        forall|v: usize|
                            (v as int) < n ==> (#[trigger] visited@[v as int] == (
                            pre_grouped.contains(v) || component@.contains(v))),
                        forall|v: usize|
                            #[trigger] component@.contains(v) ==> allowed@[v as int]
                                && !pre_grouped.contains(v),
                        forall|v: usize| #[trigger] pre_grouped.contains(v) ==> allowed@[v as int],
                        forall|v: usize|
                            #[trigger] component@.contains(v) ==> connected(
                                related@,
                                code_order@,
                                start,
                                v,
                            ),
                        forall|v: usize, w: usize|
                            #![trigger component@.contains(v), related@[v as int]@.contains(w)]
                            component@.contains(v) && !stack@.contains(v) && v != node && related@[
                            v as int]@.contains(w) && allowed@[w as int] ==> visited@[w as int],
                        forall|jj: int|
                            0 <= jj < q && allowed@[(#[trigger] related@[node as int]@[jj]) as int]
                                ==> visited@[related@[node as int]@[jj] as int],
                        grouped@.no_duplicates(),
                        forall|jj: int| 0 <= jj < grouped@.len() ==> (#[trigger] grouped@[jj])
                            < n,
                    decreases row_len - q,
                {
                    let neighbor = related[node][q];
                    proof {
                        assert(related@[node as int]@[q as int] == neighbor);
                        assert(related@[node as int]@.contains(neighbor)) by {
                            assert(related@[node as int]@[q as int] == neighbor);
                        }
                        assert(neighbor < n);
                    }
                    if allowed[neighbor] && !visited[neighbor] {
                        let ghost pre_c = component@;
                        let ghost pre_s = stack@;
                        proof {
                            assert(!pre_grouped.contains(neighbor));
                            assert(!pre_c.contains(neighbor));
                        }
                        visited[neighbor] = true;
                        stack.push(neighbor);
                        component.push(neighbor);
                        proof {
                            assert(!pre_c.contains(neighbor));
                            assert forall|jj: int, kk: int|
                                0 <= jj < kk < component@.len() implies component@[jj]
                                != component@[kk] by {
                                if kk == pre_c.len() {
                                    assert(component@[kk] == neighbor);
                                    assert(component@[jj] == pre_c[jj]);
                                    if pre_c[jj] == neighbor {
                                        assert(pre_c.contains(neighbor));
                                    }
                                }
                            }
                            assert forall|v: usize|
                                #[trigger] stack@.contains(v) implies component@.contains(v) by {
                                crate::graph::lemma_push_contains_eq(pre_s, neighbor, v);
                                crate::graph::lemma_push_contains_eq(pre_c, neighbor, v);
                            }
                            assert forall|v: usize|
                                (v as int) < n implies (#[trigger] visited@[v as int] == (
                            pre_grouped.contains(v) || component@.contains(v))) by {
                                crate::graph::lemma_push_contains_eq(pre_c, neighbor, v);
                            }
                            assert forall|v: usize|
                                #[trigger] component@.contains(v) implies allowed@[v as int]
                                && !pre_grouped.contains(v) by {
                                crate::graph::lemma_push_contains_eq(pre_c, neighbor, v);
                                if v != neighbor {
                                    assert(pre_c.contains(v));
                                }
                            }
                            assert forall|v: usize|
                                #[trigger] component@.contains(v) implies connected(
                                related@,
                                code_order@,
                                start,
                                v,
                            ) by {
                                crate::graph::lemma_push_contains_eq(pre_c, neighbor, v);
                                if v == neighbor && !pre_c.contains(v) {
                                    assert(connected(related@, code_order@, start, node));
                                    assert(code_order@.contains(neighbor));
                                    lemma_connected_step(
                                        related@,
                                        code_order@,
                                        start,
                                        node,
                                        neighbor,
                                    );
                                }
                            }
                            assert(component@.contains(start)) by {
                                crate::graph::lemma_push_contains_eq(pre_c, neighbor, start);
                            }
                            assert(component@.contains(node)) by {
                                crate::graph::lemma_push_contains_eq(pre_c, neighbor, node);
                            }
                            assert(!stack@.contains(node)) by {
                                crate::graph::lemma_push_contains_eq(pre_s, neighbor, node);
                                assert(neighbor != node);
                            }
                            assert forall|jj: int, kk: int|
                                0 <= jj < kk < stack@.len() implies stack@[jj] != stack@[kk] by {
                                if kk == pre_s.len() {
                                    assert(stack@[kk] == neighbor);
                                    assert(stack@[jj] == pre_s[jj]);
                                    if pre_s[jj] == neighbor {
                                        assert(pre_s.contains(neighbor));
                                        assert(component@.contains(neighbor) || true);
                                        assert(pre_c.contains(neighbor));
                                    }
                                }
                            }
                            assert forall|v: usize, w: usize|
                                component@.contains(v) && !stack@.contains(v) && v != node
                                && #[trigger] related@[v as int]@.contains(w) && allowed@[
                            w as int] implies #[trigger] visited@[w as int] by {
                                crate::graph::lemma_push_contains_eq(pre_c, neighbor, v);
                                crate::graph::lemma_push_contains_eq(pre_s, neighbor, v);
                                assert(v != neighbor);
                                assert(pre_c.contains(v) && !pre_s.contains(v));
                            }
                            lemma_distinct_bounded_group(component@, n as int);
                        }
                    }
                    q += 1;
                }
                proof {
                    assert(component@.len() > comp_at_entry.len() || stack@.len()
                        < pre_stack.len());
                    // the popped node's whole row is now processed
                    assert forall|v: usize, w: usize|
                        component@.contains(v) && !stack@.contains(v) && #[trigger] related@[
                    v as int]@.contains(w) && allowed@[w as int] implies #[trigger] visited@[
                    w as int] by {
                        if v == node {
                            let jj = choose|jj: int|
                                0 <= jj < related@[node as int]@.len() && #[trigger] related@[
                            node as int]@[jj] == w;
                            assert(allowed@[(related@[node as int]@[jj]) as int]);
                            assert(visited@[related@[node as int]@[jj] as int]);
                        }
                    }
                }
            }
            proof {
                // the finished component is closed under related
                // neighbours inside the subsequence, and so are the
                // already-emitted files together with it
                assert forall|v: usize, w: usize|
                    component@.contains(v) && #[trigger] related@[v as int]@.contains(w)
                    && code_order@.contains(w) implies #[trigger] component@.contains(w) by {
                    assert(allowed@[w as int]);
                    assert(visited@[w as int]);
                    if pre_grouped.contains(w) {
                        assert(w < n) by {
                            let jj = choose|jj: int|
                                0 <= jj < code_order@.len() && #[trigger] code_order@[jj] == w;
                        }
                        assert(related@[w as int]@.contains(v as usize));
                        assert(code_order@.contains(v)) by {
                            assert(allowed@[v as int]);
                        }
                        assert(pre_grouped.contains(v));
                        assert(false);
                    }
                }
                // every member's component key is this start position
                assert forall|v: usize|
                    #[trigger] component@.contains(v) implies comp_pos(
                    related@,
                    code_order@,
                    v,
                ) == s as int by {
                    assert(connected(related@, code_order@, start, v));
                    lemma_connected_sym(related@, code_order@, start, v);
                    assert(connected(related@, code_order@, v, code_order@[s as int]));
                    assert forall|k: int|
                        0 <= k < s implies !connected(
                        related@,
                        code_order@,
                        v,
                        #[trigger] code_order@[k],
                    ) by {
                        if connected(related@, code_order@, v, code_order@[k]) {
                            let ck = code_order@[k] as usize;
                            lemma_connected_sym(related@, code_order@, v, ck);
                            let p = choose|p: Seq<usize>|
                                #[trigger] related_path(related@, code_order@, p) && p.first()
                                    == ck && p.last() == v;
                            assert(entry_grouped.contains(ck));
                            lemma_closed_path(related@, code_order@, pre_grouped, p);
                            assert(pre_grouped.contains(v));
                            assert(false);
                        }
                    }
                    lemma_comp_pos_unique(related@, code_order@, v, s as int);
                }
            }
            let sorted_component = sort_by_position(&component, &position);
            let ghost sc = sorted_component@;
            let mut tail = sorted_component;
            grouped.append(&mut tail);
            proof {
                broadcast use vstd::seq_lib::to_multiset_contains;

                assert(grouped@ == pre_grouped + sc);
                assert forall|v: usize| sc.contains(v) == component@.contains(v) by {
                    assert(sc.to_multiset().count(v) == component@.to_multiset().count(v));
                }
                assert(sc.no_duplicates());
                assert forall|jj: int, kk: int|
                    0 <= jj < kk < grouped@.len() implies grouped@[jj] != grouped@[kk] by {
                    if jj < pre_grouped.len() && kk >= pre_grouped.len() {
                        assert(grouped@[kk] == sc[kk - pre_grouped.len()]);
                        assert(sc.contains(sc[kk - pre_grouped.len()])) by {
                            assert(0 <= kk - pre_grouped.len() < sc.len());
                        }
                        assert(component@.contains(grouped@[kk]));
                        assert(!pre_grouped.contains(grouped@[kk]));
                        assert(pre_grouped.contains(pre_grouped[jj])) by {
                            assert(pre_grouped[jj] == grouped@[jj]);
                        }
                    } else if jj >= pre_grouped.len() {
                        assert(sc[jj - pre_grouped.len()] != sc[kk - pre_grouped.len()]);
                    }
                }
                assert forall|v: usize|
                    (v as int) < n implies (#[trigger] visited@[v as int] == grouped@.contains(
                    v,
                )) by {
                    assert(grouped@.contains(v) == (pre_grouped.contains(v) || sc.contains(v)))
                        by {
                        if pre_grouped.contains(v) {
                            let jj = choose|jj: int|
                                0 <= jj < pre_grouped.len() && #[trigger] pre_grouped[jj] == v;
                            assert(grouped@[jj] == v);
                        }
                        if sc.contains(v) {
                            let jj = choose|jj: int| 0 <= jj < sc.len() && #[trigger] sc[jj] == v;
                            assert(grouped@[pre_grouped.len() + jj] == v);
                        }
                        if grouped@.contains(v) {
                            let jj = choose|jj: int|
                                0 <= jj < grouped@.len() && #[trigger] grouped@[jj] == v;
                            if jj < pre_grouped.len() {
                                assert(pre_grouped[jj] == v);
                            } else {
                                assert(sc[jj - pre_grouped.len()] == v);
                            }
                        }
                    }
                }
                assert forall|v: usize| #[trigger] grouped@.contains(v) implies allowed@[v as int] by {
                    assert(pre_grouped.contains(v) || sc.contains(v));
                }
                assert forall|jj: int|
                    0 <= jj < grouped@.len() implies (#[trigger] grouped@[jj]) < n by {
                    if jj >= pre_grouped.len() {
                        assert(sc.contains(sc[jj - pre_grouped.len()])) by {
                            assert(0 <= jj - pre_grouped.len() < sc.len());
                        }
                        assert(component@.contains(grouped@[jj]));
                    }
                }
                assert(grouped@.contains(start)) by {
                    assert(component@.contains(start));
                    assert(sc.contains(start));
                    let jj = choose|jj: int| 0 <= jj < sc.len() && #[trigger] sc[jj] == start;
                    assert(grouped@[pre_grouped.len() + jj] == start);
                }
                assert forall|jj: int|
                    0 <= jj < s implies #[trigger] visited@[code_order@[jj] as int] by {
                    let cv = code_order@[jj] as usize;
                    assert(entry_grouped.contains(cv));
                    assert(pre_grouped.contains(cv));
                    let kk = choose|kk: int|
                        0 <= kk < pre_grouped.len() && #[trigger] pre_grouped[kk] == cv;
                    assert(grouped@[kk] == cv);
                    assert(grouped@.contains(cv));
                }
                // the new block carries component key `s`; everything
                // before it carries a smaller key
                assert forall|kk: int|
                    0 <= kk < sc.len() implies comp_pos(related@, code_order@, #[trigger] sc[kk])
                    == s as int by {
                    assert(sc.contains(sc[kk])) by {
                        assert(0 <= kk < sc.len());
                    }
                    assert(component@.contains(sc[kk]));
                }
                assert forall|a: int, b: int|
                    0 <= a < b < grouped@.len() implies comp_pos(
                    related@,
                    code_order@,
                    #[trigger] grouped@[a],
                ) <= comp_pos(related@, code_order@, #[trigger] grouped@[b]) by {
                    if a < pre_grouped.len() && b >= pre_grouped.len() {
                        assert(grouped@[a] == pre_grouped[a]);
                        assert(grouped@[b] == sc[b - pre_grouped.len()]);
                        assert(comp_pos(related@, code_order@, grouped@[a]) < s as int);
                        assert(comp_pos(related@, code_order@, grouped@[b]) == s as int);
                    } else if a >= pre_grouped.len() {
                        assert(grouped@[a] == sc[a - pre_grouped.len()]);
                        assert(grouped@[b] == sc[b - pre_grouped.len()]);
                    } else {
                        assert(grouped@[a] == pre_grouped[a] && grouped@[b] == pre_grouped[b]);
                    }
                }
                assert forall|jj: int|
                    0 <= jj < grouped@.len() implies comp_pos(
                    related@,
                    code_order@,
                    #[trigger] grouped@[jj],
                ) < s + 1 by {
                    if jj < pre_grouped.len() {
                        assert(grouped@[jj] == pre_grouped[jj]);
                    } else {
                        assert(grouped@[jj] == sc[jj - pre_grouped.len()]);
                    }
                }
                assert forall|a: int, b: int, i2: int, j2: int|
                    #![trigger grouped@[a], grouped@[b], code_order@[i2], code_order@[j2]]
                    0 <= a < b < grouped@.len() && 0 <= i2 < code_order@.len() && 0 <= j2
                        < code_order@.len() && code_order@[i2] == grouped@[a] && code_order@[j2]
                        == grouped@[b] && comp_pos(related@, code_order@, grouped@[a]) == comp_pos(
                        related@,
                        code_order@,
                        grouped@[b],
                    ) implies i2 < j2 by {
                    if a < pre_grouped.len() && b >= pre_grouped.len() {
                        assert(grouped@[a] == pre_grouped[a]);
                        assert(grouped@[b] == sc[b - pre_grouped.len()]);
                        assert(comp_pos(related@, code_order@, grouped@[a]) < s as int);
                        assert(comp_pos(related@, code_order@, grouped@[b]) == s as int);
                    } else if a >= pre_grouped.len() {
                        let a2 = a - pre_grouped.len();
                        let b2 = b - pre_grouped.len();
                        assert(grouped@[a] == sc[a2] && grouped@[b] == sc[b2]);
                        assert(position@[(sc[a2]) as int] <= position@[(sc[b2]) as int]);
                        assert(position@[code_order@[i2] as int] == i2);
                        assert(position@[code_order@[j2] as int] == j2);
                        assert(i2 <= j2);
                        if i2 == j2 {
                            assert(sc[a2] == sc[b2]);
                        }
                    } else {
                        assert(grouped@[a] == pre_grouped[a] && grouped@[b] == pre_grouped[b]);
                    }
                }
                assert forall|v: usize, w: usize|
                    grouped@.contains(v) && #[trigger] related@[v as int]@.contains(w)
                    && code_order@.contains(w) implies #[trigger] grouped@.contains(w) by {
                    if pre_grouped.contains(v) {
                        assert(pre_grouped.contains(w));
                        let jj = choose|jj: int|
                            0 <= jj < pre_grouped.len() && #[trigger] pre_grouped[jj] == w;
                        assert(grouped@[jj] == w);
                    } else {
                        assert(sc.contains(v));
                        assert(component@.contains(v));
                        assert(component@.contains(w));
                        assert(sc.contains(w));
                        let jj = choose|jj: int| 0 <= jj < sc.len() && #[trigger] sc[jj] == w;
                        assert(grouped@[pre_grouped.len() + jj] == w);
                    }
                }
            }
        }
        proof {
            assert(visited@[code_order@[s as int] as int]);
        }
        s += 1;
    }
    proof {
        assert forall|v: usize| grouped@.contains(v) == #[trigger] code_order@.contains(v) by {
            if grouped@.contains(v) {
                assert(allowed@[v as int]);
            }
            if code_order@.contains(v) {
                let jj = choose|jj: int|
                    0 <= jj < code_order@.len() && #[trigger] code_order@[jj] == v;
                assert(visited@[code_order@[jj] as int]);
            }
        }
        lemma_nodup_same_set_multiset(grouped@, code_order@);
        assert forall|j: int|
            0 <= j < grouped@.len() implies code_order@.contains(#[trigger] grouped@[j]) by {
            assert(grouped@.contains(grouped@[j])) by {
                assert(0 <= j < grouped@.len());
            }
        }
    }
    grouped
}

/// Import-connected files end up contiguous: in a sequence ordered by
/// component key whose entries all come from the code subsequence,
/// everything strictly between two connected entries belongs to their
/// component.
pub proof fn lemma_grouping_contiguous(
    related: Seq<Vec<usize>>,
    code_order: Seq<usize>,
    r: Seq<usize>,
    a: int,
    c: int,
    b: int,
)
    requires
        rows_symmetric(related),
        forall|j: int| 0 <= j < code_order.len() ==> (#[trigger] code_order[j]) < related.len(),
        forall|j: int| 0 <= j < r.len() ==> code_order.contains(#[trigger] r[j]),
        forall|x: int, y: int|
            0 <= x < y < r.len() ==> comp_pos(related, code_order, #[trigger] r[x]) <= comp_pos(
                related,
                code_order,
                #[trigger] r[y],
            ),
        0 <= a < c < b < r.len(),
        connected(related, code_order, r[a], r[b]),
    ensures
        connected(related, code_order, r[a], r[c]),
        connected(related, code_order, r[c], r[b]),
{
    lemma_comp_pos_eq(related, code_order, r[a], r[b]);
    assert(comp_pos(related, code_order, r[a]) <= comp_pos(related, code_order, r[c]));
    assert(comp_pos(related, code_order, r[c]) <= comp_pos(related, code_order, r[b]));
    let m = comp_pos(related, code_order, r[a]);
    assert(comp_pos(related, code_order, r[c]) == m);
    assert(m < code_order.len()) by {
        lemma_comp_pos_from_props(related, code_order, r[a], 0);
        if m == code_order.len() {
            let k0 = choose|k0: int| 0 <= k0 < code_order.len() && #[trigger] code_order[k0] == r[a];
            lemma_connected_refl(related, code_order, r[a]);
            assert(!connected(related, code_order, r[a], code_order[k0]));
        }
    }
    lemma_comp_pos_from_props(related, code_order, r[a], 0);
    lemma_comp_pos_from_props(related, code_order, r[c], 0);
    assert(connected(related, code_order, r[a], code_order[m]));
    assert(connected(related, code_order, r[c], code_order[m]));
    lemma_connected_sym(related, code_order, r[c], code_order[m] as usize);
    lemma_connected_trans(related, code_order, r[a], code_order[m] as usize, r[c]);
    lemma_connected_sym(related, code_order, r[a], r[c]);
    lemma_connected_trans(related, code_order, r[c], r[a], r[b]);
}

/// The grouped sequence is pinned by its contract: any two sequences
/// over the same entries of the code subsequence, both ordered by
/// component key with ties in subsequence order, are equal.
pub proof fn lemma_grouping_unique(
    related: Seq<Vec<usize>>,
    code_order: Seq<usize>,
    r1: Seq<usize>,
    r2: Seq<usize>,
)
    requires
        r1.to_multiset() == r2.to_multiset(),
        r1.no_duplicates(),
        r2.no_duplicates(),
        forall|k: int| 0 <= k < r1.len() ==> code_order.contains(#[trigger] r1[k]),
        forall|k: int| 0 <= k < r2.len() ==> code_order.contains(#[trigger] r2[k]),
        forall|a: int, b: int|
            0 <= a < b < r1.len() ==> comp_pos(related, code_order, #[trigger] r1[a]) <= comp_pos(
                related,
                code_order,
                #[trigger] r1[b],
            ),
        forall|a: int, b: int|
            0 <= a < b < r2.len() ==> comp_pos(related, code_order, #[trigger] r2[a]) <= comp_pos(
                related,
                code_order,
                #[trigger] r2[b],
            ),
        forall|a: int, b: int, i: int, j: int|
            #![trigger r1[a], r1[b], code_order[i], code_order[j]]
            0 <= a < b < r1.len() && 0 <= i < code_order.len() && 0 <= j < code_order.len()
                && code_order[i] == r1[a] && code_order[j] == r1[b] && comp_pos(
                related,
                code_order,
                r1[a],
            ) == comp_pos(related, code_order, r1[b]) ==> i < j,
        forall|a: int, b: int, i: int, j: int|
            #![trigger r2[a], r2[b], code_order[i], code_order[j]]
            0 <= a < b < r2.len() && 0 <= i < code_order.len() && 0 <= j < code_order.len()
                && code_order[i] == r2[a] && code_order[j] == r2[b] && comp_pos(
                related,
                code_order,
                r2[a],
            ) == comp_pos(related, code_order, r2[b]) ==> i < j,
    ensures
        r1 == r2,
    decreases r1.len(),
{
    broadcast use vstd::seq_lib::group_to_multiset_ensures;

    if r1.len() == 0 {
        assert(r1.to_multiset().len() == r1.len());
        assert(r2.to_multiset().len() == r2.len());
        assert(r1 =~= r2);
    } else {
        assert(r1.to_multiset().len() == r1.len());
        assert(r2.to_multiset().len() == r2.len());
        let h1 = r1[0];
        let h2 = r2[0];
        if h1 != h2 {
            // each head occurs in the other sequence past its head,
            // forcing equal keys and then contradictory tie orders
            assert(r1.contains(h1)) by {
                assert(r1[0] == h1);
            }
            assert(r2.contains(h2)) by {
                assert(r2[0] == h2);
            }
            assert(r2.to_multiset().count(h1) > 0);
            assert(r2.contains(h1));
            let j1 = choose|j: int| 0 <= j < r2.len() && #[trigger] r2[j] == h1;
            assert(j1 > 0);
            assert(r1.to_multiset().count(h2) > 0);
            assert(r1.contains(h2));
            let j2 = choose|j: int| 0 <= j < r1.len() && #[trigger] r1[j] == h2;
            assert(j2 > 0);
            let k1 = comp_pos(related, code_order, h1);
            let k2 = comp_pos(related, code_order, h2);
            assert(k2 <= k1);
            assert(k1 <= k2);
            let i1 = choose|i: int| 0 <= i < code_order.len() && #[trigger] code_order[i] == h1;
            let i2 = choose|i: int| 0 <= i < code_order.len() && #[trigger] code_order[i] == h2;
            assert(i1 < i2);
            assert(i2 < i1);
        }
        let t1 = r1.skip(1);
        let t2 = r2.skip(1);
        assert(t1.to_multiset() =~= t2.to_multiset()) by {
            assert(r1.remove(0) =~= t1);
            assert(r2.remove(0) =~= t2);
            assert(r1.remove(0).to_multiset() == r1.to_multiset().remove(h1));
            assert(r2.remove(0).to_multiset() == r2.to_multiset().remove(h2));
        }
        assert(t1.no_duplicates()) by {
            assert(forall|k: int| 0 <= k < t1.len() ==> t1[k] == r1[k + 1]);
        }
        assert(t2.no_duplicates()) by {
            assert(forall|k: int| 0 <= k < t2.len() ==> t2[k] == r2[k + 1]);
        }
        assert(forall|k: int| 0 <= k < t1.len() ==> code_order.contains(#[trigger] t1[k])) by {
            assert(forall|k: int| 0 <= k < t1.len() ==> t1[k] == r1[k + 1]);
        }
        assert(forall|k: int| 0 <= k < t2.len() ==> code_order.contains(#[trigger] t2[k])) by {
            assert(forall|k: int| 0 <= k < t2.len() ==> t2[k] == r2[k + 1]);
        }
        assert(forall|a: int, b: int|
            0 <= a < b < t1.len() ==> comp_pos(related, code_order, #[trigger] t1[a]) <= comp_pos(
                related,
                code_order,
                #[trigger] t1[b],
            )) by {
            assert(forall|k: int| 0 <= k < t1.len() ==> t1[k] == r1[k + 1]);
        }
        assert(forall|a: int, b: int|
            0 <= a < b < t2.len() ==> comp_pos(related, code_order, #[trigger] t2[a]) <= comp_pos(
                related,
                code_order,
                #[trigger] t2[b],
            )) by {
            assert(forall|k: int| 0 <= k < t2.len() ==> t2[k] == r2[k + 1]);
        }
        assert forall|a: int, b: int, i: int, j: int|
            #![trigger t1[a], t1[b], code_order[i], code_order[j]]
            0 <= a < b < t1.len() && 0 <= i < code_order.len() && 0 <= j < code_order.len()
                && code_order[i] == t1[a] && code_order[j] == t1[b] && comp_pos(
                related,
                code_order,
                t1[a],
            ) == comp_pos(related, code_order, t1[b]) implies i < j by {
            assert(t1[a] == r1[a + 1] && t1[b] == r1[b + 1]);
        }
        assert forall|a: int, b: int, i: int, j: int|
            #![trigger t2[a], t2[b], code_order[i], code_order[j]]
            0 <= a < b < t2.len() && 0 <= i < code_order.len() && 0 <= j < code_order.len()
                && code_order[i] == t2[a] && code_order[j] == t2[b] && comp_pos(
                related,
                code_order,
                t2[a],
            ) == comp_pos(related, code_order, t2[b]) implies i < j by {
            assert(t2[a] == r2[a + 1] && t2[b] == r2[b + 1]);
        }
        lemma_grouping_unique(related, code_order, t1, t2);
        assert(r1.len() == r2.len());
        assert(r1[0] == r2[0]);
        assert forall|k: int| 0 <= k < r1.len() implies r1[k] == r2[k] by {
            if k > 0 {
                assert(r1[k] == t1[k - 1]);
                assert(t1[k - 1] == t2[k - 1]);
                assert(r2[k] == t2[k - 1]);
            }
        }
        assert(r1 =~= r2);
    }
}

proof fn lemma_distinct_bounded_group(s: Seq<usize>, n: int)
    requires
        s.no_duplicates(),
        forall|j: int| 0 <= j < s.len() ==> (#[trigger] s[j]) < n,
        0 <= n,
    ensures
        s.len() <= n,
{
    let si = s.map_values(|v: usize| v as int);
    assert(si.no_duplicates()) by {
        assert forall|i: int, j: int|
            0 <= i < si.len() && 0 <= j < si.len() && i != j implies si[i] != si[j] by {
            assert(s[i] != s[j]);
        }
    }
    si.unique_seq_to_set();
    let range = vstd::set_lib::set_int_range(0, n);
    assert(si.to_set().subset_of(range)) by {
        assert forall|e: int| si.to_set().contains(e) implies range.contains(e) by {
            let i = choose|i: int| 0 <= i < si.len() && #[trigger] si[i] == e;
            assert(s[i] < n);
        }
    }
    vstd::set_lib::lemma_int_range(0, n);
    vstd::set_lib::lemma_len_subset(si.to_set(), range);
}

} // verus!
