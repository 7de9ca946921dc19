//! The packing pipeline: token counting, dependency-aware ordering,
//! documentation/code separation, component grouping, token-balanced
//! distribution and rendering, assembled into one pure request handler.

use vstd::prelude::*;

verus! {

use crate::distribute::{
    concat_all, distribute_with_doc_strategy, lemma_sum_concat, lemma_sum_nonneg, sum_toks,
    sum_token_counts,
};
use crate::docs::{code_indices, doc_indices, doc_sort_spec, is_doc_spec, split_docs_and_code};
use crate::format::{estimate_tokens, estimate_tokens_spec, format_file_header, header_spec,
    wrap_pack};
use crate::graph::build_related_adjacency;
use crate::group::{group_code_by_related_components, lemma_nodup_same_set_multiset};
use crate::models::{FileContent, PackItem, PackRequest, PackResponse};
use crate::distribute::strategy_spec;
use crate::order::{compute_dependency_order, order_split};
use crate::text::{join_sep, join_with, seq_views};

/// The token weight of one file: its precomputed count when present,
/// the byte-length estimate of its content otherwise.
pub open spec fn file_tok(f: FileContent) -> int {
    match f.token_count {
        Some(t) => t as int,
        None => estimate_tokens_spec(f.content@),
    }
}

/// The same weight as a machine word, as the engine computes it.
pub open spec fn file_tok_u(f: FileContent) -> usize {
    match f.token_count {
        Some(t) => t,
        None => {
            let t = (vstd::utf8::encode_utf8(f.content@).len() as usize) / 4;
            if t < 1 {
                1usize
            } else {
                t
            }
        },
    }
}

/// The token weight of every input file, in input order.
pub open spec fn tc_of(files: Seq<FileContent>) -> Seq<usize> {
    Seq::new(files.len(), |i: int| file_tok_u(files[i]))
}

pub proof fn lemma_file_tok_u(f: FileContent)
    ensures
        file_tok_u(f) as int == file_tok(f),
{
}

/// The ordering stage's guarantees: a permutation of all file indices
/// with the worklist split shape over the reference relation.
pub open spec fn ordering_stage(files: Seq<FileContent>, dep: Seq<usize>) -> bool {
    &&& dep.no_duplicates()
    &&& dep.len() == files.len()
    &&& forall|j: int| 0 <= j < dep.len() ==> ((#[trigger] dep[j]) as int) < files.len()
    &&& exists|m: int| #[trigger] order_split(files, dep, m)
}

/// The grouping stage's guarantees over some adjacency carrying the
/// related-graph meaning: the code subsequence stably sorted by the
/// position of each file's component's earliest member.
pub open spec fn grouping_stage_with(
    files: Seq<FileContent>,
    dep: Seq<usize>,
    code_o: Seq<usize>,
    adj: Seq<Vec<usize>>,
) -> bool {
    &&& crate::graph::related_meaning(adj, files)
    &&& crate::graph::edges_wf(adj, files.len() as int)
    &&& code_o.to_multiset() == code_indices(files, dep).to_multiset()
    &&& code_o.no_duplicates()
    &&& forall|a: int, b: int|
        0 <= a < b < code_o.len() ==> crate::group::comp_pos(
            adj,
            code_indices(files, dep),
            #[trigger] code_o[a],
        ) <= crate::group::comp_pos(adj, code_indices(files, dep), #[trigger] code_o[b])
    &&& forall|a: int, b: int, i: int, j: int|
        #![trigger code_o[a], code_o[b], code_indices(files, dep)[i], code_indices(files, dep)[j]]
        0 <= a < b < code_o.len() && 0 <= i < code_indices(files, dep).len() && 0 <= j
            < code_indices(files, dep).len() && code_indices(files, dep)[i] == code_o[a]
            && code_indices(files, dep)[j] == code_o[b] && crate::group::comp_pos(
            adj,
            code_indices(files, dep),
            code_o[a],
        ) == crate::group::comp_pos(adj, code_indices(files, dep), code_o[b]) ==> i < j
}

/// The grouping stage's guarantees, for the adjacency the resolutions
/// determine.
pub open spec fn grouping_stage(
    files: Seq<FileContent>,
    dep: Seq<usize>,
    code_o: Seq<usize>,
) -> bool {
    exists|adj: Seq<Vec<usize>>| #[trigger] grouping_stage_with(files, dep, code_o, adj)
}

/// The total token weight of an input file list.
pub open spec fn total_toks(files: Seq<FileContent>) -> int
    decreases files.len(),
{
    if files.len() == 0 {
        0
    } else {
        total_toks(files.drop_last()) + file_tok(files.last())
    }
}

/// The token weight of a list of file indices.
pub open spec fn sum_file_toks(files: Seq<FileContent>, s: Seq<usize>) -> int
    decreases s.len(),
{
    if s.len() == 0 {
        0
    } else {
        sum_file_toks(files, s.drop_last()) + file_tok(files[s.last() as int])
    }
}

/// The identity index sequence `0, 1, ..., n-1`.
pub open spec fn ident_seq(n: int) -> Seq<usize> {
    Seq::new(n as nat, |i: int| i as usize)
}

/// The paths of the input files, in input order.
pub open spec fn input_paths(files: Seq<FileContent>) -> Seq<Seq<char>> {
    files.map_values(|f: FileContent| f.path@)
}

/// The paths of the files of one pack slice, in slice order.
pub open spec fn paths_of_bin(files: Seq<FileContent>, b: Seq<usize>) -> Seq<Seq<char>> {
    b.map_values(|i: usize| files[i as int].path@)
}

/// The rendered texts of the files of one pack slice, in slice order.
pub open spec fn renders_of_bin(files: Seq<FileContent>, fmt: Seq<char>, b: Seq<usize>) -> Seq<
    Seq<char>,
> {
    b.map_values(|i: usize| header_spec(files[i as int].path@, files[i as int].content@, fmt))
}

/// All pack path lists, concatenated in pack order.
pub open spec fn concat_paths(packs: Seq<PackItem>) -> Seq<Seq<char>>
    decreases packs.len(),
{
    if packs.len() == 0 {
        Seq::empty()
    } else {
        seq_views(packs[0].file_paths@) + concat_paths(packs.skip(1))
    }
}

/// The sum of the packs' reported token totals.
pub open spec fn pack_tok_sum(packs: Seq<PackItem>) -> int
    decreases packs.len(),
{
    if packs.len() == 0 {
        0
    } else {
        pack_tok_sum(packs.drop_last()) + packs.last().estimated_tokens as int
    }
}

/// Each pack reports exactly the files of its index slice: their paths
/// in order, their joined rendered text, their token total, and its
/// own position.
pub open spec fn packs_from_bins(
    files: Seq<FileContent>,
    fmt: Seq<char>,
    bins: Seq<Seq<usize>>,
    packs: Seq<PackItem>,
) -> bool {
    &&& packs.len() == bins.len()
    &&& forall|k: int, j: int|
        0 <= k < bins.len() && 0 <= j < bins[k].len() ==> ((#[trigger] bins[k][j]) as int)
            < files.len()
    &&& forall|k: int| 0 <= k < bins.len() ==> (#[trigger] packs[k]).index == k
    &&& forall|k: int| 0 <= k < bins.len() ==> (#[trigger] packs[k]).file_count == bins[k].len()
    &&& forall|k: int|
        0 <= k < bins.len() ==> seq_views((#[trigger] packs[k]).file_paths@) == paths_of_bin(
            files,
            bins[k],
        )
    &&& forall|k: int|
        0 <= k < bins.len() ==> (#[trigger] packs[k]).estimated_tokens as int == sum_file_toks(
            files,
            bins[k],
        )
    &&& forall|k: int|
        0 <= k < bins.len() ==> (#[trigger] packs[k]).content@ == join_sep(
            renders_of_bin(files, fmt, bins[k]),
            "\n\n"@,
        )
}

proof fn lemma_sum_file_remove(files: Seq<FileContent>, s: Seq<usize>, j: int)
    requires
        0 <= j < s.len(),
    ensures
        sum_file_toks(files, s) == sum_file_toks(files, s.remove(j)) + file_tok(
            files[s[j] as int],
        ),
    decreases s.len(),
{
    if j == s.len() - 1 {
        assert(s.remove(j) =~= s.drop_last());
    } else {
        assert(s.remove(j).drop_last() =~= s.drop_last().remove(j));
        assert(s.remove(j).last() == s.last());
        lemma_sum_file_remove(files, s.drop_last(), j);
    }
}

/// Sequences holding the same indices with the same multiplicities
/// weigh the same.
pub proof fn lemma_sum_file_multiset(files: Seq<FileContent>, a: Seq<usize>, b: Seq<usize>)
    requires
        a.to_multiset() == b.to_multiset(),
    ensures
        sum_file_toks(files, a) == sum_file_toks(files, b),
    decreases a.len(),
{
    broadcast use vstd::seq_lib::group_to_multiset_ensures;

    if a.len() == 0 {
        assert(a.to_multiset().len() == a.len());
        assert(b.to_multiset().len() == b.len());
        assert(b.len() == 0);
    } else {
        let x = a.last();
        assert(a =~= a.drop_last().push(x));
        assert(a.to_multiset() == a.drop_last().to_multiset().insert(x));
        assert(b.to_multiset().count(x) > 0);
        assert(b.contains(x));
        let j = choose|j: int| 0 <= j < b.len() && #[trigger] b[j] == x;
        assert(b.remove(j).to_multiset() == b.to_multiset().remove(x));
        assert(a.drop_last().to_multiset() =~= b.remove(j).to_multiset()) by {
            assert(a.drop_last().to_multiset() == a.to_multiset().remove(x));
        }
        lemma_sum_file_multiset(files, a.drop_last(), b.remove(j));
        lemma_sum_file_remove(files, b, j);
    }
}

proof fn lemma_sum_file_concat(files: Seq<FileContent>, a: Seq<usize>, b: Seq<usize>)
    ensures
        sum_file_toks(files, a + b) == sum_file_toks(files, a) + sum_file_toks(files, b),
    decreases b.len(),
{
    if b.len() == 0 {
        assert(a + b =~= a);
    } else {
        assert((a + b).drop_last() =~= a + b.drop_last());
        assert((a + b).last() == b.last());
        lemma_sum_file_concat(files, a, b.drop_last());
    }
}

proof fn lemma_sum_file_over_bins(files: Seq<FileContent>, bins: Seq<Seq<usize>>)
    ensures
        sum_file_toks(files, concat_all(bins)) == sum_bins_file(files, bins),
    decreases bins.len(),
{
    if bins.len() == 0 {
        assert(concat_all(bins) =~= Seq::<usize>::empty());
    } else {
        lemma_sum_file_over_bins(files, bins.skip(1));
        lemma_sum_file_concat(files, bins[0], concat_all(bins.skip(1)));
        assert(sum_bins_file(files, bins) == file_bin_sum_head(files, bins));
    }
}

spec fn sum_bins_file(files: Seq<FileContent>, bins: Seq<Seq<usize>>) -> int
    decreases bins.len(),
{
    if bins.len() == 0 {
        0
    } else {
        sum_file_toks(files, bins[0]) + sum_bins_file(files, bins.skip(1))
    }
}

spec fn file_bin_sum_head(files: Seq<FileContent>, bins: Seq<Seq<usize>>) -> int {
    sum_file_toks(files, bins[0]) + sum_bins_file(files, bins.skip(1))
}

proof fn lemma_ident_props(n: int)
    requires
        0 <= n <= usize::MAX as int,
    ensures
        ident_seq(n).len() == n,
        ident_seq(n).no_duplicates(),
        forall|j: int| 0 <= j < n ==> (#[trigger] ident_seq(n)[j]) as int == j,
        forall|v: usize| ident_seq(n).contains(v) <==> (v as int) < n,
{
    assert forall|v: usize| ident_seq(n).contains(v) <==> (v as int) < n by {
        if (v as int) < n {
            assert(ident_seq(n)[v as int] == v);
        }
        if ident_seq(n).contains(v) {
            let j = choose|j: int| 0 <= j < n && #[trigger] ident_seq(n)[j] == v;
        }
    }
}

proof fn lemma_sum_file_ident(files: Seq<FileContent>, n: int)
    requires
        0 <= n <= files.len(),
        n <= usize::MAX as int,
    ensures
        sum_file_toks(files, ident_seq(n)) == total_toks(files.take(n)),
    decreases n,
{
    if n == 0 {
        assert(ident_seq(0) =~= Seq::<usize>::empty());
        assert(files.take(0) =~= Seq::<FileContent>::empty());
    } else {
        assert(ident_seq(n).drop_last() =~= ident_seq(n - 1));
        assert(ident_seq(n)[n - 1] == (n - 1) as usize);
        assert(((n - 1) as usize) as int == n - 1);
        assert(ident_seq(n).last() as int == n - 1);
        assert(files.take(n).drop_last() =~= files.take(n - 1));
        assert(files.take(n).last() == files[n - 1]);
        lemma_sum_file_ident(files, n - 1);
    }
}

/// The sum of pack token totals equals the total input weight: what P
/// reports is conserved.
pub proof fn lemma_pack_token_conservation(
    files: Seq<FileContent>,
    fmt: Seq<char>,
    bins: Seq<Seq<usize>>,
    packs: Seq<PackItem>,
)
    requires
        packs_from_bins(files, fmt, bins, packs),
        concat_all(bins).to_multiset() == ident_seq(files.len() as int).to_multiset(),
        files.len() <= usize::MAX as int,
    ensures
        pack_tok_sum(packs) == total_toks(files),
    decreases packs.len(),
{
    assert(forall|k: int|
        0 <= k < bins.len() ==> (#[trigger] packs[k]).estimated_tokens as int == sum_file_toks(
            files,
            bins[k],
        )) by {
        assert(forall|k: int| 0 <= k < bins.len() ==> (#[trigger] bins[k]) == bins[k]);
    }
    lemma_pack_sum_bins(files, bins, packs);
    lemma_sum_file_over_bins(files, bins);
    lemma_sum_file_multiset(files, concat_all(bins), ident_seq(files.len() as int));
    lemma_sum_file_ident(files, files.len() as int);
    assert(files.take(files.len() as int) =~= files);
}

proof fn lemma_pack_sum_bins(
    files: Seq<FileContent>,
    bins: Seq<Seq<usize>>,
    packs: Seq<PackItem>,
)
    requires
        packs.len() == bins.len(),
        forall|k: int|
            0 <= k < bins.len() ==> (#[trigger] packs[k]).estimated_tokens as int
                == sum_file_toks(files, bins[k]),
    ensures
        pack_tok_sum(packs) == sum_bins_file(files, bins),
    decreases bins.len(),
{
    if bins.len() > 0 {
        assert(forall|k: int|
            0 <= k < bins.drop_last().len() ==> (#[trigger] packs.drop_last()[k]).estimated_tokens
                as int == sum_file_toks(files, bins.drop_last()[k])) by {
            assert(forall|k: int|
                0 <= k < bins.drop_last().len() ==> packs.drop_last()[k] == packs[k]
                    && bins.drop_last()[k] == bins[k]);
        }
        lemma_pack_sum_bins(files, bins.drop_last(), packs.drop_last());
        lemma_sum_bins_drop_last(files, bins);
        assert(packs.last().estimated_tokens as int == sum_file_toks(
            files,
            bins[bins.len() - 1],
        ));
    }
}

proof fn lemma_sum_bins_drop_last(files: Seq<FileContent>, bins: Seq<Seq<usize>>)
    requires
        bins.len() > 0,
    ensures
        sum_bins_file(files, bins) == sum_bins_file(files, bins.drop_last()) + sum_file_toks(
            files,
            bins.last(),
        ),
    decreases bins.len(),
{
    if bins.len() == 1 {
        assert(bins.drop_last() =~= Seq::<Seq<usize>>::empty());
        assert(bins.skip(1) =~= Seq::<Seq<usize>>::empty());
    } else {
        assert(bins.skip(1).drop_last() =~= bins.drop_last().skip(1));
        assert(bins.skip(1).last() == bins.last());
        assert(bins.drop_last()[0] == bins[0]);
        lemma_sum_bins_drop_last(files, bins.skip(1));
    }
}

proof fn lemma_map_multiset(files: Seq<FileContent>, a: Seq<usize>, b: Seq<usize>)
    requires
        a.to_multiset() == b.to_multiset(),
    ensures
        paths_of_bin(files, a).to_multiset() == paths_of_bin(files, b).to_multiset(),
    decreases a.len(),
{
    broadcast use vstd::seq_lib::group_to_multiset_ensures;

    if a.len() == 0 {
        assert(a.to_multiset().len() == a.len());
        assert(b.to_multiset().len() == b.len());
        assert(b.len() == 0);
        assert(paths_of_bin(files, a) =~= paths_of_bin(files, b));
    } else {
        let x = a.last();
        assert(a =~= a.drop_last().push(x));
        assert(a.to_multiset() == a.drop_last().to_multiset().insert(x));
        assert(b.to_multiset().count(x) > 0);
        assert(b.contains(x));
        let j = choose|j: int| 0 <= j < b.len() && #[trigger] b[j] == x;
        assert(b.remove(j).to_multiset() == b.to_multiset().remove(x));
        assert(a.drop_last().to_multiset() =~= b.remove(j).to_multiset()) by {
            assert(a.drop_last().to_multiset() == a.to_multiset().remove(x));
        }
        lemma_map_multiset(files, a.drop_last(), b.remove(j));
        assert(paths_of_bin(files, a) =~= paths_of_bin(files, a.drop_last()).push(
            files[x as int].path@,
        ));
        assert(paths_of_bin(files, b.remove(j)) =~= paths_of_bin(files, b).remove(j));
        assert(paths_of_bin(files, b).remove(j).to_multiset() == paths_of_bin(
            files,
            b,
        ).to_multiset().remove(files[b[j] as int].path@));
        assert(paths_of_bin(files, a).to_multiset() == paths_of_bin(
            files,
            a.drop_last(),
        ).to_multiset().insert(files[x as int].path@));
        assert(paths_of_bin(files, a).to_multiset() =~= paths_of_bin(files, b).to_multiset());
    }
}

/// The pack path lists concatenate to the mapped flattened bins.
proof fn lemma_concat_paths_shifted(
    files: Seq<FileContent>,
    bins: Seq<Seq<usize>>,
    packs: Seq<PackItem>,
)
    requires
        packs.len() == bins.len(),
        forall|k: int|
            0 <= k < bins.len() ==> seq_views((#[trigger] packs[k]).file_paths@) == paths_of_bin(
                files,
                bins[k],
            ),
    ensures
        concat_paths(packs) == paths_of_bin(files, concat_all(bins)),
    decreases bins.len(),
{
    if bins.len() == 0 {
        assert(concat_paths(packs) =~= paths_of_bin(files, concat_all(bins)));
    } else {
        assert(forall|k: int|
            0 <= k < bins.skip(1).len() ==> seq_views(
                (#[trigger] packs.skip(1)[k]).file_paths@,
            ) == paths_of_bin(files, bins.skip(1)[k])) by {
            assert(forall|k: int|
                0 <= k < bins.skip(1).len() ==> packs.skip(1)[k] == packs[k + 1] && bins.skip(1)[k]
                    == bins[k + 1]);
        }
        lemma_concat_paths_shifted(files, bins.skip(1), packs.skip(1));
        assert(seq_views(packs[0].file_paths@) == paths_of_bin(files, bins[0]));
        assert(paths_of_bin(files, bins[0] + concat_all(bins.skip(1))) =~= paths_of_bin(
            files,
            bins[0],
        ) + paths_of_bin(files, concat_all(bins.skip(1))));
    }
}

/// Every input path lands in exactly one pack: the multiset of all
/// pack paths equals the input path multiset.
pub proof fn lemma_pack_path_conservation(
    files: Seq<FileContent>,
    fmt: Seq<char>,
    bins: Seq<Seq<usize>>,
    packs: Seq<PackItem>,
)
    requires
        packs_from_bins(files, fmt, bins, packs),
        concat_all(bins).to_multiset() == ident_seq(files.len() as int).to_multiset(),
        files.len() <= usize::MAX as int,
    ensures
        concat_paths(packs).to_multiset() == input_paths(files).to_multiset(),
{
    lemma_concat_paths_shifted(files, bins, packs);
    lemma_map_multiset(files, concat_all(bins), ident_seq(files.len() as int));
    assert(paths_of_bin(files, ident_seq(files.len() as int)) =~= input_paths(files)) by {
        lemma_ident_props(files.len() as int);
    }
}

proof fn lemma_filter_split_multiset(
    s: Seq<usize>,
    p: spec_fn(usize) -> bool,
    q: spec_fn(usize) -> bool,
)
    requires
        forall|x: usize| #[trigger] q(x) == !p(x),
    ensures
        s.filter(p).to_multiset().add(s.filter(q).to_multiset()) == s.to_multiset(),
    decreases s.len(),
{
    broadcast use vstd::seq_lib::group_to_multiset_ensures;
    broadcast use vstd::prelude::Seq::lemma_filter_push;

    if s.len() == 0 {
        reveal(Seq::filter);
        assert(s.filter(p).to_multiset().add(s.filter(q).to_multiset()) =~= s.to_multiset());
    } else {
        let d = s.drop_last();
        let x = s.last();
        lemma_filter_split_multiset(d, p, q);
        assert(s =~= d.push(x));
        assert(s.to_multiset() == d.to_multiset().insert(x));
        assert(d.push(x).filter(p) == if p(x) {
            d.filter(p).push(x)
        } else {
            d.filter(p)
        });
        assert(d.push(x).filter(q) == if q(x) {
            d.filter(q).push(x)
        } else {
            d.filter(q)
        });
        if p(x) {
            assert(s.filter(p).to_multiset() == d.filter(p).to_multiset().insert(x));
            assert(s.filter(p).to_multiset().add(s.filter(q).to_multiset()) =~= s.to_multiset());
        } else {
            assert(s.filter(q).to_multiset() == d.filter(q).to_multiset().insert(x));
            assert(s.filter(p).to_multiset().add(s.filter(q).to_multiset()) =~= s.to_multiset());
        }
    }
}

proof fn lemma_filter_sub_contains(s: Seq<usize>, p: spec_fn(usize) -> bool, x: usize)
    requires
        s.filter(p).contains(x),
    ensures
        s.contains(x),
    decreases s.len(),
{
    broadcast use vstd::prelude::Seq::lemma_filter_push;

    if s.len() == 0 {
        reveal(Seq::filter);
    } else {
        let d = s.drop_last();
        let l = s.last();
        assert(s =~= d.push(l));
        if p(l) {
            assert(s.filter(p) == d.filter(p).push(l));
            let i = choose|i: int| 0 <= i < s.filter(p).len() && #[trigger] s.filter(p)[i] == x;
            if i == d.filter(p).len() {
                assert(x == l);
                assert(s[s.len() - 1] == x);
            } else {
                assert(d.filter(p)[i] == x);
                lemma_filter_sub_contains(d, p, x);
                let j = choose|j: int| 0 <= j < d.len() && #[trigger] d[j] == x;
                assert(s[j] == x);
            }
        } else {
            assert(s.filter(p) == d.filter(p));
            lemma_filter_sub_contains(d, p, x);
            let j = choose|j: int| 0 <= j < d.len() && #[trigger] d[j] == x;
            assert(s[j] == x);
        }
    }
}

proof fn lemma_filter_nodup(s: Seq<usize>, p: spec_fn(usize) -> bool)
    requires
        s.no_duplicates(),
    ensures
        s.filter(p).no_duplicates(),
    decreases s.len(),
{
    broadcast use vstd::prelude::Seq::lemma_filter_push;

    if s.len() == 0 {
        reveal(Seq::filter);
    } else {
        let d = s.drop_last();
        let x = s.last();
        assert(d.no_duplicates());
        lemma_filter_nodup(d, p);
        assert(s =~= d.push(x));
        if p(x) {
            assert(s.filter(p) == d.filter(p).push(x));
            assert(!d.filter(p).contains(x)) by {
                if d.filter(p).contains(x) {
                    lemma_filter_sub_contains(d, p, x);
                    let j = choose|j: int| 0 <= j < d.len() && #[trigger] d[j] == x;
                    assert(s[j] == x && s[s.len() - 1] == x);
                }
            }
            assert forall|a: int, b: int|
                0 <= a < b < s.filter(p).len() implies s.filter(p)[a] != s.filter(p)[b] by {
                if b == d.filter(p).len() {
                    assert(s.filter(p)[b] == x);
                    assert(s.filter(p)[a] == d.filter(p)[a]);
                    if d.filter(p)[a] == x {
                        assert(d.filter(p).contains(x));
                    }
                }
            }
        } else {
            assert(s.filter(p) == d.filter(p));
        }
    }
}

proof fn lemma_sum_tc_file(files: Seq<FileContent>, tc: Seq<usize>, s: Seq<usize>)
    requires
        tc.len() == files.len(),
        forall|i: int| 0 <= i < tc.len() ==> (#[trigger] tc[i]) as int == file_tok(files[i]),
        forall|j: int| 0 <= j < s.len() ==> ((#[trigger] s[j]) as int) < files.len(),
    ensures
        sum_toks(tc, s) == sum_file_toks(files, s),
    decreases s.len(),
{
    if s.len() > 0 {
        assert(forall|j: int|
            0 <= j < s.drop_last().len() ==> ((#[trigger] s.drop_last()[j]) as int) < files.len());
        lemma_sum_tc_file(files, tc, s.drop_last());
        assert((s[s.len() - 1] as int) < files.len());
    }
}

/// The identity index list `0, 1, ..., n-1`.
fn identity_indices(n: usize) -> (r: Vec<usize>)
    ensures
        r@ == ident_seq(n as int),
{
    let mut out: Vec<usize> = Vec::new();
    let mut i: usize = 0;
    while i < n
        invariant
            0 <= i <= n,
            out@.len() == i,
            forall|j: int| 0 <= j < i ==> (#[trigger] out@[j]) as int == j,
        decreases n - i,
    {
        out.push(i);
        i += 1;
    }
    proof {
        assert(out@ =~= ident_seq(n as int));
    }
    out
}

/// The token weight of every input file, precomputed or estimated.
fn token_counts_of(files: &Vec<FileContent>) -> (r: Vec<usize>)
    ensures
        r@.len() == files@.len(),
        forall|i: int| 0 <= i < r@.len() ==> (#[trigger] r@[i]) as int == file_tok(files@[i]),
        r@ == tc_of(files@),
{
    let mut out: Vec<usize> = Vec::new();
    let mut i: usize = 0;
    while i < files.len()
        invariant
            0 <= i <= files@.len(),
            out@.len() == i,
            forall|j: int| 0 <= j < i ==> (#[trigger] out@[j]) as int == file_tok(files@[j]),
        decreases files@.len() - i,
    {
        let t = match files[i].token_count {
            Some(t) => t,
            None => estimate_tokens(files[i].content.as_str()),
        };
        out.push(t);
        i += 1;
    }
    proof {
        assert forall|i: int| 0 <= i < files@.len() implies out@[i] == tc_of(files@)[i] by {
            lemma_file_tok_u(files@[i]);
        }
        assert(out@ =~= tc_of(files@));
    }
    out
}

/// Pack a set of files: order them dependency-first, put re-prioritised
/// documentation ahead of import-grouped code, split everything into
/// token-balanced packs and render each pack.
#[verifier::rlimit(100)]
pub fn pack_files(request: PackRequest) -> (r: Result<PackResponse, String>)
    requires
        total_toks(request.files@) <= usize::MAX as int,
    ensures
        r is Ok,
        request.files@.len() == 0 ==> (r->Ok_0).packs@.len() == 0 && (r->Ok_0).total_tokens == 0,
        (r->Ok_0).total_tokens as int == total_toks(request.files@),
        pack_tok_sum((r->Ok_0).packs@) == (r->Ok_0).total_tokens as int,
        concat_paths((r->Ok_0).packs@).to_multiset() == input_paths(request.files@).to_multiset(),
        forall|k: int|
            0 <= k < (r->Ok_0).packs@.len() ==> {
                let p = (#[trigger] (r->Ok_0).packs@[k]);
                p.index == k && p.file_count == p.file_paths@.len() && p.file_paths@.len() > 0
            },
        (r->Ok_0).packs@.len() <= (if request.num_packs < 1 {
            1int
        } else {
            request.num_packs as int
        }),
        request.files@.len() > 0 ==> (r->Ok_0).packs@.len() >= 1,
        exists|bins: Seq<Seq<usize>>|
            #[trigger] packs_from_bins(
                request.files@,
                request.output_format@,
                bins,
                (r->Ok_0).packs@,
            ) && concat_all(bins).to_multiset() == ident_seq(
                request.files@.len() as int,
            ).to_multiset(),
        exists|dep: Seq<usize>, code_o: Seq<usize>|
            #![trigger ordering_stage(request.files@, dep), grouping_stage(request.files@, dep, code_o)]
            ordering_stage(request.files@, dep) && grouping_stage(request.files@, dep, code_o)
                && packs_from_bins(
                request.files@,
                request.output_format@,
                strategy_spec(
                    doc_sort_spec(request.files@, doc_indices(request.files@, dep)),
                    code_o,
                    if request.num_packs < 1 {
                        1int
                    } else {
                        request.num_packs as int
                    },
                    tc_of(request.files@),
                ),
                (r->Ok_0).packs@,
            ),
{
    let files = &request.files;
    let n = files.len();
    if n == 0 {
        let resp = PackResponse { packs: Vec::new(), total_tokens: 0 };
        proof {
            let bins0 = Seq::<Seq<usize>>::empty();
            assert(packs_from_bins(request.files@, request.output_format@, bins0, resp.packs@));
            assert(concat_all(bins0).to_multiset() =~= ident_seq(0).to_multiset()) by {
                assert(ident_seq(0) =~= Seq::<usize>::empty());
            }
            assert(concat_paths(resp.packs@) =~= Seq::<Seq<char>>::empty());
            assert(input_paths(request.files@) =~= Seq::<Seq<char>>::empty());
            assert(concat_paths(resp.packs@).to_multiset() =~= input_paths(
                request.files@,
            ).to_multiset());
            // with no files every stage is the empty sequence
            let dep0 = Seq::<usize>::empty();
            let adj0 = Seq::<Vec<usize>>::empty();
            assert(order_split(request.files@, dep0, 0));
            assert(ordering_stage(request.files@, dep0));
            assert(code_indices(request.files@, dep0) =~= Seq::<usize>::empty());
            assert(grouping_stage_with(request.files@, dep0, dep0, adj0));
            assert(grouping_stage(request.files@, dep0, dep0));
            let np0 = if request.num_packs < 1 {
                1int
            } else {
                request.num_packs as int
            };
            let docs0 = doc_sort_spec(request.files@, doc_indices(request.files@, dep0));
            assert(docs0 =~= Seq::<usize>::empty()) by {
                assert(doc_indices(request.files@, dep0) =~= Seq::<usize>::empty());
            }
            assert((docs0 + dep0).len() == 0) by {
                assert(docs0 + dep0 =~= Seq::<usize>::empty());
            }
            assert(strategy_spec(docs0, dep0, np0, tc_of(request.files@)) =~= Seq::<
                Seq<usize>,
            >::empty());
            assert(packs_from_bins(
                request.files@,
                request.output_format@,
                strategy_spec(docs0, dep0, np0, tc_of(request.files@)),
                resp.packs@,
            ));
        }
        return Ok(resp);
    }
    let num_packs = if request.num_packs < 1 {
        1
    } else {
        request.num_packs
    };

    let token_counts = token_counts_of(files);
    let ghost tc = token_counts@;

    let idents = identity_indices(n);
    proof {
        lemma_ident_props(n as int);
        lemma_sum_tc_file(files@, tc, ident_seq(n as int));
        lemma_sum_file_ident(files@, n as int);
        assert(files@.take(n as int) =~= files@);
    }
    let total_tokens = sum_token_counts(&idents, &token_counts);

    let dependency_order = compute_dependency_order(files);
    let ghost doc_pred = |idx: usize| is_doc_spec(files@[idx as int].path@);
    let ghost code_pred = |idx: usize| !is_doc_spec(files@[idx as int].path@);
    let split = split_docs_and_code(&dependency_order, files);
    let docs_order = split.0;
    let code_initial = split.1;
    proof {
        lemma_filter_nodup(dependency_order@, code_pred);
    }
    let related = build_related_adjacency(files);
    proof {
        assert(files@.len() <= usize::MAX as int);
        crate::group::lemma_meaning_symmetric(related@, files@);
    }
    let code_order = group_code_by_related_components(&code_initial, &related);

    proof {
        broadcast use vstd::seq_lib::group_to_multiset_ensures;
        broadcast use vstd::seq_lib::lemma_multiset_commutative;

        // the two subsequences together are a permutation of all indices
        assert forall|v: usize| dependency_order@.contains(v) <==> ident_seq(n as int).contains(
            v,
        ) by {
            if dependency_order@.contains(v) {
                let j = choose|j: int|
                    0 <= j < dependency_order@.len() && #[trigger] dependency_order@[j] == v;
            }
        }
        lemma_nodup_same_set_multiset(dependency_order@, ident_seq(n as int));
        lemma_filter_split_multiset(dependency_order@, doc_pred, code_pred);
        assert(dependency_order@.filter(doc_pred).to_multiset().add(
            dependency_order@.filter(code_pred).to_multiset(),
        ) == ident_seq(n as int).to_multiset());
        assert((docs_order@ + code_order@).to_multiset() == ident_seq(n as int).to_multiset());
        // hence their combined weight is the total weight
        lemma_sum_tc_file(files@, tc, docs_order@ + code_order@);
        lemma_sum_file_multiset(files@, docs_order@ + code_order@, ident_seq(n as int));
        crate::distribute::lemma_sum_concat(tc, docs_order@, code_order@);
        assert(sum_toks(tc, docs_order@) + sum_toks(tc, code_order@) == total_toks(files@)) by {
            assert forall|j: int|
                0 <= j < (docs_order@ + code_order@).len() implies ((#[trigger] (docs_order@
                + code_order@)[j]) as int) < files@.len() by {
                if j < docs_order@.len() {
                    assert((docs_order@ + code_order@)[j] == docs_order@[j]);
                } else {
                    assert((docs_order@ + code_order@)[j] == code_order@[j - docs_order@.len()]);
                }
            }
        }
    }
    let bins = distribute_with_doc_strategy(&docs_order, &code_order, num_packs, &token_counts);
    let ghost bv = crate::distribute::bin_views(bins@);
    proof {
        crate::distribute::lemma_strategy_flatten(docs_order@, code_order@, num_packs as int, tc);
        assert(concat_all(bv) == docs_order@ + code_order@);
        crate::distribute::lemma_strategy_counts(docs_order@, code_order@, num_packs as int, tc);
        assert forall|k: int, j: int|
            0 <= k < bv.len() && 0 <= j < bv[k].len() implies ((#[trigger] bv[k][j]) as int)
            < files@.len() by {
            crate::distribute::lemma_concat_contains(bv, k, j);
            let c = docs_order@ + code_order@;
            let i = choose|i: int| 0 <= i < c.len() && #[trigger] c[i] == bv[k][j];
            if i < docs_order@.len() {
                assert(c[i] == docs_order@[i]);
            } else {
                assert(c[i] == code_order@[i - docs_order@.len()]);
            }
        }
    }

    let format = &request.output_format;
    let ghost fmt = request.output_format@;
    let mut packs: Vec<PackItem> = Vec::new();
    let mut k: usize = 0;
    proof {
        assert(bv.take(0) =~= Seq::<Seq<usize>>::empty());
        assert(packs_from_bins(files@, fmt, bv.take(0), packs@));
    }
    while k < bins.len()
        invariant
            n == files@.len(),
            tc == token_counts@,
            tc.len() == n,
            forall|i: int| 0 <= i < n ==> (#[trigger] tc[i]) as int == file_tok(files@[i]),
            fmt == request.output_format@,
            format@ == fmt,
            bv == crate::distribute::bin_views(bins@),
            sum_toks(tc, concat_all(bv)) == total_toks(files@),
            total_toks(files@) <= usize::MAX as int,
            forall|k2: int, j: int|
                0 <= k2 < bv.len() && 0 <= j < bv[k2].len() ==> ((#[trigger] bv[k2][j]) as int)
                    < n,
            0 <= k <= bins@.len(),
            packs@.len() == k,
            packs_from_bins(files@, fmt, bv.take(k as int), packs@),
        decreases bins@.len() - k,
    {
        let bin = &bins[k];
        proof {
            assert(bin@ == bv[k as int]);
            crate::distribute::lemma_sum_bin_le(tc, bv, k as int);
            crate::distribute::lemma_sum_nonneg(tc, bv[k as int]);
        }
        let pack_tokens = sum_token_counts(bin, &token_counts);
        let mut parts: Vec<String> = Vec::new();
        let mut file_paths: Vec<String> = Vec::new();
        let mut j: usize = 0;
        proof {
            assert(seq_views(parts@) =~= renders_of_bin(files@, fmt, bv[k as int].take(0)));
            assert(seq_views(file_paths@) =~= paths_of_bin(files@, bv[k as int].take(0)));
        }
        while j < bin.len()
            invariant
                n == files@.len(),
                fmt == request.output_format@,
                format@ == fmt,
                bin@ == bv[k as int],
                0 <= k < bv.len(),
                forall|k2: int, jj: int|
                    0 <= k2 < bv.len() && 0 <= jj < bv[k2].len() ==> ((#[trigger] bv[k2][jj])
                        as int) < n,
                0 <= j <= bin@.len(),
                seq_views(parts@) == renders_of_bin(files@, fmt, bin@.take(j as int)),
                seq_views(file_paths@) == paths_of_bin(files@, bin@.take(j as int)),
            decreases bin@.len() - j,
        {
            let idx = bin[j];
            proof {
                assert(bv[k as int][j as int] == idx);
                assert((idx as int) < n);
            }
            let formatted = format_file_header(
                files[idx].path.as_str(),
                files[idx].content.as_str(),
                format.as_str(),
            );
            let ghost pre_parts = seq_views(parts@);
            let ghost pre_paths = seq_views(file_paths@);
            parts.push(formatted);
            file_paths.push(files[idx].path.clone());
            proof {
                assert(seq_views(parts@) =~= pre_parts.push(
                    header_spec(files@[idx as int].path@, files@[idx as int].content@, fmt),
                ));
                assert(seq_views(file_paths@) =~= pre_paths.push(files@[idx as int].path@));
                assert(bin@.take(j + 1) =~= bin@.take(j as int).push(idx));
                assert(renders_of_bin(files@, fmt, bin@.take(j + 1)) =~= renders_of_bin(
                    files@,
                    fmt,
                    bin@.take(j as int),
                ).push(header_spec(files@[idx as int].path@, files@[idx as int].content@, fmt)));
                assert(paths_of_bin(files@, bin@.take(j + 1)) =~= paths_of_bin(
                    files@,
                    bin@.take(j as int),
                ).push(files@[idx as int].path@));
            }
            j += 1;
        }
        let inner = join_with(&parts, "\n\n");
        let content = wrap_pack(inner.as_str());
        let item = PackItem {
            index: k,
            content,
            estimated_tokens: pack_tokens,
            file_count: bin.len(),
            file_paths,
        };
        let ghost pre_packs = packs@;
        packs.push(item);
        proof {
            assert(bin@.take(bin@.len() as int) =~= bin@);
            assert forall|jj: int|
                0 <= jj < bin@.len() implies ((#[trigger] bin@[jj]) as int) < n by {
                assert(bv[k as int][jj] == bin@[jj]);
            }
            lemma_sum_tc_file(files@, tc, bin@);
            assert(bv.take(k + 1) =~= bv.take(k as int).push(bv[k as int]));
            assert forall|k2: int|
                0 <= k2 < bv.take(k + 1).len() implies (#[trigger] packs@[k2]).index == k2 && (
            packs@[k2]).file_count == bv.take(k + 1)[k2].len() && seq_views(
                packs@[k2].file_paths@,
            ) == paths_of_bin(files@, bv.take(k + 1)[k2]) && (packs@[k2]).estimated_tokens as int
                == sum_file_toks(files@, bv.take(k + 1)[k2]) && (packs@[k2]).content@ == join_sep(
                renders_of_bin(files@, fmt, bv.take(k + 1)[k2]),
                "\n\n"@,
            ) by {
                if k2 < k {
                    assert(bv.take(k + 1)[k2] == bv.take(k as int)[k2]);
                    assert(packs@[k2] == pre_packs[k2]);
                } else {
                    assert(bv.take(k + 1)[k2] == bv[k as int]);
                    assert(packs@[k2] == item);
                }
            }
            assert forall|k2: int, jj: int|
                0 <= k2 < bv.take(k + 1).len() && 0 <= jj < bv.take(k + 1)[k2].len() implies ((
            #[trigger] bv.take(k + 1)[k2][jj]) as int) < files@.len() by {
                assert(bv.take(k + 1)[k2] == bv[k2]);
            }
            assert(packs@.len() == bv.take(k + 1).len());
            assert(packs_from_bins(files@, fmt, bv.take(k + 1), packs@));
        }
        k += 1;
    }
    proof {
        assert(bv.take(bv.len() as int) =~= bv);
    }

    proof {
        broadcast use vstd::seq_lib::group_to_multiset_ensures;
        broadcast use vstd::seq_lib::lemma_multiset_commutative;

        assert(concat_all(bv).to_multiset() == ident_seq(n as int).to_multiset()) by {
            assert(concat_all(bv) == docs_order@ + code_order@);
        }
        lemma_pack_token_conservation(files@, fmt, bv, packs@);
        lemma_pack_path_conservation(files@, fmt, bv, packs@);
        assert forall|k2: int| 0 <= k2 < packs@.len() implies {
            let p = (#[trigger] packs@[k2]);
            p.index == k2 && p.file_count == p.file_paths@.len() && p.file_paths@.len() > 0
        } by {
            assert(bv[k2] == bv.take(bv.len() as int)[k2]);
            assert(seq_views(packs@[k2].file_paths@).len() == paths_of_bin(files@, bv[k2]).len());
            assert(bv[k2].len() > 0);
        }
        assert(packs_from_bins(request.files@, request.output_format@, bv, packs@));
        assert((docs_order@ + code_order@).len() == ident_seq(n as int).len()) by {
            assert((docs_order@ + code_order@).to_multiset().len() == ident_seq(
                n as int,
            ).to_multiset().len());
        }
        assert(packs@.len() >= 1);
        // the witness bins are exactly the strategy applied to the
        // sorted documentation and the grouped code of the computed
        // dependency order
        let dep = dependency_order@;
        assert(ordering_stage(files@, dep));
        assert(code_initial@ == code_indices(files@, dep));
        assert(grouping_stage_with(files@, dep, code_order@, related@));
        assert(grouping_stage(files@, dep, code_order@));
        assert(num_packs as int == if request.num_packs < 1 {
            1int
        } else {
            request.num_packs as int
        });
        assert(tc == tc_of(files@));
        assert(docs_order@ == doc_sort_spec(files@, doc_indices(files@, dep)));
        assert(bv == strategy_spec(
            doc_sort_spec(files@, doc_indices(files@, dep)),
            code_order@,
            if request.num_packs < 1 {
                1int
            } else {
                request.num_packs as int
            },
            tc_of(files@),
        ));
        assert(packs_from_bins(
            request.files@,
            request.output_format@,
            strategy_spec(
                doc_sort_spec(request.files@, doc_indices(request.files@, dep)),
                code_order@,
                if request.num_packs < 1 {
                    1int
                } else {
                    request.num_packs as int
                },
                tc_of(request.files@),
            ),
            packs@,
        ));
    }
    Ok(PackResponse { packs, total_tokens })
}

} // verus!
