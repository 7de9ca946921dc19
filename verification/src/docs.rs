//! Documentation/code classification and documentation re-prioritising.

use vstd::prelude::*;

verus! {

use crate::models::FileContent;
use crate::paths::{basename_spec, ext_or_empty_spec, normalize_spec};
use crate::paths::{file_basename, normalize_path, path_extension};
use crate::text::{contains_sub, lex_le, lower_seq};
use crate::text::{contains_str, eq_str, lower_str, starts_with_str, str_le};

/// Is the path a documentation file, judged by its extension?
pub open spec fn is_doc_spec(path: Seq<char>) -> bool {
    let e = lower_seq(ext_or_empty_spec(path));
    e == "md"@ || e == "mdx"@ || e == "txt"@ || e == "rst"@ || e == "adoc"@
}

/// The four-bucket documentation priority: readme files first, then
/// architecture-level documents, then anything under a `docs/` segment,
/// then the rest.
pub open spec fn doc_bucket_spec(path: Seq<char>) -> u8 {
    let base = lower_seq(basename_spec(path));
    let norm = lower_seq(normalize_spec(path));
    if "readme"@.is_prefix_of(base) {
        0u8
    } else if "overview"@.is_prefix_of(base) || "architecture"@.is_prefix_of(base)
        || "design"@.is_prefix_of(base) || "spec"@.is_prefix_of(base)
        || "contributing"@.is_prefix_of(base) {
        1u8
    } else if "docs/"@.is_prefix_of(norm) || contains_sub(norm, "/docs/"@) {
        2u8
    } else {
        3u8
    }
}

/// The full documentation sort key of a file index.
pub open spec fn doc_key_spec(files: Seq<FileContent>, idx: usize) -> (u8, Seq<char>) {
    (doc_bucket_spec(files[idx as int].path@), lower_seq(normalize_spec(files[idx as int].path@)))
}

/// Order on documentation sort keys: bucket first, then the lower-cased
/// normalized path lexicographically.
pub open spec fn doc_key_le(a: (u8, Seq<char>), b: (u8, Seq<char>)) -> bool {
    a.0 < b.0 || (a.0 == b.0 && lex_le(a.1, b.1))
}

/// Is the path a documentation file?
pub fn is_doc_file(path: &str) -> (r: bool)
    ensures
        r == is_doc_spec(path@),
{
    let e = path_extension(path);
    eq_str(e.as_str(), "md") || eq_str(e.as_str(), "mdx") || eq_str(e.as_str(), "txt") || eq_str(
        e.as_str(),
        "rst",
    ) || eq_str(e.as_str(), "adoc")
}

/// The documentation priority key of a path.
pub fn doc_priority(path: &str) -> (r: (u8, String))
    ensures
        r.0 == doc_bucket_spec(path@),
        r.1@ == lower_seq(normalize_spec(path@)),
{
    let norm = normalize_path(path);
    let normalized = lower_str(norm.as_str());
    let basename = file_basename(path);

    let bucket: u8 = if starts_with_str(basename.as_str(), "readme") {
        0
    } else if starts_with_str(basename.as_str(), "overview") || starts_with_str(
        basename.as_str(),
        "architecture",
    ) || starts_with_str(basename.as_str(), "design") || starts_with_str(
        basename.as_str(),
        "spec",
    ) || starts_with_str(basename.as_str(), "contributing") {
        1
    } else if starts_with_str(normalized.as_str(), "docs/") || contains_str(
        normalized.as_str(),
        "/docs/",
    ) {
        2
    } else {
        3
    };

    (bucket, normalized)
}

/// The documentation files of an index sequence, in sequence order.
pub open spec fn doc_indices(files: Seq<FileContent>, s: Seq<usize>) -> Seq<usize>
    decreases s.len(),
{
    if s.len() == 0 {
        Seq::empty()
    } else {
        let rest = doc_indices(files, s.drop_last());
        if is_doc_spec(files[s.last() as int].path@) {
            rest.push(s.last())
        } else {
            rest
        }
    }
}

/// The code files of an index sequence, in sequence order.
pub open spec fn code_indices(files: Seq<FileContent>, s: Seq<usize>) -> Seq<usize>
    decreases s.len(),
{
    if s.len() == 0 {
        Seq::empty()
    } else {
        let rest = code_indices(files, s.drop_last());
        if !is_doc_spec(files[s.last() as int].path@) {
            rest.push(s.last())
        } else {
            rest
        }
    }
}

pub proof fn lemma_doc_indices_filter(
    files: Seq<FileContent>,
    s: Seq<usize>,
    p: spec_fn(usize) -> bool,
)
    requires
        forall|x: usize| #[trigger] p(x) == is_doc_spec(files[x as int].path@),
    ensures
        doc_indices(files, s) == s.filter(p),
    decreases s.len(),
{
    broadcast use vstd::prelude::Seq::lemma_filter_push;

    if s.len() == 0 {
        reveal(Seq::filter);
        assert(doc_indices(files, s) =~= s.filter(p));
    } else {
        lemma_doc_indices_filter(files, s.drop_last(), p);
        assert(s =~= s.drop_last().push(s.last()));
        assert(p(s.last()) == is_doc_spec(files[s.last() as int].path@));
    }
}

pub proof fn lemma_code_indices_filter(
    files: Seq<FileContent>,
    s: Seq<usize>,
    p: spec_fn(usize) -> bool,
)
    requires
        forall|x: usize| #[trigger] p(x) == !is_doc_spec(files[x as int].path@),
    ensures
        code_indices(files, s) == s.filter(p),
    decreases s.len(),
{
    broadcast use vstd::prelude::Seq::lemma_filter_push;

    if s.len() == 0 {
        reveal(Seq::filter);
        assert(code_indices(files, s) =~= s.filter(p));
    } else {
        lemma_code_indices_filter(files, s.drop_last(), p);
        assert(s =~= s.drop_last().push(s.last()));
        assert(p(s.last()) == !is_doc_spec(files[s.last() as int].path@));
    }
}

/// Insertion of `x` into a key-sorted index sequence, after every
/// entry whose key is not greater.
pub open spec fn doc_sorted_insert(files: Seq<FileContent>, s: Seq<usize>, x: usize) -> Seq<
    usize,
>
    decreases s.len(),
{
    if s.len() > 0 && doc_key_le(doc_key_spec(files, s[0]), doc_key_spec(files, x)) {
        seq![s[0]] + doc_sorted_insert(files, s.skip(1), x)
    } else {
        seq![x] + s
    }
}

/// The stable sort of an index sequence by documentation key: entries
/// are inserted one by one, each after the entries with equal keys.
pub open spec fn doc_sort_spec(files: Seq<FileContent>, s: Seq<usize>) -> Seq<usize>
    decreases s.len(),
{
    if s.len() == 0 {
        Seq::empty()
    } else {
        doc_sorted_insert(files, doc_sort_spec(files, s.drop_last()), s.last())
    }
}

proof fn lemma_doc_insert_at(files: Seq<FileContent>, s: Seq<usize>, x: usize, p: int)
    requires
        0 <= p <= s.len(),
        forall|j: int|
            0 <= j < p ==> doc_key_le(doc_key_spec(files, #[trigger] s[j]), doc_key_spec(files, x)),
        p < s.len() ==> !doc_key_le(doc_key_spec(files, s[p]), doc_key_spec(files, x)),
    ensures
        doc_sorted_insert(files, s, x) == s.insert(p, x),
    decreases p,
{
    if p == 0 {
        assert(doc_sorted_insert(files, s, x) =~= s.insert(0, x));
    } else {
        assert(doc_key_le(doc_key_spec(files, s[0]), doc_key_spec(files, x)));
        assert(forall|j: int|
            0 <= j < p - 1 ==> doc_key_le(
                doc_key_spec(files, #[trigger] s.skip(1)[j]),
                doc_key_spec(files, x),
            )) by {
            assert(forall|j: int| 0 <= j < s.skip(1).len() ==> s.skip(1)[j] == s[j + 1]);
        }
        assert(p - 1 < s.skip(1).len() ==> !doc_key_le(
            doc_key_spec(files, s.skip(1)[p - 1]),
            doc_key_spec(files, x),
        ));
        lemma_doc_insert_at(files, s.skip(1), x, p - 1);
        assert(doc_sorted_insert(files, s, x) =~= s.insert(p, x));
    }
}

pub proof fn lemma_doc_key_le_total(a: (u8, Seq<char>), b: (u8, Seq<char>))
    ensures
        doc_key_le(a, b) || doc_key_le(b, a),
{
    crate::text::lemma_lex_le_total(a.1, b.1);
}

pub proof fn lemma_doc_key_le_trans(a: (u8, Seq<char>), b: (u8, Seq<char>), c: (u8, Seq<char>))
    requires
        doc_key_le(a, b),
        doc_key_le(b, c),
    ensures
        doc_key_le(a, c),
{
    if a.0 == b.0 && b.0 == c.0 {
        crate::text::lemma_lex_le_trans(a.1, b.1, c.1);
    }
}

/// Documentation files whose basename starts with `readme` always sort
/// first among documentation files: in any sequence ordered by the
/// documentation key, a readme file never follows a non-readme file.
pub proof fn lemma_readme_docs_first(files: Seq<FileContent>, docs: Seq<usize>, a: int, b: int)
    requires
        forall|x: int, y: int|
            0 <= x < y < docs.len() ==> #[trigger] doc_key_le(
                doc_key_spec(files, docs[x]),
                doc_key_spec(files, docs[y]),
            ),
        forall|j: int| 0 <= j < docs.len() ==> (#[trigger] docs[j]) < files.len(),
        0 <= a < docs.len(),
        0 <= b < docs.len(),
        "readme"@.is_prefix_of(lower_seq(basename_spec(files[docs[b] as int].path@))),
        !"readme"@.is_prefix_of(lower_seq(basename_spec(files[docs[a] as int].path@))),
    ensures
        b < a,
{
    if a < b {
        assert(doc_key_le(doc_key_spec(files, docs[a]), doc_key_spec(files, docs[b])));
        assert(doc_bucket_spec(files[docs[b] as int].path@) == 0);
        assert(doc_bucket_spec(files[docs[a] as int].path@) >= 1);
    }
    if a == b {
        assert(false);
    }
}

/// Executable comparison of two file indices by documentation key.
fn doc_key_le_exec(files: &Vec<FileContent>, a: usize, b: usize) -> (r: bool)
    requires
        a < files@.len(),
        b < files@.len(),
    ensures
        r == doc_key_le(doc_key_spec(files@, a), doc_key_spec(files@, b)),
{
    let ka = doc_priority(files[a].path.as_str());
    let kb = doc_priority(files[b].path.as_str());
    ka.0 < kb.0 || (ka.0 == kb.0 && str_le(ka.1.as_str(), kb.1.as_str()))
}

/// Sort documentation file indices by their documentation key, keeping
/// ties in their incoming order.
fn sort_docs_by_key(docs: &Vec<usize>, files: &Vec<FileContent>) -> (r: Vec<usize>)
    requires
        forall|j: int| 0 <= j < docs@.len() ==> docs@[j] < files@.len(),
    ensures
        r@ == doc_sort_spec(files@, docs@),
        r@.to_multiset() == docs@.to_multiset(),
        forall|a: int, b: int|
            0 <= a < b < r@.len() ==> #[trigger] doc_key_le(
                doc_key_spec(files@, r@[a]),
                doc_key_spec(files@, r@[b]),
            ),
        forall|j: int| 0 <= j < r@.len() ==> r@[j] < files@.len(),
{
    let mut out: Vec<usize> = Vec::new();
    let mut i: usize = 0;
    proof {
        broadcast use vstd::seq_lib::group_to_multiset_ensures;
        assert(docs@.take(0) =~= Seq::<usize>::empty());
        assert(out@.to_multiset() =~= docs@.take(0).to_multiset());
        assert(out@ == doc_sort_spec(files@, docs@.take(0)));
    }
    while i < docs.len()
        invariant
            forall|j: int| 0 <= j < docs@.len() ==> docs@[j] < files@.len(),
            0 <= i <= docs@.len(),
            out@ == doc_sort_spec(files@, docs@.take(i as int)),
            out@.to_multiset() == docs@.take(i as int).to_multiset(),
            forall|j: int| 0 <= j < out@.len() ==> out@[j] < files@.len(),
            forall|a: int, b: int|
                0 <= a < b < out@.len() ==> #[trigger] doc_key_le(
                    doc_key_spec(files@, out@[a]),
                    doc_key_spec(files@, out@[b]),
                ),
        decreases docs@.len() - i,
    {
        let x = docs[i];
        // insertion point: after every element whose key is <= the new key
        let mut p: usize = 0;
        while p < out.len() && doc_key_le_exec(files, out[p], x)
            invariant
                forall|j: int| 0 <= j < out@.len() ==> out@[j] < files@.len(),
                x < files@.len(),
                0 <= p <= out@.len(),
                forall|j: int|
                    0 <= j < p ==> doc_key_le(
                        doc_key_spec(files@, #[trigger] out@[j]),
                        doc_key_spec(files@, x),
                    ),
            decreases out@.len() - p,
        {
            p += 1;
        }
        let ghost old_out = out@;
        proof {
            assert(forall|a: int, b: int|
                0 <= a < b < old_out.len() ==> #[trigger] doc_key_le(
                    doc_key_spec(files@, old_out[a]),
                    doc_key_spec(files@, old_out[b]),
                ));
            assert(forall|j: int|
                0 <= j < p ==> doc_key_le(
                    doc_key_spec(files@, #[trigger] old_out[j]),
                    doc_key_spec(files@, x),
                ));
        }
        out.insert(p, x);
        proof {
            broadcast use vstd::seq_lib::to_multiset_insert;
            broadcast use vstd::seq_lib::to_multiset_build;

            assert(out@ == old_out.insert(p as int, x));
            lemma_doc_insert_at(files@, old_out, x, p as int);
            assert(docs@.take(i + 1).drop_last() =~= docs@.take(i as int));
            assert(docs@.take(i + 1).last() == x);
            assert(out@ == doc_sort_spec(files@, docs@.take(i + 1)));
            assert(forall|k: int| 0 <= k < p ==> out@[k] == old_out[k]);
            assert(out@[p as int] == x);
            assert(forall|k: int| p < k < out@.len() ==> out@[k] == old_out[k - 1]);
            assert(docs@.take(i + 1) =~= docs@.take(i as int).push(x));
            assert(out@.to_multiset() =~= docs@.take(i + 1).to_multiset());
            // sortedness of the new sequence
            let kx = doc_key_spec(files@, x);
            if (p as int) < old_out.len() {
                let kp = doc_key_spec(files@, old_out[p as int]);
                lemma_doc_key_le_total(kp, kx);
                assert(doc_key_le(kx, kp));
            }
            assert forall|a: int, b: int|
                0 <= a < b < out@.len() implies #[trigger] doc_key_le(
                doc_key_spec(files@, out@[a]),
                doc_key_spec(files@, out@[b]),
            ) by {
                if a < p && b == p {
                    assert(doc_key_le(doc_key_spec(files@, old_out[a]), kx));
                } else if a == p && b > p {
                    let kp = doc_key_spec(files@, old_out[p as int]);
                    let kb = doc_key_spec(files@, old_out[b - 1]);
                    if b - 1 > p {
                        assert(doc_key_le(kp, kb));
                        lemma_doc_key_le_trans(kx, kp, kb);
                    }
                } else if a < p && b > p {
                    assert(doc_key_le(
                        doc_key_spec(files@, old_out[a]),
                        doc_key_spec(files@, old_out[b - 1]),
                    ));
                } else if a > p && b > p {
                    assert(doc_key_le(
                        doc_key_spec(files@, old_out[a - 1]),
                        doc_key_spec(files@, old_out[b - 1]),
                    ));
                }
            }
        }
        i += 1;
    }
    proof {
        assert(docs@.take(docs@.len() as int) =~= docs@);
    }
    out
}

/// Split an ordered index sequence into documentation and code indices;
/// code keeps the incoming order, documentation is re-sorted by its
/// priority key.
pub fn split_docs_and_code(ordered_indices: &Vec<usize>, files: &Vec<FileContent>) -> (r: (
    Vec<usize>,
    Vec<usize>,
))
    requires
        forall|j: int| 0 <= j < ordered_indices@.len() ==> ordered_indices@[j] < files@.len(),
    ensures
        r.0@ == doc_sort_spec(files@, doc_indices(files@, ordered_indices@)),
        r.1@ == code_indices(files@, ordered_indices@),
        r.0@ == doc_sort_spec(
            files@,
            ordered_indices@.filter(|idx: usize| is_doc_spec(files@[idx as int].path@)),
        ),
        r.0@.to_multiset() == ordered_indices@.filter(
            |idx: usize| is_doc_spec(files@[idx as int].path@),
        ).to_multiset(),
        r.1@ == ordered_indices@.filter(|idx: usize| !is_doc_spec(files@[idx as int].path@)),
        forall|a: int, b: int|
            0 <= a < b < r.0@.len() ==> #[trigger] doc_key_le(
                doc_key_spec(files@, r.0@[a]),
                doc_key_spec(files@, r.0@[b]),
            ),
        forall|j: int| 0 <= j < r.0@.len() ==> r.0@[j] < files@.len(),
        forall|j: int| 0 <= j < r.1@.len() ==> r.1@[j] < files@.len(),
{
    let ghost doc_pred = |idx: usize| is_doc_spec(files@[idx as int].path@);
    let ghost code_pred = |idx: usize| !is_doc_spec(files@[idx as int].path@);
    let mut docs: Vec<usize> = Vec::new();
    let mut code: Vec<usize> = Vec::new();
    let mut i: usize = 0;
    proof {
        assert(ordered_indices@.take(0) =~= Seq::<usize>::empty());
        reveal(Seq::filter);
    }
    while i < ordered_indices.len()
        invariant
            forall|j: int| 0 <= j < ordered_indices@.len() ==> ordered_indices@[j] < files@.len(),
            doc_pred == (|idx: usize| is_doc_spec(files@[idx as int].path@)),
            code_pred == (|idx: usize| !is_doc_spec(files@[idx as int].path@)),
            0 <= i <= ordered_indices@.len(),
            docs@ == ordered_indices@.take(i as int).filter(doc_pred),
            code@ == ordered_indices@.take(i as int).filter(code_pred),
            forall|j: int| 0 <= j < docs@.len() ==> docs@[j] < files@.len(),
            forall|j: int| 0 <= j < code@.len() ==> code@[j] < files@.len(),
        decreases ordered_indices@.len() - i,
    {
        let idx = ordered_indices[i];
        proof {
            broadcast use vstd::prelude::Seq::lemma_filter_push;

            assert(ordered_indices@.take(i + 1) =~= ordered_indices@.take(i as int).push(idx));
        }
        if is_doc_file(files[idx].path.as_str()) {
            docs.push(idx);
        } else {
            code.push(idx);
        }
        i += 1;
    }
    proof {
        assert(ordered_indices@.take(ordered_indices@.len() as int) =~= ordered_indices@);
        broadcast use vstd::prelude::Seq::lemma_filter_pred;

    }
    let sorted_docs = sort_docs_by_key(&docs, files);
    proof {
        broadcast use vstd::seq_lib::to_multiset_contains;

        assert forall|j: int| 0 <= j < sorted_docs@.len() implies sorted_docs@[j]
            < files@.len() by {
            let x = sorted_docs@[j];
            assert(sorted_docs@.contains(x)) by {
                assert(0 <= j < sorted_docs@.len() && sorted_docs@[j] == x);
            }
            assert(sorted_docs@.to_multiset().count(x) > 0);
            assert(docs@.to_multiset().count(x) > 0);
            assert(docs@.contains(x));
        }
        lemma_doc_indices_filter(files@, ordered_indices@, doc_pred);
        lemma_code_indices_filter(files@, ordered_indices@, code_pred);
    }
    (sorted_docs, code)
}

} // verus!
