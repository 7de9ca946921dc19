//! Resolution of one extracted specifier against the set of known
//! normalized paths. Candidate base paths are built from an alias
//! prefix, a relative form, a root-relative form or the verbatim form;
//! each candidate lacking an extension is probed with a fixed extension
//! list, as `<base>.<ext>` and `<base>/index.<ext>`; the first probe
//! found among the known paths wins.

use vstd::prelude::*;

verus! {

use crate::paths::{ext_opt_spec, normalize_spec, parent_dir_spec};
use crate::paths::{has_extension, normalize_path, parent_dir};
use crate::text::seq_views;
use crate::text::{eq_str, starts_with_str};
use vstd::string::StrSliceExecFns;
use vstd::string::StringExecFns;

/// Index of the first known path equal to `key`, if any.
pub open spec fn lookup_spec(paths: Seq<Seq<char>>, key: Seq<char>) -> Option<int>
    decreases paths.len(),
{
    if paths.len() == 0 {
        None
    } else if paths[0] == key {
        Some(0int)
    } else {
        match lookup_spec(paths.skip(1), key) {
            None => None,
            Some(i) => Some(i + 1),
        }
    }
}

pub proof fn lemma_lookup(paths: Seq<Seq<char>>, key: Seq<char>)
    ensures
        match lookup_spec(paths, key) {
            Some(i) => 0 <= i < paths.len() && paths[i] == key && (forall|j: int|
                0 <= j < i ==> paths[j] != key),
            None => forall|j: int| 0 <= j < paths.len() ==> paths[j] != key,
        },
    decreases paths.len(),
{
    if paths.len() > 0 && paths[0] != key {
        let t = paths.skip(1);
        lemma_lookup(t, key);
        assert(forall|j: int| 0 <= j < t.len() ==> t[j] == paths[j + 1]);
        match lookup_spec(t, key) {
            Some(i) => {
                assert forall|j: int| 0 <= j < i + 1 implies paths[j] != key by {
                    if j >= 1 {
                        assert(t[j - 1] != key);
                    }
                }
            },
            None => {
                assert forall|j: int| 0 <= j < paths.len() implies paths[j] != key by {
                    if j >= 1 {
                        assert(t[j - 1] != key);
                    }
                }
            },
        }
    }
}

pub proof fn lemma_lookup_unique(paths: Seq<Seq<char>>, key: Seq<char>, i: int)
    requires
        0 <= i < paths.len(),
        paths[i] == key,
        forall|j: int| 0 <= j < i ==> paths[j] != key,
    ensures
        lookup_spec(paths, key) == Some(i),
{
    lemma_lookup(paths, key);
    match lookup_spec(paths, key) {
        Some(i2) => {
            if i2 < i {
                assert(paths[i2] != key);
            } else if i < i2 {
                assert(paths[i] != key);
            }
        },
        None => {
            assert(paths[i] != key);
        },
    }
}

/// The closed list of probed extensions, in probe order.
pub open spec fn extension_list() -> Seq<Seq<char>> {
    seq!["ts"@, "tsx"@, "js"@, "jsx"@, "py"@, "rs"@, "go"@, "json"@, "md"@, "mdx"@]
}

/// The probes of one extension-less base: `<base>.<ext>` and
/// `<base>/index.<ext>` for each extension, in order.
pub open spec fn probes_for(base: Seq<char>, exts: Seq<Seq<char>>) -> Seq<Seq<char>>
    decreases exts.len(),
{
    if exts.len() == 0 {
        Seq::empty()
    } else {
        seq![base + "."@ + exts[0], base + "/index."@ + exts[0]] + probes_for(base, exts.skip(1))
    }
}

/// Every probe of one candidate base path.
pub open spec fn expanded(base: Seq<char>) -> Seq<Seq<char>> {
    if base.len() == 0 {
        Seq::empty()
    } else if ext_opt_spec(base) is Some {
        seq![base]
    } else {
        seq![base] + probes_for(base, extension_list())
    }
}

/// The candidate base paths of a specifier, in the order they are tried.
pub open spec fn base_candidates(s: Seq<char>, cur: Seq<char>) -> Seq<Seq<char>> {
    let alias: Seq<Seq<char>> = if "@/"@.is_prefix_of(s) {
        seq![normalize_spec("src/"@ + s.skip("@/"@.len() as int))]
    } else {
        Seq::empty()
    };
    let main = if "./"@.is_prefix_of(s) || "../"@.is_prefix_of(s) {
        normalize_spec(parent_dir_spec(cur) + "/"@ + s)
    } else if "/"@.is_prefix_of(s) {
        normalize_spec(s.skip(1))
    } else {
        normalize_spec(s)
    };
    alias + seq![main]
}

/// All probes of all candidate bases, in order.
pub open spec fn expand_all(bases: Seq<Seq<char>>) -> Seq<Seq<char>>
    decreases bases.len(),
{
    if bases.len() == 0 {
        Seq::empty()
    } else {
        expanded(bases[0]) + expand_all(bases.skip(1))
    }
}

/// The first probe present among the known paths, and its index there.
pub open spec fn first_hit(cands: Seq<Seq<char>>, paths: Seq<Seq<char>>) -> Option<int>
    decreases cands.len(),
{
    if cands.len() == 0 {
        None
    } else {
        match lookup_spec(paths, cands[0]) {
            Some(i) => Some(i),
            None => first_hit(cands.skip(1), paths),
        }
    }
}

/// Is the specifier rejected outright?
pub open spec fn rejected_spec(s: Seq<char>) -> bool {
    s.len() == 0 || "http://"@.is_prefix_of(s) || "https://"@.is_prefix_of(s)
        || "node:"@.is_prefix_of(s)
}

/// What a specifier resolves to against the known paths: the file index
/// of the first successful probe, or nothing.
pub open spec fn resolve_spec(s: Seq<char>, cur: Seq<char>, paths: Seq<Seq<char>>) -> Option<
    int,
> {
    if rejected_spec(s) {
        None
    } else {
        first_hit(expand_all(base_candidates(s, cur)), paths)
    }
}

proof fn lemma_first_hit_in_range(cands: Seq<Seq<char>>, paths: Seq<Seq<char>>)
    ensures
        match first_hit(cands, paths) {
            Some(i) => 0 <= i < paths.len(),
            None => true,
        },
    decreases cands.len(),
{
    if cands.len() > 0 {
        lemma_lookup(paths, cands[0]);
        if lookup_spec(paths, cands[0]) is None {
            lemma_first_hit_in_range(cands.skip(1), paths);
        }
    }
}

/// A successful resolution always lands inside the known path list.
pub proof fn lemma_resolve_in_range(s: Seq<char>, cur: Seq<char>, paths: Seq<Seq<char>>)
    ensures
        match resolve_spec(s, cur, paths) {
            Some(i) => 0 <= i < paths.len(),
            None => true,
        },
{
    if !rejected_spec(s) {
        lemma_first_hit_in_range(expand_all(base_candidates(s, cur)), paths);
    }
}

/// Linear search of the known paths.
fn lookup_first(paths: &Vec<String>, key: &str) -> (r: Option<usize>)
    ensures
        match r {
            Some(i) => lookup_spec(seq_views(paths@), key@) == Some(i as int),
            None => lookup_spec(seq_views(paths@), key@) is None,
        },
{
    let mut i: usize = 0;
    while i < paths.len()
        invariant
            0 <= i <= paths@.len(),
            forall|j: int| 0 <= j < i ==> seq_views(paths@)[j] != key@,
        decreases paths@.len() - i,
    {
        if eq_str(paths[i].as_str(), key) {
            proof {
                lemma_lookup_unique(seq_views(paths@), key@, i as int);
            }
            return Some(i);
        }
        i += 1;
    }
    proof {
        lemma_lookup(seq_views(paths@), key@);
        if let Some(k) = lookup_spec(seq_views(paths@), key@) {
            assert(seq_views(paths@)[k] != key@);
        }
    }
    None
}

/// Append every probe of one base to the probe list.
fn push_probes(probes: &mut Vec<String>, base: &String)
    ensures
        seq_views(final(probes)@) == seq_views(old(probes)@) + expanded(base@),
{
    let ghost start = seq_views(probes@);
    if base.as_str().unicode_len() == 0 {
        proof {
            assert(seq_views(probes@) =~= start + expanded(base@));
        }
        return ;
    }
    if has_extension(base.as_str()) {
        let ghost pre = seq_views(probes@);
        probes.push(base.clone());
        proof {
            assert(seq_views(probes@) =~= start + expanded(base@));
        }
        return ;
    }
    probes.push(base.clone());
    let exts = extension_vec();
    let mut e: usize = 0;
    proof {
        assert(seq_views(probes@) =~= start + seq![base@]);
        assert(seq_views(exts@).skip(0) =~= seq_views(exts@));
    }
    while e < exts.len()
        invariant
            seq_views(exts@) == extension_list(),
            0 <= e <= exts@.len(),
            start + expanded(base@) == seq_views(probes@) + probes_for(
                base@,
                seq_views(exts@).skip(e as int),
            ),
        decreases exts@.len() - e,
    {
        let ghost ev = seq_views(exts@);
        let mut p1 = base.clone();
        p1.append(".");
        p1.append(exts[e].as_str());
        let mut p2 = base.clone();
        p2.append("/index.");
        p2.append(exts[e].as_str());
        let ghost pre = seq_views(probes@);
        probes.push(p1);
        probes.push(p2);
        proof {
            assert(ev.skip(e as int)[0] == ev[e as int]);
            assert(ev.skip(e as int).skip(1) =~= ev.skip(e + 1));
            assert(probes_for(base@, ev.skip(e as int)) == seq![
                base@ + "."@ + ev[e as int],
                base@ + "/index."@ + ev[e as int],
            ] + probes_for(base@, ev.skip(e + 1)));
            assert(seq_views(probes@) =~= pre.push(base@ + "."@ + ev[e as int]).push(
                base@ + "/index."@ + ev[e as int],
            ));
            assert(pre + probes_for(base@, ev.skip(e as int)) =~= seq_views(probes@) + probes_for(
                base@,
                ev.skip(e + 1),
            ));
        }
        e += 1;
    }
    proof {
        assert(probes_for(base@, seq_views(exts@).skip(e as int)) =~= Seq::<Seq<char>>::empty());
        assert(seq_views(probes@) + probes_for(base@, seq_views(exts@).skip(e as int))
            =~= seq_views(probes@));
    }
}

/// The probed extensions as runtime strings.
fn extension_vec() -> (r: Vec<String>)
    ensures
        seq_views(r@) == extension_list(),
{
    let mut v: Vec<String> = Vec::new();
    v.push(String::from_str("ts"));
    v.push(String::from_str("tsx"));
    v.push(String::from_str("js"));
    v.push(String::from_str("jsx"));
    v.push(String::from_str("py"));
    v.push(String::from_str("rs"));
    v.push(String::from_str("go"));
    v.push(String::from_str("json"));
    v.push(String::from_str("md"));
    v.push(String::from_str("mdx"));
    proof {
        assert(seq_views(v@) =~= extension_list());
    }
    v
}

/// Resolve one specifier against the known normalized paths; `None`
/// marks an external or unknown reference.
pub fn resolve_module_specifier(specifier: &str, current_path: &str, paths: &Vec<String>) -> (r:
    Option<usize>)
    ensures
        match r {
            Some(i) => resolve_spec(specifier@, current_path@, seq_views(paths@)) == Some(i as int),
            None => resolve_spec(specifier@, current_path@, seq_views(paths@)) is None,
        },
{
    if specifier.unicode_len() == 0 || starts_with_str(specifier, "http://") || starts_with_str(
        specifier,
        "https://",
    ) || starts_with_str(specifier, "node:") {
        return None;
    }
    proof {
        assert(!rejected_spec(specifier@));
    }
    let n = specifier.unicode_len();

    let mut bases: Vec<String> = Vec::new();
    if starts_with_str(specifier, "@/") {
        proof {
            reveal_strlit("@/");
        }
        let rest = specifier.substring_char(2, n);
        let mut joined = String::from_str("src/");
        joined.append(rest);
        proof {
            assert(rest@ =~= specifier@.skip("@/"@.len() as int));
        }
        bases.push(normalize_path(joined.as_str()));
    }
    if starts_with_str(specifier, "./") || starts_with_str(specifier, "../") {
        let dir = parent_dir(current_path);
        let mut joined = String::from_str(dir);
        joined.append("/");
        joined.append(specifier);
        bases.push(normalize_path(joined.as_str()));
    } else if starts_with_str(specifier, "/") {
        proof {
            reveal_strlit("/");
        }
        let rest = specifier.substring_char(1, n);
        proof {
            assert(rest@ =~= specifier@.skip(1));
        }
        bases.push(normalize_path(rest));
    } else {
        bases.push(normalize_path(specifier));
    }
    proof {
        assert(seq_views(bases@) =~= base_candidates(specifier@, current_path@));
    }

    let mut probes: Vec<String> = Vec::new();
    let mut b: usize = 0;
    proof {
        assert(seq_views(bases@).take(0) =~= Seq::<Seq<char>>::empty());
        assert(seq_views(probes@) =~= expand_all(seq_views(bases@).take(0)));
    }
    while b < bases.len()
        invariant
            seq_views(bases@) == base_candidates(specifier@, current_path@),
            0 <= b <= bases@.len(),
            seq_views(probes@) == expand_all(seq_views(bases@).take(b as int)),
        decreases bases@.len() - b,
    {
        push_probes(&mut probes, &bases[b]);
        proof {
            let bv = seq_views(bases@);
            lemma_expand_all_push(bv.take(b as int), bv[b as int]);
            assert(bv.take(b + 1) =~= bv.take(b as int).push(bv[b as int]));
        }
        b += 1;
    }
    proof {
        assert(seq_views(bases@).take(bases@.len() as int) =~= seq_views(bases@));
    }

    let ghost pv = seq_views(probes@);
    let mut k: usize = 0;
    proof {
        assert(pv.skip(0) =~= pv);
    }
    while k < probes.len()
        invariant
            !rejected_spec(specifier@),
            pv == seq_views(probes@),
            pv == expand_all(base_candidates(specifier@, current_path@)),
            0 <= k <= probes@.len(),
            first_hit(pv, seq_views(paths@)) == first_hit(pv.skip(k as int), seq_views(paths@)),
        decreases probes@.len() - k,
    {
        let hit = lookup_first(paths, probes[k].as_str());
        proof {
            assert(pv[k as int] == probes@[k as int]@);
            assert(pv.skip(k as int)[0] == pv[k as int]);
            assert(pv.skip(k as int).skip(1) =~= pv.skip(k + 1));
        }
        match hit {
            Some(i) => {
                proof {
                    assert(first_hit(pv.skip(k as int), seq_views(paths@)) == Some(i as int));
                    assert(resolve_spec(specifier@, current_path@, seq_views(paths@)) == Some(
                        i as int,
                    ));
                }
                return Some(i);
            },
            None => {
            },
        }
        k += 1;
    }
    proof {
        assert(pv.skip(k as int).len() == 0);
        assert(first_hit(pv.skip(k as int), seq_views(paths@)) is None);
    }
    None
}

proof fn lemma_expand_all_push(bs: Seq<Seq<char>>, x: Seq<char>)
    ensures
        expand_all(bs.push(x)) == expand_all(bs) + expanded(x),
    decreases bs.len(),
{
    if bs.len() == 0 {
        assert(bs.push(x)[0] == x);
        assert(bs.push(x).skip(1) =~= Seq::<Seq<char>>::empty());
        assert(expand_all(bs.push(x)) == expanded(x) + expand_all(bs.push(x).skip(1)));
        assert(expand_all(bs.push(x).skip(1)) == Seq::<Seq<char>>::empty());
        assert(expand_all(bs) == Seq::<Seq<char>>::empty());
        assert(expand_all(bs.push(x)) =~= expand_all(bs) + expanded(x));
    } else {
        assert(bs.push(x)[0] == bs[0]);
        assert(bs.push(x).skip(1) =~= bs.skip(1).push(x));
        lemma_expand_all_push(bs.skip(1), x);
        assert(expand_all(bs.push(x)) == expanded(bs[0]) + expand_all(bs.skip(1).push(x)));
        assert((expanded(bs[0]) + (expand_all(bs.skip(1)) + expanded(x))) =~= (expanded(bs[0])
            + expand_all(bs.skip(1))) + expanded(x));
        assert(expand_all(bs.push(x)) =~= expand_all(bs) + expanded(x));
    }
}

} // verus!
