//! Path normalization and decomposition. Paths are plain strings; the
//! canonical form uses forward slashes with `.`/`..` segments resolved
//! against an implicit root, and never touches a real filesystem.

use vstd::prelude::*;

verus! {

use crate::text::{
    find_last, join_sep, lemma_find_last, lower_seq, replace_seq, seq_views, split_char,
};
use crate::text::{eq_str, join_with, lower_str, replace_str, rfind_char, split_on};
use vstd::string::StrSliceExecFns;

/// One folding step per segment: empty and `.` segments vanish, `..` pops
/// the previous kept segment, anything else is kept.
pub open spec fn norm_segments(segs: Seq<Seq<char>>) -> Seq<Seq<char>>
    decreases segs.len(),
{
    if segs.len() == 0 {
        Seq::empty()
    } else {
        let prev = norm_segments(segs.drop_last());
        let last = segs.last();
        if last == Seq::<char>::empty() || last == seq!['.'] {
            prev
        } else if last == seq!['.', '.'] {
            if prev.len() == 0 {
                prev
            } else {
                prev.drop_last()
            }
        } else {
            prev.push(last)
        }
    }
}

/// The canonical forward-slash form of a path: backslashes become
/// slashes, then `.`/`..`/empty segments are folded away.
pub open spec fn normalize_spec(s: Seq<char>) -> Seq<char> {
    join_sep(norm_segments(split_char(replace_seq(s, '\\', '/'), '/')), seq!['/'])
}

/// The part of a path after its last slash (the whole path if none).
/// This is a plain string split: a path ending in a slash has the
/// empty basename, and a final `.` or `..` segment is its own
/// basename, unlike std's component-aware file-name rules.
pub open spec fn basename_spec(s: Seq<char>) -> Seq<char> {
    match find_last(s, '/') {
        Some(k) => s.skip(k + 1),
        None => s,
    }
}

/// The part of a path before its last slash (empty if none).
pub open spec fn parent_dir_spec(s: Seq<char>) -> Seq<char> {
    match find_last(s, '/') {
        Some(k) => s.take(k),
        None => Seq::empty(),
    }
}

/// The extension of a path's basename: what follows the last dot,
/// provided that dot is not the basename's first character.
pub open spec fn ext_opt_spec(s: Seq<char>) -> Option<Seq<char>> {
    let b = basename_spec(s);
    match find_last(b, '.') {
        Some(k) => if k > 0 {
            Some(b.skip(k + 1))
        } else {
            None
        },
        None => None,
    }
}

/// The extension if there is one, the empty sequence otherwise.
pub open spec fn ext_or_empty_spec(s: Seq<char>) -> Seq<char> {
    match ext_opt_spec(s) {
        Some(e) => e,
        None => Seq::empty(),
    }
}

/// Does some `/`-separated segment of the path equal `..`?
pub open spec fn has_parent_traversal_spec(s: Seq<char>) -> bool {
    split_char(s, '/').contains(seq!['.', '.'])
}

/// Collapse a path to its canonical forward-slash form.
pub fn normalize_path(path: &str) -> (r: String)
    ensures
        r@ == normalize_spec(path@),
{
    let replaced = replace_str(path, '\\', '/');
    let segs = split_on(replaced.as_str(), '/');
    let mut parts: Vec<String> = Vec::new();
    let mut i: usize = 0;
    proof {
        reveal_strlit("");
        reveal_strlit(".");
        reveal_strlit("..");
        assert(seq_views(segs@).take(0) =~= Seq::<Seq<char>>::empty());
        assert(seq_views(parts@) =~= Seq::<Seq<char>>::empty());
    }
    while i < segs.len()
        invariant
            0 <= i <= segs@.len(),
            seq_views(parts@) == norm_segments(seq_views(segs@).take(i as int)),
        decreases segs@.len() - i,
    {
        let seg: &String = &segs[i];
        proof {
            reveal_strlit("");
            reveal_strlit(".");
            reveal_strlit("..");
            assert(""@ =~= Seq::<char>::empty());
            assert("."@ =~= seq!['.']);
            assert(".."@ =~= seq!['.', '.']);
            let pre = seq_views(segs@).take(i as int);
            assert(seq_views(segs@).take(i + 1).drop_last() =~= pre);
            assert(seq_views(segs@).take(i + 1).last() == segs@[i as int]@);
        }
        if eq_str(seg.as_str(), "") || eq_str(seg.as_str(), ".") {
            // dropped
        } else if eq_str(seg.as_str(), "..") {
            if parts.len() > 0 {
                let ghost old_parts = parts@;
                parts.pop();
                proof {
                    assert(seq_views(parts@) =~= seq_views(old_parts).drop_last());
                }
            }
        } else {
            let ghost old_parts = parts@;
            parts.push(seg.clone());
            proof {
                assert(seq_views(parts@) =~= seq_views(old_parts).push(segs@[i as int]@));
            }
        }
        i += 1;
    }
    let r = join_with(&parts, "/");
    proof {
        reveal_strlit("/");
        assert("/"@ =~= seq!['/']);
        assert(seq_views(segs@).take(segs@.len() as int) =~= seq_views(segs@));
    }
    r
}

/// The directory part of a path: everything before the last slash.
pub fn parent_dir<'a>(path: &'a str) -> (r: &'a str)
    ensures
        r@ == parent_dir_spec(path@),
{
    match rfind_char(path, '/') {
        Some(k) => {
            proof {
                lemma_find_last(path@, '/');
                assert(path@.subrange(0, k as int) =~= path@.take(k as int));
            }
            path.substring_char(0, k)
        },
        None => {
            proof {
                reveal_strlit("");
                assert(""@ =~= Seq::<char>::empty());
            }
            ""
        },
    }
}

/// The basename of a path (after the last slash), original case.
fn basename_raw<'a>(path: &'a str) -> (r: &'a str)
    ensures
        r@ == basename_spec(path@),
{
    let n = path.unicode_len();
    match rfind_char(path, '/') {
        Some(k) => {
            proof {
                lemma_find_last(path@, '/');
                assert(path@.subrange(k + 1, n as int) =~= path@.skip(k + 1));
            }
            path.substring_char(k + 1, n)
        },
        None => path,
    }
}

/// The lower-cased basename of a path.
pub fn file_basename(path: &str) -> (r: String)
    ensures
        r@ == lower_seq(basename_spec(path@)),
{
    lower_str(basename_raw(path))
}

/// The extension of a path in its original case, or the empty string.
pub fn get_extension<'a>(path: &'a str) -> (r: &'a str)
    ensures
        r@ == ext_or_empty_spec(path@),
{
    let b = basename_raw(path);
    let m = b.unicode_len();
    match rfind_char(b, '.') {
        Some(k) => {
            if k > 0 {
                proof {
                    lemma_find_last(b@, '.');
                    assert(b@.subrange(k + 1, m as int) =~= b@.skip(k + 1));
                }
                b.substring_char(k + 1, m)
            } else {
                proof {
                    reveal_strlit("");
                    assert(""@ =~= Seq::<char>::empty());
                }
                ""
            }
        },
        None => {
            proof {
                reveal_strlit("");
                assert(""@ =~= Seq::<char>::empty());
            }
            ""
        },
    }
}

/// Does the path's basename carry an extension?
pub fn has_extension(path: &str) -> (r: bool)
    ensures
        r == (ext_opt_spec(path@) is Some),
{
    let b = basename_raw(path);
    match rfind_char(b, '.') {
        Some(k) => k > 0,
        None => false,
    }
}

/// The lower-cased extension of a path, or the empty string.
pub fn path_extension(path: &str) -> (r: String)
    ensures
        r@ == lower_seq(ext_or_empty_spec(path@)),
{
    lower_str(get_extension(path))
}

/// Does any `/`-separated segment of the path equal `..`?
pub fn path_has_parent_traversal(path: &str) -> (r: bool)
    ensures
        r == has_parent_traversal_spec(path@),
{
    let segs = split_on(path, '/');
    let mut i: usize = 0;
    proof {
        reveal_strlit("..");
        assert(".."@ =~= seq!['.', '.']);
    }
    while i < segs.len()
        invariant
            0 <= i <= segs@.len(),
            seq_views(segs@) == split_char(path@, '/'),
            ".."@ =~= seq!['.', '.'],
            forall|j: int| 0 <= j < i ==> segs@[j]@ != seq!['.', '.'],
        decreases segs@.len() - i,
    {
        if eq_str(segs[i].as_str(), "..") {
            proof {
                assert(split_char(path@, '/')[i as int] == seq!['.', '.']);
            }
            return true;
        }
        i += 1;
    }
    proof {
        assert forall|j: int|
            0 <= j < split_char(path@, '/').len() implies split_char(path@, '/')[j] != seq![
            '.',
            '.',
        ] by {
            assert(split_char(path@, '/')[j] == segs@[j]@);
        }
    }
    false
}

} // verus!
