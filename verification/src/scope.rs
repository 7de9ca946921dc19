//! Rules used by the discovery and export collaborators: which
//! extensions count as binary, which directories are always excluded,
//! and the allow-list of authorized roots, modelled as an explicit
//! context value passed per call.

use vstd::prelude::*;

verus! {

use crate::text::{eq_str, lower_seq, lower_str, seq_views, starts_with_str};

/// Is the (lower-cased) extension one of the known binary extensions?
pub open spec fn binary_ext_spec(e: Seq<char>) -> bool {
    ||| e == "png"@
    ||| e == "jpg"@
    ||| e == "jpeg"@
    ||| e == "gif"@
    ||| e == "bmp"@
    ||| e == "ico"@
    ||| e == "webp"@
    ||| e == "avif"@
    ||| e == "tiff"@
    ||| e == "pdf"@
    ||| e == "doc"@
    ||| e == "docx"@
    ||| e == "xls"@
    ||| e == "xlsx"@
    ||| e == "ppt"@
    ||| e == "pptx"@
    ||| e == "zip"@
    ||| e == "tar"@
    ||| e == "gz"@
    ||| e == "bz2"@
    ||| e == "7z"@
    ||| e == "rar"@
    ||| e == "exe"@
    ||| e == "dll"@
    ||| e == "so"@
    ||| e == "dylib"@
    ||| e == "a"@
    ||| e == "lib"@
    ||| e == "bin"@
    ||| e == "wasm"@
    ||| e == "mp3"@
    ||| e == "mp4"@
    ||| e == "wav"@
    ||| e == "ogg"@
    ||| e == "flac"@
    ||| e == "avi"@
    ||| e == "mov"@
    ||| e == "mkv"@
    ||| e == "webm"@
    ||| e == "ttf"@
    ||| e == "otf"@
    ||| e == "woff"@
    ||| e == "woff2"@
    ||| e == "eot"@
    ||| e == "class"@
    ||| e == "pyc"@
    ||| e == "pyo"@
    ||| e == "o"@
    ||| e == "obj"@
}

/// Case-insensitive test against the closed binary-extension list.
pub fn is_binary_by_extension(ext: &str) -> (r: bool)
    ensures
        r == binary_ext_spec(lower_seq(ext@)),
{
    let el = lower_str(ext);
    let e = el.as_str();
    eq_str(e, "png") || eq_str(e, "jpg") || eq_str(e, "jpeg") || eq_str(e, "gif") || eq_str(
        e,
        "bmp",
    ) || eq_str(e, "ico") || eq_str(e, "webp") || eq_str(e, "avif") || eq_str(e, "tiff") || eq_str(
        e,
        "pdf",
    ) || eq_str(e, "doc") || eq_str(e, "docx") || eq_str(e, "xls") || eq_str(e, "xlsx") || eq_str(
        e,
        "ppt",
    ) || eq_str(e, "pptx") || eq_str(e, "zip") || eq_str(e, "tar") || eq_str(e, "gz") || eq_str(
        e,
        "bz2",
    ) || eq_str(e, "7z") || eq_str(e, "rar") || eq_str(e, "exe") || eq_str(e, "dll") || eq_str(
        e,
        "so",
    ) || eq_str(e, "dylib") || eq_str(e, "a") || eq_str(e, "lib") || eq_str(e, "bin") || eq_str(
        e,
        "wasm",
    ) || eq_str(e, "mp3") || eq_str(e, "mp4") || eq_str(e, "wav") || eq_str(e, "ogg") || eq_str(
        e,
        "flac",
    ) || eq_str(e, "avi") || eq_str(e, "mov") || eq_str(e, "mkv") || eq_str(e, "webm") || eq_str(
        e,
        "ttf",
    ) || eq_str(e, "otf") || eq_str(e, "woff") || eq_str(e, "woff2") || eq_str(e, "eot") || eq_str(
        e,
        "class",
    ) || eq_str(e, "pyc") || eq_str(e, "pyo") || eq_str(e, "o") || eq_str(e, "obj")
}

/// Is the directory name always excluded from discovery?
pub open spec fn excluded_dir_spec(d: Seq<char>) -> bool {
    ||| d == "node_modules"@
    ||| d == ".git"@
    ||| d == "dist"@
    ||| d == "build"@
    ||| d == "target"@
    ||| d == "__pycache__"@
    ||| d == ".next"@
    ||| d == ".nuxt"@
    ||| d == "coverage"@
    ||| d == ".turbo"@
    ||| d == ".cache"@
}

/// Test against the closed excluded-directory list.
pub fn should_exclude_dir(name: &str) -> (r: bool)
    ensures
        r == excluded_dir_spec(name@),
{
    eq_str(name, "node_modules") || eq_str(name, ".git") || eq_str(name, "dist") || eq_str(
        name,
        "build",
    ) || eq_str(name, "target") || eq_str(name, "__pycache__") || eq_str(name, ".next") || eq_str(
        name,
        ".nuxt",
    ) || eq_str(name, "coverage") || eq_str(name, ".turbo") || eq_str(name, ".cache")
}

/// `target` lies at or under `root`, comparing whole path segments.
pub open spec fn path_within(target: Seq<char>, root: Seq<char>) -> bool {
    target == root || (root + "/"@).is_prefix_of(target)
}

/// The allow-list of authorized roots: project roots discovered by
/// walking, and export roots authorized for writing.
pub struct ScopeState {
    pub project_roots: Vec<String>,
    pub export_roots: Vec<String>,
}

impl ScopeState {
    /// A scope with nothing authorized.
    pub fn new() -> (r: ScopeState)
        ensures
            r.project_roots@.len() == 0,
            r.export_roots@.len() == 0,
    {
        ScopeState { project_roots: Vec::new(), export_roots: Vec::new() }
    }

    /// Record a project root, once.
    pub fn remember_project_root(&mut self, root: String)
        ensures
            final(self).project_roots@ == if seq_views(old(self).project_roots@).contains(root@) {
                old(self).project_roots@
            } else {
                old(self).project_roots@.push(root)
            },
            final(self).export_roots@ == old(self).export_roots@,
    {
        let mut i: usize = 0;
        while i < self.project_roots.len()
            invariant
                *self == *old(self),
                0 <= i <= self.project_roots@.len(),
                forall|j: int| 0 <= j < i ==> (#[trigger] self.project_roots@[j])@ != root@,
        decreases self.project_roots@.len() - i,
        {
            if eq_str(self.project_roots[i].as_str(), root.as_str()) {
                proof {
                    assert(seq_views(self.project_roots@)[i as int] == root@);
                    assert(seq_views(self.project_roots@).contains(root@));
                }
                return ;
            }
            i += 1;
        }
        proof {
            if seq_views(self.project_roots@).contains(root@) {
                let j = choose|j: int|
                    0 <= j < seq_views(self.project_roots@).len() && #[trigger] seq_views(
                        self.project_roots@,
                    )[j] == root@;
                assert(self.project_roots@[j]@ == root@);
            }
        }
        self.project_roots.push(root);
    }

    /// Record an export root, once.
    pub fn remember_export_root(&mut self, root: String)
        ensures
            final(self).export_roots@ == if seq_views(old(self).export_roots@).contains(root@) {
                old(self).export_roots@
            } else {
                old(self).export_roots@.push(root)
            },
            final(self).project_roots@ == old(self).project_roots@,
    {
        let mut i: usize = 0;
        while i < self.export_roots.len()
            invariant
                *self == *old(self),
                0 <= i <= self.export_roots@.len(),
                forall|j: int| 0 <= j < i ==> (#[trigger] self.export_roots@[j])@ != root@,
        decreases self.export_roots@.len() - i,
        {
            if eq_str(self.export_roots[i].as_str(), root.as_str()) {
                proof {
                    assert(seq_views(self.export_roots@)[i as int] == root@);
                    assert(seq_views(self.export_roots@).contains(root@));
                }
                return ;
            }
            i += 1;
        }
        proof {
            if seq_views(self.export_roots@).contains(root@) {
                let j = choose|j: int|
                    0 <= j < seq_views(self.export_roots@).len() && #[trigger] seq_views(
                        self.export_roots@,
                    )[j] == root@;
                assert(self.export_roots@[j]@ == root@);
            }
        }
        self.export_roots.push(root);
    }

    /// Is the target at or under some authorized root?
    pub fn is_path_allowed(&self, target: &str) -> (r: bool)
        ensures
            r == exists|root: Seq<char>|
                (seq_views(self.project_roots@).contains(root) || seq_views(
                    self.export_roots@,
                ).contains(root)) && #[trigger] path_within(target@, root),
    {
        let mut i: usize = 0;
        while i < self.project_roots.len()
            invariant
                0 <= i <= self.project_roots@.len(),
                forall|j: int|
                    0 <= j < i ==> !path_within(target@, (#[trigger] self.project_roots@[j])@),
            decreases self.project_roots@.len() - i,
        {
            if path_within_exec(target, self.project_roots[i].as_str()) {
                proof {
                    assert(seq_views(self.project_roots@)[i as int] == self.project_roots@[
                        i as int]@);
                    assert(seq_views(self.project_roots@).contains(self.project_roots@[i as int]@));
                }
                return true;
            }
            i += 1;
        }
        let mut k: usize = 0;
        while k < self.export_roots.len()
            invariant
                0 <= k <= self.export_roots@.len(),
                forall|j: int|
                    0 <= j < k ==> !path_within(target@, (#[trigger] self.export_roots@[j])@),
            decreases self.export_roots@.len() - k,
        {
            if path_within_exec(target, self.export_roots[k].as_str()) {
                proof {
                    assert(seq_views(self.export_roots@)[k as int] == self.export_roots@[
                        k as int]@);
                    assert(seq_views(self.export_roots@).contains(self.export_roots@[k as int]@));
                }
                return true;
            }
            k += 1;
        }
        proof {
            if exists|root: Seq<char>|
                (seq_views(self.project_roots@).contains(root) || seq_views(
                    self.export_roots@,
                ).contains(root)) && #[trigger] path_within(target@, root) {
                let root = choose|root: Seq<char>|
                    (seq_views(self.project_roots@).contains(root) || seq_views(
                        self.export_roots@,
                    ).contains(root)) && #[trigger] path_within(target@, root);
                if seq_views(self.project_roots@).contains(root) {
                    let j = choose|j: int|
                        0 <= j < seq_views(self.project_roots@).len() && #[trigger] seq_views(
                            self.project_roots@,
                        )[j] == root;
                    assert(!path_within(target@, self.project_roots@[j]@));
                } else {
                    let j = choose|j: int|
                        0 <= j < seq_views(self.export_roots@).len() && #[trigger] seq_views(
                            self.export_roots@,
                        )[j] == root;
                    assert(!path_within(target@, self.export_roots@[j]@));
                }
            }
        }
        false
    }
}

/// Segment-wise prefix test of `root` against `target`.
fn path_within_exec(target: &str, root: &str) -> (r: bool)
    ensures
        r == path_within(target@, root@),
{
    if eq_str(target, root) {
        return true;
    }
    let mut pref = String::new();
    pref.append(root);
    pref.append("/");
    proof {
        assert(pref@ =~= root@ + "/"@);
    }
    starts_with_str(target, pref.as_str())
}

} // verus!
