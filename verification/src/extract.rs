//! Heuristic extraction of module specifiers from source text. This is a
//! line-oriented lexical scan, not a parser: blank and comment lines are
//! skipped, quoted literals are collected from import-like lines, and a
//! few unquoted forms (`from x.y import z`, `import a, b`, `mod m;`) are
//! recognised on their own.

use vstd::prelude::*;

verus! {

use crate::text::{
    contains_sub, find_first, find_sub, is_space, lemma_find_sub, replace_seq, seq_views,
    split_char, trim_seq,
};
use crate::text::{
    contains_str, eq_str, find_char, find_str, is_space_exec, replace_str, split_on,
    starts_with_str, trim_str,
};
use vstd::string::StrSliceExecFns;
use vstd::string::StringExecFns;

/// Position of the closing quote `q` at or after `j`, honouring
/// backslash escapes; `None` when the quote is left unterminated.
pub open spec fn find_close(s: Seq<char>, q: char, j: int) -> Option<int>
    decreases s.len() - j,
{
    if j >= s.len() {
        None
    } else if s[j] == '\\' {
        if j + 1 < s.len() {
            find_close(s, q, j + 2)
        } else {
            None
        }
    } else if s[j] == q {
        Some(j)
    } else {
        find_close(s, q, j + 1)
    }
}

/// A found closing quote lies in range and carries the quote character.
pub proof fn lemma_find_close(s: Seq<char>, q: char, j: int)
    requires
        0 <= j,
    ensures
        match find_close(s, q, j) {
            Some(k) => j <= k < s.len() && s[k] == q,
            None => true,
        },
    decreases s.len() - j,
{
    if j < s.len() && s[j] == '\\' {
        if j + 1 < s.len() {
            lemma_find_close(s, q, j + 2);
        }
    } else if j < s.len() && s[j] != q {
        lemma_find_close(s, q, j + 1);
    }
}

/// The closed quoted segments of a line, scanning left to right from
/// position `i`; a segment left unterminated ends the scan.
pub open spec fn quoted_segs(s: Seq<char>, i: int) -> Seq<Seq<char>>
    decreases s.len() - i,
{
    if i >= s.len() {
        Seq::empty()
    } else if s[i] == '"' || s[i] == '\'' {
        match find_close(s, s[i], i + 1) {
            Some(k) => if i < k && k < s.len() {
                seq![s.subrange(i + 1, k)] + quoted_segs(s, k + 1)
            } else {
                Seq::empty()
            },
            None => Seq::empty(),
        }
    } else {
        quoted_segs(s, i + 1)
    }
}

/// Scan for the closing quote, honouring backslash escapes.
fn find_close_exec(s: &str, q: char, start: usize) -> (r: Option<usize>)
    ensures
        match r {
            Some(k) => find_close(s@, q, start as int) == Some(k as int),
            None => find_close(s@, q, start as int) is None,
        },
{
    let n = s.unicode_len();
    let mut j = start;
    while j < n
        invariant
            n == s@.len(),
            find_close(s@, q, start as int) == find_close(s@, q, j as int),
        decreases n - j,
    {
        let cj = s.get_char(j);
        if cj == '\\' {
            if j + 1 < n {
                j += 2;
            } else {
                return None;
            }
        } else if cj == q {
            return Some(j);
        } else {
            j += 1;
        }
    }
    None
}

/// Extract every closed quoted segment (single- or double-quoted) from a
/// line, honouring backslash-escaped characters.
pub fn extract_quoted_segments(line: &str) -> (r: Vec<String>)
    ensures
        seq_views(r@) == quoted_segs(line@, 0),
{
    let n = line.unicode_len();
    let mut out: Vec<String> = Vec::new();
    let mut i: usize = 0;
    proof {
        assert(seq_views(out@) + quoted_segs(line@, 0) =~= quoted_segs(line@, 0));
    }
    while i < n
        invariant
            n == line@.len(),
            0 <= i <= n,
            quoted_segs(line@, 0) == seq_views(out@) + quoted_segs(line@, i as int),
        decreases n - i,
    {
        let c = line.get_char(i);
        if c == '"' || c == '\'' {
            match find_close_exec(line, c, i + 1) {
                Some(k) => {
                    proof {
                        lemma_find_close(line@, c, i + 1);
                    }
                    let seg = line.substring_char(i + 1, k);
                    let ghost old_out = out@;
                    out.push(String::from_str(seg));
                    proof {
                        assert(seq_views(out@) =~= seq_views(old_out).push(seg@));
                        assert(quoted_segs(line@, i as int) == seq![
                            line@.subrange(i + 1, k as int),
                        ] + quoted_segs(line@, k + 1));
                        assert(seq_views(old_out) + quoted_segs(line@, i as int) =~= seq_views(
                            out@,
                        ) + quoted_segs(line@, k + 1));
                    }
                    i = k + 1;
                },
                None => {
                    proof {
                        assert(quoted_segs(line@, i as int) =~= Seq::<Seq<char>>::empty());
                        assert(quoted_segs(line@, n as int) =~= Seq::<Seq<char>>::empty());
                    }
                    i = n;
                },
            }
        } else {
            i += 1;
        }
    }
    proof {
        assert(quoted_segs(line@, i as int) =~= Seq::<Seq<char>>::empty());
        assert(seq_views(out@) + quoted_segs(line@, i as int) =~= seq_views(out@));
    }
    out
}

/// Index of the first whitespace character in `s`, if any.
pub open spec fn find_first_space(s: Seq<char>) -> Option<int>
    decreases s.len(),
{
    if s.len() == 0 {
        None
    } else if is_space(s[0]) {
        Some(0int)
    } else {
        match find_first_space(s.skip(1)) {
            None => None,
            Some(j) => Some(j + 1),
        }
    }
}

proof fn lemma_find_first_space(s: Seq<char>)
    ensures
        match find_first_space(s) {
            Some(k) => 0 <= k < s.len() && is_space(s[k]) && (forall|j: int|
                0 <= j < k ==> !is_space(s[j])),
            None => forall|j: int| 0 <= j < s.len() ==> !is_space(s[j]),
        },
    decreases s.len(),
{
    if s.len() > 0 && !is_space(s[0]) {
        let t = s.skip(1);
        lemma_find_first_space(t);
        assert(forall|j: int| 0 <= j < t.len() ==> t[j] == s[j + 1]);
        match find_first_space(t) {
            Some(j) => {
                assert forall|j2: int| 0 <= j2 < j + 1 implies !is_space(s[j2]) by {
                    if j2 >= 1 {
                        assert(!is_space(t[j2 - 1]));
                    }
                }
            },
            None => {
                assert forall|j2: int| 0 <= j2 < s.len() implies !is_space(s[j2]) by {
                    if j2 >= 1 {
                        assert(!is_space(t[j2 - 1]));
                    }
                }
            },
        }
    }
}

proof fn lemma_find_first_space_unique(s: Seq<char>, k: int)
    requires
        0 <= k < s.len(),
        is_space(s[k]),
        forall|j: int| 0 <= j < k ==> !is_space(s[j]),
    ensures
        find_first_space(s) == Some(k),
{
    lemma_find_first_space(s);
    match find_first_space(s) {
        Some(k2) => {
            if k2 < k {
                assert(!is_space(s[k2]));
            } else if k < k2 {
                assert(!is_space(s[k]));
            }
        },
        None => {
            assert(!is_space(s[k]));
        },
    }
}

/// First position of whitespace in `s`.
fn find_space(s: &str) -> (r: Option<usize>)
    ensures
        match r {
            Some(k) => find_first_space(s@) == Some(k as int),
            None => find_first_space(s@) is None,
        },
{
    let n = s.unicode_len();
    let mut i: usize = 0;
    while i < n
        invariant
            n == s@.len(),
            0 <= i <= n,
            forall|j: int| 0 <= j < i ==> !is_space(s@[j]),
        decreases n - i,
    {
        if is_space_exec(s.get_char(i)) {
            proof {
                lemma_find_first_space_unique(s@, i as int);
            }
            return Some(i);
        }
        i += 1;
    }
    proof {
        lemma_find_first_space(s@);
        if let Some(k) = find_first_space(s@) {
            assert(!is_space(s@[k]));
        }
    }
    None
}

/// `s` with every trailing occurrence of `c` removed.
pub open spec fn trim_end_char(s: Seq<char>, c: char) -> Seq<char>
    decreases s.len(),
{
    if s.len() > 0 && s[s.len() - 1] == c {
        trim_end_char(s.take(s.len() - 1), c)
    } else {
        s
    }
}

proof fn lemma_trim_end_char_idx(s: Seq<char>, c: char, b: int)
    requires
        0 <= b <= s.len(),
        forall|j: int| b <= j < s.len() ==> s[j] == c,
        b > 0 ==> s[b - 1] != c,
    ensures
        trim_end_char(s, c) == s.take(b),
    decreases s.len() - b,
{
    if b == s.len() {
        assert(s.take(b) =~= s);
    } else {
        let t = s.take(s.len() - 1);
        assert(forall|j: int| 0 <= j < t.len() ==> t[j] == s[j]);
        lemma_trim_end_char_idx(t, c, b);
        assert(t.take(b) =~= s.take(b));
    }
}

/// `s` with every trailing occurrence of `c` removed.
fn trim_end_matching<'a>(s: &'a str, c: char) -> (r: &'a str)
    ensures
        r@ == trim_end_char(s@, c),
{
    let n = s.unicode_len();
    let mut b: usize = n;
    while b > 0 && s.get_char(b - 1) == c
        invariant
            n == s@.len(),
            0 <= b <= n,
            forall|j: int| b <= j < n ==> s@[j] == c,
        decreases b,
    {
        b -= 1;
    }
    let r = s.substring_char(0, b);
    proof {
        lemma_trim_end_char_idx(s@, c, b as int);
        assert(s@.subrange(0, b as int) =~= s@.take(b as int));
    }
    r
}

/// A blank line or one that opens with a comment marker.
pub open spec fn comment_or_blank(t: Seq<char>) -> bool {
    t.len() == 0 || "//"@.is_prefix_of(t) || "#"@.is_prefix_of(t) || "*"@.is_prefix_of(t)
}

/// Does the line look import-like, so that its quoted literals count?
pub open spec fn marker_line(t: Seq<char>) -> bool {
    "import "@.is_prefix_of(t) || "export "@.is_prefix_of(t) || contains_sub(t, " from "@)
        || contains_sub(t, "require("@) || contains_sub(t, "import("@) || "use "@.is_prefix_of(t)
}

/// The non-empty quoted literals of an import-like line.
pub open spec fn quoted_part(t: Seq<char>) -> Set<Seq<char>> {
    if marker_line(t) {
        Set::new(|x: Seq<char>| x.len() > 0 && quoted_segs(t, 0).contains(x))
    } else {
        Set::empty()
    }
}

/// The module of a `from <dotted> import ...` line, dots become slashes.
pub open spec fn py_from_part(t: Seq<char>) -> Set<Seq<char>> {
    if "from "@.is_prefix_of(t) {
        let rest = t.skip("from "@.len() as int);
        match find_sub(rest, " import "@) {
            Some(k) => {
                let m = replace_seq(trim_seq(rest.take(k)), '.', '/');
                if m.len() > 0 {
                    set![m]
                } else {
                    Set::empty()
                }
            },
            None => Set::empty(),
        }
    } else {
        Set::empty()
    }
}

/// The first whitespace-delimited token of a comma piece, dots become
/// slashes.
pub open spec fn py_item(piece: Seq<char>) -> Seq<char> {
    let tp = trim_seq(piece);
    let tok = match find_first_space(tp) {
        Some(k) => tp.take(k),
        None => tp,
    };
    replace_seq(tok, '.', '/')
}

/// The modules of an unquoted `import a, b, ...` line.
pub open spec fn py_import_part(t: Seq<char>) -> Set<Seq<char>> {
    if "import "@.is_prefix_of(t) {
        let rest = t.skip("import "@.len() as int);
        if find_first(rest, '"') is None && find_first(rest, '\'') is None && !contains_sub(
            rest,
            " from "@,
        ) {
            py_prefix_set(split_char(rest, ','), split_char(rest, ',').len() as int)
        } else {
            Set::empty()
        }
    } else {
        Set::empty()
    }
}

/// The `./<name>` specifier of a `mod <name>;` or `pub mod <name>;` line.
pub open spec fn mod_part(t: Seq<char>) -> Set<Seq<char>> {
    let rest_opt: Option<Seq<char>> = if "mod "@.is_prefix_of(t) {
        Some(t.skip("mod "@.len() as int))
    } else if "pub mod "@.is_prefix_of(t) {
        Some(t.skip("pub mod "@.len() as int))
    } else {
        None
    };
    match rest_opt {
        Some(rest) => {
            let m = trim_seq(trim_end_char(rest, ';'));
            if m.len() > 0 {
                set![seq!['.', '/'] + m]
            } else {
                Set::empty()
            }
        },
        None => Set::empty(),
    }
}

/// Everything one trimmed line contributes to the specifier set.
pub open spec fn line_specs(t: Seq<char>) -> Set<Seq<char>> {
    if comment_or_blank(t) {
        Set::empty()
    } else {
        quoted_part(t).union(py_from_part(t)).union(py_import_part(t)).union(mod_part(t))
    }
}

/// The specifier set of a whole text: the union of what each line of it
/// contributes after trimming.
pub open spec fn extract_spec(lines: Seq<Seq<char>>) -> Set<Seq<char>>
    decreases lines.len(),
{
    if lines.len() == 0 {
        Set::empty()
    } else {
        line_specs(trim_seq(lines[0])).union(extract_spec(lines.skip(1)))
    }
}

/// One more line contributes its own specifiers and nothing else.
pub proof fn lemma_extract_push(ls: Seq<Seq<char>>, l: Seq<char>)
    ensures
        extract_spec(ls.push(l)) == extract_spec(ls).union(line_specs(trim_seq(l))),
    decreases ls.len(),
{
    if ls.len() == 0 {
        assert(ls.push(l)[0] == l);
        assert(ls.push(l).skip(1) =~= Seq::<Seq<char>>::empty());
        assert(extract_spec(ls.push(l)) == line_specs(trim_seq(l)).union(
            extract_spec(ls.push(l).skip(1)),
        ));
        assert(extract_spec(ls.push(l).skip(1)) == Set::<Seq<char>>::empty());
        assert(extract_spec(ls) == Set::<Seq<char>>::empty());
        assert(extract_spec(ls.push(l)) =~= extract_spec(ls).union(line_specs(trim_seq(l))));
    } else {
        assert(ls.push(l)[0] == ls[0]);
        assert(ls.push(l).skip(1) =~= ls.skip(1).push(l));
        lemma_extract_push(ls.skip(1), l);
        assert(extract_spec(ls.push(l)) == line_specs(trim_seq(ls[0])).union(
            extract_spec(ls.skip(1).push(l)),
        ));
        assert(extract_spec(ls.skip(1).push(l)) == extract_spec(ls.skip(1)).union(
            line_specs(trim_seq(l)),
        ));
        assert(extract_spec(ls) == line_specs(trim_seq(ls[0])).union(extract_spec(ls.skip(1))));
        assert(extract_spec(ls.push(l)) =~= extract_spec(ls).union(line_specs(trim_seq(l))));
    }
}

/// The non-empty strings among the first `j` of `qs`.
pub open spec fn nonempty_prefix_set(qs: Seq<Seq<char>>, j: int) -> Set<Seq<char>> {
    Set::new(|x: Seq<char>| x.len() > 0 && qs.take(j).contains(x))
}

proof fn lemma_nonempty_prefix_step(qs: Seq<Seq<char>>, j: int)
    requires
        0 <= j < qs.len(),
    ensures
        nonempty_prefix_set(qs, j + 1) == if qs[j].len() > 0 {
            nonempty_prefix_set(qs, j).insert(qs[j])
        } else {
            nonempty_prefix_set(qs, j)
        },
{
    assert forall|x: Seq<char>| #[trigger]
        qs.take(j + 1).contains(x) <==> (qs.take(j).contains(x) || x == qs[j]) by {
        crate::text::lemma_take_contains_step(qs, j, x);
    }
    if qs[j].len() > 0 {
        assert(nonempty_prefix_set(qs, j + 1) =~= nonempty_prefix_set(qs, j).insert(qs[j]));
    } else {
        assert(nonempty_prefix_set(qs, j + 1) =~= nonempty_prefix_set(qs, j));
    }
}

/// The non-empty first-token modules of the first `j` comma pieces.
pub open spec fn py_prefix_set(pieces: Seq<Seq<char>>, j: int) -> Set<Seq<char>> {
    Set::new(
        |m: Seq<char>|
            m.len() > 0 && exists|jj: int| 0 <= jj < j && m == py_item(#[trigger] pieces[jj]),
    )
}

proof fn lemma_py_prefix_step(pieces: Seq<Seq<char>>, j: int)
    requires
        0 <= j < pieces.len(),
    ensures
        py_prefix_set(pieces, j + 1) == if py_item(pieces[j]).len() > 0 {
            py_prefix_set(pieces, j).insert(py_item(pieces[j]))
        } else {
            py_prefix_set(pieces, j)
        },
{
    let target = if py_item(pieces[j]).len() > 0 {
        py_prefix_set(pieces, j).insert(py_item(pieces[j]))
    } else {
        py_prefix_set(pieces, j)
    };
    assert forall|m: Seq<char>| py_prefix_set(pieces, j + 1).contains(m) implies target.contains(
        m,
    ) by {
        let jj = choose|jj: int| 0 <= jj < j + 1 && m == py_item(#[trigger] pieces[jj]);
        if jj < j {
            assert(py_prefix_set(pieces, j).contains(m));
        }
    }
    assert forall|m: Seq<char>| target.contains(m) implies py_prefix_set(pieces, j + 1).contains(
        m,
    ) by {
        if py_prefix_set(pieces, j).contains(m) {
            let jj = choose|jj: int| 0 <= jj < j && m == py_item(#[trigger] pieces[jj]);
            assert(0 <= jj < j + 1 && m == py_item(pieces[jj]));
        } else {
            assert(m == py_item(pieces[j]) && 0 <= j < j + 1);
        }
    }
    assert(py_prefix_set(pieces, j + 1) =~= target);
}

/// Extraction on comment-only or blank-only text yields no specifier:
/// a text whose every line trims to a blank or comment line has the
/// empty specifier set.
pub proof fn lemma_extract_comment_only(lines: Seq<Seq<char>>)
    requires
        forall|l: int| 0 <= l < lines.len() ==> comment_or_blank(trim_seq(#[trigger] lines[l])),
    ensures
        extract_spec(lines) == Set::<Seq<char>>::empty(),
    decreases lines.len(),
{
    if lines.len() == 0 {
    } else {
        assert(forall|l: int|
            0 <= l < lines.skip(1).len() ==> comment_or_blank(
                trim_seq(#[trigger] lines.skip(1)[l]),
            )) by {
            assert(forall|l: int| 0 <= l < lines.skip(1).len() ==> lines.skip(1)[l] == lines[l
                + 1]);
        }
        lemma_extract_comment_only(lines.skip(1));
        assert(comment_or_blank(trim_seq(lines[0])));
        assert(line_specs(trim_seq(lines[0])) == Set::<Seq<char>>::empty());
        assert(extract_spec(lines) =~= Set::<Seq<char>>::empty());
    }
}

/// Append `s` unless an equal string is already present.
fn insert_unique(out: &mut Vec<String>, s: String)
    requires
        seq_views(old(out)@).no_duplicates(),
    ensures
        seq_views(final(out)@).to_set() == seq_views(old(out)@).to_set().insert(s@),
        seq_views(final(out)@).no_duplicates(),
{
    let mut j: usize = 0;
    while j < out.len()
        invariant
            seq_views(out@).no_duplicates(),
            0 <= j <= out@.len(),
            out@ == old(out)@,
            forall|k: int| 0 <= k < j ==> out@[k]@ != s@,
        decreases out@.len() - j,
    {
        if eq_str(out[j].as_str(), s.as_str()) {
            proof {
                assert(seq_views(out@)[j as int] == s@);
                assert(seq_views(out@).contains(s@));
                assert(seq_views(out@).to_set() =~= seq_views(out@).to_set().insert(s@));
            }
            return ;
        }
        j += 1;
    }
    let ghost old_views = seq_views(out@);
    out.push(s);
    proof {
        assert(seq_views(out@) =~= old_views.push(s@));
        crate::text::lemma_to_set_push(old_views, s@);
        assert forall|a: int, b: int|
            0 <= a < b < seq_views(out@).len() implies seq_views(out@)[a] != seq_views(
            out@,
        )[b] by {
            if b < old_views.len() {
                assert(seq_views(out@)[a] == old_views[a] && seq_views(out@)[b] == old_views[b]);
            } else {
                assert(seq_views(out@)[b] == s@ && seq_views(out@)[a] == old_views[a]);
            }
        }
    }
}

/// The candidate specifiers of one trimmed line, possibly repeated; as a
/// set they are exactly what the line contributes.
fn line_candidates(t: &str) -> (r: Vec<String>)
    ensures
        seq_views(r@).to_set() == line_specs(t@),
{
    let mut cands: Vec<String> = Vec::new();
    if t.unicode_len() == 0 || starts_with_str(t, "//") || starts_with_str(t, "#")
        || starts_with_str(t, "*") {
        proof {
            assert(comment_or_blank(t@));
            assert(seq_views(cands@).to_set() =~= line_specs(t@));
        }
        return cands;
    }
    proof {
        assert(!comment_or_blank(t@));
    }
    let n = t.unicode_len();

    // quoted literals of import-like lines
    let marker = starts_with_str(t, "import ") || starts_with_str(t, "export ") || contains_str(
        t,
        " from ",
    ) || contains_str(t, "require(") || contains_str(t, "import(") || starts_with_str(t, "use ");
    proof {
        assert(marker == marker_line(t@));
    }
    if marker {
        let qs = extract_quoted_segments(t);
        let mut j: usize = 0;
        proof {
            assert(seq_views(qs@).take(0) =~= Seq::<Seq<char>>::empty());
            assert(seq_views(cands@).to_set() =~= nonempty_prefix_set(seq_views(qs@), 0));
        }
        while j < qs.len()
            invariant
                seq_views(qs@) == quoted_segs(t@, 0),
                0 <= j <= qs@.len(),
                seq_views(cands@).to_set() == nonempty_prefix_set(seq_views(qs@), j as int),
            decreases qs@.len() - j,
        {
            proof {
                lemma_nonempty_prefix_step(seq_views(qs@), j as int);
            }
            let q = &qs[j];
            if q.as_str().unicode_len() > 0 {
                let ghost pre = seq_views(cands@);
                cands.push(q.clone());
                proof {
                    assert(seq_views(cands@) =~= pre.push(qs@[j as int]@));
                    crate::text::lemma_to_set_push(pre, qs@[j as int]@);
                }
            }
            j += 1;
        }
        proof {
            let qv = seq_views(qs@);
            assert(qv.take(qv.len() as int) =~= qv);
            assert(nonempty_prefix_set(qv, qv.len() as int) =~= quoted_part(t@));
        }
    }
    proof {
        if !marker_line(t@) {
            assert(quoted_part(t@) =~= Set::<Seq<char>>::empty());
        }
        assert(seq_views(cands@).to_set() =~= quoted_part(t@));
    }
    let ghost s1 = quoted_part(t@);

    // from <dotted-path> import ...
    if starts_with_str(t, "from ") {
        proof {
            reveal_strlit("from ");
        }
        let rest = t.substring_char(5, n);
        proof {
            assert(rest@ =~= t@.skip("from "@.len() as int));
        }
        match find_str(rest, " import ") {
            Some(k) => {
                proof {
                    lemma_find_sub(rest@, " import "@);
                }
                let m0 = rest.substring_char(0, k);
                let m1 = trim_str(m0);
                let m2 = replace_str(m1, '.', '/');
                proof {
                    assert(rest@.subrange(0, k as int) =~= rest@.take(k as int));
                }
                if m2.as_str().unicode_len() > 0 {
                    let ghost pre = seq_views(cands@);
                    let ghost mv = m2@;
                    cands.push(m2);
                    proof {
                        assert(seq_views(cands@) =~= pre.push(mv));
                        crate::text::lemma_to_set_push(pre, mv);
                        assert(py_from_part(t@) =~= set![mv]);
                        assert(seq_views(cands@).to_set() =~= s1.union(py_from_part(t@)));
                    }
                } else {
                    proof {
                        assert(py_from_part(t@) =~= Set::<Seq<char>>::empty());
                    }
                }
            },
            None => {
                proof {
                    assert(py_from_part(t@) =~= Set::<Seq<char>>::empty());
                }
            },
        }
    } else {
        proof {
            assert(py_from_part(t@) =~= Set::<Seq<char>>::empty());
        }
    }
    proof {
        assert(seq_views(cands@).to_set() =~= s1.union(py_from_part(t@)));
    }
    let ghost s2 = s1.union(py_from_part(t@));

    // import a, b, ... without quotes and without " from "
    if starts_with_str(t, "import ") {
        proof {
            reveal_strlit("import ");
        }
        let rest = t.substring_char(7, n);
        proof {
            assert(rest@ =~= t@.skip("import "@.len() as int));
        }
        let has_dq = find_char(rest, '"');
        let has_sq = find_char(rest, '\'');
        let has_from = contains_str(rest, " from ");
        if has_dq.is_none() && has_sq.is_none() && !has_from {
            let pieces = split_on(rest, ',');
            let mut j: usize = 0;
            proof {
                assert(seq_views(cands@).to_set() =~= s2.union(
                    py_prefix_set(seq_views(pieces@), 0),
                ));
            }
            while j < pieces.len()
                invariant
                    s2 == quoted_part(t@).union(py_from_part(t@)),
                    seq_views(pieces@) == split_char(t@.skip("import "@.len() as int), ','),
                    0 <= j <= pieces@.len(),
                    seq_views(cands@).to_set() == s2.union(
                        py_prefix_set(seq_views(pieces@), j as int),
                    ),
                decreases pieces@.len() - j,
            {
                proof {
                    lemma_py_prefix_step(seq_views(pieces@), j as int);
                }
                let tp = trim_str(pieces[j].as_str());
                let tpn = tp.unicode_len();
                let tok_end = match find_space(tp) {
                    Some(k) => {
                        proof {
                            lemma_find_first_space(tp@);
                        }
                        k
                    },
                    None => tpn,
                };
                let tok = tp.substring_char(0, tok_end);
                let mrep = replace_str(tok, '.', '/');
                proof {
                    assert(tp@.subrange(0, tok_end as int) =~= tp@.take(tok_end as int));
                    assert(tp@.take(tp@.len() as int) =~= tp@);
                    assert(mrep@ == py_item(seq_views(pieces@)[j as int]));
                }
                if mrep.as_str().unicode_len() > 0 {
                    let ghost pre = seq_views(cands@);
                    let ghost mv = mrep@;
                    cands.push(mrep);
                    proof {
                        assert(seq_views(cands@) =~= pre.push(mv));
                        crate::text::lemma_to_set_push(pre, mv);
                        assert(seq_views(cands@).to_set() =~= s2.union(
                            py_prefix_set(seq_views(pieces@), j + 1),
                        ));
                    }
                } else {
                    proof {
                        assert(seq_views(cands@).to_set() =~= s2.union(
                            py_prefix_set(seq_views(pieces@), j + 1),
                        ));
                    }
                }
                j += 1;
            }
            proof {
                assert(py_import_part(t@) == py_prefix_set(
                    seq_views(pieces@),
                    seq_views(pieces@).len() as int,
                ));
            }
        } else {
            proof {
                assert(py_import_part(t@) =~= Set::<Seq<char>>::empty());
            }
        }
    } else {
        proof {
            assert(py_import_part(t@) =~= Set::<Seq<char>>::empty());
        }
    }
    proof {
        assert(seq_views(cands@).to_set() =~= s2.union(py_import_part(t@)));
    }
    let ghost s3 = s2.union(py_import_part(t@));

    // mod <name>; / pub mod <name>;
    let rest_o: Option<&str> = if starts_with_str(t, "mod ") {
        proof {
            reveal_strlit("mod ");
        }
        Some(t.substring_char(4, n))
    } else if starts_with_str(t, "pub mod ") {
        proof {
            reveal_strlit("pub mod ");
        }
        Some(t.substring_char(8, n))
    } else {
        None
    };
    match rest_o {
        Some(rest) => {
            proof {
                reveal_strlit("mod ");
                reveal_strlit("pub mod ");
                if "mod "@.is_prefix_of(t@) {
                    assert(rest@ =~= t@.skip("mod "@.len() as int));
                } else {
                    assert(rest@ =~= t@.skip("pub mod "@.len() as int));
                }
            }
            let s1r = trim_end_matching(rest, ';');
            let msub = trim_str(s1r);
            if msub.unicode_len() > 0 {
                let mut sp = String::from_str("./");
                sp.append(msub);
                let ghost pre = seq_views(cands@);
                let ghost mv = sp@;
                cands.push(sp);
                proof {
                    reveal_strlit("./");
                    assert("./"@ =~= seq!['.', '/']);
                    assert(mv == seq!['.', '/'] + msub@);
                    assert(seq_views(cands@) =~= pre.push(mv));
                    crate::text::lemma_to_set_push(pre, mv);
                    assert(mod_part(t@) =~= set![mv]);
                    assert(seq_views(cands@).to_set() =~= s3.union(mod_part(t@)));
                }
            } else {
                proof {
                    assert(mod_part(t@) =~= Set::<Seq<char>>::empty());
                }
            }
        },
        None => {
            proof {
                reveal_strlit("mod ");
                reveal_strlit("pub mod ");
                assert(mod_part(t@) =~= Set::<Seq<char>>::empty());
            }
        },
    }
    proof {
        assert(seq_views(cands@).to_set() =~= s3.union(mod_part(t@)));
        assert(s3.union(mod_part(t@)) =~= line_specs(t@));
    }
    cands
}

/// Extract the unique module specifiers of a whole text: the engine's
/// best-effort lexical scan over import-like lines.
pub fn extract_module_specifiers(content: &str) -> (r: Vec<String>)
    ensures
        seq_views(r@).to_set() == extract_spec(split_char(content@, '\n')),
        seq_views(r@).no_duplicates(),
{
    let lines = split_on(content, '\n');
    let mut out: Vec<String> = Vec::new();
    let mut i: usize = 0;
    proof {
        assert(seq_views(lines@).take(0) =~= Seq::<Seq<char>>::empty());
        assert(seq_views(out@).to_set() =~= extract_spec(seq_views(lines@).take(0)));
    }
    while i < lines.len()
        invariant
            seq_views(lines@) == split_char(content@, '\n'),
            0 <= i <= lines@.len(),
            seq_views(out@).to_set() == extract_spec(seq_views(lines@).take(i as int)),
            seq_views(out@).no_duplicates(),
        decreases lines@.len() - i,
    {
        let t = trim_str(lines[i].as_str());
        let cands = line_candidates(t);
        let ghost base = seq_views(out@).to_set();
        let mut k: usize = 0;
        proof {
            assert(seq_views(cands@).take(0) =~= Seq::<Seq<char>>::empty());
            assert(base.union(seq_views(cands@).take(0).to_set()) =~= base);
        }
        while k < cands.len()
            invariant
                0 <= k <= cands@.len(),
                seq_views(out@).to_set() == base.union(seq_views(cands@).take(k as int).to_set()),
                seq_views(out@).no_duplicates(),
            decreases cands@.len() - k,
        {
            let ghost cv = seq_views(cands@);
            insert_unique(&mut out, cands[k].clone());
            proof {
                assert(cv.take(k + 1) =~= cv.take(k as int).push(cv[k as int]));
                crate::text::lemma_to_set_push(cv.take(k as int), cv[k as int]);
                assert(seq_views(out@).to_set() =~= base.union(cv.take(k + 1).to_set()));
            }
            k += 1;
        }
        proof {
            let cv = seq_views(cands@);
            let lv = seq_views(lines@);
            assert(cv.take(cv.len() as int) =~= cv);
            assert(seq_views(out@).to_set() =~= base.union(line_specs(t@)));
            lemma_extract_push(lv.take(i as int), lv[i as int]);
            assert(lv.take(i + 1) =~= lv.take(i as int).push(lv[i as int]));
            assert(seq_views(out@).to_set() =~= extract_spec(lv.take(i + 1)));
        }
        i += 1;
    }
    proof {
        let lv = seq_views(lines@);
        assert(lv.take(lv.len() as int) =~= lv);
    }
    out
}

} // verus!
