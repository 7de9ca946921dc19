//! Character-sequence utilities shared by the whole engine: searching,
//! splitting, joining, trimming, case folding and lexicographic order,
//! each with an exact specification over `Seq<char>`.

use vstd::prelude::*;

verus! {

use vstd::string::StrSliceExecFns;
use vstd::string::StringExecFns;

/// Whitespace, as this engine understands it: the ASCII blank characters.
pub open spec fn is_space(c: char) -> bool {
    c == ' ' || c == '\t' || c == '\n' || c == '\r' || c == '\u{b}' || c == '\u{c}'
}

/// ASCII lower-casing of one character.
pub open spec fn lower_char(c: char) -> char {
    if 'A' as u32 <= c as u32 && c as u32 <= 'Z' as u32 {
        ((c as u8) + 32) as char
    } else {
        c
    }
}

/// ASCII lower-casing of a character sequence.
pub open spec fn lower_seq(s: Seq<char>) -> Seq<char> {
    s.map_values(|c: char| lower_char(c))
}

/// Every occurrence of `from` replaced by `to`.
pub open spec fn replace_seq(s: Seq<char>, from: char, to: char) -> Seq<char> {
    s.map_values(|c: char| if c == from { to } else { c })
}

/// Index of the first occurrence of `c` in `s`, if any.
pub open spec fn find_first(s: Seq<char>, c: char) -> Option<int>
    decreases s.len(),
{
    if s.len() == 0 {
        None
    } else if s[0] == c {
        Some(0int)
    } else {
        match find_first(s.skip(1), c) {
            None => None,
            Some(j) => Some(j + 1),
        }
    }
}

/// Index of the last occurrence of `c` in `s`, if any.
pub open spec fn find_last(s: Seq<char>, c: char) -> Option<int>
    decreases s.len(),
{
    if s.len() == 0 {
        None
    } else if s[s.len() - 1] == c {
        Some(s.len() - 1)
    } else {
        find_last(s.take(s.len() - 1), c)
    }
}

pub proof fn lemma_find_first(s: Seq<char>, c: char)
    ensures
        match find_first(s, c) {
            Some(k) => 0 <= k < s.len() && s[k] == c && (forall|j: int| 0 <= j < k ==> s[j] != c),
            None => forall|j: int| 0 <= j < s.len() ==> s[j] != c,
        },
    decreases s.len(),
{
    if s.len() > 0 && s[0] != c {
        let t = s.skip(1);
        lemma_find_first(t, c);
        assert(forall|j: int| 0 <= j < t.len() ==> t[j] == s[j + 1]);
        match find_first(t, c) {
            Some(j) => {
                assert(s[j + 1] == t[j]);
                assert forall|j2: int| 0 <= j2 < j + 1 implies s[j2] != c by {
                    if j2 >= 1 {
                        assert(t[j2 - 1] != c);
                    }
                }
            },
            None => {
                assert forall|j2: int| 0 <= j2 < s.len() implies s[j2] != c by {
                    if j2 >= 1 {
                        assert(t[j2 - 1] != c);
                    }
                }
            },
        }
    }
}

/// `find_first` is pinned down by the first-occurrence properties.
pub proof fn lemma_find_first_unique(s: Seq<char>, c: char, k: int)
    requires
        0 <= k < s.len(),
        s[k] == c,
        forall|j: int| 0 <= j < k ==> s[j] != c,
    ensures
        find_first(s, c) == Some(k),
{
    lemma_find_first(s, c);
    match find_first(s, c) {
        Some(k2) => {
            if k2 < k {
                assert(s[k2] != c);
            } else if k < k2 {
                assert(s[k] != c);
            }
        },
        None => {
            assert(s[k] != c);
        },
    }
}

pub proof fn lemma_find_first_none(s: Seq<char>, c: char)
    requires
        forall|j: int| 0 <= j < s.len() ==> s[j] != c,
    ensures
        find_first(s, c) is None,
{
    lemma_find_first(s, c);
    if let Some(k) = find_first(s, c) {
        assert(s[k] != c);
    }
}

pub proof fn lemma_find_last(s: Seq<char>, c: char)
    ensures
        match find_last(s, c) {
            Some(k) => 0 <= k < s.len() && s[k] == c && (forall|j: int|
                k < j < s.len() ==> s[j] != c),
            None => forall|j: int| 0 <= j < s.len() ==> s[j] != c,
        },
    decreases s.len(),
{
    if s.len() > 0 && s[s.len() - 1] != c {
        lemma_find_last(s.take(s.len() - 1), c);
        assert(forall|j: int|
            0 <= j < s.len() - 1 ==> s.take(s.len() - 1)[j] == s[j]);
    }
}

pub proof fn lemma_find_last_unique(s: Seq<char>, c: char, k: int)
    requires
        0 <= k < s.len(),
        s[k] == c,
        forall|j: int| k < j < s.len() ==> s[j] != c,
    ensures
        find_last(s, c) == Some(k),
{
    lemma_find_last(s, c);
    match find_last(s, c) {
        Some(k2) => {
            if k2 < k {
                assert(s[k] != c);
            } else if k < k2 {
                assert(s[k2] != c);
            }
        },
        None => {
            assert(s[k] != c);
        },
    }
}

pub proof fn lemma_find_last_none(s: Seq<char>, c: char)
    requires
        forall|j: int| 0 <= j < s.len() ==> s[j] != c,
    ensures
        find_last(s, c) is None,
{
    lemma_find_last(s, c);
    if let Some(k) = find_last(s, c) {
        assert(s[k] != c);
    }
}

/// `p` occurs in `s` starting at position `i`.
pub open spec fn matches_at(s: Seq<char>, p: Seq<char>, i: int) -> bool {
    0 <= i && i + p.len() <= s.len() && s.subrange(i, i + p.len()) == p
}

/// `p` occurs somewhere in `s`.
pub open spec fn contains_sub(s: Seq<char>, p: Seq<char>) -> bool {
    exists|i: int| #[trigger] matches_at(s, p, i)
}

/// Index of the first occurrence of `p` in `s`, if any.
pub open spec fn find_sub(s: Seq<char>, p: Seq<char>) -> Option<int>
    decreases s.len(),
{
    if matches_at(s, p, 0) {
        Some(0int)
    } else if s.len() == 0 {
        None
    } else {
        match find_sub(s.skip(1), p) {
            None => None,
            Some(j) => Some(j + 1),
        }
    }
}

pub proof fn lemma_matches_at_skip(s: Seq<char>, p: Seq<char>, j: int)
    requires
        s.len() > 0,
        j >= 0,
    ensures
        matches_at(s.skip(1), p, j) == matches_at(s, p, j + 1),
{
    if matches_at(s.skip(1), p, j) {
        assert(s.subrange(j + 1, j + 1 + p.len() as int) =~= s.skip(1).subrange(
            j,
            j + p.len() as int,
        ));
    }
    if matches_at(s, p, j + 1) {
        assert(s.skip(1).subrange(j, j + p.len() as int) =~= s.subrange(
            j + 1,
            j + 1 + p.len() as int,
        ));
    }
}

pub proof fn lemma_find_sub(s: Seq<char>, p: Seq<char>)
    ensures
        match find_sub(s, p) {
            Some(k) => matches_at(s, p, k) && (forall|j: int| j < k ==> !matches_at(s, p, j)),
            None => forall|j: int| !matches_at(s, p, j),
        },
    decreases s.len(),
{
    if !matches_at(s, p, 0) && s.len() > 0 {
        let t = s.skip(1);
        lemma_find_sub(t, p);
        match find_sub(t, p) {
            Some(j) => {
                lemma_matches_at_skip(s, p, j);
                assert forall|j2: int| j2 < j + 1 implies !matches_at(s, p, j2) by {
                    if 1 <= j2 {
                        lemma_matches_at_skip(s, p, j2 - 1);
                    }
                }
            },
            None => {
                assert forall|j2: int| true implies !matches_at(s, p, j2) by {
                    if 1 <= j2 {
                        lemma_matches_at_skip(s, p, j2 - 1);
                    }
                }
            },
        }
    }
}

pub proof fn lemma_find_sub_unique(s: Seq<char>, p: Seq<char>, k: int)
    requires
        matches_at(s, p, k),
        forall|j: int| j < k ==> !matches_at(s, p, j),
    ensures
        find_sub(s, p) == Some(k),
{
    lemma_find_sub(s, p);
    match find_sub(s, p) {
        Some(k2) => {
            if k2 < k {
                assert(!matches_at(s, p, k2));
            } else if k < k2 {
                assert(!matches_at(s, p, k));
            }
        },
        None => {
            assert(!matches_at(s, p, k));
        },
    }
}

/// `contains_sub` and `find_sub` agree.
pub proof fn lemma_contains_find_sub(s: Seq<char>, p: Seq<char>)
    ensures
        contains_sub(s, p) <==> find_sub(s, p) is Some,
{
    lemma_find_sub(s, p);
    if let Some(k) = find_sub(s, p) {
        assert(matches_at(s, p, k));
    }
}

/// Relies on `String::push`: appends exactly one character.
#[verifier::external_body]
pub fn push_char(s: &mut String, c: char)
    ensures
        final(s)@ == old(s)@.push(c),
{
    s.push(c);
}

/// Character-by-character string equality.
pub fn eq_str(a: &str, b: &str) -> (r: bool)
    ensures
        r == (a@ == b@),
{
    let n = a.unicode_len();
    if n != b.unicode_len() {
        return false;
    }
    let mut i: usize = 0;
    while i < n
        invariant
            n == a@.len(),
            n == b@.len(),
            0 <= i <= n,
            forall|j: int| 0 <= j < i ==> a@[j] == b@[j],
        decreases n - i,
    {
        if a.get_char(i) != b.get_char(i) {
            return false;
        }
        i += 1;
    }
    proof {
        assert(a@ =~= b@);
    }
    true
}

/// Does `p` occur in `s` at position `i`?
pub fn matches_at_exec(s: &str, p: &str, i: usize) -> (r: bool)
    ensures
        r == matches_at(s@, p@, i as int),
{
    let n = s.unicode_len();
    let m = p.unicode_len();
    if m > n || i > n - m {
        return false;
    }
    let mut j: usize = 0;
    while j < m
        invariant
            n == s@.len(),
            m == p@.len(),
            i + m <= n,
            0 <= j <= m,
            forall|k: int| 0 <= k < j ==> s@[i + k] == p@[k],
        decreases m - j,
    {
        if s.get_char(i + j) != p.get_char(j) {
            return false;
        }
        j += 1;
    }
    proof {
        assert(s@.subrange(i as int, i + p@.len()) =~= p@);
    }
    true
}

/// Does `s` start with `p`?
pub fn starts_with_str(s: &str, p: &str) -> (r: bool)
    ensures
        r == p@.is_prefix_of(s@),
{
    let r = matches_at_exec(s, p, 0);
    proof {
        if matches_at(s@, p@, 0) {
            assert(s@.subrange(0, p@.len() as int) =~= s@.take(p@.len() as int));
        }
        if p@.is_prefix_of(s@) {
            assert(s@.take(p@.len() as int) =~= s@.subrange(0, p@.len() as int));
        }
    }
    r
}

/// First position at which `p` occurs in `s`.
pub fn find_str(s: &str, p: &str) -> (r: Option<usize>)
    ensures
        match r {
            Some(k) => find_sub(s@, p@) == Some(k as int),
            None => find_sub(s@, p@) is None,
        },
{
    let n = s.unicode_len();
    let mut i: usize = 0;
    while i < n
        invariant
            n == s@.len(),
            0 <= i <= n,
            forall|j: int| j < i ==> !matches_at(s@, p@, j),
        decreases n - i,
    {
        if matches_at_exec(s, p, i) {
            proof {
                lemma_find_sub_unique(s@, p@, i as int);
            }
            return Some(i);
        }
        i += 1;
    }
    if matches_at_exec(s, p, n) {
        proof {
            lemma_find_sub_unique(s@, p@, n as int);
        }
        return Some(n);
    }
    proof {
        assert(forall|j: int| j > s@.len() ==> !matches_at(s@, p@, j));
        lemma_find_sub(s@, p@);
        if let Some(k) = find_sub(s@, p@) {
            assert(!matches_at(s@, p@, k));
        }
    }
    None
}

/// Does `p` occur anywhere in `s`?
pub fn contains_str(s: &str, p: &str) -> (r: bool)
    ensures
        r == contains_sub(s@, p@),
{
    let f = find_str(s, p);
    proof {
        lemma_contains_find_sub(s@, p@);
    }
    f.is_some()
}

/// First position of character `c` in `s`.
pub fn find_char(s: &str, c: char) -> (r: Option<usize>)
    ensures
        match r {
            Some(k) => find_first(s@, c) == Some(k as int),
            None => find_first(s@, c) is None,
        },
{
    let n = s.unicode_len();
    let mut i: usize = 0;
    while i < n
        invariant
            n == s@.len(),
            0 <= i <= n,
            forall|j: int| 0 <= j < i ==> s@[j] != c,
        decreases n - i,
    {
        if s.get_char(i) == c {
            proof {
                lemma_find_first_unique(s@, c, i as int);
            }
            return Some(i);
        }
        i += 1;
    }
    proof {
        lemma_find_first_none(s@, c);
    }
    None
}

/// Last position of character `c` in `s`.
pub fn rfind_char(s: &str, c: char) -> (r: Option<usize>)
    ensures
        match r {
            Some(k) => find_last(s@, c) == Some(k as int),
            None => find_last(s@, c) is None,
        },
{
    let n = s.unicode_len();
    let mut i: usize = n;
    while i > 0
        invariant
            n == s@.len(),
            0 <= i <= n,
            forall|j: int| i <= j < n ==> s@[j] != c,
        decreases i,
    {
        i -= 1;
        if s.get_char(i) == c {
            proof {
                lemma_find_last_unique(s@, c, i as int);
            }
            return Some(i);
        }
    }
    proof {
        lemma_find_last_none(s@, c);
    }
    None
}

/// `s` without leading whitespace.
pub open spec fn trim_left(s: Seq<char>) -> Seq<char>
    decreases s.len(),
{
    if s.len() == 0 {
        s
    } else if is_space(s[0]) {
        trim_left(s.skip(1))
    } else {
        s
    }
}

/// `s` without trailing whitespace.
pub open spec fn trim_right(s: Seq<char>) -> Seq<char>
    decreases s.len(),
{
    if s.len() == 0 {
        s
    } else if is_space(s[s.len() - 1]) {
        trim_right(s.take(s.len() - 1))
    } else {
        s
    }
}

/// `s` without leading or trailing whitespace.
pub open spec fn trim_seq(s: Seq<char>) -> Seq<char> {
    trim_right(trim_left(s))
}

pub proof fn lemma_trim_left_idx(s: Seq<char>, a: int)
    requires
        0 <= a <= s.len(),
        forall|j: int| 0 <= j < a ==> is_space(s[j]),
        a < s.len() ==> !is_space(s[a]),
    ensures
        trim_left(s) == s.skip(a),
    decreases a,
{
    if a == 0 {
        assert(s.skip(0) =~= s);
    } else {
        let t = s.skip(1);
        assert(forall|j: int| 0 <= j < t.len() ==> t[j] == s[j + 1]);
        lemma_trim_left_idx(t, a - 1);
        assert(t.skip(a - 1) =~= s.skip(a));
    }
}

pub proof fn lemma_trim_right_idx(s: Seq<char>, b: int)
    requires
        0 <= b <= s.len(),
        forall|j: int| b <= j < s.len() ==> is_space(s[j]),
        b > 0 ==> !is_space(s[b - 1]),
    ensures
        trim_right(s) == s.take(b),
    decreases s.len() - b,
{
    if b == s.len() {
        assert(s.take(b) =~= s);
    } else {
        let t = s.take(s.len() - 1);
        assert(forall|j: int| 0 <= j < t.len() ==> t[j] == s[j]);
        lemma_trim_right_idx(t, b);
        assert(t.take(b) =~= s.take(b));
    }
}

/// `s` with leading and trailing whitespace removed.
pub fn trim_str<'a>(s: &'a str) -> (r: &'a str)
    ensures
        r@ == trim_seq(s@),
{
    let n = s.unicode_len();
    let mut a: usize = 0;
    while a < n && is_space_exec(s.get_char(a))
        invariant
            n == s@.len(),
            0 <= a <= n,
            forall|j: int| 0 <= j < a ==> is_space(s@[j]),
        decreases n - a,
    {
        a += 1;
    }
    proof {
        lemma_trim_left_idx(s@, a as int);
    }
    if a == n {
        let r = s.substring_char(a, n);
        proof {
            assert(s@.subrange(a as int, n as int) =~= s@.skip(a as int));
            assert(trim_right(s@.skip(a as int)) == s@.skip(a as int));
        }
        return r;
    }
    let mut b: usize = n;
    while b > a && is_space_exec(s.get_char(b - 1))
        invariant
            n == s@.len(),
            0 <= a <= b <= n,
            forall|j: int| b <= j < n ==> is_space(s@[j]),
        decreases b,
    {
        b -= 1;
    }
    // the character at `a` is not whitespace, so the scan stops at `b > a`
    let r = s.substring_char(a, b);
    proof {
        let t = s@.skip(a as int);
        assert(forall|j: int| 0 <= j < t.len() ==> t[j] == s@[j + a]);
        lemma_trim_right_idx(t, b - a);
        assert(t.take(b - a) =~= s@.subrange(a as int, b as int));
    }
    r
}

/// Executable whitespace test.
pub fn is_space_exec(c: char) -> (r: bool)
    ensures
        r == is_space(c),
{
    c == ' ' || c == '\t' || c == '\n' || c == '\r' || c == '\u{b}' || c == '\u{c}'
}

/// Executable ASCII lower-casing of one character.
pub fn lower_char_exec(c: char) -> (r: char)
    ensures
        r == lower_char(c),
{
    let u = c as u32;
    if 65 <= u && u <= 90 {
        ((c as u8) + 32) as char
    } else {
        c
    }
}

/// ASCII lower-casing of a whole string.
pub fn lower_str(s: &str) -> (r: String)
    ensures
        r@ == lower_seq(s@),
{
    let n = s.unicode_len();
    let mut out = String::new();
    let mut i: usize = 0;
    while i < n
        invariant
            n == s@.len(),
            0 <= i <= n,
            out@ == lower_seq(s@.take(i as int)),
        decreases n - i,
    {
        let c = lower_char_exec(s.get_char(i));
        push_char(&mut out, c);
        proof {
            assert(lower_seq(s@.take(i + 1)) =~= lower_seq(s@.take(i as int)).push(
                lower_char(s@[i as int]),
            ));
        }
        i += 1;
    }
    proof {
        assert(s@.take(n as int) =~= s@);
    }
    out
}

/// `s` with every occurrence of `from` replaced by `to`.
pub fn replace_str(s: &str, from: char, to: char) -> (r: String)
    ensures
        r@ == replace_seq(s@, from, to),
{
    let n = s.unicode_len();
    let mut out = String::new();
    let mut i: usize = 0;
    while i < n
        invariant
            n == s@.len(),
            0 <= i <= n,
            out@ == replace_seq(s@.take(i as int), from, to),
        decreases n - i,
    {
        let c = s.get_char(i);
        let c2 = if c == from {
            to
        } else {
            c
        };
        push_char(&mut out, c2);
        proof {
            assert(replace_seq(s@.take(i + 1), from, to) =~= replace_seq(
                s@.take(i as int),
                from,
                to,
            ).push(if s@[i as int] == from {
                to
            } else {
                s@[i as int]
            }));
        }
        i += 1;
    }
    proof {
        assert(s@.take(n as int) =~= s@);
    }
    out
}

/// The views of a sequence of strings.
pub open spec fn seq_views(v: Seq<String>) -> Seq<Seq<char>> {
    v.map_values(|x: String| x@)
}

/// `s` split at every occurrence of `c`; separators are dropped and empty
/// segments are kept.
pub open spec fn split_char(s: Seq<char>, c: char) -> Seq<Seq<char>>
    decreases s.len(),
{
    match find_first(s, c) {
        None => seq![s],
        Some(k) => if 0 <= k < s.len() {
            seq![s.take(k)] + split_char(s.skip(k + 1), c)
        } else {
            seq![s]
        },
    }
}

/// Split a string at every occurrence of `c`, keeping empty segments.
pub fn split_on(s: &str, c: char) -> (r: Vec<String>)
    ensures
        seq_views(r@) == split_char(s@, c),
{
    let n = s.unicode_len();
    let mut out: Vec<String> = Vec::new();
    let mut start: usize = 0;
    let mut i: usize = 0;
    proof {
        assert(s@.skip(0) =~= s@);
        assert(seq_views(out@) + split_char(s@, c) =~= split_char(s@, c));
    }
    while i < n
        invariant
            n == s@.len(),
            0 <= start <= i <= n,
            forall|j: int| start <= j < i ==> s@[j] != c,
            split_char(s@, c) == seq_views(out@) + split_char(s@.skip(start as int), c),
        decreases n - i,
    {
        if s.get_char(i) == c {
            let seg = s.substring_char(start, i);
            let ghost old_out = out@;
            out.push(String::from_str(seg));
            proof {
                let t = s@.skip(start as int);
                assert(forall|j: int| 0 <= j < t.len() ==> t[j] == s@[j + start]);
                lemma_find_first_unique(t, c, i - start);
                assert(t.take(i - start) =~= s@.subrange(start as int, i as int));
                assert(t.skip(i - start + 1) =~= s@.skip(i + 1));
                assert(seq_views(out@) =~= seq_views(old_out).push(seg@));
                assert(seq_views(out@) + split_char(s@.skip(i + 1), c) =~= seq_views(old_out) + (
                seq![t.take(i - start)] + split_char(t.skip(i - start + 1), c)));
            }
            start = i + 1;
        }
        i += 1;
    }
    let seg = s.substring_char(start, n);
    let ghost old_out = out@;
    out.push(String::from_str(seg));
    proof {
        let t = s@.skip(start as int);
        assert(forall|j: int| 0 <= j < t.len() ==> t[j] == s@[j + start]);
        lemma_find_first_none(t, c);
        assert(t =~= s@.subrange(start as int, n as int));
        assert(seq_views(out@) =~= seq_views(old_out).push(seg@));
        assert(seq_views(old_out) + seq![t] =~= seq_views(out@));
    }
    out
}

/// The segments of `parts` joined with the separator `sep` between
/// consecutive segments.
pub open spec fn join_sep(parts: Seq<Seq<char>>, sep: Seq<char>) -> Seq<char>
    decreases parts.len(),
{
    if parts.len() == 0 {
        Seq::empty()
    } else if parts.len() == 1 {
        parts[0]
    } else {
        parts[0] + sep + join_sep(parts.skip(1), sep)
    }
}

pub proof fn lemma_join_push(ps: Seq<Seq<char>>, x: Seq<char>, sep: Seq<char>)
    ensures
        join_sep(ps.push(x), sep) == if ps.len() == 0 {
            x
        } else {
            join_sep(ps, sep) + sep + x
        },
    decreases ps.len(),
{
    if ps.len() == 0 {
        assert(ps.push(x)[0] == x);
    } else if ps.len() == 1 {
        assert(ps.push(x).skip(1) =~= seq![x]);
        assert(join_sep(seq![x], sep) == seq![x][0]);
        assert(seq![x][0] == x);
        assert(ps.push(x)[0] == ps[0]);
        assert(join_sep(ps.push(x), sep) == ps[0] + sep + x);
    } else {
        assert(ps.push(x).skip(1) =~= ps.skip(1).push(x));
        lemma_join_push(ps.skip(1), x, sep);
        assert(join_sep(ps.push(x), sep) == ps[0] + sep + join_sep(ps.skip(1).push(x), sep));
        assert((ps[0] + sep + (join_sep(ps.skip(1), sep) + sep + x)) =~= (ps[0] + sep + join_sep(
            ps.skip(1),
            sep,
        )) + sep + x);
    }
}

/// The segments of `parts` joined with `sep`.
pub fn join_with(parts: &Vec<String>, sep: &str) -> (r: String)
    ensures
        r@ == join_sep(seq_views(parts@), sep@),
{
    let mut out = String::new();
    let mut i: usize = 0;
    while i < parts.len()
        invariant
            0 <= i <= parts@.len(),
            out@ == join_sep(seq_views(parts@.take(i as int)), sep@),
        decreases parts@.len() - i,
    {
        if i > 0 {
            out.append(sep);
        }
        out.append(parts[i].as_str());
        proof {
            let pre = seq_views(parts@.take(i as int));
            assert(seq_views(parts@.take(i + 1)) =~= pre.push(parts@[i as int]@));
            lemma_join_push(pre, parts@[i as int]@, sep@);
        }
        i += 1;
    }
    proof {
        assert(parts@.take(parts@.len() as int) =~= parts@);
    }
    out
}

/// Pushing a value adds exactly it to the set of a sequence.
pub proof fn lemma_to_set_push<A>(s: Seq<A>, x: A)
    ensures
        s.push(x).to_set() == s.to_set().insert(x),
{
    assert forall|e: A| s.push(x).to_set().contains(e) implies s.to_set().insert(x).contains(
        e,
    ) by {
        let i = choose|i: int| 0 <= i < s.push(x).len() && s.push(x)[i] == e;
        if i < s.len() {
            assert(s[i] == e);
        }
    }
    assert forall|e: A| s.to_set().insert(x).contains(e) implies s.push(x).to_set().contains(
        e,
    ) by {
        if e == x {
            assert(s.push(x)[s.len() as int] == x);
        } else {
            let i = choose|i: int| 0 <= i < s.len() && s[i] == e;
            assert(s.push(x)[i] == e);
        }
    }
    assert(s.push(x).to_set() =~= s.to_set().insert(x));
}

/// Membership in one more element of a prefix.
pub proof fn lemma_take_contains_step<A>(s: Seq<A>, j: int, e: A)
    requires
        0 <= j < s.len(),
    ensures
        s.take(j + 1).contains(e) <==> (s.take(j).contains(e) || e == s[j]),
{
    if s.take(j + 1).contains(e) {
        let i = choose|i: int| 0 <= i < s.take(j + 1).len() && #[trigger] s.take(j + 1)[i] == e;
        if i < j {
            assert(s.take(j)[i] == e);
        } else {
            assert(e == s[j]);
        }
    }
    if s.take(j).contains(e) {
        let i = choose|i: int| 0 <= i < s.take(j).len() && #[trigger] s.take(j)[i] == e;
        assert(s.take(j + 1)[i] == e);
    }
    if e == s[j] {
        assert(s.take(j + 1)[j] == e);
    }
}

/// Lexicographic order on character sequences, by code point.
pub open spec fn lex_le(a: Seq<char>, b: Seq<char>) -> bool
    decreases a.len(),
{
    if a.len() == 0 {
        true
    } else if b.len() == 0 {
        false
    } else if (a[0] as u32) < (b[0] as u32) {
        true
    } else if (a[0] as u32) > (b[0] as u32) {
        false
    } else {
        lex_le(a.skip(1), b.skip(1))
    }
}

/// `lex_le` is total.
pub proof fn lemma_lex_le_total(a: Seq<char>, b: Seq<char>)
    ensures
        lex_le(a, b) || lex_le(b, a),
    decreases a.len(),
{
    if a.len() > 0 && b.len() > 0 && a[0] as u32 == b[0] as u32 {
        lemma_lex_le_total(a.skip(1), b.skip(1));
    }
}

/// `lex_le` is transitive.
pub proof fn lemma_lex_le_trans(a: Seq<char>, b: Seq<char>, c: Seq<char>)
    requires
        lex_le(a, b),
        lex_le(b, c),
    ensures
        lex_le(a, c),
    decreases a.len(),
{
    if a.len() > 0 && b.len() > 0 && c.len() > 0 && a[0] as u32 == b[0] as u32 && b[0] as u32
        == c[0] as u32 {
        lemma_lex_le_trans(a.skip(1), b.skip(1), c.skip(1));
    }
}

/// `lex_le` is antisymmetric: mutual order means equality.
pub proof fn lemma_lex_le_antisym(a: Seq<char>, b: Seq<char>)
    requires
        lex_le(a, b),
        lex_le(b, a),
    ensures
        a == b,
    decreases a.len(),
{
    if a.len() > 0 && b.len() > 0 && a[0] as u32 == b[0] as u32 {
        vstd::utf8::char_u32_cast(a[0], a[0] as u32);
        vstd::utf8::char_u32_cast(b[0], b[0] as u32);
        assert(a[0] == b[0]);
        lemma_lex_le_antisym(a.skip(1), b.skip(1));
        assert(a =~= seq![a[0]] + a.skip(1));
        assert(b =~= seq![b[0]] + b.skip(1));
    } else {
        assert(a.len() == 0 && b.len() == 0);
        assert(a =~= b);
    }
}

/// Executable lexicographic comparison: is `a <= b`?
pub fn str_le(a: &str, b: &str) -> (r: bool)
    ensures
        r == lex_le(a@, b@),
{
    let n = a.unicode_len();
    let m = b.unicode_len();
    let k = if n < m {
        n
    } else {
        m
    };
    let mut i: usize = 0;
    proof {
        assert(a@.skip(0) =~= a@);
        assert(b@.skip(0) =~= b@);
    }
    while i < k
        invariant
            n == a@.len(),
            m == b@.len(),
            k == if n < m {
                n
            } else {
                m
            },
            0 <= i <= k,
            forall|j: int| 0 <= j < i ==> a@[j] == b@[j],
            lex_le(a@, b@) == lex_le(a@.skip(i as int), b@.skip(i as int)),
        decreases k - i,
    {
        let ca = a.get_char(i);
        let cb = b.get_char(i);
        proof {
            let sa = a@.skip(i as int);
            let sb = b@.skip(i as int);
            assert(sa[0] == a@[i as int] && sb[0] == b@[i as int]);
            assert(sa.skip(1) =~= a@.skip(i + 1));
            assert(sb.skip(1) =~= b@.skip(i + 1));
            vstd::utf8::char_u32_cast(ca, ca as u32);
            vstd::utf8::char_u32_cast(cb, cb as u32);
        }
        if ca as u32 != cb as u32 {
            return (ca as u32) < (cb as u32);
        }
        i += 1;
    }
    proof {
        let sa = a@.skip(i as int);
        let sb = b@.skip(i as int);
        if n <= m {
            assert(sa.len() == 0);
        } else {
            assert(sb.len() == 0 && sa.len() > 0);
        }
    }
    n <= m
}

} // verus!
