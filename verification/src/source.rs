//! Source snippets for code highlight: which relative paths may be read, and
//! which lines of a file are returned around a focus line.

use vstd::prelude::*;
use crate::text::{chars_of, string_of};

verus! {

/// Query of `GET /api/v1/source`.
#[derive(Debug, Clone, PartialEq, Eq)]
pub struct SourceQuery {
    /// Path relative to the source root (e.g. `app/controllers/users_controller.rb`).
    pub path: String,
    pub line: Option<i64>,
    /// Context lines above and below (default 5, at most 20 are used).
    pub context: u32,
}

/// Context lines used when the query gives none.
pub fn default_context() -> (c: u32)
    ensures
        c == 5,
{
    5
}

/// Largest number of context lines returned on each side.
pub const MAX_CONTEXT: u32 = 20;

/// Unicode `White_Space`, the characters `char::is_whitespace` accepts.
pub open spec fn is_ws(c: char) -> bool {
    let u = c as u32;
    (0x9 <= u <= 0xd) || u == 0x20 || u == 0x85 || u == 0xa0 || u == 0x1680 || (0x2000 <= u <= 0x200a)
        || u == 0x2028 || u == 0x2029 || u == 0x202f || u == 0x205f || u == 0x3000
}

fn is_ws_exec(c: char) -> (r: bool)
    ensures
        r == is_ws(c),
{
    let u = c as u32;
    (0x9 <= u && u <= 0xd) || u == 0x20 || u == 0x85 || u == 0xa0 || u == 0x1680 || (0x2000 <= u && u
        <= 0x200a) || u == 0x2028 || u == 0x2029 || u == 0x202f || u == 0x205f || u == 0x3000
}

/// `s` without leading white space.
pub open spec fn trim_start(s: Seq<char>) -> Seq<char>
    decreases s.len(),
{
    if s.len() > 0 && is_ws(s[0]) {
        trim_start(s.drop_first())
    } else {
        s
    }
}

/// `s` without trailing white space.
pub open spec fn trim_end(s: Seq<char>) -> Seq<char>
    decreases s.len(),
{
    if s.len() > 0 && is_ws(s.last()) {
        trim_end(s.drop_last())
    } else {
        s
    }
}

/// `s` without leading `/`.
pub open spec fn trim_slashes(s: Seq<char>) -> Seq<char>
    decreases s.len(),
{
    if s.len() > 0 && s[0] == '/' {
        trim_slashes(s.drop_first())
    } else {
        s
    }
}

/// The relative path a query names: trimmed of white space, then of leading `/`.
pub open spec fn relative_path(p: Seq<char>) -> Seq<char> {
    trim_slashes(trim_end(trim_start(p)))
}

/// Some `/`-separated component of `s` is `..`.
pub open spec fn has_parent_component(s: Seq<char>) -> bool {
    exists|i: int| parent_component_at(s, i)
}

/// A `..` component of `s` starts at index `i`.
pub open spec fn parent_component_at(s: Seq<char>, i: int) -> bool {
    0 <= i && i + 2 <= s.len() && s[i] == '.' && s[i + 1] == '.' && (i == 0 || s[i - 1] == '/') && (i
        + 2 == s.len() || s[i + 2] == '/')
}

/// Index of the last `c` in `s`, or -1.
pub open spec fn last_index_of(s: Seq<char>, c: char) -> int
    decreases s.len(),
{
    if s.len() == 0 {
        -1
    } else if s.last() == c {
        s.len() - 1
    } else {
        last_index_of(s.drop_last(), c)
    }
}

/// The last component of a path that is neither empty nor `.`, if any (the
/// file name of a path without `..` components).
pub open spec fn file_name(s: Seq<char>) -> Option<Seq<char>>
    decreases s.len(),
{
    let ls = last_index_of(s, '/');
    let last = s.skip(ls + 1);
    if last.len() > 0 && last != seq!['.'] {
        Some(last)
    } else if ls < 0 {
        None
    } else {
        proof {
            lemma_last_index_bound(s, '/');
        }
        file_name(s.take(ls))
    }
}

pub proof fn lemma_last_index_bound(s: Seq<char>, c: char)
    ensures
        -1 <= last_index_of(s, c) < s.len(),
        last_index_of(s, c) >= 0 ==> s[last_index_of(s, c)] == c,
        forall|j: int| last_index_of(s, c) < j < s.len() ==> s[j] != c,
    decreases s.len(),
{
    if s.len() > 0 {
        lemma_last_index_bound(s.drop_last(), c);
        assert forall|j: int| last_index_of(s, c) < j < s.len() implies s[j] != c by {
            if j < s.len() - 1 {
                assert(s.drop_last()[j] == s[j]);
            }
        }
    }
}

/// The extension of a file name: the text after its last `.`, unless that dot starts the name.
pub open spec fn extension(name: Seq<char>) -> Option<Seq<char>> {
    let d = last_index_of(name, '.');
    if d > 0 {
        Some(name.skip(d + 1))
    } else {
        None
    }
}

/// Extensions of the Ruby sources that may be read.
pub open spec fn allowed_extension(e: Seq<char>) -> bool {
    e == "rb"@ || e == "rake"@ || e == "arb"@ || e == "ruby"@ || e == "ru"@ || e == "rabl"@ || e
        == "jbuilder"@
}

/// Why a source path is refused (each answered with 400).
#[derive(Debug, Clone, Copy, PartialEq, Eq)]
pub enum SourcePathError {
    /// Nothing is left of the path once trimmed.
    Empty,
    /// The path holds a NUL character.
    Nul,
    /// A component of the path is `..`.
    ParentTraversal,
    /// The file is not a Ruby source by its extension.
    Extension,
}

/// The verdict on a source path: the relative path to read, or why it is refused.
pub open spec fn source_path_verdict(p: Seq<char>) -> Result<Seq<char>, SourcePathError> {
    let rel = relative_path(p);
    if rel.len() == 0 {
        Err(SourcePathError::Empty)
    } else if rel.contains('\0') {
        Err(SourcePathError::Nul)
    } else if has_parent_component(rel) {
        Err(SourcePathError::ParentTraversal)
    } else if !(match file_name(rel) {
        Some(n) => match extension(n) {
            Some(e) => allowed_extension(e),
            None => false,
        },
        None => false,
    }) {
        Err(SourcePathError::Extension)
    } else {
        Ok(rel)
    }
}

fn last_index_in(v: &Vec<char>, end: usize, c: char) -> (r: Option<usize>)
    requires
        end <= v.len(),
    ensures
        match r {
            Some(i) => i < end && last_index_of(v@.take(end as int), c) == i as int,
            None => last_index_of(v@.take(end as int), c) == -1,
        },
{
    let mut k: usize = end;
    while k > 0
        invariant
            k <= end,
            end <= v.len(),
            last_index_of(v@.take(end as int), c) == last_index_of(v@.take(k as int), c),
        decreases k,
    {
        assert(v@.take(k as int).drop_last() =~= v@.take(k - 1));
        if v[k - 1] == c {
            return Some(k - 1);
        }
        k = k - 1;
    }
    None
}

proof fn lemma_trim_start_step(s: Seq<char>, a: int)
    requires
        0 <= a < s.len(),
        is_ws(s[a]),
    ensures
        trim_start(s.skip(a)) == trim_start(s.skip(a + 1)),
{
    assert(s.skip(a).drop_first() =~= s.skip(a + 1));
}

proof fn lemma_trim_slash_step(s: Seq<char>, a: int)
    requires
        0 <= a < s.len(),
        s[a] == '/',
    ensures
        trim_slashes(s.skip(a)) == trim_slashes(s.skip(a + 1)),
{
    assert(s.skip(a).drop_first() =~= s.skip(a + 1));
}

fn copy_range(v: &Vec<char>, from: usize, to: usize) -> (r: Vec<char>)
    requires
        from <= to <= v.len(),
    ensures
        r@ == v@.subrange(from as int, to as int),
{
    let mut r: Vec<char> = Vec::new();
    let mut k: usize = from;
    while k < to
        invariant
            from <= k <= to,
            to <= v.len(),
            r@ == v@.subrange(from as int, k as int),
        decreases to - k,
    {
        r.push(v[k]);
        k = k + 1;
        assert(r@ =~= v@.subrange(from as int, k as int));
    }
    r
}

fn relative_chars(path: &str) -> (rel: Vec<char>)
    ensures
        rel@ == relative_path(path@),
{
    let v = chars_of(path);
    let n = v.len();
    let mut a: usize = 0;
    assert(v@.skip(0) =~= v@);
    while a < n && is_ws_exec(v[a])
        invariant
            a <= n,
            n == v.len(),
            v@ == path@,
            trim_start(path@) == trim_start(v@.skip(a as int)),
        decreases n - a,
    {
        proof {
            lemma_trim_start_step(v@, a as int);
        }
        a = a + 1;
    }
    proof {
        if a < n {
            assert(v@.skip(a as int)[0] == v@[a as int]);
        }
        assert(trim_start(path@) == v@.skip(a as int));
        assert(v@.skip(a as int) =~= v@.subrange(a as int, n as int));
    }
    let mut b: usize = n;
    while b > a && is_ws_exec(v[b - 1])
        invariant
            a <= b <= n,
            n == v.len(),
            trim_end(trim_start(path@)) == trim_end(v@.subrange(a as int, b as int)),
        decreases b,
    {
        assert(v@.subrange(a as int, b as int).drop_last() =~= v@.subrange(a as int, b - 1));
        assert(v@.subrange(a as int, b as int).last() == v@[b - 1]);
        b = b - 1;
    }
    proof {
        if b > a {
            assert(v@.subrange(a as int, b as int).last() == v@[b - 1]);
        }
        assert(trim_end(trim_start(path@)) == v@.subrange(a as int, b as int));
    }
    let mut c: usize = a;
    let ghost t = v@.subrange(a as int, b as int);
    assert(t.skip(0) =~= t);
    while c < b && v[c] == '/'
        invariant
            a <= c <= b,
            b <= n,
            n == v.len(),
            t == v@.subrange(a as int, b as int),
            trim_slashes(t) == trim_slashes(t.skip(c - a)),
        decreases b - c,
    {
        proof {
            assert(t[c - a] == v@[c as int]);
            lemma_trim_slash_step(t, c - a);
        }
        c = c + 1;
    }
    proof {
        if c < b {
            assert(t.skip(c - a)[0] == v@[c as int]);
        }
        assert(t.skip(c - a) =~= v@.subrange(c as int, b as int));
    }
    copy_range(&v, c, b)
}

fn has_nul(v: &Vec<char>) -> (r: bool)
    ensures
        r == v@.contains('\0'),
{
    let mut i: usize = 0;
    while i < v.len()
        invariant
            i <= v.len(),
            forall|k: int| 0 <= k < i ==> v@[k] != '\0',
        decreases v.len() - i,
    {
        if v[i] == '\0' {
            assert(v@[i as int] == '\0');
            return true;
        }
        i = i + 1;
    }
    false
}

fn has_parent(v: &Vec<char>) -> (r: bool)
    ensures
        r == has_parent_component(v@),
{
    let n = v.len();
    let mut i: usize = 0;
    while n >= 2 && i <= n - 2
        invariant
            n == v.len(),
            forall|k: int| 0 <= k < i ==> !parent_component_at(v@, k),
        decreases n - i,
    {
        if v[i] == '.' && v[i + 1] == '.' && (i == 0 || v[i - 1] == '/') && (i + 2 == n || v[i + 2] == '/') {
            assert(parent_component_at(v@, i as int));
            return true;
        }
        i = i + 1;
    }
    assert forall|k: int| !parent_component_at(v@, k) by {
        if 0 <= k && k < i {
        }
    }
    false
}

/// File name of `v` as a range of it.
fn file_name_range(v: &Vec<char>) -> (r: Option<(usize, usize)>)
    ensures
        match r {
            Some((s, e)) => s <= e <= v.len() && file_name(v@) == Some(v@.subrange(s as int, e as int)),
            None => file_name(v@) is None,
        },
{
    let mut end: usize = v.len();
    assert(v@.take(end as int) =~= v@);
    loop
        invariant
            end <= v.len(),
            file_name(v@) == file_name(v@.take(end as int)),
        decreases end,
    {
        let ghost t = v@.take(end as int);
        let ls = last_index_in(v, end, '/');
        let start: usize = match ls {
            Some(i) => i + 1,
            None => 0,
        };
        proof {
            lemma_last_index_bound(t, '/');
            assert(t.skip(last_index_of(t, '/') + 1) =~= v@.subrange(start as int, end as int));
        }
        let len = end - start;
        let is_dot = len == 1 && v[start] == '.';
        proof {
            if len == 1 {
                assert(v@.subrange(start as int, end as int) =~= seq![v@[start as int]]);
            }
            if len == 1 && !is_dot {
                assert(v@.subrange(start as int, end as int)[0] != '.');
            }
        }
        if len > 0 && !is_dot {
            return Some((start, end));
        }
        match ls {
            None => {
                return None;
            },
            Some(i) => {
                assert(t.take(i as int) =~= v@.take(i as int));
                end = i;
            },
        }
    }
}

fn is_allowed_extension(e: &String) -> (r: bool)
    ensures
        r == allowed_extension(e@),
{
    crate::text::eq_str(e, "rb") || crate::text::eq_str(e, "rake") || crate::text::eq_str(e, "arb")
        || crate::text::eq_str(e, "ruby") || crate::text::eq_str(e, "ru") || crate::text::eq_str(e, "rabl")
        || crate::text::eq_str(e, "jbuilder")
}

fn extension_allowed(v: &Vec<char>) -> (r: bool)
    ensures
        r == (match file_name(v@) {
            Some(n) => match extension(n) {
                Some(e) => allowed_extension(e),
                None => false,
            },
            None => false,
        }),
{
    match file_name_range(v) {
        None => false,
        Some((s, e)) => {
            let name = copy_range(v, s, e);
            match last_index_in(&name, name.len(), '.') {
                Some(d) => {
                    assert(name@.take(name.len() as int) =~= name@);
                    if d > 0 {
                        let ext = copy_range(&name, d + 1, name.len());
                        assert(ext@ =~= name@.skip(d + 1));
                        let ext_s = string_of(ext.as_slice());
                        is_allowed_extension(&ext_s)
                    } else {
                        false
                    }
                },
                None => {
                    assert(name@.take(name.len() as int) =~= name@);
                    false
                },
            }
        },
    }
}

/// Check a source path from a query: trim white space and leading `/`, then
/// refuse an empty path, a NUL, a `..` component, or a file that is not a Ruby
/// source by extension. Returns the relative path to read.
pub fn check_source_path(path: &str) -> (r: Result<String, SourcePathError>)
    ensures
        match r {
            Ok(rel) => source_path_verdict(path@) == Ok::<Seq<char>, SourcePathError>(rel@),
            Err(e) => source_path_verdict(path@) == Err::<Seq<char>, SourcePathError>(e),
        },
{
    let rel = relative_chars(path);
    if rel.len() == 0 {
        return Err(SourcePathError::Empty);
    }
    if has_nul(&rel) {
        return Err(SourcePathError::Nul);
    }
    if has_parent(&rel) {
        return Err(SourcePathError::ParentTraversal);
    }
    if !extension_allowed(&rel) {
        return Err(SourcePathError::Extension);
    }
    Ok(string_of(rel.as_slice()))
}

/// The line a snippet centres on (1-based): the requested line, or 1, clamped to the file.
pub open spec fn focus_line(line: Option<i64>, total: int) -> int {
    let l: int = match line {
        Some(v) => v as int,
        None => 1,
    };
    if l < 1 {
        1
    } else if l > total {
        total
    } else {
        l
    }
}

/// Context lines used: the requested number, at most `MAX_CONTEXT`.
pub open spec fn used_context(context: u32) -> int {
    if context < MAX_CONTEXT {
        context as int
    } else {
        MAX_CONTEXT as int
    }
}

/// First line of a snippet (0-based).
pub open spec fn window_start(line: Option<i64>, context: u32, total: int) -> int {
    let f = focus_line(line, total);
    if f - 1 - used_context(context) > 0 {
        f - 1 - used_context(context)
    } else {
        0
    }
}

/// End of a snippet (0-based, exclusive).
pub open spec fn window_end(line: Option<i64>, context: u32, total: int) -> int {
    let f = focus_line(line, total);
    if f + used_context(context) < total {
        f + used_context(context)
    } else {
        total
    }
}

/// Lines of a source file around a focus line.
#[derive(Debug, Clone, PartialEq, Eq)]
pub struct Snippet {
    /// The focus line; for an empty file, the line the query asked for.
    pub line: Option<i64>,
    /// Number (1-based) of the first line returned.
    pub start_line: i64,
    pub lines: Vec<String>,
}

/// The lines around `line` (1 when absent, clamped to the file), with
/// `context` lines (at most 20) on each side.
pub fn source_snippet(lines: &Vec<String>, line: Option<i64>, context: u32) -> (s: Snippet)
    requires
        lines.len() <= i64::MAX,
    ensures
        lines.len() == 0 ==> s.line == line && s.start_line == 1 && s.lines.len() == 0,
        lines.len() > 0 ==> {
            &&& s.line == Some(focus_line(line, lines.len() as int) as i64)
            &&& s.start_line == window_start(line, context, lines.len() as int) + 1
            &&& s.lines@.map_values(|l: String| l@) == lines@.subrange(
                window_start(line, context, lines.len() as int),
                window_end(line, context, lines.len() as int),
            ).map_values(|l: String| l@)
        },
{
    let total = lines.len();
    if total == 0 {
        return Snippet { line, start_line: 1, lines: Vec::new() };
    }
    let requested: i64 = match line {
        Some(v) => v,
        None => 1,
    };
    let focus: usize = if requested < 1 {
        1
    } else if requested > total as i64 {
        total
    } else {
        requested as usize
    };
    let ctx: usize = if context < MAX_CONTEXT {
        context as usize
    } else {
        MAX_CONTEXT as usize
    };
    let start: usize = if focus - 1 > ctx {
        focus - 1 - ctx
    } else {
        0
    };
    let end: usize = if total - focus > ctx {
        focus + ctx
    } else {
        total
    };
    let mut out: Vec<String> = Vec::new();
    let mut k: usize = start;
    while k < end
        invariant
            start <= k <= end,
            end <= lines.len(),
            out@.map_values(|l: String| l@) == lines@.subrange(start as int, k as int).map_values(|l: String| l@),
        decreases end - k,
    {
        let ghost before = out@;
        let item = lines[k].clone();
        out.push(item);
        proof {
            assert(out@.map_values(|l: String| l@) =~= before.map_values(|l: String| l@).push(lines@[k as int]@));
            assert(lines@.subrange(start as int, k + 1).map_values(|l: String| l@) =~= lines@.subrange(
                start as int, k as int).map_values(|l: String| l@).push(lines@[k as int]@));
        }
        k = k + 1;
    }
    Snippet { line: Some(focus as i64), start_line: (start + 1) as i64, lines: out }
}

proof fn lemma_trim_slashes_head(s: Seq<char>)
    ensures
        trim_slashes(s).len() > 0 ==> trim_slashes(s)[0] != '/',
    decreases s.len(),
{
    if s.len() > 0 && s[0] == '/' {
        lemma_trim_slashes_head(s.drop_first());
    }
}

/// Law: an accepted source path is non-empty, relative (does not start with
/// `/`), holds no NUL and no `..` component, and ends in an allowed extension.
pub proof fn law_accepted_path_stays_inside(p: Seq<char>, rel: Seq<char>)
    requires
        source_path_verdict(p) == Ok::<Seq<char>, SourcePathError>(rel),
    ensures
        rel.len() > 0,
        rel[0] != '/',
        !rel.contains('\0'),
        !has_parent_component(rel),
        file_name(rel) matches Some(n) && extension(n) matches Some(e) && allowed_extension(e),
{
    lemma_trim_slashes_head(trim_end(trim_start(p)));
}

/// Law: a snippet holds the focus line and at most `2 * MAX_CONTEXT + 1` lines.
pub proof fn law_snippet_window(line: Option<i64>, context: u32, total: int)
    requires
        total > 0,
    ensures
        0 <= window_start(line, context, total) < focus_line(line, total) <= window_end(line, context, total) <= total,
        window_end(line, context, total) - window_start(line, context, total) <= 2 * MAX_CONTEXT + 1,
{
}

/// Law: a snippet around line `l` (1-based) of a file with at least
/// `l + context` lines, for a context of at most `MAX_CONTEXT`, runs from
/// `context` lines before `l` (or the first line) to exactly `context` lines
/// after it; where both sides have room it holds `context` lines on each side
/// of the focus line, `2 * context + 1` lines in all.
pub proof fn law_snippet_symmetric(l: i64, context: u32, total: int)
    requires
        1 <= l,
        context <= MAX_CONTEXT,
        l + context <= total,
    ensures
        window_end(Some(l), context, total) == l + context,
        window_start(Some(l), context, total) == if l - 1 > context {
            l - 1 - context
        } else {
            0
        },
        l - 1 >= context ==> window_end(Some(l), context, total) - l == (l - 1) - window_start(
            Some(l),
            context,
            total,
        ),
        l - 1 >= context ==> window_end(Some(l), context, total) - window_start(Some(l), context, total) == 2
            * context + 1,
{
}

} // verus!
