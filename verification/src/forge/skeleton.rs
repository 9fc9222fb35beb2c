//! Copying a skeleton out of the workspace: which entries come along, and how
//! the relative path dependencies of its manifest are made absolute. The set
//! of dependencies never changes, only where they are looked for.

use crate::text::{chars_of, find_chars, same_text, text_of};
use crate::text::{first_at, occurs_at};
use vstd::prelude::*;

verus! {

/// Whether a directory entry of the skeleton is copied: `target` is huge and
/// the build makes its own; `Cargo.lock` pins the workspace.
pub fn is_copied(name: &str) -> (r: bool)
    ensures
        r == (name@ != "target"@ && name@ != "Cargo.lock"@),
{
    !same_text(name, "target") && !same_text(name, "Cargo.lock")
}

/// A path seen from a directory: an absolute path is itself, any other stands
/// below the directory.
pub open spec fn joined(dir: Seq<char>, rel: Seq<char>) -> Seq<char> {
    if rel.len() > 0 && rel[0] == '/' {
        rel
    } else if dir.len() == 0 || dir.last() == '/' {
        dir + rel
    } else {
        dir + "/"@ + rel
    }
}

/// Joins a path to a directory.
pub fn join(dir: &str, rel: &str) -> (r: String)
    ensures
        r@ == joined(dir@, rel@),
{
    let p = chars_of(rel);
    if p.len() > 0 && p[0] == '/' {
        return rel.to_owned();
    }
    let d = chars_of(dir);
    let mut out = dir.to_owned();
    if d.len() != 0 && d[d.len() - 1] != '/' {
        out.append("/");
    }
    out.append(rel);
    out
}

/// What stands after the last slash of a path.
pub open spec fn last_segment(path: Seq<char>) -> Seq<char>
    decreases path.len(),
{
    if path.len() == 0 || path.last() == '/' {
        Seq::empty()
    } else {
        last_segment(path.drop_last()).push(path.last())
    }
}

/// A path without trailing slashes and without trailing segments of one dot.
pub open spec fn trimmed(path: Seq<char>) -> Seq<char>
    decreases path.len(),
{
    let n = path.len() as int;
    if n > 0 && path[n - 1] == '/' {
        trimmed(path.drop_last())
    } else if n > 1 && path[n - 1] == '.' && path[n - 2] == '/' {
        trimmed(path.take(n - 2))
    } else {
        path
    }
}

/// Name of the last directory of a path; `app` where the path ends in none.
pub open spec fn dir_name(path: Seq<char>) -> Seq<char> {
    let name = last_segment(trimmed(path));
    if name.len() == 0 || name == "."@ || name == ".."@ {
        "app"@
    } else {
        name
    }
}

/// A skeleton's binary is named after its directory.
pub fn skeleton_bin_name(skeleton: &str) -> (r: String)
    ensures
        r@ == dir_name(skeleton@),
{
    let s = chars_of(skeleton);
    let mut e: usize = s.len();
    assert(s@.take(e as int) =~= s@);
    while (e > 0 && s[e - 1] == '/') || (e > 1 && s[e - 1] == '.' && s[e - 2] == '/')
        invariant
            e <= s@.len(),
            s@ == skeleton@,
            trimmed(s@) == trimmed(s@.take(e as int)),
        decreases e,
    {
        proof {
            let t = s@.take(e as int);
            assert(t.drop_last() =~= s@.take(e - 1));
            if t[e - 1] != '/' {
                assert(t.take(e - 2) =~= s@.take(e - 2));
            }
        }
        if s[e - 1] == '/' {
            e -= 1;
        } else {
            e -= 2;
        }
    }
    let ghost t = s@.take(e as int);
    assert(trimmed(s@) == t);
    let mut i: usize = e;
    assert(last_segment(t) =~= last_segment(s@.take(i as int)) + s@.subrange(i as int, e as int));
    while i > 0 && s[i - 1] != '/'
        invariant
            i <= e <= s@.len(),
            t == s@.take(e as int),
            last_segment(t) == last_segment(s@.take(i as int)) + s@.subrange(i as int, e as int),
        decreases i,
    {
        proof {
            let u = s@.take(i as int);
            assert(u.drop_last() =~= s@.take(i - 1));
            assert(last_segment(u) + s@.subrange(i as int, e as int) =~= last_segment(
                s@.take(i - 1),
            ) + s@.subrange(i - 1, e as int));
        }
        i -= 1;
    }
    let ghost name = last_segment(t);
    proof {
        assert(last_segment(s@.take(i as int)) =~= Seq::empty());
        assert(name =~= s@.subrange(i as int, e as int));
        reveal_strlit(".");
        reveal_strlit("..");
        if name.len() == 1 && name[0] == '.' {
            assert(name =~= "."@);
        }
        if name.len() == 2 && name[0] == '.' && name[1] == '.' {
            assert(name =~= ".."@);
        }
    }
    if i == e || (e - i == 1 && s[i] == '.') || (e - i == 2 && s[i] == '.' && s[i + 1] == '.') {
        return "app".to_owned();
    }
    text_of(&s, i, e)
}

/// Place of the first newline at or after `i`, or the end of the text.
pub open spec fn newline_from(t: Seq<char>, i: int) -> int
    decreases t.len() - i,
{
    if i >= t.len() || t[i] == '\n' {
        i
    } else {
        newline_from(t, i + 1)
    }
}

/// A line without the carriage return that its line feed came with.
pub open spec fn chomped(line: Seq<char>) -> Seq<char> {
    if line.len() > 0 && line.last() == '\r' {
        line.drop_last()
    } else {
        line
    }
}

/// The lines of a text from place `i` on, without their line ends.
pub open spec fn lines_from(t: Seq<char>, i: int) -> Seq<Seq<char>>
    decreases t.len() - i,
{
    if i >= t.len() {
        Seq::empty()
    } else {
        proof {
            lemma_newline_from(t, i);
        }
        let e = newline_from(t, i);
        if e >= t.len() {
            seq![t.subrange(i, t.len() as int)]
        } else {
            seq![chomped(t.subrange(i, e))] + lines_from(t, e + 1)
        }
    }
}

pub proof fn lemma_newline_from(t: Seq<char>, i: int)
    ensures
        i <= newline_from(t, i),
        i <= t.len() ==> newline_from(t, i) <= t.len(),
    decreases t.len() - i,
{
    if i < t.len() && t[i] != '\n' {
        lemma_newline_from(t, i + 1);
    }
}

/// The lines of a text.
pub fn lines_of(text: &str) -> (r: Vec<Vec<char>>)
    ensures
        r@.map_values(|l: Vec<char>| l@) == lines_from(text@, 0),
{
    let t = chars_of(text);
    let mut out: Vec<Vec<char>> = Vec::new();
    let mut i: usize = 0;
    assert(out@.map_values(|l: Vec<char>| l@) + lines_from(t@, 0) =~= lines_from(t@, 0));
    while i < t.len()
        invariant
            i <= t@.len(),
            t@ == text@,
            out@.map_values(|l: Vec<char>| l@) + lines_from(t@, i as int) == lines_from(t@, 0),
        decreases t@.len() - i,
    {
        let ghost before = out@.map_values(|l: Vec<char>| l@);
        let ghost at = i as int;
        let n: usize = t.len();
        let mut e: usize = i;
        while e < n && t[e] != '\n'
            invariant
                i <= e <= n,
                n == t@.len(),
                newline_from(t@, e as int) == newline_from(t@, i as int),
            decreases n - e,
        {
            e += 1;
        }
        let mut to: usize = e;
        if e < n && e > i && t[e - 1] == '\r' {
            to = e - 1;
        }
        let mut line: Vec<char> = Vec::new();
        let mut k: usize = i;
        while k < to
            invariant
                i <= k <= to <= t@.len(),
                line@ == t@.subrange(i as int, k as int),
            decreases to - k,
        {
            line.push(t[k]);
            k += 1;
            assert(t@.subrange(i as int, k as int) =~= t@.subrange(i as int, k - 1).push(
                t@[k - 1],
            ));
        }
        proof {
            if e < n {
                let whole = t@.subrange(at, e as int);
                assert(chomped(whole) =~= line@);
            }
        }
        let ghost l = line@;
        out.push(line);
        proof {
            assert(out@.map_values(|l: Vec<char>| l@) =~= before.push(l));
        }
        if e >= n {
            i = n;
            proof {
                assert(lines_from(t@, at) =~= seq![l]);
                assert(lines_from(t@, n as int) =~= Seq::empty());
                assert(before + seq![l] =~= before.push(l) + Seq::<Seq<char>>::empty());
            }
        } else {
            i = e + 1;
            proof {
                assert(lines_from(t@, at) =~= seq![l] + lines_from(t@, i as int));
                assert(before + (seq![l] + lines_from(t@, i as int)) =~= before.push(l)
                    + lines_from(t@, i as int));
            }
        }
    }
    proof {
        assert(lines_from(t@, i as int) =~= Seq::empty());
        assert(out@.map_values(|l: Vec<char>| l@) + lines_from(t@, i as int) =~= out@.map_values(
            |l: Vec<char>| l@,
        ));
    }
    out
}

/// What a path dependency begins with.
pub const PATH_KEY: &'static str = "path = \"";

/// Whether the relative path of a dependency stands in `line` from `a` up to
/// `b`: after the first key, up to the next quote, and not absolute.
pub open spec fn dep_between(line: Seq<char>, a: int, b: int) -> bool {
    &&& first_at(line, PATH_KEY@, 0, a - PATH_KEY@.len())
    &&& first_at(line, "\""@, a, b)
    &&& !(a < b && line[a] == '/')
}

/// Whether a line holds a relative path dependency.
pub open spec fn has_dep(line: Seq<char>) -> bool {
    exists|a: int, b: int| dep_between(line, a, b)
}

/// Where the relative path of a dependency stands in a line.
pub open spec fn dep_span(line: Seq<char>) -> (int, int) {
    choose|a: int, b: int| dep_between(line, a, b)
}

/// A line has at most one relative path dependency that counts.
pub proof fn dep_span_is_unique(line: Seq<char>, a: int, b: int, c: int, d: int)
    requires
        dep_between(line, a, b),
        dep_between(line, c, d),
    ensures
        a == c,
        b == d,
{
    let k = PATH_KEY@.len();
    if a < c {
        assert(!occurs_at(line, PATH_KEY@, a - k));
    }
    if c < a {
        assert(!occurs_at(line, PATH_KEY@, c - k));
    }
    if b < d {
        assert(!occurs_at(line, "\""@, b));
    }
    if d < b {
        assert(!occurs_at(line, "\""@, d));
    }
}

/// Where the relative path of a dependency stands in a line.
fn find_dep(line: &Vec<char>) -> (r: Option<(usize, usize)>)
    ensures
        match r {
            Some(s) => {
                &&& has_dep(line@)
                &&& dep_span(line@) == (s.0 as int, s.1 as int)
                &&& s.0 <= s.1 <= line@.len()
            },
            None => !has_dep(line@),
        },
{
    let key = chars_of(PATH_KEY);
    let quote = chars_of("\"");
    proof {
        reveal_strlit("\"");
    }
    let at: usize = match find_chars(line, &key, 0) {
        Some(i) => i,
        None => {
            return None;
        },
    };
    let whole: usize = line.len();
    assert(at + key@.len() <= whole);
    let a: usize = at + key.len();
    let b: usize = match find_chars(line, &quote, a) {
        Some(i) => i,
        None => {
            proof {
                assert forall|c: int, d: int| !dep_between(line@, c, d) by {
                    if dep_between(line@, c, d) {
                        lemma_same_key(line@, at as int, c - PATH_KEY@.len());
                    }
                }
            }
            return None;
        },
    };
    if a < b && line[a] == '/' {
        proof {
            assert forall|c: int, d: int| !dep_between(line@, c, d) by {
                if dep_between(line@, c, d) {
                    lemma_same_key(line@, at as int, c - PATH_KEY@.len());
                    if b < d {
                        assert(!occurs_at(line@, "\""@, b as int));
                    }
                    if d < b {
                        assert(!occurs_at(line@, "\""@, d));
                    }
                }
            }
        }
        return None;
    }
    proof {
        assert(dep_between(line@, a as int, b as int));
        let s = dep_span(line@);
        dep_span_is_unique(line@, a as int, b as int, s.0, s.1);
    }
    Some((a, b))
}

proof fn lemma_same_key(line: Seq<char>, i: int, j: int)
    requires
        first_at(line, PATH_KEY@, 0, i),
        first_at(line, PATH_KEY@, 0, j),
    ensures
        i == j,
{
    if i < j {
        assert(!occurs_at(line, PATH_KEY@, i));
    }
    if j < i {
        assert(!occurs_at(line, PATH_KEY@, j));
    }
}

/// The line with the relative path of its dependency replaced.
pub open spec fn rewritten_line(line: Seq<char>, abs: Seq<char>) -> Seq<char> {
    let (a, b) = dep_span(line);
    line.take(a) + abs + line.skip(b)
}

/// If `line` holds a relative path dependency, the line with that path
/// replaced by `abs`. `None` where there is none, or it is absolute already.
pub fn rewrite_path_line(line: &str, abs: &str) -> (r: Option<String>)
    ensures
        match r {
            Some(t) => has_dep(line@) && t@ == rewritten_line(line@, abs@),
            None => !has_dep(line@),
        },
{
    let l = chars_of(line);
    match find_dep(&l) {
        Some((a, b)) => {
            let mut out = text_of(&l, 0, a);
            out.append(abs);
            out.append(text_of(&l, b, l.len()).as_str());
            proof {
                assert(out@ =~= rewritten_line(line@, abs@));
            }
            Some(out)
        },
        None => None,
    }
}

/// The relative paths of the dependencies of a manifest, line by line.
pub open spec fn deps_in(lines: Seq<Seq<char>>) -> Seq<Seq<char>>
    decreases lines.len(),
{
    if lines.len() == 0 {
        Seq::empty()
    } else {
        let rest = deps_in(lines.drop_last());
        let l = lines.last();
        if has_dep(l) {
            rest.push(l.subrange(dep_span(l).0, dep_span(l).1))
        } else {
            rest
        }
    }
}

/// The manifest whose `n`-th relative path dependency was replaced by the
/// `n`-th entry of `resolved`.
pub open spec fn absolutized(lines: Seq<Seq<char>>, resolved: Seq<Seq<char>>) -> Seq<char>
    decreases lines.len(),
{
    if lines.len() == 0 {
        Seq::empty()
    } else {
        let before = lines.drop_last();
        let l = lines.last();
        let n = deps_in(before).len() as int;
        let shown = if has_dep(l) {
            rewritten_line(l, resolved[n])
        } else {
            l
        };
        absolutized(before, resolved) + shown + "\n"@
    }
}

/// The relative paths of the dependencies of a manifest, in order: what is to
/// be resolved before [`absolutize_path_deps`].
pub fn relative_deps(text: &str) -> (r: Vec<String>)
    ensures
        r@.map_values(|d: String| d@) == deps_in(lines_from(text@, 0)),
{
    let lines = lines_of(text);
    let ghost views = lines@.map_values(|l: Vec<char>| l@);
    let mut out: Vec<String> = Vec::new();
    let mut i: usize = 0;
    assert(views.take(0) =~= Seq::empty());
    assert(out@.map_values(|d: String| d@) =~= Seq::<Seq<char>>::empty());
    while i < lines.len()
        invariant
            i <= lines@.len(),
            views == lines@.map_values(|l: Vec<char>| l@),
            out@.map_values(|d: String| d@) == deps_in(views.take(i as int)),
        decreases lines@.len() - i,
    {
        let ghost before = out@.map_values(|d: String| d@);
        proof {
            assert(views.take(i + 1).drop_last() =~= views.take(i as int));
            assert(views.take(i + 1).last() == lines@[i as int]@);
        }
        if let Some((a, b)) = find_dep(&lines[i]) {
            let d = text_of(&lines[i], a, b);
            let ghost dv = d@;
            out.push(d);
            assert(out@.map_values(|d: String| d@) =~= before.push(dv));
        }
        i += 1;
    }
    assert(views.take(views.len() as int) =~= views);
    out
}

/// Rewrites every relative path dependency of a manifest to the absolute path
/// that it was resolved to. Only the locations change; every line ends in a
/// line feed.
pub fn absolutize_path_deps(text: &str, resolved: &Vec<String>) -> (r: String)
    requires
        resolved@.len() == deps_in(lines_from(text@, 0)).len(),
    ensures
        r@ == absolutized(lines_from(text@, 0), resolved@.map_values(|d: String| d@)),
{
    let lines = lines_of(text);
    let ghost views = lines@.map_values(|l: Vec<char>| l@);
    let ghost res = resolved@.map_values(|d: String| d@);
    let mut out = String::new();
    let mut i: usize = 0;
    let mut n: usize = 0;
    let total: usize = resolved.len();
    assert(views.take(0) =~= Seq::empty());
    while i < lines.len()
        invariant
            i <= lines@.len(),
            total == resolved@.len(),
            views == lines@.map_values(|l: Vec<char>| l@),
            views == lines_from(text@, 0),
            res == resolved@.map_values(|d: String| d@),
            resolved@.len() == deps_in(views).len(),
            n == deps_in(views.take(i as int)).len(),
            out@ == absolutized(views.take(i as int), res),
        decreases lines@.len() - i,
    {
        proof {
            assert(views.take(i + 1).drop_last() =~= views.take(i as int));
            assert(views.take(i + 1).last() == lines@[i as int]@);
            lemma_deps_grow(views, i + 1);
        }
        let ghost before = out@;
        let l = &lines[i];
        match find_dep(l) {
            Some((a, b)) => {
                out.append(text_of(l, 0, a).as_str());
                out.append(resolved[n].as_str());
                out.append(text_of(l, b, l.len()).as_str());
                proof {
                    assert(out@ =~= before + rewritten_line(l@, res[n as int]));
                }
                n += 1;
            },
            None => {
                out.append(text_of(l, 0, l.len()).as_str());
                assert(l@.subrange(0, l@.len() as int) =~= l@);
            },
        }
        out.append("\n");
        i += 1;
    }
    assert(views.take(views.len() as int) =~= views);
    out
}

/// Rewriting settles a line: once its dependency has an absolute path, there is
/// nothing left to rewrite.
pub proof fn rewriting_settles(line: Seq<char>, abs: Seq<char>)
    requires
        has_dep(line),
        abs.len() > 0,
        abs[0] == '/',
    ensures
        !has_dep(rewritten_line(line, abs)),
{
    let (a, b) = dep_span(line);
    assert(dep_between(line, a, b));
    let new = rewritten_line(line, abs);
    let k = PATH_KEY@.len();
    reveal_strlit("\"");
    assert(new.subrange(a - k, a) =~= line.subrange(a - k, a));
    assert(new[a] == '/');
    assert forall|c: int, d: int| !dep_between(new, c, d) by {
        if dep_between(new, c, d) {
            if c < a {
                assert(new.subrange(c - k, c) =~= line.subrange(c - k, c));
                assert(occurs_at(line, PATH_KEY@, c - k));
            }
            if a < c {
                assert(occurs_at(new, PATH_KEY@, a - k));
            }
            assert(new.subrange(d, d + 1)[0] == new[d]);
        }
    }
}

proof fn lemma_deps_grow(lines: Seq<Seq<char>>, i: int)
    requires
        0 <= i <= lines.len(),
    ensures
        deps_in(lines.take(i)).len() <= deps_in(lines).len(),
    decreases lines.len() - i,
{
    if i < lines.len() {
        lemma_deps_grow(lines, i + 1);
        assert(lines.take(i + 1).drop_last() =~= lines.take(i));
    } else {
        assert(lines.take(i) =~= lines);
    }
}

} // verus!
