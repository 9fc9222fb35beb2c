//! What a build goes through: its stages in order, each once, to the artifact
//! or to the first failure; and how its paths stand to each other.

use crate::forge::pipeline::{answers, polled, Build, Outcome, Stage, Work};
use crate::forge::sandbox::{profile_text, write_rule};
use crate::forge::skeleton::{absolutized, chomped, has_dep, joined, lemma_newline_from, lines_from};
use crate::forge::skeleton::newline_from;
use vstd::prelude::*;

verus! {

/// Stages that come before one.
pub open spec fn passed(stage: Stage) -> int {
    match stage {
        Stage::Skeleton => 0,
        Stage::Temp => 1,
        Stage::Copy => 2,
        Stage::Deps => 3,
        Stage::App => 4,
        Stage::Compile => 5,
        Stage::Elf => 6,
        Stage::Results => 7,
        Stage::Package => 8,
        Stage::Measure => 9,
    }
}

/// The work that a stage waits for.
pub open spec fn waits_for(stage: Stage, w: Work) -> bool {
    match stage {
        Stage::Skeleton | Stage::Elf => w is CheckFile,
        Stage::Temp => w is MakeTemp,
        Stage::Copy => w is CopySkeleton,
        Stage::Deps => w is RewriteDeps,
        Stage::App => w is WriteApp,
        Stage::Compile => w is Compile,
        Stage::Results => w is MakeResultsDir,
        Stage::Package => w is Package,
        Stage::Measure => w is Measure,
    }
}

/// The outcome is that of work which succeeded.
pub open spec fn succeeded(o: Outcome) -> bool {
    match o {
        Outcome::Found(found) => found,
        Outcome::Done => true,
        Outcome::Failed(e) => false,
        Outcome::Compiled { ok, logs, sandboxed } => ok,
        Outcome::Measured { bytes, sha256 } => true,
    }
}

/// A build takes its stages in order: after work that succeeded it waits for
/// that of the next stage, and after the last it ends well; after work that
/// failed it ends, and says so.
pub proof fn stages_come_in_order(b: &Build, o: Outcome, after: &Build, next: Work)
    requires
        answers(b.stage, o),
        b.follows(o, after, next),
    ensures
        succeeded(o) && b.stage != Stage::Measure ==> passed(after.stage) == passed(b.stage) + 1
            && waits_for(after.stage, next),
        b.stage == Stage::Measure ==> next is Finish && next->Finish_0.ok,
        !succeeded(o) ==> next is Finish && !next->Finish_0.ok && next->Finish_0.error is Some
            && next->Finish_0.artifact_path is None,
        next is Finish && next->Finish_0.ok ==> b.stage == Stage::Measure
            && next->Finish_0.artifact_path is Some,
{
}

/// What stands below a directory begins with it and ends with what was joined
/// to it; an absolute path stands by itself.
pub proof fn joining_keeps_both_ends(dir: Seq<char>, rel: Seq<char>)
    ensures
        rel.len() > 0 && rel[0] == '/' ==> joined(dir, rel) == rel,
        !(rel.len() > 0 && rel[0] == '/') ==> dir.is_prefix_of(joined(dir, rel)),
        rel.is_suffix_of(joined(dir, rel)),
        joined(Seq::empty(), rel) == rel,
{
    let j = joined(dir, rel);
    reveal_strlit("/");
    assert(rel =~= j.subrange(j.len() - rel.len(), j.len() as int));
    if !(rel.len() > 0 && rel[0] == '/') {
        assert(dir =~= j.subrange(0, dir.len() as int));
    }
    assert(Seq::<char>::empty() + rel =~= rel);
}

/// Joining goes step by step: below a directory of a directory.
pub proof fn joining_goes_step_by_step(dir: Seq<char>, mid: Seq<char>, rel: Seq<char>)
    requires
        mid.len() > 0,
        mid[0] != '/',
        rel.len() > 0 ==> rel[0] != '/',
    ensures
        joined(joined(dir, mid), rel) == joined(dir, joined(mid, rel)),
{
    reveal_strlit("/");
    let (a, b) = (joined(joined(dir, mid), rel), joined(dir, joined(mid, rel)));
    assert(joined(mid, rel)[0] == mid[0]);
    assert(joined(dir, mid).last() == mid.last());
    assert(a =~= b);
}

/// A profile lets a build write below every directory that it names: the rule of
/// each stands in it.
pub proof fn profile_names_every_directory(dirs: Seq<Seq<char>>, i: int) -> (at: int)
    requires
        0 <= i < dirs.len(),
    ensures
        0 <= at,
        at + write_rule(dirs[i]).len() <= profile_text(dirs).len(),
        profile_text(dirs).subrange(at, at + write_rule(dirs[i]).len()) == write_rule(dirs[i]),
    decreases dirs.len(),
{
    let head = profile_text(dirs.drop_last());
    let last = write_rule(dirs.last());
    let rule = write_rule(dirs[i]);
    if i == dirs.len() - 1 {
        let at = head.len() as int;
        assert((head + last).subrange(at, at + rule.len()) =~= rule);
        at
    } else {
        let at = profile_names_every_directory(dirs.drop_last(), i);
        assert(dirs.drop_last()[i] == dirs[i]);
        assert((head + last).subrange(at, at + rule.len()) =~= head.subrange(at, at + rule.len()));
        at
    }
}

/// Lines without dependencies are written one after the other.
proof fn lemma_plain_lines(l: Seq<char>, rest: Seq<Seq<char>>, resolved: Seq<Seq<char>>)
    requires
        !has_dep(l),
        forall|k: int| 0 <= k < rest.len() ==> !has_dep(#[trigger] rest[k]),
    ensures
        absolutized(seq![l] + rest, resolved) == l + "\n"@ + absolutized(rest, resolved),
    decreases rest.len(),
{
    let lines = seq![l] + rest;
    if rest.len() == 0 {
        assert(lines.drop_last() =~= Seq::<Seq<char>>::empty());
        assert(lines.last() == l);
        assert(absolutized(lines.drop_last(), resolved) =~= Seq::<char>::empty());
        assert(absolutized(lines, resolved) =~= l + "\n"@ + absolutized(rest, resolved));
    } else {
        let shorter = rest.drop_last();
        assert(lines.drop_last() =~= seq![l] + shorter);
        assert(lines.last() == rest.last());
        assert(rest[rest.len() - 1] == rest.last());
        assert forall|k: int| 0 <= k < shorter.len() implies !has_dep(#[trigger] shorter[k]) by {
            assert(shorter[k] == rest[k]);
        }
        lemma_plain_lines(l, shorter, resolved);
        assert(absolutized(lines, resolved) =~= l + "\n"@ + absolutized(rest, resolved));
    }
}

/// The lines of the text from place `i` on, written again, are that text.
proof fn lemma_text_from(t: Seq<char>, i: int, resolved: Seq<Seq<char>>)
    requires
        0 <= i <= t.len(),
        t.len() > 0 ==> t.last() == '\n',
        !t.contains('\r'),
        forall|k: int|
            0 <= k < lines_from(t, i).len() ==> !has_dep(#[trigger] lines_from(t, i)[k]),
    ensures
        absolutized(lines_from(t, i), resolved) == t.subrange(i, t.len() as int),
    decreases t.len() - i,
{
    reveal_strlit("\n");
    if i == t.len() {
        assert(absolutized(lines_from(t, i), resolved) =~= t.subrange(i, t.len() as int));
    } else {
        lemma_newline_from(t, i);
        let e = newline_from(t, i);
        lemma_line_ends(t, i);
        let l = t.subrange(i, e);
        if l.len() > 0 {
            assert(l.last() == t[e - 1]);
            assert(t.contains(t[e - 1]));
        }
        assert(chomped(l) == l);
        let rest = lines_from(t, e + 1);
        assert(lines_from(t, i) =~= seq![l] + rest);
        assert(lines_from(t, i)[0] == l);
        assert forall|k: int| 0 <= k < rest.len() implies !has_dep(#[trigger] rest[k]) by {
            assert(lines_from(t, i)[k + 1] == rest[k]);
        }
        lemma_plain_lines(l, rest, resolved);
        lemma_text_from(t, e + 1, resolved);
        assert(l + "\n"@ + t.subrange(e + 1, t.len() as int) =~= t.subrange(i, t.len() as int));
    }
}

proof fn lemma_line_ends(t: Seq<char>, i: int)
    requires
        0 <= i < t.len(),
        t.last() == '\n',
    ensures
        newline_from(t, i) < t.len(),
        t[newline_from(t, i)] == '\n',
    decreases t.len() - i,
{
    if t[i] != '\n' {
        lemma_line_ends(t, i + 1);
    }
}

/// A manifest that names no relative dependency stays as it is: taken apart
/// into lines and written again, a text of whole lines is the same text.
pub proof fn plain_manifests_stay(t: Seq<char>, resolved: Seq<Seq<char>>)
    requires
        t.len() > 0 ==> t.last() == '\n',
        !t.contains('\r'),
        forall|k: int|
            0 <= k < lines_from(t, 0).len() ==> !has_dep(#[trigger] lines_from(t, 0)[k]),
    ensures
        absolutized(lines_from(t, 0), resolved) == t,
{
    lemma_text_from(t, 0, resolved);
    assert(t.subrange(0, t.len() as int) =~= t);
}

/// A compile gets its time: what ended is collected whenever that was, what
/// still runs is let run while no more than the allowed seconds have passed, and
/// is killed at the first millisecond beyond.
pub proof fn compiles_get_their_time(elapsed_ms: u64, timeout_secs: u64)
    ensures
        polled(true, elapsed_ms, timeout_secs) is Collect,
        polled(false, elapsed_ms, timeout_secs) is Wait <==> elapsed_ms <= timeout_secs * 1000,
        polled(false, elapsed_ms, timeout_secs) is Kill <==> elapsed_ms >= timeout_secs * 1000 + 1,
        timeout_secs * 1000 < u64::MAX && elapsed_ms == timeout_secs * 1000 ==> polled(
            false,
            (elapsed_ms + 1) as u64,
            timeout_secs,
        ) is Kill,
{
}

} // verus!
