//! The build pipeline as a machine: validate, splice into a temporary copy of
//! the skeleton, compile (offline, sandboxed, timed), package, hash.
//!
//! The machine names the next piece of outside work and is told how it went.
//! Every decision, path, message and limit is here; the host only touches the
//! disk and runs the processes. Layer 1 (fixed dependencies) rests on this:
//! the only work that carries user text is [`Work::WriteApp`].

use crate::forge::hash::sha256_digest;
use crate::forge::hash::short_hash;
use crate::forge::skeleton::{join, skeleton_bin_name};
use crate::forge::skeleton::{dir_name, joined};
use crate::forge::targets::{target, EnergySource, ForgeRequest, ForgeResult, ShuntDriver, Target};
use crate::forge::targets::{is_target, names_target, row_target, TARGETS};
use crate::forge::validate::validate;
use crate::forge::validate::{accepted, complaint, violates, Violation};
use crate::text::decimal_text;
use crate::text::{decimal, hex_of};
use vstd::prelude::*;
use vstd::string::*;
use vstd::utf8::{decode_utf8, encode_utf8, is_char_boundary};

verus! {

/// Where a build looks and how long it may take.
#[derive(Debug, Clone)]
pub struct BuildOpts {
    /// Workspace root (contains the skeletons).
    pub workspace_root: String,
    /// Where produced artifacts are kept (created if absent).
    pub results_dir: String,
    /// Persistent compiler output directory shared across builds, so that only
    /// the changed user crate recompiles.
    pub shared_target: String,
    /// Wall-clock kill time for the compile, in seconds.
    pub timeout_secs: u64,
}

impl BuildOpts {
    pub fn new(workspace_root: String) -> (r: Self)
        ensures
            r.workspace_root@ == workspace_root@,
            r.results_dir@ == joined(workspace_root@, "target/forge-artifacts"@),
            r.shared_target@ == joined(workspace_root@, "target/forge-target"@),
            r.timeout_secs == 120,
    {
        let results_dir = join(workspace_root.as_str(), "target/forge-artifacts");
        let shared_target = join(workspace_root.as_str(), "target/forge-target");
        BuildOpts { workspace_root, results_dir, shared_target, timeout_secs: 120 }
    }
}

/// Bytes of build output that are kept.
pub const LOG_CAP: usize = 65_536;

/// Whether the kept tail of a log starts on a character.
pub open spec fn tail_is_text(log: Seq<char>) -> bool {
    let b = encode_utf8(log);
    b.len() > LOG_CAP ==> is_char_boundary(b, b.len() - LOG_CAP)
}

/// The last [`LOG_CAP`] bytes of a longer log behind a note; a shorter log
/// whole.
pub open spec fn truncated(log: Seq<char>) -> Seq<char> {
    let b = encode_utf8(log);
    if b.len() > LOG_CAP {
        "…(truncated)…\n"@ + decode_utf8(b.subrange(b.len() - LOG_CAP, b.len() as int))
    } else {
        log
    }
}

/// Whether a log can be truncated: see [`tail_is_text`].
pub fn can_truncate(s: &str) -> (r: bool)
    ensures
        r == tail_is_text(s@),
{
    let n: usize = s.as_bytes().len();
    n <= LOG_CAP || s.is_char_boundary(n - LOG_CAP)
}

/// Truncates a log to its last [`LOG_CAP`] bytes.
pub fn truncate_logs(s: String) -> (r: String)
    requires
        tail_is_text(s@),
    ensures
        r@ == truncated(s@),
{
    let n: usize = s.as_str().as_bytes().len();
    if n > LOG_CAP {
        let (_, keep) = s.as_str().split_at(n - LOG_CAP);
        proof {
            vstd::utf8::encode_utf8_decode_utf8(keep@);
        }
        let mut out = "…(truncated)…\n".to_owned();
        out.append(keep);
        out
    } else {
        s
    }
}

/// Arguments of the compiler run for a target.
pub open spec fn cargo_line(t: Target, measured: bool, source: EnergySource) -> Seq<Seq<char>> {
    let base = seq!["build"@, "--release"@, "--offline"@, "--target"@, t.triple@];
    let plain = if t.no_default_features {
        base.push("--no-default-features"@)
    } else {
        base
    };
    let board = plain.push("--features"@).push(t.features@[0]@);
    if measured && source == EnergySource::ExternalShunt(ShuntDriver::Ina228) {
        board.push("--features"@).push("measured-ina228"@)
    } else {
        board
    }
}

/// Arguments of the compiler run: release, offline, the target's board
/// feature, and the meter feature for a measured variant that has a driver.
pub fn cargo_args(t: &Target, measured: bool, source: EnergySource) -> (r: Vec<String>)
    ensures
        r@.map_values(|a: String| a@) == cargo_line(*t, measured, source),
{
    let mut args: Vec<String> = Vec::new();
    args.push("build".to_owned());
    args.push("--release".to_owned());
    args.push("--offline".to_owned());
    args.push("--target".to_owned());
    args.push(t.triple.to_owned());
    if t.no_default_features {
        args.push("--no-default-features".to_owned());
    }
    args.push("--features".to_owned());
    args.push(t.features[0].to_owned());
    if measured {
        if let Some(f) = t.measured_feature(source) {
            args.push("--features".to_owned());
            args.push(f.to_owned());
        }
    }
    assert(args@.map_values(|a: String| a@) =~= cargo_line(*t, measured, source));
    args
}

/// The program to run and the arguments in front of the compiler's own: the
/// sandbox with its profile where there is one, the compiler driver else.
pub fn launcher(sandboxed: bool, profile: String) -> (r: (String, Vec<String>))
    ensures
        r.0@ == (if sandboxed {
            crate::forge::sandbox::SANDBOX_EXEC@
        } else {
            "cargo"@
        }),
        r.1@.map_values(|a: String| a@) == (if sandboxed {
            seq!["-p"@, profile@, "cargo"@]
        } else {
            Seq::<Seq<char>>::empty()
        }),
{
    let mut args: Vec<String> = Vec::new();
    if sandboxed {
        args.push("-p".to_owned());
        args.push(profile);
        args.push("cargo".to_owned());
        assert(args@.map_values(|a: String| a@) =~= seq!["-p"@, profile@, "cargo"@]);
        (crate::forge::sandbox::SANDBOX_EXEC.to_owned(), args)
    } else {
        assert(args@.map_values(|a: String| a@) =~= Seq::<Seq<char>>::empty());
        ("cargo".to_owned(), args)
    }
}

/// What to do with a compile that was asked whether it is done.
#[derive(Debug, Clone, Copy, PartialEq, Eq, Structural)]
pub enum Poll {
    /// It ended: collect its output.
    Collect,
    /// It ran longer than it may: kill it.
    Kill,
    /// Ask again a little later.
    Wait,
}

/// What becomes of a running compile after `elapsed_ms`.
pub open spec fn polled(ended: bool, elapsed_ms: u64, timeout_secs: u64) -> Poll {
    if ended {
        Poll::Collect
    } else if elapsed_ms > timeout_secs * 1000 {
        Poll::Kill
    } else {
        Poll::Wait
    }
}

/// Decides what becomes of a running compile after `elapsed_ms`.
pub fn poll(ended: bool, elapsed_ms: u64, timeout_secs: u64) -> (r: Poll)
    ensures
        r == (if ended {
            Poll::Collect
        } else if elapsed_ms > timeout_secs * 1000 {
            Poll::Kill
        } else {
            Poll::Wait
        }),
        r == polled(ended, elapsed_ms, timeout_secs),
{
    if ended {
        Poll::Collect
    } else if elapsed_ms as u128 > timeout_secs as u128 * 1000 {
        Poll::Kill
    } else {
        Poll::Wait
    }
}

/// What a killed compile reports.
pub fn timeout_message(timeout_secs: u64) -> (r: String)
    ensures
        r@ == "build exceeded "@ + decimal(timeout_secs as nat) + "s wall-timeout — killed"@,
{
    prefixed("build exceeded ", decimal_text(timeout_secs).as_str(), "s wall-timeout — killed")
}

fn paired(a: &str, b: &str) -> (r: String)
    ensures
        r@ == a@ + b@,
{
    let mut out = a.to_owned();
    out.append(b);
    out
}

fn prefixed(a: &str, b: &str, c: &str) -> (r: String)
    ensures
        r@ == a@ + b@ + c@,
{
    let mut out = a.to_owned();
    out.append(b);
    out.append(c);
    out
}

/// Where a build stands: which outside work it waits for.
#[derive(Debug, Clone, Copy, PartialEq, Eq, Structural)]
pub enum Stage {
    Skeleton,
    Temp,
    Copy,
    Deps,
    App,
    Compile,
    Elf,
    Results,
    Package,
    Measure,
}

/// A build on its way.
#[derive(Debug, Clone)]
pub struct Build {
    pub target: Target,
    pub stage: Stage,
    /// The skeleton's directory.
    pub skeleton: String,
    /// Where the compiler leaves the image.
    pub elf: String,
    /// Where the artifact goes.
    pub artifact: String,
    /// Truncated output of the compile.
    pub logs: String,
}

/// The next piece of outside work, or the end.
#[derive(Debug, Clone)]
pub enum Work {
    /// See whether this file is there.
    CheckFile(String),
    /// Make a fresh temporary directory.
    MakeTemp,
    /// Copy the skeleton into it.
    CopySkeleton,
    /// Make the path dependencies of the copied manifest absolute.
    RewriteDeps,
    /// Write the user's source over `src/app.rs` of the copy.
    WriteApp,
    /// Run the compiler on the copy.
    Compile,
    /// Make the directory for artifacts.
    MakeResultsDir,
    /// Turn the image into the artifact.
    Package,
    /// Take the image's size and the artifact's hash.
    Measure,
    /// Nothing is left to do.
    Finish(ForgeResult),
}

/// How a piece of outside work went.
#[derive(Debug, Clone)]
pub enum Outcome {
    /// The file was there, or not.
    Found(bool),
    /// The work succeeded.
    Done,
    /// The work failed, with what the host says of it.
    Failed(String),
    /// The compiler ran: whether it succeeded, what it printed, and whether it
    /// ran in the sandbox.
    Compiled { ok: bool, logs: String, sandboxed: bool },
    /// Size of the image and hash of the artifact.
    Measured { bytes: usize, sha256: String },
}

/// Whether an outcome answers what a stage waits for.
pub open spec fn answers(stage: Stage, o: Outcome) -> bool {
    match stage {
        Stage::Skeleton | Stage::Elf => o is Found,
        Stage::Compile => o is Compiled,
        Stage::Measure => o is Measured,
        _ => o is Done || o is Failed,
    }
}

/// Output of a failed compile: the truncated log, with a note where there was
/// no sandbox.
pub open spec fn failed_logs(logs: Seq<char>, sandboxed: bool) -> Seq<char> {
    if sandboxed {
        truncated(logs)
    } else {
        truncated(logs) + "\n[forge] note: sandbox-exec absent — built unsandboxed."@
    }
}

/// What a failing stage reports in front of the host's own words.
pub open spec fn stage_label(stage: Stage) -> Seq<char> {
    match stage {
        Stage::Temp => "tempdir: "@,
        Stage::Copy => "copy skeleton: "@,
        Stage::Deps => "rewrite deps: "@,
        Stage::App => "write app.rs: "@,
        _ => "results dir: "@,
    }
}

/// Build log of a failed packaging.
pub open spec fn packaging_logs(logs: Seq<char>, ext: Seq<char>, e: Seq<char>) -> Seq<char> {
    logs + ("\n[package "@ + ext + "]\n"@) + e
}

/// The artifact's file name.
pub open spec fn artifact_name(t: Target, app_source: Seq<u8>) -> Seq<char> {
    "teios-"@ + t.id@ + "-"@ + hex_of(sha256_digest(app_source).take(6)) + "."@
        + t.packaging.extension()
}

impl Build {
    /// The paths of a build of `app_source` for `t`.
    pub open spec fn placed(&self, t: Target, app_source: Seq<u8>, opts: BuildOpts) -> bool {
        &&& self.target == t
        &&& self.skeleton@ == joined(opts.workspace_root@, t.skeleton@)
        &&& self.elf@ == joined(
            joined(joined(opts.shared_target@, t.triple@), "release"@),
            dir_name(t.skeleton@),
        )
        &&& self.artifact@ == joined(opts.results_dir@, artifact_name(t, app_source))
    }

    /// Everything but the stage and the logs is as it was.
    pub open spec fn same_paths(&self, other: &Build) -> bool {
        &&& self.target == other.target
        &&& self.skeleton == other.skeleton
        &&& self.elf == other.elf
        &&& self.artifact == other.artifact
    }

    /// `next` is what follows when a build at `self` hears `o`: the machine
    /// moved to `after`.
    pub open spec fn follows(&self, o: Outcome, after: &Build, next: Work) -> bool {
        match o {
            Outcome::Failed(e) => match self.stage {
                Stage::Package => next is Finish && ({
                    let ext = self.target.packaging.extension();
                    next->Finish_0.is_failure(
                        ext + " packaging failed"@,
                        truncated(packaging_logs(self.logs@, ext, e@)),
                    )
                }),
                stage => next is Finish && next->Finish_0.is_failure(
                    stage_label(stage) + e@,
                    if stage == Stage::Results {
                        self.logs@
                    } else {
                        Seq::empty()
                    },
                ),
            },
            Outcome::Found(found) => if found {
                if self.stage == Stage::Skeleton {
                    next is MakeTemp && after.stage == Stage::Temp
                } else {
                    next is MakeResultsDir && after.stage == Stage::Results
                }
            } else {
                next is Finish && (if self.stage == Stage::Skeleton {
                    next->Finish_0.is_failure("skeleton missing: "@ + self.skeleton@, Seq::empty())
                } else {
                    next->Finish_0.is_failure(
                        "expected ELF not found: "@ + self.elf@,
                        self.logs@,
                    )
                })
            },
            Outcome::Done => match self.stage {
                Stage::Temp => next is CopySkeleton && after.stage == Stage::Copy,
                Stage::Copy => next is RewriteDeps && after.stage == Stage::Deps,
                Stage::Deps => next is WriteApp && after.stage == Stage::App,
                Stage::App => next is Compile && after.stage == Stage::Compile,
                Stage::Results => next is Package && after.stage == Stage::Package,
                _ => next is Measure && after.stage == Stage::Measure,
            },
            Outcome::Compiled { ok, logs, sandboxed } => if ok {
                &&& next matches Work::CheckFile(p) && p@ == self.elf@
                &&& after.stage == Stage::Elf
                &&& after.logs@ == truncated(logs@)
            } else {
                next is Finish && next->Finish_0.is_failure(
                    "build failed"@,
                    failed_logs(logs@, sandboxed),
                )
            },
            Outcome::Measured { bytes, sha256 } => next is Finish && ({
                let r = next->Finish_0;
                &&& r.ok
                &&& r.artifact_path is Some
                &&& r.artifact_path->0@ == self.artifact@
                &&& r.uf2_family@ == self.target.family@
                &&& r.artifact_ext@ == self.target.packaging.extension()
                &&& r.bytes == bytes
                &&& r.sha256@ == sha256@
                &&& r.logs@ == self.logs@
                &&& r.error is None
            }),
        }
    }

    /// Takes the outcome of the work that the build waited for and names the
    /// next piece of work.
    pub fn next(&mut self, o: Outcome) -> (w: Work)
        requires
            answers(old(self).stage, o),
            o matches Outcome::Compiled { logs, .. } ==> tail_is_text(logs@),
            o matches Outcome::Failed(e) ==> old(self).stage == Stage::Package
                ==> tail_is_text(
                packaging_logs(old(self).logs@, old(self).target.packaging.extension(), e@),
            ),
        ensures
            old(self).follows(o, final(self), w),
            final(self).same_paths(old(self)),
            !(o is Compiled) ==> final(self).logs == old(self).logs,
    {
        match o {
            Outcome::Found(found) => {
                let at_start = self.stage == Stage::Skeleton;
                if !found {
                    return Work::Finish(
                        if at_start {
                            ForgeResult::failed(
                                paired("skeleton missing: ", self.skeleton.as_str()),
                                String::new(),
                            )
                        } else {
                            ForgeResult::failed(
                                paired("expected ELF not found: ", self.elf.as_str()),
                                self.logs.clone(),
                            )
                        },
                    );
                }
                if at_start {
                    self.stage = Stage::Temp;
                    Work::MakeTemp
                } else {
                    self.stage = Stage::Results;
                    Work::MakeResultsDir
                }
            },
            Outcome::Done => match self.stage {
                Stage::Temp => {
                    self.stage = Stage::Copy;
                    Work::CopySkeleton
                },
                Stage::Copy => {
                    self.stage = Stage::Deps;
                    Work::RewriteDeps
                },
                Stage::Deps => {
                    self.stage = Stage::App;
                    Work::WriteApp
                },
                Stage::App => {
                    self.stage = Stage::Compile;
                    Work::Compile
                },
                Stage::Results => {
                    self.stage = Stage::Package;
                    Work::Package
                },
                _ => {
                    self.stage = Stage::Measure;
                    Work::Measure
                },
            },
            Outcome::Failed(e) => match self.stage {
                Stage::Package => {
                    let ext = self.target.packaging.ext();
                    let mut l = self.logs.clone();
                    l.append(prefixed("\n[package ", ext, "]\n").as_str());
                    l.append(e.as_str());
                    let error = paired(ext, " packaging failed");
                    proof {
                        assert(l@ =~= packaging_logs(
                            self.logs@,
                            self.target.packaging.extension(),
                            e@,
                        ));
                        assert(error@ =~= self.target.packaging.extension()
                            + " packaging failed"@);
                    }
                    Work::Finish(ForgeResult::failed(error, truncate_logs(l)))
                },
                Stage::Temp => self.failure("tempdir: ", e.as_str(), false),
                Stage::Copy => self.failure("copy skeleton: ", e.as_str(), false),
                Stage::Deps => self.failure("rewrite deps: ", e.as_str(), false),
                Stage::App => self.failure("write app.rs: ", e.as_str(), false),
                _ => self.failure("results dir: ", e.as_str(), true),
            },
            Outcome::Compiled { ok, logs, sandboxed } => {
                let mut kept = truncate_logs(logs);
                if ok {
                    self.logs = kept;
                    self.stage = Stage::Elf;
                    Work::CheckFile(self.elf.clone())
                } else {
                    if !sandboxed {
                        kept.append("\n[forge] note: sandbox-exec absent — built unsandboxed.");
                    }
                    Work::Finish(ForgeResult::failed("build failed".to_owned(), kept))
                }
            },
            Outcome::Measured { bytes, sha256 } => Work::Finish(
                ForgeResult {
                    ok: true,
                    artifact_path: Some(self.artifact.clone()),
                    uf2_family: self.target.family.to_owned(),
                    artifact_ext: self.target.packaging.ext().to_owned(),
                    bytes,
                    sha256,
                    logs: self.logs.clone(),
                    error: None,
                },
            ),
        }
    }

    fn failure(&self, label: &str, e: &str, with_logs: bool) -> (w: Work)
        ensures
            w is Finish,
            w->Finish_0.is_failure(
                label@ + e@,
                if with_logs {
                    self.logs@
                } else {
                    Seq::empty()
                },
            ),
    {
        let logs = if with_logs {
            self.logs.clone()
        } else {
            String::new()
        };
        let error = paired(label, e);
        assert(error@ =~= label@ + e@);
        Work::Finish(ForgeResult::failed(error, logs))
    }
}

/// Begins a build. A request that is not valid, or that names no target, ends
/// at once: nothing of it ever reaches the disk or the compiler.
pub fn build(req: &ForgeRequest, opts: &BuildOpts) -> (r: Result<(Build, Work), ForgeResult>)
    ensures
        match r {
            Ok((b, w)) => {
                &&& accepted(encode_utf8(req.app_source@))
                &&& exists|k: int|
                    #![trigger names_target(req.target@, k)]
                    {
                        &&& names_target(req.target@, k)
                        &&& b.placed(
                            row_target(TARGETS@[k]),
                            encode_utf8(req.app_source@),
                            *opts,
                        )
                    }
                &&& b.stage == Stage::Skeleton
                &&& b.logs@ == Seq::<char>::empty()
                &&& w matches Work::CheckFile(p) && p@ == joined(b.skeleton@, "Cargo.toml"@)
            },
            Err(f) => {
                ||| exists|v: Violation|
                    #[trigger] violates(encode_utf8(req.app_source@), v) && f.is_failure(complaint(v), Seq::empty())
                ||| {
                    &&& accepted(encode_utf8(req.app_source@))
                    &&& !is_target(req.target@)
                    &&& f.is_failure("unknown target: "@ + req.target@, Seq::empty())
                }
            },
        },
{
    match validate(req.app_source.as_str()) {
        Err(e) => {
            return Err(ForgeResult::failed(e, String::new()));
        },
        Ok(_) => {},
    }
    let t = match target(req.target.as_str()) {
        None => {
            let error = paired("unknown target: ", req.target.as_str());
            assert(error@ =~= "unknown target: "@ + req.target@);
            return Err(ForgeResult::failed(error, String::new()));
        },
        Some(t) => t,
    };
    let skeleton = join(opts.workspace_root.as_str(), t.skeleton);
    let elf_dir = join(join(opts.shared_target.as_str(), t.triple).as_str(), "release");
    let elf = join(elf_dir.as_str(), skeleton_bin_name(t.skeleton).as_str());
    let mut name = "teios-".to_owned();
    name.append(t.id);
    name.append("-");
    name.append(short_hash(req.app_source.as_str()).as_str());
    name.append(".");
    name.append(t.packaging.ext());
    let artifact = join(opts.results_dir.as_str(), name.as_str());
    let manifest = join(skeleton.as_str(), "Cargo.toml");
    let b = Build {
        target: t,
        stage: Stage::Skeleton,
        skeleton,
        elf,
        artifact,
        logs: String::new(),
    };
    Ok((b, Work::CheckFile(manifest)))
}

} // verus!
