//! The build machine, the skeleton copy, the targets and the hashes.

use tei_fabric::forge::hash::{sha256_hex, short_hash};
use tei_fabric::forge::pipeline::{
    build, can_truncate, cargo_args, launcher, poll, timeout_message, truncate_logs, Build,
    BuildOpts, Outcome, Poll, Work, LOG_CAP,
};
use tei_fabric::forge::sandbox::SANDBOX_EXEC;
use tei_fabric::forge::skeleton::{
    absolutize_path_deps, is_copied, join, relative_deps, rewrite_path_line, skeleton_bin_name,
};
use tei_fabric::forge::targets::{
    target, workspace_root, EnergySource, ForgeRequest, ForgeResult, ShuntDriver, BENCH_BOARDS,
    TARGETS,
};

fn opts() -> BuildOpts {
    BuildOpts::new("/ws".to_string())
}

fn request(target: &str, app_source: &str) -> ForgeRequest {
    ForgeRequest {
        target: target.to_string(),
        app_source: app_source.to_string(),
        measured: false,
    }
}

const APP: &str = "pub async fn app() -> u32 { 7 }";

fn begun(target: &str) -> (Build, Work) {
    match build(&request(target, APP), &opts()) {
        Ok(x) => x,
        Err(f) => panic!("{:?}", f.error),
    }
}

fn ended(w: Work) -> ForgeResult {
    match w {
        Work::Finish(r) => r,
        other => panic!("not at an end: {other:?}"),
    }
}

#[test]
fn denied_app_never_reaches_cargo() {
    let req = request("feather-rp2040", "fn x() { unsafe { core::arch::asm!(\"nop\"); } }");
    let res = match build(&req, &opts()) {
        Err(r) => r,
        Ok(_) => panic!("accepted"),
    };
    assert!(!res.ok);
    assert!(res.logs.is_empty(), "should not have invoked cargo");
    assert!(res.error.unwrap().contains("unsafe"));
}

#[test]
fn unknown_targets_end_at_once() {
    match build(&request("toaster", APP), &opts()) {
        Err(r) => assert_eq!(r.error.as_deref(), Some("unknown target: toaster")),
        Ok(_) => panic!("accepted"),
    }
}

#[test]
fn a_build_runs_through_its_stages() {
    let (mut b, first) = begun("pico");
    assert!(matches!(&first, Work::CheckFile(p) if p == "/ws/embedded/teios-app-rp2040/Cargo.toml"));
    assert!(matches!(b.next(Outcome::Found(true)), Work::MakeTemp));
    assert!(matches!(b.next(Outcome::Done), Work::CopySkeleton));
    assert!(matches!(b.next(Outcome::Done), Work::RewriteDeps));
    assert!(matches!(b.next(Outcome::Done), Work::WriteApp));
    assert!(matches!(b.next(Outcome::Done), Work::Compile));
    let compiled =
        Outcome::Compiled { ok: true, logs: "fine".to_string(), sandboxed: true };
    let elf = "/ws/target/forge-target/thumbv6m-none-eabi/release/teios-app-rp2040";
    assert!(matches!(b.next(compiled), Work::CheckFile(p) if p == elf));
    assert!(matches!(b.next(Outcome::Found(true)), Work::MakeResultsDir));
    assert!(matches!(b.next(Outcome::Done), Work::Package));
    assert!(matches!(b.next(Outcome::Done), Work::Measure));
    let r = ended(b.next(Outcome::Measured { bytes: 321, sha256: "ab".to_string() }));
    assert!(r.ok && r.error.is_none());
    assert_eq!((r.uf2_family.as_str(), r.artifact_ext.as_str()), ("rp2040", "uf2"));
    assert_eq!((r.bytes, r.sha256.as_str(), r.logs.as_str()), (321, "ab", "fine"));
    let want = format!("/ws/target/forge-artifacts/teios-pico-{}.uf2", short_hash(APP));
    assert_eq!(r.artifact_path, Some(want));
}

#[test]
fn failures_name_their_stage() {
    let (mut b, _) = begun("pico");
    let r = ended(b.next(Outcome::Found(false)));
    assert_eq!(r.error.as_deref(), Some("skeleton missing: /ws/embedded/teios-app-rp2040"));

    let labels = ["tempdir: ", "copy skeleton: ", "rewrite deps: ", "write app.rs: "];
    for (n, label) in labels.iter().enumerate() {
        let (mut b, _) = begun("pico");
        b.next(Outcome::Found(true));
        for _ in 0..n {
            b.next(Outcome::Done);
        }
        let r = ended(b.next(Outcome::Failed("full".to_string())));
        assert_eq!(r.error, Some(format!("{label}full")));
        assert!(r.logs.is_empty());
    }

    let at_compile = || {
        let (mut b, _) = begun("portenta-h7");
        b.next(Outcome::Found(true));
        for _ in 0..4 {
            b.next(Outcome::Done);
        }
        b
    };
    let compiled = |ok: bool, sandboxed: bool| Outcome::Compiled {
        ok,
        logs: "error[E0308]".to_string(),
        sandboxed,
    };
    let r = ended(at_compile().next(compiled(false, false)));
    assert_eq!(r.error.as_deref(), Some("build failed"));
    assert_eq!(r.logs, "error[E0308]\n[forge] note: sandbox-exec absent — built unsandboxed.");
    assert_eq!(ended(at_compile().next(compiled(false, true))).logs, "error[E0308]");

    let mut b = at_compile();
    b.next(compiled(true, true));
    let r = ended(b.next(Outcome::Found(false)));
    let elf = "/ws/target/forge-target/thumbv7em-none-eabihf/release/teios-h747";
    assert_eq!(r.error, Some(format!("expected ELF not found: {elf}")));

    let mut b = at_compile();
    b.next(compiled(true, true));
    b.next(Outcome::Found(true));
    let r = ended(b.next(Outcome::Failed("denied".to_string())));
    assert_eq!((r.error.as_deref(), r.logs.as_str()), (Some("results dir: denied"), "error[E0308]"));

    let mut b = at_compile();
    b.next(compiled(true, true));
    b.next(Outcome::Found(true));
    b.next(Outcome::Done);
    let r = ended(b.next(Outcome::Failed("no tool".to_string())));
    assert_eq!(r.error.as_deref(), Some("bin packaging failed"));
    assert_eq!(r.logs, "error[E0308]\n[package bin]\nno tool");
}

#[test]
fn long_logs_keep_their_tail() {
    let short = "x".repeat(LOG_CAP);
    assert_eq!(truncate_logs(short.clone()), short);
    let long = format!("a{}", "y".repeat(LOG_CAP));
    assert!(can_truncate(&long));
    assert_eq!(truncate_logs(long), format!("…(truncated)…\n{}", "y".repeat(LOG_CAP)));
    let split = format!("é{}", "z".repeat(LOG_CAP - 1));
    assert!(!can_truncate(&split));
}

#[test]
fn compiler_lines() {
    let line = |id: &str, measured: bool, source: EnergySource| {
        cargo_args(&target(id).expect("known"), measured, source).join(" ")
    };
    let meter = EnergySource::ExternalShunt(ShuntDriver::Ina228);
    assert_eq!(
        line("feather-rp2040", false, meter),
        "build --release --offline --target thumbv6m-none-eabi --features board-feather-rp2040"
    );
    assert_eq!(
        line("pico", true, meter),
        "build --release --offline --target thumbv6m-none-eabi --no-default-features \
         --features board-pico --features measured-ina228"
    );
    assert_eq!(
        line("portenta-c33", true, EnergySource::Unmeasured),
        "build --release --offline --target thumbv8m.main-none-eabihf --features board-portenta-c33"
    );
    let (program, args) = launcher(true, "(deny default)".to_string());
    assert_eq!(program, SANDBOX_EXEC);
    assert_eq!(args, vec!["-p", "(deny default)", "cargo"]);
    let (program, args) = launcher(false, String::new());
    assert!(program == "cargo" && args.is_empty());
}

#[test]
fn running_compiles_are_killed_late() {
    assert_eq!(poll(true, u64::MAX, 1), Poll::Collect);
    assert_eq!(poll(false, 120_000, 120), Poll::Wait);
    assert_eq!(poll(false, 120_001, 120), Poll::Kill);
    assert_eq!(timeout_message(120), "build exceeded 120s wall-timeout — killed");
}

#[test]
fn every_target_is_found_by_its_id() {
    for row in TARGETS.iter() {
        let t = target(row.0).expect("listed");
        assert_eq!((t.id, t.skeleton, t.triple), (row.0, row.1, row.2));
        assert_eq!(t.packaging, row.3);
    }
    assert!(BENCH_BOARDS.iter().all(|b| target(b).is_none()));
    assert_eq!(TARGETS.len() + BENCH_BOARDS.len(), 15);
}

#[test]
fn the_nearest_marker_is_the_root() {
    let probes = |marks: &[bool]| -> Vec<(String, bool)> {
        ["/a/b/c", "/a/b", "/a"].iter().zip(marks).map(|(d, m)| (d.to_string(), *m)).collect()
    };
    assert_eq!(workspace_root(&probes(&[false, true, true])), Some("/a/b".to_string()));
    assert_eq!(workspace_root(&probes(&[false, false, false])), None);
}

#[test]
fn manifests_get_absolute_paths() {
    let text = "[dependencies]\ncore = { path = \"../core\", default = true }\r\n\
                done = { path = \"/abs\" }\nlib = { path = \"lib\" }";
    assert_eq!(relative_deps(text), vec!["../core", "lib"]);
    let out = absolutize_path_deps(text, &vec!["/ws/core".to_string(), "/ws/lib".to_string()]);
    assert_eq!(
        out,
        "[dependencies]\ncore = { path = \"/ws/core\", default = true }\n\
         done = { path = \"/abs\" }\nlib = { path = \"/ws/lib\" }\n"
    );
    assert!(relative_deps(&out).is_empty());
    assert_eq!(rewrite_path_line("a = 1", "/x"), None);
    assert_eq!(rewrite_path_line("path = \"/y\"", "/x"), None);
    assert_eq!(rewrite_path_line("path = \"y\"", "/x"), Some("path = \"/x\"".to_string()));
    assert!(is_copied("src") && !is_copied("target") && !is_copied("Cargo.lock"));
    assert_eq!(join("/ws", "a/b"), "/ws/a/b");
    assert_eq!(join("/ws/", "a"), "/ws/a");
    assert_eq!(join("/ws", "/b"), "/b");
    assert_eq!(skeleton_bin_name("embedded/teios-h747"), "teios-h747");
    for (path, name) in [
        ("embedded/teios-h747/", "teios-h747"),
        ("embedded/teios-h747//./", "teios-h747"),
        ("/.hidden", ".hidden"),
        ("...", "..."),
        ("a/..", "app"),
        ("..", "app"),
        ("./.", "app"),
        ("/", "app"),
        ("", "app"),
    ] {
        assert_eq!(skeleton_bin_name(path), name, "{path}");
    }
}

#[test]
fn hashes_of_known_bytes() {
    assert_eq!(
        sha256_hex(b"abc"),
        "ba7816bf8f01cfea414140de5dae2223b00361a396177a9cb410ff61f20015ad"
    );
    assert_eq!(
        sha256_hex(b""),
        "e3b0c44298fc1c149afbf4c8996fb92427ae41e4649b934ca495991b7852b855"
    );
    assert_eq!(short_hash("abc"), "ba7816bf8f01");
}
