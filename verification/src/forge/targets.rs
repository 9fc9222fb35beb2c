//! What the service can build, and what it was asked to.

use crate::text::same_text;
use vstd::prelude::*;

verus! {

/// What the build page posts: a target board id and the contents of the user's
/// `src/app.rs`.
#[derive(Debug, Clone)]
pub struct ForgeRequest {
    /// Board id matching a skeleton target (e.g. "feather-rp2040", "pico").
    pub target: String,
    /// The user-editable `app.rs` source.
    pub app_source: String,
    /// Build the measured variant: wire the board's energy meter into the
    /// firmware. Honored only when the target's energy source has a shipped
    /// firmware driver (see [`Target::measured_feature`]).
    pub measured: bool,
}

/// The build outcome.
#[derive(Debug, Clone)]
pub struct ForgeResult {
    pub ok: bool,
    /// Path of the produced artifact on the build host.
    pub artifact_path: Option<String>,
    /// Flash/family tag, e.g. "rp2040" or "stm32h7".
    pub uf2_family: String,
    /// Artifact file extension (no dot): "uf2" or "bin".
    pub artifact_ext: String,
    /// Image bytes (payload, not the artifact file size).
    pub bytes: usize,
    /// Hex SHA-256 of the produced artifact.
    pub sha256: String,
    /// Combined output of the build, truncated.
    pub logs: String,
    /// Set when `ok == false`: validation message or "build failed".
    pub error: Option<String>,
}

impl ForgeResult {
    /// A failure: no artifact, nothing but the error and the logs.
    pub open spec fn is_failure(&self, error: Seq<char>, logs: Seq<char>) -> bool {
        &&& !self.ok
        &&& self.artifact_path is None
        &&& self.uf2_family@ == Seq::<char>::empty()
        &&& self.artifact_ext@ == Seq::<char>::empty()
        &&& self.bytes == 0
        &&& self.sha256@ == Seq::<char>::empty()
        &&& self.logs@ == logs
        &&& self.error is Some
        &&& self.error->0@ == error
    }

    /// A failed build.
    pub fn failed(error: String, logs: String) -> (r: Self)
        ensures
            r.is_failure(error@, logs@),
    {
        ForgeResult {
            ok: false,
            artifact_path: None,
            uf2_family: String::new(),
            artifact_ext: String::new(),
            bytes: 0,
            sha256: String::new(),
            logs,
            error: Some(error),
        }
    }
}

/// How a built ELF becomes a flashable artifact.
#[derive(Debug, Clone, Copy, PartialEq, Eq, Structural)]
pub enum Packaging {
    /// Mass-storage drag-drop boards. Artifact is `.uf2`.
    Uf2,
    /// Raw image for boards flashed over DFU or by a probe. Artifact is `.bin`.
    Bin,
}

impl Packaging {
    /// What [`Packaging::ext`] returns.
    pub open spec fn extension(self) -> Seq<char> {
        match self {
            Packaging::Uf2 => "uf2"@,
            Packaging::Bin => "bin"@,
        }
    }

    /// Artifact file extension (no dot).
    pub fn ext(self) -> (r: &'static str)
        ensures
            r@ == self.extension(),
    {
        match self {
            Packaging::Uf2 => "uf2",
            Packaging::Bin => "bin",
        }
    }
}

/// Drivers for an external shunt.
#[derive(Debug, Clone, Copy, PartialEq, Eq, Structural)]
pub enum ShuntDriver {
    Ina228,
    Other,
}

/// A board's energy-measurement path.
#[derive(Debug, Clone, Copy, PartialEq, Eq, Structural)]
pub enum EnergySource {
    ExternalShunt(ShuntDriver),
    OnBoardPmic,
    SoftwareTelemetry,
    Accelerator,
    Unmeasured,
}

/// One buildable skeleton: where it lives, its cross-target, and how its ELF
/// is packaged into a flashable artifact.
#[derive(Debug, Clone, Copy)]
pub struct Target {
    pub id: &'static str,
    /// Skeleton project dir, relative to the workspace root.
    pub skeleton: &'static str,
    /// Target triple of the compiler.
    pub triple: &'static str,
    /// How the ELF is packaged.
    pub packaging: Packaging,
    /// Flash/family tag surfaced to the user (rp2040 / stm32h7).
    pub family: &'static str,
    /// The build feature that selects the board.
    pub features: [&'static str; 1],
    /// `--no-default-features` when selecting a non-default board.
    pub no_default_features: bool,
}

impl Target {
    /// The feature that wires the energy meter into the firmware for the
    /// measured variant, given the board's energy source. Only the external
    /// shunt on an INA228 has a shipped firmware driver; every other source
    /// measures outside the cross-compiled image.
    pub fn measured_feature(&self, source: EnergySource) -> (r: Option<&'static str>)
        ensures
            r is Some <==> source == EnergySource::ExternalShunt(ShuntDriver::Ina228),
            r is Some ==> r->0@ == "measured-ina228"@,
    {
        match source {
            EnergySource::ExternalShunt(ShuntDriver::Ina228) => Some("measured-ina228"),
            _ => None,
        }
    }
}

/// One row of [`TARGETS`]: id, skeleton, triple, packaging, family, board
/// feature, and whether default features are off.
pub type TargetRow = (
    &'static str,
    &'static str,
    &'static str,
    Packaging,
    &'static str,
    &'static str,
    bool,
);

/// The targets that can be built.
pub const TARGETS: [TargetRow; 7] = [
    (
        "feather-rp2040",
        "embedded/teios-app-rp2040",
        "thumbv6m-none-eabi",
        Packaging::Uf2,
        "rp2040",
        "board-feather-rp2040",
        false,
    ),
    (
        "pico",
        "embedded/teios-app-rp2040",
        "thumbv6m-none-eabi",
        Packaging::Uf2,
        "rp2040",
        "board-pico",
        true,
    ),
    (
        "portenta-h7",
        "embedded/teios-h747",
        "thumbv7em-none-eabihf",
        Packaging::Bin,
        "stm32h7",
        "board-portenta-h7",
        false,
    ),
    (
        "portenta-h7-lite",
        "embedded/teios-h747",
        "thumbv7em-none-eabihf",
        Packaging::Bin,
        "stm32h7",
        "board-portenta-h7-lite",
        true,
    ),
    (
        "nicla-voice",
        "embedded/teios-nrf52832",
        "thumbv7em-none-eabihf",
        Packaging::Bin,
        "nrf52832",
        "board-nicla-voice",
        false,
    ),
    (
        "nicla-sense",
        "embedded/teios-nrf52832",
        "thumbv7em-none-eabihf",
        Packaging::Bin,
        "nrf52832",
        "board-nicla-sense",
        true,
    ),
    (
        "portenta-c33",
        "embedded/teios-ra6m5",
        "thumbv8m.main-none-eabihf",
        Packaging::Bin,
        "ra6m5",
        "board-portenta-c33",
        false,
    ),
];

/// The target of a row.
pub open spec fn row_target(row: TargetRow) -> Target {
    Target {
        id: row.0,
        skeleton: row.1,
        triple: row.2,
        packaging: row.3,
        family: row.4,
        features: [row.5],
        no_default_features: row.6,
    }
}

/// Bench boards that are no build targets but are in the board registry, so
/// that their identity and pinout can be shown.
pub const BENCH_BOARDS: [&'static str; 8] = [
    "nano-matter",
    "openmv-ae3",
    "tachyon",
    "coral-dev-mini",
    "pi5",
    "alchitry-au-v2",
    "alchitry-au-plus",
    "alchitry-pt-v2",
];

/// Whether `k` is the first place of [`TARGETS`] with this id.
pub open spec fn names_target(id: Seq<char>, k: int) -> bool {
    &&& 0 <= k < TARGETS@.len()
    &&& TARGETS@[k].0@ == id
    &&& forall|m: int| 0 <= m < k ==> TARGETS@[m].0@ != id
}

/// Whether any target has this id.
pub open spec fn is_target(id: Seq<char>) -> bool {
    exists|k: int| 0 <= k < TARGETS@.len() && #[trigger] TARGETS@[k].0@ == id
}

/// Looks up a target by id.
pub fn target(id: &str) -> (r: Option<Target>)
    ensures
        match r {
            Some(t) => exists|k: int| #[trigger] names_target(id@, k) && t == row_target(TARGETS@[k]),
            None => !is_target(id@),
        },
{
    let mut k: usize = 0;
    while k < TARGETS.len()
        invariant
            k <= TARGETS@.len(),
            forall|m: int| 0 <= m < k ==> TARGETS@[m].0@ != id@,
        decreases TARGETS@.len() - k,
    {
        let row = TARGETS[k];
        if same_text(row.0, id) {
            assert(names_target(id@, k as int));
            return Some(
                Target {
                    id: row.0,
                    skeleton: row.1,
                    triple: row.2,
                    packaging: row.3,
                    family: row.4,
                    features: [row.5],
                    no_default_features: row.6,
                },
            );
        }
        k += 1;
    }
    None
}

/// The workspace root: the nearest directory that holds the marker. `probes`
/// lists the start directory and its ancestors, nearest first, each with
/// whether the marker is there.
pub fn workspace_root(probes: &Vec<(String, bool)>) -> (r: Option<String>)
    ensures
        match r {
            Some(d) => exists|k: int|
                #![trigger probes@[k]]
                {
                    &&& 0 <= k < probes@.len()
                    &&& probes@[k].1
                    &&& d@ == probes@[k].0@
                    &&& forall|m: int| 0 <= m < k ==> !(#[trigger] probes@[m]).1
                },
            None => forall|m: int| 0 <= m < probes@.len() ==> !(#[trigger] probes@[m]).1,
        },
{
    let mut k: usize = 0;
    while k < probes.len()
        invariant
            k <= probes@.len(),
            forall|m: int| 0 <= m < k ==> !(#[trigger] probes@[m]).1,
        decreases probes@.len() - k,
    {
        if probes[k].1 {
            let d = probes[k].0.clone();
            assert(d@ == probes@[k as int].0@);
            return Some(d);
        }
        k += 1;
    }
    None
}

} // verus!
