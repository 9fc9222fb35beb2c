//! What a GPU host uploads and dispatches for a 2D job.
//!
//! The kernels take one uniform of job parameters, the field and memory
//! buffers, the update coefficients, the packed layer tables, the probe trace,
//! and one uniform slot per step. All packing is in 32-bit words.

use crate::field::eps::EpsSpec;
use crate::field::grid::cell;
use crate::field::grid3::CpmlTables;
use crate::field::run3::{coefficients, coefficients_of};
use crate::field::source::{Source, SourceShape};
use crate::scalar::Scalar;
use vstd::prelude::*;

verus! {

/// Bytes from one step's uniform slot to the next.
pub const STEP_STRIDE: u64 = 256;

/// Bytes of a slot that the kernels see.
pub const STEP_PARAMS_SIZE: u64 = 16;

/// Side of the workgroups of the update kernels.
pub const WORKGROUP_2D: u32 = 16;

/// Width of the workgroups of the inject kernel.
pub const WORKGROUP_INJECT: u32 = 64;

/// Steps encoded in one command buffer at most.
pub const CHUNK: usize = 256;

/// Words from one step's uniform slot to the next.
pub const SLOT_WORDS: usize = 64;

/// Bound size of the per-step uniform; never zero.
pub fn step_params_binding_size() -> (r: u64)
    ensures
        r == STEP_PARAMS_SIZE,
        r > 0,
{
    STEP_PARAMS_SIZE
}

/// Job parameters as the kernels read them.
#[derive(Debug, Clone, Copy, PartialEq, Eq, Structural)]
pub struct Params {
    pub nx: u32,
    pub ny: u32,
    pub npml: u32,
    /// 0 without a source, 1 with one.
    pub src_kind: u32,
    pub src_i: u32,
    pub src_j0: u32,
    pub src_j1: u32,
    pub probe_idx: u32,
}

/// What a host reads of a job.
pub struct GpuJob<T> {
    pub nx: usize,
    pub ny: usize,
    pub npml: usize,
    pub eps: EpsSpec<T>,
    pub source: Option<Source<T>>,
    pub has_mode_source: bool,
    pub n_ports: usize,
    /// Probe cell; the grid center where none is named.
    pub probe: Option<(usize, usize)>,
}

/// Why a host refuses a job.
#[derive(Debug, Clone, Copy, PartialEq, Eq, Structural)]
pub enum GpuError {
    ModeSource,
    Ports,
    NoInterior,
    EpsNotPositive,
    ProbeOutside,
}

impl GpuError {
    pub open spec fn line(self) -> Seq<char> {
        match self {
            GpuError::ModeSource => "gpu: mode_source is CPU-only at F4"@,
            GpuError::Ports => "gpu: port monitors / S-parameters are CPU-only at F4"@,
            GpuError::NoInterior => "gpu: grid must leave interior cells beyond the CPML"@,
            GpuError::EpsNotPositive => "gpu: eps_r must be positive"@,
            GpuError::ProbeOutside => "gpu: probe out of bounds"@,
        }
    }

    /// The line that reports the error.
    pub fn message(&self) -> (r: &'static str)
        ensures
            r@ == self.line(),
    {
        match self {
            GpuError::ModeSource => "gpu: mode_source is CPU-only at F4",
            GpuError::Ports => "gpu: port monitors / S-parameters are CPU-only at F4",
            GpuError::NoInterior => "gpu: grid must leave interior cells beyond the CPML",
            GpuError::EpsNotPositive => "gpu: eps_r must be positive",
            GpuError::ProbeOutside => "gpu: probe out of bounds",
        }
    }
}

/// Everything a host uploads, before the cast to 32-bit floats.
pub struct JobData<T> {
    pub params: Params,
    pub ce: Vec<T>,
    /// Layer tables, packed.
    pub coeff: Vec<T>,
    /// Source amplitude of each step.
    pub amps: Vec<T>,
    pub has_source: bool,
}

/// The tables of one axis as they are packed: 1/kappa, b and c at integer
/// positions, then at half positions.
pub open spec fn packed_axis<T>(t: CpmlTables<T>) -> Seq<T> {
    t.e.inv_k@ + t.e.b@ + t.e.c@ + t.h.inv_k@ + t.h.b@ + t.h.c@
}

impl<T: Scalar> GpuJob<T> {
    pub open spec fn roomy(&self) -> bool {
        self.nx > 2 * self.npml + 2 && self.ny > 2 * self.npml + 2
    }

    pub open spec fn watched(&self) -> (int, int) {
        match self.probe {
            Some(p) => (p.0 as int, p.1 as int),
            None => (self.nx as int / 2, self.ny as int / 2),
        }
    }

    /// Some cell's permittivity is not positive.
    pub open spec fn has_bad_cell(&self) -> bool {
        exists|i: int, j: int|
            0 <= i < self.nx && 0 <= j < self.ny && T::zero_value().at_least(
                #[trigger] self.eps.eps_at(i, j),
            )
    }

    /// The first of these that applies refuses the job.
    pub open spec fn fault(&self) -> Option<GpuError> {
        if self.has_mode_source {
            Some(GpuError::ModeSource)
        } else if self.n_ports > 0 {
            Some(GpuError::Ports)
        } else if !self.roomy() {
            Some(GpuError::NoInterior)
        } else if self.has_bad_cell() {
            Some(GpuError::EpsNotPositive)
        } else if !(self.watched().0 < self.nx && self.watched().1 < self.ny) {
            Some(GpuError::ProbeOutside)
        } else {
            None
        }
    }

    /// Kind, column, first and last row of the source, in 32 bits.
    pub open spec fn footprint(&self) -> (u32, u32, u32, u32) {
        match self.source {
            None => (0, 0, 0, 0),
            Some(s) => match s.shape {
                SourceShape::Point { i, j } => (1, i as u32, j as u32, j as u32),
                SourceShape::Line { i, j0, j1 } => (
                    1,
                    i as u32,
                    if j0 is Some {
                        j0->0 as u32
                    } else {
                        1
                    },
                    if j1 is Some {
                        j1->0 as u32
                    } else {
                        (self.ny - 2) as u32
                    },
                ),
            },
        }
    }

    /// What a host uploads for the job.
    pub open spec fn packs(
        &self,
        dt: T,
        cpml: (CpmlTables<T>, CpmlTables<T>),
        signals: Seq<T>,
        d: JobData<T>,
    ) -> bool {
        let (kind, i, j0, j1) = self.footprint();
        let at = cell(self.ny as int, self.watched().0, self.watched().1);
        &&& d.params == (Params {
            nx: self.nx as u32,
            ny: self.ny as u32,
            npml: self.npml as u32,
            src_kind: kind,
            src_i: i,
            src_j0: j0,
            src_j1: j1,
            probe_idx: at as u32,
        })
        &&& exists|eps: Seq<T>|
            d.ce@ == #[trigger] coefficients(dt, eps) && eps.len() == self.nx * self.ny && forall|
                x: int,
                y: int,
            |
                0 <= x < self.nx && 0 <= y < self.ny ==> eps[#[trigger] cell(self.ny as int, x, y)]
                    == self.eps.eps_at(x, y)
        &&& d.coeff@ == packed_axis(cpml.0) + packed_axis(cpml.1)
        &&& d.amps@ == (match self.source {
            Some(s) => Seq::new(signals.len(), |k: int| s.amplitude.product(signals[k])),
            None => Seq::new(signals.len(), |k: int| T::zero_value()),
        })
        &&& d.has_source == (self.source is Some)
    }
}

fn append_all<T: Copy>(out: &mut Vec<T>, v: &Vec<T>)
    ensures
        final(out)@ == old(out)@ + v@,
{
    let mut k: usize = 0;
    assert(old(out)@ + v@.take(0) =~= old(out)@);
    while k < v.len()
        invariant
            k <= v@.len(),
            out@ == old(out)@ + v@.take(k as int),
        decreases v@.len() - k,
    {
        out.push(v[k]);
        k += 1;
        assert(old(out)@ + v@.take(k as int) =~= (old(out)@ + v@.take(k - 1)).push(v@[k - 1]));
    }
    assert(v@.take(v@.len() as int) =~= v@);
}

fn pack_axis<T: Scalar>(out: &mut Vec<T>, t: &CpmlTables<T>)
    ensures
        final(out)@ == old(out)@ + packed_axis(*t),
{
    append_all(out, &t.e.inv_k);
    append_all(out, &t.e.b);
    append_all(out, &t.e.c);
    append_all(out, &t.h.inv_k);
    append_all(out, &t.h.b);
    append_all(out, &t.h.c);
    assert(out@ =~= old(out)@ + packed_axis(*t));
}

/// The layer tables of both axes, packed x before y.
pub fn pack_tables<T: Scalar>(x: &CpmlTables<T>, y: &CpmlTables<T>) -> (r: Vec<T>)
    ensures
        r@ == packed_axis(*x) + packed_axis(*y),
{
    let mut r: Vec<T> = Vec::new();
    pack_axis(&mut r, x);
    pack_axis(&mut r, y);
    assert(r@ =~= packed_axis(*x) + packed_axis(*y));
    r
}

/// Everything a host uploads for a job, or why it is refused. `signals` holds
/// the source's time signature at each step.
pub fn build_job_data<T: Scalar>(
    job: &GpuJob<T>,
    dt: T,
    cpml: &(CpmlTables<T>, CpmlTables<T>),
    signals: &Vec<T>,
) -> (r: Result<JobData<T>, GpuError>)
    requires
        job.nx * job.ny <= usize::MAX,
    ensures
        match r {
            Ok(d) => job.fault() is None && job.packs(dt, *cpml, signals@, d),
            Err(e) => job.fault() == Some(e),
        },
{
    if job.has_mode_source {
        return Err(GpuError::ModeSource);
    }
    if job.n_ports > 0 {
        return Err(GpuError::Ports);
    }
    if !(job.nx > 2 && (job.nx - 3) / 2 >= job.npml && job.ny > 2 && (job.ny - 3) / 2
        >= job.npml) {
        return Err(GpuError::NoInterior);
    }
    let eps = job.eps.build(job.nx, job.ny);
    let mut k: usize = 0;
    while k < eps.len()
        invariant
            k <= eps@.len(),
            eps@.len() == job.nx * job.ny,
            job.ny > 0,
            !job.has_mode_source,
            job.n_ports == 0,
            job.roomy(),
            forall|i: int, j: int|
                0 <= i < job.nx && 0 <= j < job.ny ==> eps@[#[trigger] cell(job.ny as int, i, j)]
                    == job.eps.eps_at(i, j),
            forall|m: int| 0 <= m < k ==> !T::zero_value().at_least(#[trigger] eps@[m]),
        decreases eps@.len() - k,
    {
        if T::zero().reaches(eps[k]) {
            proof {
                crate::field::grid::lemma_place(job.nx as int, job.ny as int, k as int);
                let (i, j) = (k as int / job.ny as int, k as int % job.ny as int);
                assert(eps@[cell(job.ny as int, i, j)] == job.eps.eps_at(i, j));
            }
            return Err(GpuError::EpsNotPositive);
        }
        k += 1;
    }
    proof {
        assert forall|i: int, j: int|
            0 <= i < job.nx && 0 <= j < job.ny implies !T::zero_value().at_least(
            #[trigger] job.eps.eps_at(i, j),
        ) by {
            crate::field::grid::lemma_cell(job.nx as int, job.ny as int, i, j);
            assert(!T::zero_value().at_least(eps@[cell(job.ny as int, i, j)]));
        }
        assert(!job.has_bad_cell());
    }
    let (pi, pj): (usize, usize) = match job.probe {
        Some(p) => p,
        None => (job.nx / 2, job.ny / 2),
    };
    if pi >= job.nx || pj >= job.ny {
        return Err(GpuError::ProbeOutside);
    }
    let ce = coefficients_of(dt, &eps);
    let coeff = pack_tables(&cpml.0, &cpml.1);
    let (kind, i, j0, j1): (u32, u32, u32, u32) = match &job.source {
        None => (0, 0, 0, 0),
        Some(s) => match s.shape {
            SourceShape::Point { i, j } => (1, low_word(i), low_word(j), low_word(j)),
            SourceShape::Line { i, j0, j1 } => (
                1,
                low_word(i),
                match j0 {
                    Some(j) => low_word(j),
                    None => 1,
                },
                match j1 {
                    Some(j) => low_word(j),
                    None => low_word(job.ny - 2),
                },
            ),
        },
    };
    let at: usize = crate::field::grid::cell_index(job.nx, job.ny, pi, pj);
    let d = JobData {
        params: Params {
            nx: low_word(job.nx),
            ny: low_word(job.ny),
            npml: low_word(job.npml),
            src_kind: kind,
            src_i: i,
            src_j0: j0,
            src_j1: j1,
            probe_idx: low_word(at),
        },
        ce,
        coeff,
        amps: amplitudes(&job.source, signals),
        has_source: kind != 0,
    };
    assert(d.ce@ == coefficients(dt, eps@));
    Ok(d)
}

/// The low 32 bits of a count.
fn low_word(n: usize) -> (r: u32)
    ensures
        r == n as u32,
{
    #[verifier::truncate]
    (n as u32)
}

/// Source amplitude of each step; zero without a source.
fn amplitudes<T: Scalar>(source: &Option<Source<T>>, signals: &Vec<T>) -> (r: Vec<T>)
    ensures
        r@ == (match *source {
            Some(s) => Seq::new(signals@.len(), |k: int| s.amplitude.product(signals@[k])),
            None => Seq::new(signals@.len(), |k: int| T::zero_value()),
        }),
{
    let mut r: Vec<T> = Vec::new();
    let mut k: usize = 0;
    while k < signals.len()
        invariant
            k <= signals@.len(),
            r@.len() == k,
            forall|m: int|
                0 <= m < k ==> #[trigger] r@[m] == (match *source {
                    Some(s) => s.amplitude.product(signals@[m]),
                    None => T::zero_value(),
                }),
        decreases signals@.len() - k,
    {
        let x = match source {
            Some(s) => s.amplitude.times(signals[k]),
            None => T::zero(),
        };
        r.push(x);
        k += 1;
    }
    assert(r@ =~= (match *source {
        Some(s) => Seq::new(signals@.len(), |k: int| s.amplitude.product(signals@[k])),
        None => Seq::new(signals@.len(), |k: int| T::zero_value()),
    }));
    r
}

impl Params {
    /// The uniform: the parameters in order, the time step, three words of
    /// padding.
    pub open spec fn words(self, dt_bits: u32) -> Seq<u32> {
        seq![
            self.nx,
            self.ny,
            self.npml,
            self.src_kind,
            self.src_i,
            self.src_j0,
            self.src_j1,
            self.probe_idx,
            dt_bits,
            0,
            0,
            0,
        ]
    }

    /// The uniform of job parameters; `dt_bits` is the time step as a 32-bit
    /// float.
    pub fn upload(&self, dt_bits: u32) -> (r: Vec<u8>)
        ensures
            bytes_of(self.words(dt_bits), r@),
            r@.len() == 48,
    {
        let mut w: Vec<u32> = Vec::new();
        w.push(self.nx);
        w.push(self.ny);
        w.push(self.npml);
        w.push(self.src_kind);
        w.push(self.src_i);
        w.push(self.src_j0);
        w.push(self.src_j1);
        w.push(self.probe_idx);
        w.push(dt_bits);
        w.push(0);
        w.push(0);
        w.push(0);
        assert(w@ =~= self.words(dt_bits));
        word_bytes(&w)
    }
}

/// Byte `j` of a word, counted from its low end.
pub open spec fn byte_of(w: u32, j: int) -> int {
    if j == 0 {
        w as int % 256
    } else if j == 1 {
        w as int / 256 % 256
    } else if j == 2 {
        w as int / 65536 % 256
    } else {
        w as int / 16777216
    }
}

/// `r` holds the words in the byte order of the machine: each word's bytes
/// together, low end first throughout or high end first throughout.
pub open spec fn bytes_of(words: Seq<u32>, r: Seq<u8>) -> bool {
    &&& r.len() == 4 * words.len()
    &&& {
        ||| forall|b: int|
            0 <= b < r.len() ==> #[trigger] r[b] == byte_of(words[b / 4], b % 4)
        ||| forall|b: int|
            0 <= b < r.len() ==> #[trigger] r[b] == byte_of(words[b / 4], 3 - b % 4)
    }
}

/// `bytemuck::cast_slice` from `u32` to `u8`: the memory of the slice seen as
/// bytes. Four bytes per word, in the byte order of the machine. The cast
/// cannot fail, since bytes have no alignment and divide every size.
#[verifier::external_body]
fn word_bytes(words: &Vec<u32>) -> (r: Vec<u8>)
    ensures
        bytes_of(words@, r@),
{
    bytemuck::cast_slice::<u32, u8>(words.as_slice()).to_vec()
}

/// The step slots as words: in the slot of step `n` its amplitude and its
/// number, the rest zero; at least one slot.
pub open spec fn slot_word(amp_bits: Seq<u32>, at: int) -> u32 {
    let (n, w) = (at / 64, at % 64);
    if n < amp_bits.len() && w == 0 {
        amp_bits[n]
    } else if n < amp_bits.len() && w == 1 {
        n as u32
    } else {
        0
    }
}

/// Number of step slots.
pub open spec fn slots(steps: int) -> int {
    if steps >= 1 {
        steps
    } else {
        1
    }
}

/// The uniform slots of all steps; `amp_bits` holds each step's amplitude as a
/// 32-bit float.
pub fn upload_steps(amp_bits: &Vec<u32>) -> (r: Vec<u8>)
    requires
        64 * slots(amp_bits@.len() as int) <= usize::MAX,
    ensures
        bytes_of(
            Seq::new(
                (64 * slots(amp_bits@.len() as int)) as nat,
                |at: int| slot_word(amp_bits@, at),
            ),
            r@,
        ),
{
    let steps: usize = amp_bits.len();
    let n: usize = if steps >= 1 {
        SLOT_WORDS * steps
    } else {
        SLOT_WORDS
    };
    let mut w: Vec<u32> = Vec::new();
    let mut at: usize = 0;
    while at < n
        invariant
            at <= n,
            steps == amp_bits@.len(),
            w@.len() == at,
            forall|m: int| 0 <= m < at ==> #[trigger] w@[m] == slot_word(amp_bits@, m),
        decreases n - at,
    {
        let (k, q): (usize, usize) = (at / SLOT_WORDS, at % SLOT_WORDS);
        let x: u32 = if k < steps && q == 0 {
            amp_bits[k]
        } else if k < steps && q == 1 {
            low_word(k)
        } else {
            0
        };
        w.push(x);
        at += 1;
    }
    assert(w@ =~= Seq::new(n as nat, |m: int| slot_word(amp_bits@, m)));
    word_bytes(&w)
}

/// Bytes of each buffer of a host.
#[derive(Debug, Clone, Copy, PartialEq, Eq, Structural)]
pub struct BufferSizes {
    pub ez: u64,
    pub hx: u64,
    pub hy: u64,
    pub psi_e: u64,
    pub psi_h: u64,
    pub ce: u64,
    pub coeff: u64,
    pub trace: u64,
    pub step: u64,
    pub staging: u64,
}

/// Bytes of `n` 32-bit floats; a buffer is never empty.
pub open spec fn float_bytes(n: int) -> int {
    if n >= 1 {
        4 * n
    } else {
        4
    }
}

fn floats(n: usize) -> (r: u64)
    requires
        4 * n <= u64::MAX,
    ensures
        r == float_bytes(n as int),
{
    if n >= 1 {
        4 * n as u64
    } else {
        4
    }
}

impl BufferSizes {
    /// The sizes are those for a grid, a number of steps and a number of packed
    /// coefficients.
    pub open spec fn suit(&self, nx: int, ny: int, steps: int, coeff: int) -> bool {
        &&& self.ez == float_bytes(nx * ny)
        &&& self.hx == float_bytes(nx * (ny - 1))
        &&& self.hy == float_bytes((nx - 1) * ny)
        &&& self.psi_e == float_bytes(2 * (nx * ny))
        &&& self.psi_h == float_bytes(nx * (ny - 1) + (nx - 1) * ny)
        &&& self.ce == float_bytes(nx * ny)
        &&& self.coeff == float_bytes(coeff)
        &&& self.trace == float_bytes(steps)
        &&& self.step == 256 * slots(steps)
        &&& self.staging == float_bytes(if nx * ny >= steps {
            nx * ny
        } else {
            steps
        })
    }
}

/// Sizes of the buffers for a grid and a number of steps.
pub fn buffer_sizes(nx: usize, ny: usize, steps: usize, coeff: usize) -> (r: BufferSizes)
    requires
        nx >= 1,
        ny >= 1,
        2 * (nx * ny) <= usize::MAX,
        8 * (nx * ny) <= u64::MAX,
        256 * steps <= u64::MAX,
        4 * coeff <= u64::MAX,
    ensures
        r.suit(nx as int, ny as int, steps as int, coeff as int),
        r.ez == float_bytes(nx * ny),
        r.hx == float_bytes(nx * (ny - 1)),
        r.hy == float_bytes((nx - 1) * ny),
        r.psi_e == float_bytes(2 * (nx * ny)),
        r.psi_h == float_bytes(nx * (ny - 1) + (nx - 1) * ny),
        r.ce == float_bytes(nx * ny),
        r.coeff == float_bytes(coeff as int),
        r.trace == float_bytes(steps as int),
        r.step == 256 * slots(steps as int),
        r.staging == float_bytes(if nx * ny >= steps {
            nx * ny
        } else {
            steps as int
        }),
{
    proof {
        crate::field::grid::lemma_fewer(nx as int, ny as int);
    }
    let n_ez: usize = nx * ny;
    let n_hx: usize = nx * (ny - 1);
    let n_hy: usize = (nx - 1) * ny;
    BufferSizes {
        ez: floats(n_ez),
        hx: floats(n_hx),
        hy: floats(n_hy),
        psi_e: floats(2 * n_ez),
        psi_h: floats(n_hx + n_hy),
        ce: floats(n_ez),
        coeff: floats(coeff),
        trace: floats(steps),
        step: if steps >= 1 {
            STEP_STRIDE * steps as u64
        } else {
            STEP_STRIDE
        },
        staging: floats(
            if n_ez >= steps {
                n_ez
            } else {
                steps
            },
        ),
    }
}

/// Workgroups that cover `n` threads in groups of `w`.
pub open spec fn groups(n: int, w: int) -> int {
    (n + w - 1) / w
}

fn groups_of(n: u32, w: u32) -> (r: u32)
    requires
        w >= 1,
    ensures
        r == groups(n as int, w as int),
{
    if n == 0 {
        assert((0 + w as int - 1) / w as int == 0) by (nonlinear_arith)
            requires
                w >= 1,
        ;
        0
    } else {
        let r: u32 = (n - 1) / w + 1;
        proof {
            let (x, m) = (n as int, w as int);
            assert((x + m - 1) / m == (x - 1) / m + 1) by (nonlinear_arith)
                requires
                    x >= 1,
                    m >= 1,
            ;
            assert((x - 1) / m <= x - 1) by (nonlinear_arith)
                requires
                    x >= 1,
                    m >= 1,
            ;
        }
        r
    }
}

impl Params {
    /// `r` are the workgroups of a step.
    pub open spec fn dispatched(self, r: (u32, u32, u32)) -> bool {
        &&& r.0 == groups(self.nx as int, 16)
        &&& r.1 == groups(self.ny as int, 16)
        &&& r.2 == groups(self.src_j1 - self.src_j0 + 1, 64)
    }
}

/// Workgroups of a step: x and y of the update kernels, and of the inject
/// kernel.
pub fn dispatch_groups(p: &Params) -> (r: (u32, u32, u32))
    requires
        p.src_j0 <= p.src_j1,
        p.src_j1 - p.src_j0 < u32::MAX,
    ensures
        p.dispatched(r),
        r.0 == groups(p.nx as int, 16),
        r.1 == groups(p.ny as int, 16),
        r.2 == groups(p.src_j1 - p.src_j0 + 1, 64),
{
    let span: u32 = p.src_j1 - p.src_j0 + 1;
    (
        groups_of(p.nx, WORKGROUP_2D),
        groups_of(p.ny, WORKGROUP_2D),
        groups_of(span, WORKGROUP_INJECT),
    )
}

/// A kernel of a step.
#[derive(Debug, Clone, Copy, PartialEq, Eq, Structural)]
pub enum Kernel {
    UpdateH,
    UpdateE,
    Inject,
    RecordProbe,
}

/// The kernels of one step, in order.
pub fn step_kernels(has_source: bool) -> (r: Vec<Kernel>)
    ensures
        r@ == (if has_source {
            seq![Kernel::UpdateH, Kernel::UpdateE, Kernel::Inject, Kernel::RecordProbe]
        } else {
            seq![Kernel::UpdateH, Kernel::UpdateE, Kernel::RecordProbe]
        }),
{
    let mut r: Vec<Kernel> = Vec::new();
    r.push(Kernel::UpdateH);
    r.push(Kernel::UpdateE);
    if has_source {
        r.push(Kernel::Inject);
    }
    r.push(Kernel::RecordProbe);
    r
}

/// `chunks` cut the steps from `from` to `to` into consecutive runs of at
/// most [`CHUNK`] steps, none of them empty.
pub open spec fn cuts(chunks: Seq<(usize, usize)>, from: int, to: int) -> bool {
    &&& chunks.len() == 0 ==> from == to
    &&& chunks.len() > 0 ==> chunks[0].0 == from && chunks[chunks.len() - 1].1 == to
    &&& forall|k: int|
        0 <= k < chunks.len() ==> (#[trigger] chunks[k]).0 < chunks[k].1 && chunks[k].1
            - chunks[k].0 <= CHUNK
    &&& forall|k: int|
        0 <= k < chunks.len() - 1 ==> (#[trigger] chunks[k]).1 == chunks[k + 1].0
}

/// The chunks of the next `n` steps after `done` of `total`; `None` where that
/// overruns the job.
pub fn plan_steps(done: usize, n: usize, total: usize) -> (r: Option<Vec<(usize, usize)>>)
    ensures
        match r {
            Some(chunks) => done + n <= total && cuts(chunks@, done as int, done + n),
            None => done + n > total,
        },
{
    if done > total || n > total - done {
        return None;
    }
    let end: usize = done + n;
    let mut chunks: Vec<(usize, usize)> = Vec::new();
    let mut s: usize = done;
    while s < end
        invariant
            done <= s <= end,
            cuts(chunks@, done as int, s as int),
        decreases end - s,
    {
        let to: usize = if end - s > CHUNK {
            s + CHUNK
        } else {
            end
        };
        let ghost before = chunks@;
        chunks.push((s, to));
        assert forall|k: int| 0 <= k < chunks@.len() - 1 implies (#[trigger] chunks@[k]).1
            == chunks@[k + 1].0 by {
            assert(before[k] == chunks@[k]);
        }
        s = to;
    }
    Some(chunks)
}

/// Byte offset of a step's slot.
pub fn slot_offset(step: usize) -> (r: u32)
    requires
        256 * step <= u64::MAX,
    ensures
        r == ((256 * step) as u64) as u32,
{
    let at: u64 = step as u64 * STEP_STRIDE;
    #[verifier::truncate]
    (at as u32)
}

} // verus!
