//! What a GPU host lays out is what a grid holds: buffers of the grid's size,
//! workgroups that reach every cell, and a slot for every step.

use crate::field::gpu::{groups, packed_axis, slot_word, slots, BufferSizes, GpuJob, JobData, Params};
use crate::field::gpu::{SLOT_WORDS, STEP_STRIDE, WORKGROUP_2D, WORKGROUP_INJECT};
use crate::field::grid::{cell, Grid2d};
use crate::field::grid3::CpmlTables;
use crate::exact::{exact_field, lemma_quotient};
use crate::scalar::Scalar;
use vstd::prelude::*;

verus! {

/// Every buffer holds four bytes for each sample that the grid keeps in its
/// place, and the trace and the slots have room for every step.
pub proof fn buffers_hold_the_grid<T: Scalar>(g: &Grid2d<T>, b: BufferSizes, steps: int, coeff: int)
    requires
        g.wf(),
        b.suit(g.nx as int, g.ny as int, steps, coeff),
    ensures
        b.ez == 4 * g.ez@.len(),
        b.hx == 4 * g.hx@.len(),
        b.hy == 4 * g.hy@.len(),
        b.psi_e == 4 * (g.psi_ez_x@.len() + g.psi_ez_y@.len()),
        b.psi_h == 4 * (g.psi_hx_y@.len() + g.psi_hy_x@.len()),
        b.ce == 4 * g.ce@.len(),
        steps >= 1 ==> b.trace == 4 * steps && b.step == STEP_STRIDE * steps,
        coeff >= 1 ==> b.coeff == 4 * coeff,
        b.staging >= b.ez,
        b.staging >= b.trace,
        b.step >= STEP_STRIDE,
{
    let (nx, ny) = (g.nx as int, g.ny as int);
    assert(nx * ny >= 1 && nx * (ny - 1) >= 1 && (nx - 1) * ny >= 1) by (nonlinear_arith)
        requires
            nx >= 2,
            ny >= 2,
    ;
}

/// Packed tables hold every entry of both axes.
pub proof fn packed_tables_hold_both_axes<T: Scalar>(
    x: CpmlTables<T>,
    y: CpmlTables<T>,
    nx: int,
    ny: int,
)
    requires
        nx >= 1,
        ny >= 1,
        x.e.covers(nx),
        x.h.covers(nx - 1),
        y.e.covers(ny),
        y.h.covers(ny - 1),
    ensures
        (packed_axis(x) + packed_axis(y)).len() == 3 * (2 * nx - 1) + 3 * (2 * ny - 1),
{
}

/// Workgroups reach every thread, and no group is idle.
pub proof fn groups_reach_every_thread(n: int, w: int)
    requires
        n >= 1,
        w >= 1,
    ensures
        groups(n, w) * w >= n,
        (groups(n, w) - 1) * w < n,
{
    let g = groups(n, w);
    vstd::arithmetic::div_mod::lemma_fundamental_div_mod(n + w - 1, w);
    vstd::arithmetic::div_mod::lemma_mod_bound(n + w - 1, w);
    assert(g * w == w * g && (g - 1) * w == w * g - w) by (nonlinear_arith);
}

/// The workgroups of a step reach every cell of the grid and every row of the
/// source.
pub proof fn dispatch_reaches_every_cell(p: Params, r: (u32, u32, u32))
    requires
        p.nx >= 1,
        p.ny >= 1,
        p.src_j0 <= p.src_j1,
        p.dispatched(r),
    ensures
        r.0 * WORKGROUP_2D >= p.nx,
        r.1 * WORKGROUP_2D >= p.ny,
        r.2 * WORKGROUP_INJECT >= p.src_j1 - p.src_j0 + 1,
        (r.0 - 1) * WORKGROUP_2D < p.nx,
        (r.1 - 1) * WORKGROUP_2D < p.ny,
        (r.2 - 1) * WORKGROUP_INJECT < p.src_j1 - p.src_j0 + 1,
{
    groups_reach_every_thread(p.nx as int, 16);
    groups_reach_every_thread(p.ny as int, 16);
    groups_reach_every_thread(p.src_j1 - p.src_j0 + 1, 64);
}

/// The slot of a step starts where the offset of the step says, with its
/// amplitude, and holds its number next.
pub proof fn slots_hold_their_steps(amp_bits: Seq<u32>, n: int)
    requires
        0 <= n < amp_bits.len(),
        amp_bits.len() <= u32::MAX,
    ensures
        ({
            let at = STEP_STRIDE * n / 4;
            &&& at == SLOT_WORDS * n
            &&& slot_word(amp_bits, at) == amp_bits[n]
            &&& slot_word(amp_bits, at + 1) == n
            &&& forall|w: int| 2 <= w < SLOT_WORDS ==> #[trigger] slot_word(amp_bits, at + w) == 0
        }),
        slots(amp_bits.len() as int) == amp_bits.len(),
{
    let at = 64 * n;
    assert(at / 64 == n && at % 64 == 0);
    assert forall|w: int| 2 <= w < SLOT_WORDS implies #[trigger] slot_word(amp_bits, at + w)
        == 0 by {
        assert((at + w) / 64 == n && (at + w) % 64 == w);
    }
}

/// What is uploaded of a job is the job: the coefficient of a cell times its
/// permittivity is the time step, the probe stands at its cell, and the source
/// spans its rows.
pub proof fn upload_is_the_job<T: Scalar>(
    job: &GpuJob<T>,
    dt: T,
    cpml: (CpmlTables<T>, CpmlTables<T>),
    signals: Seq<T>,
    d: JobData<T>,
    x: int,
    y: int,
)
    requires
        exact_field::<T>(),
        job.packs(dt, cpml, signals, d),
        0 <= x < job.nx,
        0 <= y < job.ny,
        job.eps.eps_at(x, y) != T::zero_value(),
    ensures
        d.ce@[cell(job.ny as int, x, y)].product(job.eps.eps_at(x, y)) == dt,
        d.amps@.len() == signals.len(),
        job.source is None ==> forall|k: int|
            0 <= k < signals.len() ==> #[trigger] d.amps@[k] == T::zero_value(),
{
    let eps = choose|eps: Seq<T>|
        d.ce@ == #[trigger] crate::field::run3::coefficients(dt, eps) && eps.len() == job.nx
            * job.ny && forall|x: int, y: int|
            0 <= x < job.nx && 0 <= y < job.ny ==> eps[#[trigger] cell(job.ny as int, x, y)]
                == job.eps.eps_at(x, y);
    let at = cell(job.ny as int, x, y);
    crate::field::grid::lemma_cell(job.nx as int, job.ny as int, x, y);
    lemma_quotient(dt, job.eps.eps_at(x, y));
    assert(eps[at] == job.eps.eps_at(x, y));
}

} // verus!
