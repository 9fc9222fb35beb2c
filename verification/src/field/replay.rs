//! Reproducible runs: what a job, its tables and its beats are, a run follows
//! from, sample by sample.

use crate::complex::Cx;
use crate::field::eps::EpsSpec;
use crate::field::grid::{cell, lemma_place, Grid2d};
use crate::field::grid3::CpmlTables;
use crate::field::monitor::PortMonitor;
use crate::field::run::{ran, trail, Beat, Drive, FieldJob, SimRun};
use crate::field::source::injected;
use crate::field::sparams::{amplitude, is_column, outgoing};
use crate::scalar::Scalar;
use vstd::prelude::*;

verus! {

/// Two grids hold the same in everything.
pub open spec fn same_grid<T: Scalar>(a: &Grid2d<T>, b: &Grid2d<T>) -> bool {
    a.wf() && b.wf() && a.same_setup(b) && a.same_e(b) && a.same_h(b)
}

/// Two ports are the same and have seen the same.
pub open spec fn same_port<T: Scalar>(a: &PortMonitor<T>, b: &PortMonitor<T>) -> bool {
    a.i == b.i && a.profiles == b.profiles && a.accum@ == b.accum@ && a.samples == b.samples
}

/// Two runs hold the same grid, and their monitors have seen the same.
pub open spec fn same_run<T: Scalar>(a: &SimRun<T>, b: &SimRun<T>) -> bool {
    &&& same_grid(&a.grid, &b.grid)
    &&& a.probe.i == b.probe.i
    &&& a.probe.j == b.probe.j
    &&& a.probe.trace@ == b.probe.trace@
    &&& a.dft.i == b.dft.i
    &&& a.dft.j == b.dft.j
    &&& a.dft.sums.accum@ == b.dft.sums.accum@
    &&& a.ports@.len() == b.ports@.len()
    &&& forall|k: int| 0 <= k < a.ports@.len() ==> #[trigger] same_port(&a.ports@[k], &b.ports@[k])
}

proof fn lemma_h_alike<T: Scalar>(a: &Grid2d<T>, c: &Grid2d<T>, x: &Grid2d<T>, y: &Grid2d<T>)
    requires
        same_grid(a, c),
        x.wf(),
        y.wf(),
        x.same_setup(a),
        y.same_setup(c),
        a.h_stepped(x),
        c.h_stepped(y),
    ensures
        x.same_h(y),
{
    let (nx, ny) = (a.nx as int, a.ny as int);
    assert forall|at: int| 0 <= at < nx * (ny - 1) implies x.hx@[at] == y.hx@[at]
        && x.psi_hx_y@[at] == y.psi_hx_y@[at] by {
        lemma_place(nx, ny - 1, at);
        let (i, j) = (at / (ny - 1), at % (ny - 1));
        assert(a.hx_next(i, j) == c.hx_next(i, j));
    }
    assert forall|at: int| 0 <= at < (nx - 1) * ny implies x.hy@[at] == y.hy@[at]
        && x.psi_hy_x@[at] == y.psi_hy_x@[at] by {
        lemma_place(nx - 1, ny, at);
        let (i, j) = (at / ny, at % ny);
        assert(a.hy_next(i, j) == c.hy_next(i, j));
    }
    assert(x.hx@ =~= y.hx@);
    assert(x.psi_hx_y@ =~= y.psi_hx_y@);
    assert(x.hy@ =~= y.hy@);
    assert(x.psi_hy_x@ =~= y.psi_hy_x@);
}

proof fn lemma_e_alike<T: Scalar>(a: &Grid2d<T>, c: &Grid2d<T>, x: &Grid2d<T>, y: &Grid2d<T>)
    requires
        same_grid(a, c),
        x.wf(),
        y.wf(),
        x.same_setup(a),
        y.same_setup(c),
        a.e_stepped(x),
        c.e_stepped(y),
    ensures
        x.same_e(y),
{
    let (nx, ny) = (a.nx as int, a.ny as int);
    assert forall|at: int| 0 <= at < nx * ny implies x.ez@[at] == y.ez@[at] && x.psi_ez_x@[at]
        == y.psi_ez_x@[at] && x.psi_ez_y@[at] == y.psi_ez_y@[at] by {
        lemma_place(nx, ny, at);
        let (i, j) = (at / ny, at % ny);
        assert(a.ez_next(i, j) == c.ez_next(i, j));
    }
    assert(x.ez@ =~= y.ez@);
    assert(x.psi_ez_x@ =~= y.psi_ez_x@);
    assert(x.psi_ez_y@ =~= y.psi_ez_y@);
}

/// One leapfrog step of one grid has one outcome.
proof fn lemma_leap_alike<T: Scalar>(a: &Grid2d<T>, c: &Grid2d<T>, x: &Grid2d<T>, y: &Grid2d<T>)
    requires
        same_grid(a, c),
        x.wf(),
        y.wf(),
        a.leapfrogged(x),
        c.leapfrogged(y),
    ensures
        same_grid(x, y),
{
    let p = choose|mid: Grid2d<T>|
        #![trigger a.h_stepped(&mid)]
        {
            &&& mid.wf()
            &&& mid.same_setup(a)
            &&& mid.same_e(a)
            &&& a.h_stepped(&mid)
            &&& x.same_setup(&mid)
            &&& x.same_h(&mid)
            &&& mid.e_stepped(x)
        };
    let q = choose|mid: Grid2d<T>|
        #![trigger c.h_stepped(&mid)]
        {
            &&& mid.wf()
            &&& mid.same_setup(c)
            &&& mid.same_e(c)
            &&& c.h_stepped(&mid)
            &&& y.same_setup(&mid)
            &&& y.same_h(&mid)
            &&& mid.e_stepped(y)
        };
    lemma_h_alike(a, c, &p, &q);
    lemma_e_alike(&p, &q, x, y);
}

/// One source adds the same onto the same.
proof fn lemma_injected_alike<T: Scalar>(
    a: &Grid2d<T>,
    c: &Grid2d<T>,
    x: &Grid2d<T>,
    y: &Grid2d<T>,
    more: spec_fn(int, int) -> Option<T>,
)
    requires
        same_grid(a, c),
        injected(a, x, more),
        injected(c, y, more),
    ensures
        same_grid(x, y),
{
    let (nx, ny) = (a.nx as int, a.ny as int);
    assert forall|at: int| 0 <= at < nx * ny implies x.ez@[at] == y.ez@[at] by {
        lemma_place(nx, ny, at);
        let (i, j) = (at / ny, at % ny);
        assert(x.ez_of(i, j) == y.ez_of(i, j));
    }
    assert(x.ez@ =~= y.ez@);
}

/// A run in one state takes one step one way.
proof fn lemma_step_alike<T: Scalar>(
    d: &Drive<T>,
    beat: &Beat<T>,
    a: &SimRun<T>,
    b: &SimRun<T>,
    c: &SimRun<T>,
    e: &SimRun<T>,
)
    requires
        same_run(a, c),
        a.stepped(d, beat, b),
        c.stepped(d, beat, e),
    ensures
        same_run(b, e),
{
    let ny = a.grid.ny as int;
    let (one, two) = choose|one: Grid2d<T>, two: Grid2d<T>|
        #![trigger a.grid.leapfrogged(&one), two.wf()]
        {
            &&& one.wf()
            &&& two.wf()
            &&& a.grid.leapfrogged(&one)
            &&& match d.source {
                Some(s) => injected(&one, &two, s.adds(ny, beat.signal)),
                None => two == one,
            }
            &&& match d.injector {
                Some(m) => injected(&two, &b.grid, m.adds(ny, beat.mode_signal)),
                None => b.grid == two,
            }
        };
    let (three, four) = choose|one: Grid2d<T>, two: Grid2d<T>|
        #![trigger c.grid.leapfrogged(&one), two.wf()]
        {
            &&& one.wf()
            &&& two.wf()
            &&& c.grid.leapfrogged(&one)
            &&& match d.source {
                Some(s) => injected(&one, &two, s.adds(ny, beat.signal)),
                None => two == one,
            }
            &&& match d.injector {
                Some(m) => injected(&two, &e.grid, m.adds(ny, beat.mode_signal)),
                None => e.grid == two,
            }
        };
    lemma_leap_alike(&a.grid, &c.grid, &one, &three);
    if let Some(s) = d.source {
        lemma_injected_alike(&one, &three, &two, &four, s.adds(ny, beat.signal));
    }
    if let Some(m) = d.injector {
        lemma_injected_alike(&two, &four, &b.grid, &e.grid, m.adds(ny, beat.mode_signal));
    }
    assert(same_grid(&b.grid, &e.grid));
    assert forall|i: int, j: int| b.grid.ez_of(i, j) == e.grid.ez_of(i, j) by {}
    assert forall|k: int| 0 <= k < b.ports@.len() implies #[trigger] same_port(
        &b.ports@[k],
        &e.ports@[k],
    ) by {
        let (p, q) = (a.ports@[k], c.ports@[k]);
        assert(same_port(&a.ports@[k], &c.ports@[k]));
        assert(p.recorded(&b.grid, beat.ports@, &b.ports@[k]));
        assert(q.recorded(&e.grid, beat.ports@, &e.ports@[k]));
        assert forall|f: int| 0 <= f < p.accum@.len() implies b.ports@[k].accum@[f]
            == e.ports@[k].accum@[f] by {
            lemma_overlap_alike(&b.grid, &e.grid, p.i as int, p.profiles@[f]@);
        }
        assert(b.ports@[k].accum@ =~= e.ports@[k].accum@);
    }
}

proof fn lemma_overlap_alike<T: Scalar>(a: &Grid2d<T>, b: &Grid2d<T>, i: int, profile: Seq<T>)
    requires
        same_grid(a, b),
    ensures
        PortMonitor::overlap(a, i, profile) == PortMonitor::overlap(b, i, profile),
{
    assert(Seq::new(a.ny as nat, |j: int| a.ez_of(i, j).product(profile[j])) =~= Seq::new(
        b.ny as nat,
        |j: int| b.ez_of(i, j).product(profile[j]),
    ));
}

proof fn lemma_way_alike<T: Scalar>(
    s: Seq<SimRun<T>>,
    t: Seq<SimRun<T>>,
    d: &Drive<T>,
    beats: Seq<Beat<T>>,
    k: int,
)
    requires
        same_run(&s[0], &t[0]),
        trail(s, s[0], s.last(), d, beats),
        trail(t, t[0], t.last(), d, beats),
        0 <= k <= beats.len(),
    ensures
        same_run(&s[k], &t[k]),
    decreases k,
{
    if k > 0 {
        lemma_way_alike(s, t, d, beats, k - 1);
        let b = beats[k - 1];
        assert(s[k - 1].stepped(d, &b, &s[k - 1 + 1]));
        assert(t[k - 1].stepped(d, &b, &t[k - 1 + 1]));
        lemma_step_alike(d, &b, &s[k - 1], &s[k], &t[k - 1], &t[k]);
    }
}

/// A run is reproducible: one job over one layout, with one set of tables,
/// ports, sources and beats, ends in the same fields, traces, sums and port
/// readings every time, whatever the number of threads.
pub proof fn runs_are_reproducible<T: Scalar>(
    job: &FieldJob<T>,
    eps: EpsSpec<T>,
    dt: T,
    cpml: (CpmlTables<T>, CpmlTables<T>),
    ports: Seq<PortMonitor<T>>,
    drive: &Drive<T>,
    beats: Seq<Beat<T>>,
    one: SimRun<T>,
    two: SimRun<T>,
)
    requires
        ran(job, eps, dt, cpml, ports, drive, beats, one),
        ran(job, eps, dt, cpml, ports, drive, beats, two),
    ensures
        same_run(&one, &two),
{
    let s = choose|s: Seq<SimRun<T>>|
        s.len() > 0 && s[0].wf() && s[0].done() == 0 && s[0].starts(job, eps, dt, cpml, ports)
            && #[trigger] trail(s, s[0], one, drive, beats);
    let t = choose|s: Seq<SimRun<T>>|
        s.len() > 0 && s[0].wf() && s[0].done() == 0 && s[0].starts(job, eps, dt, cpml, ports)
            && #[trigger] trail(s, s[0], two, drive, beats);
    let (a, b) = (s[0], t[0]);
    let (nx, ny) = (job.nx as int, job.ny as int);
    assert forall|at: int| 0 <= at < nx * ny implies a.grid.eps_r@[at] == b.grid.eps_r@[at] by {
        lemma_place(nx, ny, at);
        let (i, j) = (at / ny, at % ny);
        assert(a.grid.eps_r@[cell(ny, i, j)] == eps.eps_at(i, j));
        assert(b.grid.eps_r@[cell(ny, i, j)] == eps.eps_at(i, j));
    }
    assert(a.grid.eps_r@ =~= b.grid.eps_r@);
    assert(a.probe.trace@ =~= b.probe.trace@);
    assert forall|k: int| 0 <= k < a.ports@.len() implies #[trigger] same_port(
        &a.ports@[k],
        &b.ports@[k],
    ) by {}
    assert(same_run(&a, &b));
    lemma_way_alike(s, t, drive, beats, beats.len() as int);
}

/// A bare guide reflects nothing: where the layout is its own reference, and
/// a sample less itself is zero, the wave that leaves port 1 is exactly zero
/// at every frequency, and so is S11 if zero over any amplitude is zero.
pub proof fn bare_guide_reflects_nothing<
    T: Scalar,
    V: Fn(Cx<T>) -> bool,
    D: Fn(Cx<T>, Cx<T>) -> Cx<T>,
>(
    job: &FieldJob<T>,
    dt: T,
    cpml: (CpmlTables<T>, CpmlTables<T>),
    ports: Seq<PortMonitor<T>>,
    drive: &Drive<T>,
    beats: Seq<Beat<T>>,
    reference: SimRun<T>,
    device: SimRun<T>,
    n_frequencies: int,
    vanished: V,
    divide: D,
    s: Seq<Vec<Cx<T>>>,
    f: int,
)
    requires
        ran(job, job.eps.bare(), dt, cpml, ports, drive, beats, reference),
        ran(job, job.eps, dt, cpml, ports, drive, beats, device),
        job.eps.bare() == job.eps,
        ports.len() > 0,
        is_column(reference.ports@, device.ports@, dt, n_frequencies, vanished, divide, s),
        0 <= f < n_frequencies,
        forall|x: T| #[trigger] x.difference(x) == T::zero_value(),
        forall|a: Cx<T>, r: Cx<T>| #[trigger]
            call_ensures(divide, (Cx::<T>::nought(), a), r) ==> r == Cx::<T>::nought(),
    ensures
        outgoing(reference.ports@, device.ports@, dt, 0, f) == Cx::<T>::nought(),
        s[0]@[f] == Cx::<T>::nought(),
{
    runs_are_reproducible(job, job.eps, dt, cpml, ports, drive, beats, reference, device);
    assert(same_port(&reference.ports@[0], &device.ports@[0]));
    let a = amplitude(reference.ports@[0], dt, f);
    assert(outgoing(reference.ports@, device.ports@, dt, 0, f) == a.difference(a));
    assert(a.re.difference(a.re) == T::zero_value() && a.im.difference(a.im) == T::zero_value());
    assert(call_ensures(divide, (outgoing(reference.ports@, device.ports@, dt, 0, f), a), s[0]@[f]));
}

} // verus!
