//! 2D runs: the leapfrog loop with its sources and monitors, and what a job
//! reports of it.

use crate::complex::Cx;
use crate::field::eps::EpsSpec;
use crate::field::grid::{cell, lemma_cell, lemma_place, Grid2d, GridSpec};
use crate::field::grid3::{quiet, CpmlTables};
use crate::field::monitor::{DftMonitor, FourierSums, PortMonitor, Probe};
use crate::field::run3::{coefficients, coefficients_of};
use crate::field::source::injected;
use crate::field::source::{ModeInjector, Source};
use crate::field::ticks::{lemma_ticks_alike, ticks, ticks_to, Part, Tick};
use crate::progress::{heard, lemma_heard_more, lemma_heard_nothing, Listener};
use crate::scalar::Scalar;
use vstd::prelude::*;

verus! {

/// Most points of a probe trace in a report.
pub const MAX_TRACE_POINTS: usize = 1024;

/// What one step takes from the clock: the time signatures of the two sources
/// and the phasors of probe and ports.
pub struct Beat<T> {
    pub signal: T,
    pub mode_signal: T,
    pub dft: Vec<Cx<T>>,
    pub ports: Vec<Cx<T>>,
}

/// What drives a run.
pub struct Drive<T> {
    pub source: Option<Source<T>>,
    pub injector: Option<ModeInjector<T>>,
}

impl<T: Scalar> Drive<T> {
    /// Every source lies on the grid.
    pub open spec fn fits(&self, nx: int, ny: int) -> bool {
        &&& self.source is Some ==> self.source->0.shape.fits(nx, ny)
        &&& self.injector is Some ==> self.injector->0.i < nx && self.injector->0.profile@.len()
            == ny
    }
}

/// A run: the grid and every monitor.
pub struct SimRun<T> {
    pub grid: Grid2d<T>,
    pub probe: Probe<T>,
    pub dft: DftMonitor<T>,
    pub ports: Vec<PortMonitor<T>>,
}

impl<T: Scalar> SimRun<T> {
    /// Steps taken so far.
    pub open spec fn done(&self) -> nat {
        self.probe.trace@.len()
    }

    /// Grid and monitors are sound, every monitor lies on the grid, and all
    /// have seen the same steps.
    pub open spec fn wf(&self) -> bool {
        &&& self.grid.wf()
        &&& self.probe.i < self.grid.nx
        &&& self.probe.j < self.grid.ny
        &&& self.dft.i < self.grid.nx
        &&& self.dft.j < self.grid.ny
        &&& self.dft.sums.samples == self.done()
        &&& forall|k: int|
            0 <= k < self.ports@.len() ==> (#[trigger] self.ports@[k]).i < self.grid.nx
                && self.ports@[k].wf(self.grid.ny as int) && self.ports@[k].samples == self.done()
    }

    /// A beat has one phasor per frequency of every monitor.
    pub open spec fn matches(&self, b: &Beat<T>) -> bool {
        &&& b.dft@.len() == self.dft.sums.accum@.len()
        &&& forall|k: int|
            0 <= k < self.ports@.len() ==> (#[trigger] self.ports@[k]).accum@.len()
                == b.ports@.len()
    }

    /// `after` is one step of `self`: the leapfrog step, the sources in turn,
    /// then every monitor on what they left.
    pub open spec fn stepped(&self, d: &Drive<T>, b: &Beat<T>, after: &Self) -> bool {
        let ny = self.grid.ny as int;
        let g = after.grid;
        &&& exists|one: Grid2d<T>, two: Grid2d<T>|
            #![trigger self.grid.leapfrogged(&one), two.wf()]
            {
                &&& one.wf()
                &&& two.wf()
                &&& self.grid.leapfrogged(&one)
                &&& match d.source {
                    Some(s) => injected(&one, &two, s.adds(ny, b.signal)),
                    None => two == one,
                }
                &&& match d.injector {
                    Some(m) => injected(&two, &g, m.adds(ny, b.mode_signal)),
                    None => g == two,
                }
            }
        &&& after.probe.i == self.probe.i
        &&& after.probe.j == self.probe.j
        &&& after.probe.trace@ == self.probe.trace@.push(
            g.ez_of(self.probe.i as int, self.probe.j as int),
        )
        &&& after.dft.i == self.dft.i
        &&& after.dft.j == self.dft.j
        &&& after.dft.sums.accum@ == FourierSums::grown(
            self.dft.sums.accum@,
            g.ez_of(self.dft.i as int, self.dft.j as int),
            b.dft@,
        )
        &&& after.ports@.len() == self.ports@.len()
        &&& forall|k: int|
            0 <= k < self.ports@.len() ==> (#[trigger] self.ports@[k]).recorded(
                &g,
                b.ports@,
                &after.ports@[k],
            )
    }

    /// One step of the run.
    pub fn advance(&mut self, d: &Drive<T>, b: &Beat<T>)
        requires
            old(self).wf(),
            old(self).done() < u64::MAX,
            old(self).matches(b),
            d.fits(old(self).grid.nx as int, old(self).grid.ny as int),
        ensures
            final(self).wf(),
            final(self).done() == old(self).done() + 1,
            old(self).stepped(d, b, final(self)),
            final(self).grid.same_setup(&old(self).grid),
    {
        self.grid.step();
        let ghost one = self.grid;
        if let Some(s) = &d.source {
            s.inject(&mut self.grid, b.signal);
        }
        let ghost two = self.grid;
        if let Some(m) = &d.injector {
            m.inject(&mut self.grid, b.mode_signal);
        }
        assert(old(self).grid.leapfrogged(&one) && two.wf());
        self.probe.record(&self.grid);
        self.dft.record(&self.grid, &b.dft);
        record_ports(&mut self.ports, &self.grid, &b.ports);
        assert forall|k: int| 0 <= k < self.ports@.len() implies (#[trigger] self.ports@[k]).i
            < self.grid.nx && self.ports@[k].wf(self.grid.ny as int) && self.ports@[k].samples
            == self.done() by {
            assert(old(self).ports@[k].recorded(&self.grid, b.ports@, &self.ports@[k]));
        }
    }
}

/// Every port records the grid's current state.
fn record_ports<T: Scalar>(ports: &mut Vec<PortMonitor<T>>, g: &Grid2d<T>, phases: &Vec<Cx<T>>)
    requires
        g.wf(),
        forall|k: int|
            0 <= k < old(ports)@.len() ==> (#[trigger] old(ports)@[k]).i < g.nx
                && old(ports)@[k].wf(g.ny as int) && old(ports)@[k].samples < u64::MAX
                && old(ports)@[k].accum@.len() == phases@.len(),
    ensures
        final(ports)@.len() == old(ports)@.len(),
        forall|k: int|
            0 <= k < old(ports)@.len() ==> (#[trigger] old(ports)@[k]).recorded(
                g,
                phases@,
                &final(ports)@[k],
            ),
        forall|k: int|
            0 <= k < old(ports)@.len() ==> (#[trigger] final(ports)@[k]).wf(g.ny as int),
{
    let mut k: usize = 0;
    while k < ports.len()
        invariant
            k <= ports@.len(),
            g.wf(),
            ports@.len() == old(ports)@.len(),
            forall|m: int|
                0 <= m < old(ports)@.len() ==> (#[trigger] old(ports)@[m]).i < g.nx
                    && old(ports)@[m].wf(g.ny as int) && old(ports)@[m].samples < u64::MAX
                    && old(ports)@[m].accum@.len() == phases@.len(),
            forall|m: int|
                k <= m < ports@.len() ==> #[trigger] ports@[m] == old(ports)@[m],
            forall|m: int|
                0 <= m < k ==> (#[trigger] old(ports)@[m]).recorded(g, phases@, &ports@[m]),
            forall|m: int| 0 <= m < k ==> (#[trigger] ports@[m]).wf(g.ny as int),
        decreases ports@.len() - k,
    {
        assert(ports@[k as int] == old(ports)@[k as int]);
        let ghost before = ports@;
        ports[k].record(g, phases);
        assert(forall|m: int| 0 <= m < ports@.len() && m != k ==> ports@[m] == before[m]);
        k += 1;
    }
}

/// `s` leads from `from` to `to` in one step per beat.
pub open spec fn trail<T: Scalar>(
    s: Seq<SimRun<T>>,
    from: SimRun<T>,
    to: SimRun<T>,
    d: &Drive<T>,
    beats: Seq<Beat<T>>,
) -> bool {
    &&& s.len() == beats.len() + 1
    &&& s[0] == from
    &&& s[beats.len() as int] == to
    &&& forall|k: int|
        #![trigger beats[k]]
        0 <= k < beats.len() ==> s[k].stepped(d, &beats[k], &s[k + 1])
}

/// Takes one step per beat. About every hundredth of the way, and at the end,
/// `listener` is told the steps taken and what the probe saw last.
pub fn simulate<T: Scalar, L: Listener<Tick<T>>>(
    run: &mut SimRun<T>,
    d: &Drive<T>,
    beats: &Vec<Beat<T>>,
    part: Part,
    listener: &mut L,
)
    requires
        old(run).wf(),
        old(run).done() + beats@.len() <= u64::MAX,
        d.fits(old(run).grid.nx as int, old(run).grid.ny as int),
        forall|k: int| 0 <= k < beats@.len() ==> old(run).matches(#[trigger] &beats@[k]),
    ensures
        final(run).wf(),
        final(run).done() == old(run).done() + beats@.len(),
        final(run).grid.same_setup(&old(run).grid),
        heard(
            *old(listener),
            ticks(part, final(run).probe.trace@.skip(old(run).done() as int)),
            *final(listener),
        ),
        exists|s: Seq<SimRun<T>>| trail(s, *old(run), *final(run), d, beats@),
{
    let ghost mut s: Seq<SimRun<T>> = seq![*run];
    let ghost first = run.done() as int;
    let ghost n = beats@.len() as int;
    let mut k: usize = 0;
    let mut stop: usize = if beats.len() > 0 {
        next_stop(0, beats.len())
    } else {
        0
    };
    proof {
        lemma_heard_nothing::<Tick<T>, L>(*listener);
    }
    while k < beats.len()
        invariant
            k <= beats@.len(),
            n == beats@.len(),
            first == old(run).done(),
            k < n ==> k < stop <= n && report_due(stop as int, n),
            forall|m: int| k < m < stop ==> !#[trigger] report_due(m, n),
            heard(
                *old(listener),
                ticks_to(part, run.probe.trace@.skip(first), n, k as int),
                *listener,
            ),
            run.wf(),
            run.done() == old(run).done() + k,
            old(run).done() + beats@.len() <= u64::MAX,
            run.grid.same_setup(&old(run).grid),
            d.fits(run.grid.nx as int, run.grid.ny as int),
            forall|m: int| 0 <= m < beats@.len() ==> old(run).matches(#[trigger] &beats@[m]),
            run.ports@.len() == old(run).ports@.len(),
            run.dft.sums.accum@.len() == old(run).dft.sums.accum@.len(),
            forall|m: int|
                0 <= m < run.ports@.len() ==> (#[trigger] run.ports@[m]).accum@.len()
                    == old(run).ports@[m].accum@.len(),
            s.len() == k + 1,
            s[0] == *old(run),
            s[k as int] == *run,
            forall|m: int|
                #![trigger beats@[m]]
                0 <= m < k ==> s[m].stepped(d, &beats@[m], &s[m + 1]),
        decreases beats@.len() - k,
    {
        let ghost before = *run;
        assert(old(run).matches(&beats@[k as int]));
        run.advance(d, &beats[k]);
        proof {
            s = s.push(*run);
            assert(before.stepped(d, &beats@[k as int], run));
            assert forall|m: int| 0 <= m < run.ports@.len() implies (
            #[trigger] run.ports@[m]).accum@.len() == old(run).ports@[m].accum@.len() by {
                assert(before.ports@[m].recorded(
                    &run.grid,
                    beats@[k as int].ports@,
                    &run.ports@[m],
                ));
            }
        }
        k += 1;
        proof {
            lemma_ticks_alike(
                part,
                before.probe.trace@.skip(first),
                run.probe.trace@.skip(first),
                n,
                k - 1,
            );
        }
        if k == stop {
            let seen = run.probe.last();
            let ghost l = *listener;
            listener.hear(Tick { part, done: k, seen });
            proof {
                let to = ticks_to(part, run.probe.trace@.skip(first), n, k - 1);
                assert(seen == run.probe.trace@.skip(first)[k - 1]);
                lemma_heard_more(*old(listener), to, l, Tick { part, done: k, seen }, *listener);
            }
            if k < beats.len() {
                stop = next_stop(k, beats.len());
            }
        }
    }
    assert(trail(s, *old(run), *run, d, beats@));
}

/// Steps between two progress reports: a hundredth of the run, at least one.
pub open spec fn tick_of(steps: int) -> int {
    if steps >= 100 {
        steps / 100
    } else {
        1
    }
}

/// Whether a report is due once `n` steps of `steps` are done.
pub open spec fn report_due(n: int, steps: int) -> bool {
    n % tick_of(steps) == 0 || n == steps
}

/// The next number of steps after which a report is due.
pub fn next_stop(done: usize, steps: usize) -> (r: usize)
    requires
        done < steps,
    ensures
        done < r <= steps,
        report_due(r as int, steps as int),
        forall|n: int| done < n < r ==> !#[trigger] report_due(n, steps as int),
{
    let tick: usize = if steps >= 100 {
        steps / 100
    } else {
        1
    };
    let past: usize = done % tick;
    let left: usize = tick - past;
    proof {
        vstd::arithmetic::div_mod::lemma_fundamental_div_mod(done as int, tick as int);
        let q = done as int / tick as int;
        assert(tick * q == q * tick) by (nonlinear_arith);
        assert forall|n: int| done < n < done + left && n < steps implies !#[trigger] report_due(
            n,
            steps as int,
        ) by {
            vstd::arithmetic::div_mod::lemma_fundamental_div_mod_converse(
                n,
                tick as int,
                q,
                n - tick * q,
            );
        }
        assert(tick * q + tick == tick * (q + 1)) by (nonlinear_arith);
        vstd::arithmetic::div_mod::lemma_fundamental_div_mod_converse(
            done + left,
            tick as int,
            q + 1,
            0,
        );
    }
    if left <= steps - done {
        done + left
    } else {
        steps
    }
}

/// Stride that brings `n` points down to at most [`MAX_TRACE_POINTS`].
pub open spec fn stride_of(n: int) -> int {
    if n <= 0 {
        1
    } else {
        (n - 1) / (MAX_TRACE_POINTS as int) + 1
    }
}

/// `x` is the sample that stands at point `k` of a thinned trace.
pub open spec fn taken<T>(trace: Seq<T>, stride: int, k: int, x: T) -> bool {
    k * stride < trace.len() && x == trace[k * stride]
}

/// A trace thinned for the report: the stride, and every stride-th sample.
pub fn thinned<T: Scalar>(trace: &Vec<T>) -> (r: (usize, Vec<T>))
    ensures
        r.0 == stride_of(trace@.len() as int),
        r.1@.len() * r.0 >= trace@.len(),
        forall|k: int|
            0 <= k < r.1@.len() ==> taken(trace@, r.0 as int, k, #[trigger] r.1@[k]),
{
    let n: usize = trace.len();
    let stride: usize = if n == 0 {
        1
    } else {
        (n - 1) / MAX_TRACE_POINTS + 1
    };
    let mut out: Vec<T> = Vec::new();
    let mut at: usize = 0;
    let ghost mut m: int = 0;
    assert(0 * stride == 0) by (nonlinear_arith);
    while at < n
        invariant
            n == trace@.len(),
            stride >= 1,
            m == out@.len(),
            at == m * stride || (at == n && m * stride >= n),
            forall|k: int|
                0 <= k < out@.len() ==> taken(trace@, stride as int, k, #[trigger] out@[k]),
        decreases n - at,
    {
        out.push(trace[at]);
        proof {
            assert(m * stride + stride == (m + 1) * stride) by (nonlinear_arith);
            assert(taken(trace@, stride as int, m, out@[m]));
            m = m + 1;
        }
        if n - at <= stride {
            at = n;
        } else {
            at = at + stride;
        }
    }
    (stride, out)
}

/// A thinned trace never has more than [`MAX_TRACE_POINTS`] points.
pub proof fn thinned_is_short(n: int, stride: int, points: int)
    requires
        0 <= n,
        0 <= points,
        stride == stride_of(n),
        points > 0 ==> (points - 1) * stride < n,
    ensures
        points <= MAX_TRACE_POINTS,
{
    if points > MAX_TRACE_POINTS {
        let m = MAX_TRACE_POINTS as int;
        assert(m * stride <= (points - 1) * stride) by (nonlinear_arith)
            requires
                m <= points - 1,
                stride >= 1,
        ;
        vstd::arithmetic::div_mod::lemma_fundamental_div_mod(n - 1, m);
        assert(m * stride >= n) by (nonlinear_arith)
            requires
                stride == (n - 1) / m + 1,
                n - 1 == m * ((n - 1) / m) + (n - 1) % m,
                0 <= (n - 1) % m < m,
        ;
    }
}

/// Events that a 2D job counts: three component updates per cell, step and
/// run, and one field read per monitor and step.
#[derive(Debug, Clone, Copy, PartialEq, Eq, Structural)]
pub struct FieldLedger {
    pub macs: u64,
    pub adc_samples: u64,
}

/// Reads that the ports took, all together.
pub open spec fn port_reads<T>(ports: Seq<PortMonitor<T>>) -> int
    decreases ports.len(),
{
    if ports.len() == 0 {
        0
    } else {
        port_reads(ports.drop_last()) + ports.last().samples
    }
}

/// Reads of every monitor of a run.
pub open spec fn reads<T>(run: &SimRun<T>) -> int {
    run.probe.trace@.len() + run.dft.sums.samples + port_reads(run.ports@)
}

/// Component updates of a run over a grid.
pub open spec fn cell_updates(nx: int, ny: int, steps: int) -> int {
    3 * (nx * ny) * steps
}

/// Ledger of a plain run.
pub fn run_ledger<T: Scalar>(nx: usize, ny: usize, steps: usize, run: &SimRun<T>) -> (r: FieldLedger)
    requires
        nx * ny <= usize::MAX,
        3 * (nx * ny) * steps <= u64::MAX,
        run.ports@.len() == 0,
        reads(run) <= u64::MAX,
    ensures
        r.macs == 3 * (nx * ny) * steps,
        r.macs == cell_updates(nx as int, ny as int, steps as int),
        r.adc_samples == reads(run),
{
    FieldLedger {
        macs: updates(nx, ny, steps),
        adc_samples: run.probe.trace.len() as u64 + run.dft.samples(),
    }
}

fn updates(nx: usize, ny: usize, steps: usize) -> (r: u64)
    requires
        nx * ny <= usize::MAX,
        3 * (nx * ny) * steps <= u64::MAX,
    ensures
        r == 3 * (nx * ny) * steps,
{
    if steps == 0 {
        assert(3 * (nx * ny) * 0 == 0) by (nonlinear_arith);
        return 0;
    }
    assert(0 <= nx * ny) by (nonlinear_arith)
        requires
            0 <= nx,
            0 <= ny,
    ;
    assert(3 * (nx * ny) <= 3 * (nx * ny) * steps) by (nonlinear_arith)
        requires
            0 <= nx * ny,
            1 <= steps,
    ;
    3 * (nx * ny) as u64 * steps as u64
}

fn count_port_reads<T: Scalar>(ports: &Vec<PortMonitor<T>>) -> (r: u64)
    requires
        port_reads(ports@) <= u64::MAX,
    ensures
        r == port_reads(ports@),
{
    let mut acc: u64 = 0;
    let mut k: usize = 0;
    assert(ports@.take(0) =~= Seq::empty());
    while k < ports.len()
        invariant
            k <= ports@.len(),
            acc == port_reads(ports@.take(k as int)),
            port_reads(ports@) <= u64::MAX,
        decreases ports@.len() - k,
    {
        proof {
            assert(ports@.take(k + 1).drop_last() =~= ports@.take(k as int));
            lemma_reads_grow(ports@, k + 1);
        }
        acc = acc + ports[k].samples();
        k += 1;
    }
    assert(ports@.take(ports@.len() as int) =~= ports@);
    acc
}

proof fn lemma_reads_grow<T>(ports: Seq<PortMonitor<T>>, n: int)
    requires
        0 <= n <= ports.len(),
    ensures
        0 <= port_reads(ports.take(n)) <= port_reads(ports),
    decreases ports.len(),
{
    if n < ports.len() {
        lemma_reads_grow(ports.drop_last(), n);
        assert(ports.drop_last().take(n) =~= ports.take(n));
    } else {
        assert(ports.take(n) =~= ports);
        if n > 0 {
            lemma_reads_grow(ports.drop_last(), n - 1);
        }
    }
}

/// Ledger of an extraction: both runs.
pub fn extraction_ledger<T: Scalar>(
    nx: usize,
    ny: usize,
    steps: usize,
    reference: &SimRun<T>,
    device: &SimRun<T>,
) -> (r: FieldLedger)
    requires
        nx * ny <= usize::MAX,
        2 * (3 * (nx * ny) * steps) <= u64::MAX,
        reads(reference) + reads(device) <= u64::MAX,
    ensures
        r.macs == 2 * (3 * (nx * ny) * steps),
        r.macs == cell_updates(nx as int, ny as int, steps as int) + cell_updates(
            nx as int,
            ny as int,
            steps as int,
        ),
        r.adc_samples == reads(reference) + reads(device),
{
    proof {
        lemma_reads_grow(reference.ports@, 0);
        lemma_reads_grow(device.ports@, 0);
        assert(reference.ports@.take(0) =~= Seq::empty());
        assert(device.ports@.take(0) =~= Seq::empty());
        assert(0 <= 3 * (nx * ny) * steps) by (nonlinear_arith)
            requires
                0 <= nx,
                0 <= ny,
                0 <= steps,
        ;
    }
    let probes: u64 = reference.probe.trace.len() as u64 + device.probe.trace.len() as u64;
    let dfts: u64 = reference.dft.samples() + device.dft.samples();
    let ports: u64 = count_port_reads(&reference.ports) + count_port_reads(&device.ports);
    FieldLedger { macs: 2 * updates(nx, ny, steps), adc_samples: probes + dfts + ports }
}

/// Layout and monitors of a 2D run.
pub struct FieldJob<T> {
    pub nx: usize,
    pub ny: usize,
    pub steps: usize,
    pub npml: usize,
    pub eps: EpsSpec<T>,
    /// Probe cell; the grid center where none is named.
    pub probe: Option<(usize, usize)>,
    pub n_frequencies: usize,
}

impl<T: Scalar> FieldJob<T> {
    /// Cell of the probe.
    pub open spec fn watched(&self) -> (int, int) {
        match self.probe {
            Some(p) => (p.0 as int, p.1 as int),
            None => (self.nx as int / 2, self.ny as int / 2),
        }
    }

    /// The grid leaves an interior and holds the probe.
    pub open spec fn sound(&self) -> bool {
        &&& (GridSpec { nx: self.nx, ny: self.ny, npml: self.npml }).valid()
        &&& self.watched().0 < self.nx
        &&& self.watched().1 < self.ny
    }

    /// The permittivity of a layout is positive on every cell of the grid.
    pub open spec fn dense(&self, eps: EpsSpec<T>) -> bool {
        forall|i: int, j: int|
            0 <= i < self.nx && 0 <= j < self.ny ==> T::zero_value().less_than(
                #[trigger] eps.eps_at(i, j),
            )
    }

    /// Whether the permittivity of a layout is positive on every cell.
    pub fn is_dense(&self, eps: &EpsSpec<T>) -> (r: bool)
        requires
            self.sound(),
        ensures
            r == self.dense(*eps),
    {
        let cells = eps.build(self.nx, self.ny);
        let ghost (nx, ny) = (self.nx as int, self.ny as int);
        let mut k: usize = 0;
        while k < cells.len()
            invariant
                k <= cells@.len(),
                cells@.len() == nx * ny,
                nx == self.nx && ny == self.ny && ny >= 1,
                forall|i: int, j: int|
                    0 <= i < nx && 0 <= j < ny ==> cells@[#[trigger] cell(ny, i, j)] == eps.eps_at(
                        i,
                        j,
                    ),
                forall|q: int| 0 <= q < k ==> T::zero_value().less_than(#[trigger] cells@[q]),
            decreases cells@.len() - k,
        {
            if !T::zero().below(cells[k]) {
                proof {
                    lemma_place(nx, ny, k as int);
                    let (i, j) = (k as int / ny, k as int % ny);
                    assert(cells@[cell(ny, i, j)] == eps.eps_at(i, j));
                }
                return false;
            }
            k += 1;
        }
        proof {
            assert forall|i: int, j: int| 0 <= i < nx && 0 <= j < ny implies T::zero_value().less_than(
                #[trigger] eps.eps_at(i, j),
            ) by {
                lemma_cell(nx, ny, i, j);
                assert(cells@[cell(ny, i, j)] == eps.eps_at(i, j));
            }
        }
        true
    }

    /// Ports that have seen nothing yet, on columns of the grid.
    pub open spec fn hosts(&self, ports: Seq<PortMonitor<T>>) -> bool {
        forall|k: int|
            0 <= k < ports.len() ==> (#[trigger] ports[k]).i < self.nx && ports[k].wf(
                self.ny as int,
            ) && ports[k].samples == 0
    }
}

impl<T: Scalar> SimRun<T> {
    /// A run at rest over the layout `eps`, with the monitors of the job.
    pub open spec fn starts(
        &self,
        job: &FieldJob<T>,
        eps: EpsSpec<T>,
        dt: T,
        cpml: (CpmlTables<T>, CpmlTables<T>),
        ports: Seq<PortMonitor<T>>,
    ) -> bool {
        &&& self.grid.nx == job.nx
        &&& self.grid.ny == job.ny
        &&& self.grid.npml == job.npml
        &&& self.grid.dt == dt
        &&& self.grid.cpml_x == cpml.0
        &&& self.grid.cpml_y == cpml.1
        &&& self.grid.ez@ == quiet::<T>(job.nx * job.ny)
        &&& self.grid.hx@ == quiet::<T>(job.nx * (job.ny - 1))
        &&& self.grid.hy@ == quiet::<T>((job.nx - 1) * job.ny)
        &&& self.grid.psi_ez_x@ == quiet::<T>(job.nx * job.ny)
        &&& self.grid.psi_ez_y@ == quiet::<T>(job.nx * job.ny)
        &&& self.grid.psi_hx_y@ == quiet::<T>(job.nx * (job.ny - 1))
        &&& self.grid.psi_hy_x@ == quiet::<T>((job.nx - 1) * job.ny)
        &&& forall|i: int, j: int|
            0 <= i < job.nx && 0 <= j < job.ny ==> self.grid.eps_r@[#[trigger] cell(
                job.ny as int,
                i,
                j,
            )] == eps.eps_at(i, j)
        &&& self.grid.ce@ == coefficients(dt, self.grid.eps_r@)
        &&& (self.probe.i as int, self.probe.j as int) == job.watched()
        &&& (self.dft.i as int, self.dft.j as int) == job.watched()
        &&& self.dft.sums.accum@ == Seq::new(job.n_frequencies as nat, |f: int| Cx::<T>::nought())
        &&& self.ports@ == ports
    }

    /// Sets a run up. `eps` is the layout, which a reference run replaces.
    pub fn start(
        job: &FieldJob<T>,
        eps: &EpsSpec<T>,
        dt: T,
        cpml: (CpmlTables<T>, CpmlTables<T>),
        ports: Vec<PortMonitor<T>>,
    ) -> (r: SimRun<T>)
        requires
            job.sound(),
            job.hosts(ports@),
            cpml.0.e.covers(job.nx as int) && cpml.0.h.covers(job.nx - 1),
            cpml.1.e.covers(job.ny as int) && cpml.1.h.covers(job.ny - 1),
        ensures
            r.wf(),
            r.done() == 0,
            r.starts(job, *eps, dt, cpml, ports@),
    {
        let cells = eps.build(job.nx, job.ny);
        let ce = coefficients_of(dt, &cells);
        let spec = GridSpec { nx: job.nx, ny: job.ny, npml: job.npml };
        let grid = Grid2d::new(&spec, dt, cells, ce, cpml);
        let (i, j): (usize, usize) = match job.probe {
            Some(p) => p,
            None => (job.nx / 2, job.ny / 2),
        };
        SimRun {
            grid,
            probe: Probe::new(i, j),
            dft: DftMonitor::new(i, j, job.n_frequencies),
            ports,
        }
    }
}

/// `r` is where a job's run over the layout `eps` ends: from rest, one step
/// per beat.
pub open spec fn ran<T: Scalar>(
    job: &FieldJob<T>,
    eps: EpsSpec<T>,
    dt: T,
    cpml: (CpmlTables<T>, CpmlTables<T>),
    ports: Seq<PortMonitor<T>>,
    drive: &Drive<T>,
    beats: Seq<Beat<T>>,
    r: SimRun<T>,
) -> bool {
    &&& r.wf()
    &&& r.done() == job.steps
    &&& r.ports@.len() == ports.len()
    &&& exists|s: Seq<SimRun<T>>|
        s.len() > 0 && s[0].wf() && s[0].done() == 0 && s[0].starts(
            job,
            eps,
            dt,
            cpml,
            ports,
        ) && #[trigger] trail(
            s,
            s[0],
            r,
            drive,
            beats,
        )
}

/// One beat per step, with a phasor for every frequency that a monitor of the
/// job or one of `ports` sums.
pub open spec fn keeps_time<T: Scalar>(
    job: &FieldJob<T>,
    ports: Seq<PortMonitor<T>>,
    beats: Seq<Beat<T>>,
) -> bool {
    &&& beats.len() == job.steps
    &&& beats.len() <= u64::MAX
    &&& forall|k: int|
        0 <= k < beats.len() ==> (#[trigger] beats[k]).dft@.len() == job.n_frequencies
    &&& forall|k: int, p: int|
        #![trigger beats[k], ports[p]]
        0 <= k < beats.len() && 0 <= p < ports.len() ==> beats[k].ports@.len()
            == ports[p].accum@.len()
}

/// The tables have one entry per point of the grid, and per half point.
pub open spec fn tabulated<T: Scalar>(
    job: &FieldJob<T>,
    cpml: (CpmlTables<T>, CpmlTables<T>),
) -> bool {
    &&& cpml.0.e.covers(job.nx as int) && cpml.0.h.covers(job.nx - 1)
    &&& cpml.1.e.covers(job.ny as int) && cpml.1.h.covers(job.ny - 1)
}

/// Executor of 2D field jobs.
pub struct FieldExecutor;

impl FieldExecutor {
    /// One run of a job over the layout `eps`: sets it up and takes one step
    /// per beat. A plain job runs once over its own layout; an extraction runs
    /// over the reference layout and over its own.
    pub fn execute<T: Scalar, L: Listener<Tick<T>>>(
        &self,
        job: &FieldJob<T>,
        eps: &EpsSpec<T>,
        dt: T,
        cpml: (CpmlTables<T>, CpmlTables<T>),
        ports: Vec<PortMonitor<T>>,
        drive: &Drive<T>,
        beats: &Vec<Beat<T>>,
        part: Part,
        listener: &mut L,
    ) -> (r: SimRun<T>)
        requires
            job.sound(),
            job.hosts(ports@),
            tabulated(job, cpml),
            drive.fits(job.nx as int, job.ny as int),
            keeps_time(job, ports@, beats@),
        ensures
            ran(job, *eps, dt, cpml, ports@, drive, beats@, r),
            heard(*old(listener), ticks(part, r.probe.trace@), *final(listener)),
            forall|k: int|
                0 <= k < ports@.len() ==> (#[trigger] r.ports@[k]).accum@.len()
                    == ports@[k].accum@.len(),
    {
        let ghost given = ports@;
        let mut run = SimRun::start(job, eps, dt, cpml, ports);
        let ghost start = run;
        proof {
            assert forall|k: int| 0 <= k < beats@.len() implies run.matches(
                #[trigger] &beats@[k],
            ) by {
                assert(beats@[k].dft@.len() == job.n_frequencies);
                assert forall|p: int| 0 <= p < run.ports@.len() implies (
                #[trigger] run.ports@[p]).accum@.len() == beats@[k].ports@.len() by {
                    assert(given[p].accum@.len() == beats@[k].ports@.len());
                }
            }
        }
        simulate(&mut run, drive, beats, part, listener);
        proof {
            assert(run.probe.trace@.skip(0) =~= run.probe.trace@);
            let s = choose|s: Seq<SimRun<T>>| trail(s, start, run, drive, beats@);
            lemma_ports_stay(s, drive, beats@, beats@.len() as int);
            assert(s[0].wf() && s[0].starts(job, *eps, dt, cpml, given) && trail(
                s,
                s[0],
                run,
                drive,
                beats@,
            ));
        }
        run
    }
}

/// A run keeps its ports, and each of them its frequencies.
proof fn lemma_ports_stay<T: Scalar>(
    s: Seq<SimRun<T>>,
    d: &Drive<T>,
    beats: Seq<Beat<T>>,
    k: int,
)
    requires
        s.len() == beats.len() + 1,
        0 <= k <= beats.len(),
        forall|m: int|
            #![trigger beats[m]]
            0 <= m < beats.len() ==> s[m].stepped(d, &beats[m], &s[m + 1]),
    ensures
        s[k].ports@.len() == s[0].ports@.len(),
        forall|p: int|
            0 <= p < s[0].ports@.len() ==> (#[trigger] s[k].ports@[p]).accum@.len()
                == s[0].ports@[p].accum@.len(),
    decreases k,
{
    if k > 0 {
        lemma_ports_stay(s, d, beats, k - 1);
        let b = beats[k - 1];
        assert(s[k - 1].stepped(d, &b, &s[k]));
        assert forall|p: int| 0 <= p < s[0].ports@.len() implies (
        #[trigger] s[k].ports@[p]).accum@.len() == s[0].ports@[p].accum@.len() by {
            assert(s[k - 1].ports@[p].recorded(&s[k].grid, b.ports@, &s[k].ports@[p]));
        }
    }
}

} // verus!
