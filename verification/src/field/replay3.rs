//! Reproducible 3D runs.

use crate::field::grid3::{coord, e_dims, h_dims, Axis, CpmlTables, Grid3d};
use crate::field::lattice::{at_place, lemma_at_place, lemma_flat, volume};
use crate::field::medium3::{CompDisp, DispMedia};
use crate::field::run3::{dispersive, ran3, trail3, Beat3, Field3Job, Run3};
use crate::field::source::Dipole3;
use crate::scalar::Scalar;
use vstd::prelude::*;

verus! {

/// Two grids hold the same in everything.
pub open spec fn same_grid3<T: Scalar>(a: &Grid3d<T>, b: &Grid3d<T>) -> bool {
    a.wf() && b.wf() && a.same_setup(b) && a.same_e(b) && a.same_h(b)
}

/// The cells of one component and their states are the same.
pub open spec fn same_disp<T: Scalar>(a: &CompDisp<T>, b: &CompDisp<T>) -> bool {
    &&& a.drude@ == b.drude@
    &&& a.j@ == b.j@
    &&& a.lorentz@ == b.lorentz@
    &&& a.p@ == b.p@
    &&& a.p_prev@ == b.p_prev@
    &&& a.dp@ == b.dp@
}

/// Two media are in the same state.
pub open spec fn same_media<T: Scalar>(a: &DispMedia<T>, b: &DispMedia<T>) -> bool {
    same_disp(&a.x, &b.x) && same_disp(&a.y, &b.y) && same_disp(&a.z, &b.z)
}

/// Two runs hold the same grid and media, and their monitors have seen the
/// same.
pub open spec fn same_run3<T: Scalar>(a: &Run3<T>, b: &Run3<T>) -> bool {
    &&& same_grid3(&a.grid, &b.grid)
    &&& same_media(&a.media, &b.media)
    &&& a.probes@.len() == b.probes@.len()
    &&& forall|k: int| 0 <= k < a.probes@.len() ==> #[trigger] same_probe(a, b, k)
    &&& a.dfts@.len() == b.dfts@.len()
    &&& forall|k: int| 0 <= k < a.dfts@.len() ==> #[trigger] same_sums(a, b, k)
}

pub open spec fn same_probe<T: Scalar>(a: &Run3<T>, b: &Run3<T>, k: int) -> bool {
    a.probes@[k].spec == b.probes@[k].spec && a.probes@[k].trace@ == b.probes@[k].trace@
}

pub open spec fn same_sums<T: Scalar>(a: &Run3<T>, b: &Run3<T>, k: int) -> bool {
    a.dfts@[k].spec == b.dfts@[k].spec && a.dfts@[k].sums.accum@ == b.dfts@[k].sums.accum@
}

proof fn lemma_h_alike<T: Scalar>(a: &Grid3d<T>, c: &Grid3d<T>, x: &Grid3d<T>, y: &Grid3d<T>)
    requires
        same_grid3(a, c),
        x.wf(),
        y.wf(),
        x.same_setup(a),
        y.same_setup(c),
        a.h_stepped(x),
        c.h_stepped(y),
    ensures
        x.same_h(y),
{
    let n = a.points();
    assert forall|o: Axis|
        #![trigger x.h(o)]
        #![trigger x.psi_h_a(o)]
        #![trigger x.psi_h_b(o)]
        {
            &&& x.h(o) == y.h(o)
            &&& x.psi_h_a(o) == y.psi_h_a(o)
            &&& x.psi_h_b(o) == y.psi_h_b(o)
        } by {
        let d = h_dims(n, o);
        assert(x.h(o).len() == volume(d) && y.h(o).len() == volume(d));
        assert forall|at: int| 0 <= at < volume(d) implies x.h(o)[at] == y.h(o)[at]
            && x.psi_h_a(o)[at] == y.psi_h_a(o)[at] && x.psi_h_b(o)[at] == y.psi_h_b(o)[at] by {
            lemma_at_place(d, at);
            lemma_h_next_alike(a, c, o, at_place(d, at));
        }
        assert(x.h(o) =~= y.h(o));
        assert(x.psi_h_a(o) =~= y.psi_h_a(o));
        assert(x.psi_h_b(o) =~= y.psi_h_b(o));
    }
}

proof fn lemma_h_next_alike<T: Scalar>(a: &Grid3d<T>, c: &Grid3d<T>, o: Axis, p: (int, int, int))
    requires
        same_grid3(a, c),
    ensures
        a.h_next(o, p) == c.h_next(o, p),
{
    let (u, v) = (o.after(), o.after().after());
    assert(a.e(u) == c.e(u) && a.e(v) == c.e(v));
    assert(a.h(o) == c.h(o) && a.psi_h_a(o) == c.psi_h_a(o) && a.psi_h_b(o) == c.psi_h_b(o));
    assert(a.cpml(u) == c.cpml(u) && a.cpml(v) == c.cpml(v));
    assert(a.e_diff(v, u, p) == c.e_diff(v, u, p));
    assert(a.e_diff(u, v, p) == c.e_diff(u, v, p));
}

proof fn lemma_e_next_alike<T: Scalar>(a: &Grid3d<T>, c: &Grid3d<T>, o: Axis, p: (int, int, int))
    requires
        same_grid3(a, c),
    ensures
        a.e_next(o, p) == c.e_next(o, p),
{
    let (u, v) = (o.after(), o.after().after());
    assert(a.h(u) == c.h(u) && a.h(v) == c.h(v));
    assert(a.e(o) == c.e(o) && a.psi_e_a(o) == c.psi_e_a(o) && a.psi_e_b(o) == c.psi_e_b(o));
    assert(a.ce(o) == c.ce(o));
    assert(a.cpml(u) == c.cpml(u) && a.cpml(v) == c.cpml(v));
    assert(a.h_diff(v, u, p) == c.h_diff(v, u, p));
    assert(a.h_diff(u, v, p) == c.h_diff(u, v, p));
}

proof fn lemma_e_alike<T: Scalar>(a: &Grid3d<T>, c: &Grid3d<T>, x: &Grid3d<T>, y: &Grid3d<T>)
    requires
        same_grid3(a, c),
        x.wf(),
        y.wf(),
        x.same_setup(a),
        y.same_setup(c),
        a.e_stepped(x),
        c.e_stepped(y),
    ensures
        x.same_e(y),
{
    let n = a.points();
    assert forall|o: Axis|
        #![trigger x.e(o)]
        #![trigger x.psi_e_a(o)]
        #![trigger x.psi_e_b(o)]
        {
            &&& x.e(o) == y.e(o)
            &&& x.psi_e_a(o) == y.psi_e_a(o)
            &&& x.psi_e_b(o) == y.psi_e_b(o)
        } by {
        let d = e_dims(n, o);
        assert(x.e(o).len() == volume(d) && y.e(o).len() == volume(d));
        assert forall|at: int| 0 <= at < volume(d) implies x.e(o)[at] == y.e(o)[at]
            && x.psi_e_a(o)[at] == y.psi_e_a(o)[at] && x.psi_e_b(o)[at] == y.psi_e_b(o)[at] by {
            lemma_at_place(d, at);
            lemma_e_next_alike(a, c, o, at_place(d, at));
        }
        assert(x.e(o) =~= y.e(o));
        assert(x.psi_e_a(o) =~= y.psi_e_a(o));
        assert(x.psi_e_b(o) =~= y.psi_e_b(o));
    }
}

/// Equal setups agree on coefficients, whichever side they are read from.
proof fn lemma_setup_chain<T: Scalar>(a: &Grid3d<T>, c: &Grid3d<T>, x: &Grid3d<T>, y: &Grid3d<T>)
    requires
        a.same_setup(c),
        x.same_setup(a),
        y.same_setup(c),
    ensures
        x.same_setup(y),
{
    assert forall|o: Axis| #![trigger x.ce(o)] x.ce(o) == y.ce(o) by {
        assert(a.ce(o) == c.ce(o) && y.ce(o) == c.ce(o));
    }
    assert forall|o: Axis| #![trigger x.cpml(o)] x.cpml(o) == y.cpml(o) by {
        assert(a.cpml(o) == c.cpml(o) && y.cpml(o) == c.cpml(o));
    }
}

proof fn lemma_e_chain<T: Scalar>(a: &Grid3d<T>, c: &Grid3d<T>, x: &Grid3d<T>, y: &Grid3d<T>)
    requires
        a.same_e(c),
        x.same_e(a),
        y.same_e(c),
    ensures
        x.same_e(y),
{
    assert forall|o: Axis|
        #![trigger x.e(o)]
        #![trigger x.psi_e_a(o)]
        #![trigger x.psi_e_b(o)]
        {
            &&& x.e(o) == y.e(o)
            &&& x.psi_e_a(o) == y.psi_e_a(o)
            &&& x.psi_e_b(o) == y.psi_e_b(o)
        } by {
        assert(x.e(o) == a.e(o) && a.e(o) == c.e(o) && y.e(o) == c.e(o));
    }
}

proof fn lemma_h_chain<T: Scalar>(a: &Grid3d<T>, c: &Grid3d<T>, x: &Grid3d<T>, y: &Grid3d<T>)
    requires
        a.same_h(c),
        x.same_h(a),
        y.same_h(c),
    ensures
        x.same_h(y),
{
    assert forall|o: Axis|
        #![trigger x.h(o)]
        #![trigger x.psi_h_a(o)]
        #![trigger x.psi_h_b(o)]
        {
            &&& x.h(o) == y.h(o)
            &&& x.psi_h_a(o) == y.psi_h_a(o)
            &&& x.psi_h_b(o) == y.psi_h_b(o)
        } by {
        assert(x.h(o) == a.h(o) && a.h(o) == c.h(o) && y.h(o) == c.h(o));
    }
}

proof fn lemma_saw_alike<T: Scalar>(
    e: Seq<T>,
    a: &CompDisp<T>,
    c: &CompDisp<T>,
    x: &CompDisp<T>,
    y: &CompDisp<T>,
)
    requires
        same_disp(a, c),
        a.saw(e, x),
        c.saw(e, y),
    ensures
        same_disp(x, y),
{
    assert forall|k: int| a.j_next(e, k) == c.j_next(e, k) by {}
    assert forall|k: int| a.p_next(e, k) == c.p_next(e, k) by {}
    assert(x.j@ =~= y.j@);
    assert(x.p@ =~= y.p@);
    assert(x.dp@ =~= y.dp@);
}

proof fn lemma_current_alike<T: Scalar>(x: &CompDisp<T>, y: &CompDisp<T>, e: Seq<T>, n: int)
    requires
        same_disp(x, y),
    ensures
        x.less_current(e, n) == y.less_current(e, n),
        x.less_change(e, n) == y.less_change(e, n),
    decreases n,
{
    if n > 0 {
        lemma_current_alike(x, y, e, n - 1);
    }
}

proof fn lemma_corrected_alike<T: Scalar>(x: &CompDisp<T>, y: &CompDisp<T>, e: Seq<T>)
    requires
        same_disp(x, y),
    ensures
        x.corrected(e) == y.corrected(e),
{
    let n = x.drude@.len() as int;
    lemma_current_alike(x, y, e, n);
    lemma_current_alike(x, y, x.less_current(e, n), x.lorentz@.len() as int);
}

/// The fields and media of one state take one step one way.
proof fn lemma_fields_alike<T: Scalar>(
    source: Dipole3<T>,
    signal: T,
    a: &Run3<T>,
    b: &Run3<T>,
    c: &Run3<T>,
    e: &Run3<T>,
    g: (Grid3d<T>, Grid3d<T>, Grid3d<T>),
    h: (Grid3d<T>, Grid3d<T>, Grid3d<T>),
)
    requires
        same_grid3(&a.grid, &c.grid),
        same_media(&a.media, &c.media),
        source.fits(a.grid.points()),
        a.fields_stepped(source, signal, g.0, g.1, g.2, b),
        c.fields_stepped(source, signal, h.0, h.1, h.2, e),
    ensures
        same_grid3(&b.grid, &e.grid),
        same_media(&b.media, &e.media),
{
    lemma_setup_chain(&a.grid, &c.grid, &g.0, &h.0);
    lemma_e_chain(&a.grid, &c.grid, &g.0, &h.0);
    lemma_h_alike(&a.grid, &c.grid, &g.0, &h.0);
    assert(same_grid3(&g.0, &h.0));
    lemma_setup_chain(&g.0, &h.0, &g.1, &h.1);
    lemma_h_chain(&g.0, &h.0, &g.1, &h.1);
    lemma_e_alike(&g.0, &h.0, &g.1, &h.1);
    assert(same_grid3(&g.1, &h.1));
    if dispersive(&a.media) {
        assert(g.0.e(Axis::X) == h.0.e(Axis::X));
        assert(g.0.e(Axis::Y) == h.0.e(Axis::Y));
        assert(g.0.e(Axis::Z) == h.0.e(Axis::Z));
        lemma_saw_alike(g.0.e(Axis::X), &a.media.x, &c.media.x, &b.media.x, &e.media.x);
        lemma_saw_alike(g.0.e(Axis::Y), &a.media.y, &c.media.y, &b.media.y, &e.media.y);
        lemma_saw_alike(g.0.e(Axis::Z), &a.media.z, &c.media.z, &b.media.z, &e.media.z);
        lemma_setup_chain(&g.1, &h.1, &g.2, &h.2);
        lemma_h_chain(&g.1, &h.1, &g.2, &h.2);
        assert(g.1.e(Axis::X) == h.1.e(Axis::X));
        assert(g.1.e(Axis::Y) == h.1.e(Axis::Y));
        assert(g.1.e(Axis::Z) == h.1.e(Axis::Z));
        lemma_corrected_alike(&b.media.x, &e.media.x, g.1.e(Axis::X));
        lemma_corrected_alike(&b.media.y, &e.media.y, g.1.e(Axis::Y));
        lemma_corrected_alike(&b.media.z, &e.media.z, g.1.e(Axis::Z));
        assert forall|o: Axis|
            #![trigger g.2.e(o)]
            #![trigger g.2.psi_e_a(o)]
            #![trigger g.2.psi_e_b(o)]
            {
                &&& g.2.e(o) == h.2.e(o)
                &&& g.2.psi_e_a(o) == h.2.psi_e_a(o)
                &&& g.2.psi_e_b(o) == h.2.psi_e_b(o)
            } by {
            assert(g.1.psi_e_a(o) == h.1.psi_e_a(o) && g.1.psi_e_b(o) == h.1.psi_e_b(o));
            assert(g.2.psi_e_a(o) == g.1.psi_e_a(o) && h.2.psi_e_a(o) == h.1.psi_e_a(o));
            match o {
                Axis::X => {},
                Axis::Y => {},
                Axis::Z => {},
            }
        }
    }
    assert(same_grid3(&g.2, &h.2));
    lemma_driven_alike(source, signal, &g.2, &h.2, &b.grid, &e.grid);
}

proof fn lemma_driven_alike<T: Scalar>(
    source: Dipole3<T>,
    signal: T,
    a: &Grid3d<T>,
    c: &Grid3d<T>,
    x: &Grid3d<T>,
    y: &Grid3d<T>,
)
    requires
        same_grid3(a, c),
        source.fits(a.points()),
        source.driven(a, signal, x),
        source.driven(c, signal, y),
    ensures
        same_grid3(x, y),
{
    lemma_setup_chain(a, c, x, y);
    lemma_h_chain(a, c, x, y);
    assert forall|o: Axis|
        #![trigger x.e(o)]
        #![trigger x.psi_e_a(o)]
        #![trigger x.psi_e_b(o)]
        {
            &&& x.e(o) == y.e(o)
            &&& x.psi_e_a(o) == y.psi_e_a(o)
            &&& x.psi_e_b(o) == y.psi_e_b(o)
        } by {
        assert(a.e(o) == c.e(o) && a.psi_e_a(o) == c.psi_e_a(o) && a.psi_e_b(o) == c.psi_e_b(o));
        assert(y.psi_e_a(o) == c.psi_e_a(o));
    }
    lemma_driven_wf(source, signal, a, x);
    lemma_driven_wf(source, signal, c, y);
}

proof fn lemma_driven_wf<T: Scalar>(source: Dipole3<T>, signal: T, a: &Grid3d<T>, x: &Grid3d<T>)
    requires
        a.wf(),
        source.fits(a.points()),
        source.driven(a, signal, x),
    ensures
        x.wf(),
{
    assert forall|o: Axis|
        #![trigger x.e(o)]
        #![trigger x.ce(o)]
        #![trigger x.psi_e_a(o)]
        #![trigger x.psi_e_b(o)]
        {
            &&& x.e(o).len() == volume(e_dims(x.points(), o))
            &&& x.ce(o).len() == volume(e_dims(x.points(), o))
            &&& x.psi_e_a(o).len() == volume(e_dims(x.points(), o))
            &&& x.psi_e_b(o).len() == volume(e_dims(x.points(), o))
        } by {
        assert(x.psi_e_a(o) == a.psi_e_a(o));
        assert(a.e(o).len() == volume(e_dims(a.points(), o)));
        assert(x.ce(o) == a.ce(o));
        if o == source.axis {
            lemma_flat(
                e_dims(a.points(), o),
                (source.i as int, source.j as int, source.k as int),
            );
        }
    }
    assert forall|o: Axis|
        #![trigger x.h(o)]
        #![trigger x.psi_h_a(o)]
        #![trigger x.psi_h_b(o)]
        {
            &&& x.h(o).len() == volume(h_dims(x.points(), o))
            &&& x.psi_h_a(o).len() == volume(h_dims(x.points(), o))
            &&& x.psi_h_b(o).len() == volume(h_dims(x.points(), o))
        } by {
        assert(x.h(o) == a.h(o) && a.h(o).len() == volume(h_dims(a.points(), o)));
    }
    assert forall|o: Axis|
        #![trigger x.cpml(o)]
        {
            &&& x.cpml(o).e.covers(coord(x.points(), o))
            &&& x.cpml(o).h.covers(coord(x.points(), o) - 1)
        } by {
        assert(x.cpml(o) == a.cpml(o));
    }
}

proof fn lemma_step_alike<T: Scalar>(
    source: Dipole3<T>,
    beat: &Beat3<T>,
    a: &Run3<T>,
    b: &Run3<T>,
    c: &Run3<T>,
    e: &Run3<T>,
)
    requires
        same_run3(a, c),
        source.fits(a.grid.points()),
        a.stepped(source, beat, b),
        c.stepped(source, beat, e),
    ensures
        same_run3(b, e),
        b.grid.points() == a.grid.points(),
{
    let (g1, g2, g3) = choose|g1: Grid3d<T>, g2: Grid3d<T>, g3: Grid3d<T>|
        #[trigger] a.fields_stepped(source, beat.signal, g1, g2, g3, b);
    let (h1, h2, h3) = choose|g1: Grid3d<T>, g2: Grid3d<T>, g3: Grid3d<T>|
        #[trigger] c.fields_stepped(source, beat.signal, g1, g2, g3, e);
    lemma_fields_alike(source, beat.signal, a, b, c, e, (g1, g2, g3), (h1, h2, h3));
    assert forall|k: int| 0 <= k < b.probes@.len() implies #[trigger] same_probe(b, e, k) by {
        assert(same_probe(a, c, k));
        let p = a.probes@[k].spec;
        assert(b.probes@[k].spec == p && e.probes@[k].spec == p);
        assert(b.grid.e(p.component.axis()) == e.grid.e(p.component.axis()));
        assert(p.sees(&b.grid) == p.sees(&e.grid));
    }
    assert forall|k: int| 0 <= k < b.dfts@.len() implies #[trigger] same_sums(b, e, k) by {
        assert(same_sums(a, c, k));
        let p = a.dfts@[k].spec;
        assert(b.dfts@[k].spec == p && e.dfts@[k].spec == p);
        assert(b.grid.e(p.component.axis()) == e.grid.e(p.component.axis()));
        assert(p.sees(&b.grid) == p.sees(&e.grid));
    }
}

proof fn lemma_way_alike<T: Scalar>(
    s: Seq<Run3<T>>,
    t: Seq<Run3<T>>,
    source: Dipole3<T>,
    beats: Seq<Beat3<T>>,
    k: int,
)
    requires
        same_run3(&s[0], &t[0]),
        source.fits(s[0].grid.points()),
        trail3(s, s[0], s.last(), source, beats),
        trail3(t, t[0], t.last(), source, beats),
        0 <= k <= beats.len(),
    ensures
        same_run3(&s[k], &t[k]),
        s[k].grid.points() == s[0].grid.points(),
    decreases k,
{
    if k > 0 {
        lemma_way_alike(s, t, source, beats, k - 1);
        let b = beats[k - 1];
        assert(s[k - 1].stepped(source, &b, &s[k - 1 + 1]));
        assert(t[k - 1].stepped(source, &b, &t[k - 1 + 1]));
        lemma_step_alike(source, &b, &s[k - 1], &s[k], &t[k - 1], &t[k]);
    }
}

/// A run is reproducible: one job, with one time step, one set of tables and
/// one beat per step, ends in the same fields, media, traces and sums every
/// time, whatever the number of threads.
pub proof fn runs_are_reproducible3<T: Scalar>(
    job: &Field3Job<T>,
    dt: T,
    cpml: (CpmlTables<T>, CpmlTables<T>, CpmlTables<T>),
    beats: Seq<Beat3<T>>,
    one: Run3<T>,
    two: Run3<T>,
)
    requires
        job.sound(),
        ran3(job, dt, cpml, beats, one),
        ran3(job, dt, cpml, beats, two),
    ensures
        same_run3(&one, &two),
{
    let s = choose|s: Seq<Run3<T>>|
        s.len() > 0 && s[0].wf() && s[0].starts(job, dt, cpml) && #[trigger] trail3(
            s,
            s[0],
            one,
            job.source,
            beats,
        );
    let t = choose|s: Seq<Run3<T>>|
        s.len() > 0 && s[0].wf() && s[0].starts(job, dt, cpml) && #[trigger] trail3(
            s,
            s[0],
            two,
            job.source,
            beats,
        );
    let (a, b) = (s[0], t[0]);
    assert forall|o: Axis| #![trigger a.grid.ce(o)] a.grid.ce(o) == b.grid.ce(o) by {
        assert(b.grid.ce(o) == b.grid.ce(o));
    }
    assert forall|o: Axis| #![trigger a.grid.cpml(o)] a.grid.cpml(o) == b.grid.cpml(o) by {
        match o {
            Axis::X => {},
            Axis::Y => {},
            Axis::Z => {},
        }
    }
    assert(a.grid.same_setup(&b.grid));
    assert forall|o: Axis|
        #![trigger a.grid.e(o)]
        #![trigger a.grid.psi_e_a(o)]
        #![trigger a.grid.psi_e_b(o)]
        {
            &&& a.grid.e(o) == b.grid.e(o)
            &&& a.grid.psi_e_a(o) == b.grid.psi_e_a(o)
            &&& a.grid.psi_e_b(o) == b.grid.psi_e_b(o)
        } by {
        assert(a.grid.e(o) == a.grid.e(o) && b.grid.e(o) == b.grid.e(o));
    }
    assert forall|o: Axis|
        #![trigger a.grid.h(o)]
        #![trigger a.grid.psi_h_a(o)]
        #![trigger a.grid.psi_h_b(o)]
        {
            &&& a.grid.h(o) == b.grid.h(o)
            &&& a.grid.psi_h_a(o) == b.grid.psi_h_a(o)
            &&& a.grid.psi_h_b(o) == b.grid.psi_h_b(o)
        } by {
        assert(a.grid.h(o) == a.grid.h(o) && b.grid.h(o) == b.grid.h(o));
    }
    assert forall|k: int| 0 <= k < a.probes@.len() implies #[trigger] same_probe(&a, &b, k) by {
        assert(a.probes@[k].spec == job.watched()[k] && b.probes@[k].spec == job.watched()[k]);
        assert(a.probes@[k].trace@ =~= b.probes@[k].trace@);
    }
    assert forall|k: int| 0 <= k < a.dfts@.len() implies #[trigger] same_sums(&a, &b, k) by {
        assert(a.dfts@[k].spec == job.watched()[k] && b.dfts@[k].spec == job.watched()[k]);
    }
    assert(same_run3(&a, &b));
    lemma_way_alike(s, t, job.source, beats, beats.len() as int);
}

} // verus!
