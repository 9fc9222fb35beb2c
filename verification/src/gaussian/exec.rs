//! Circuits, event counts and homodyne statistics.

use crate::gaussian::state::{Boost, GaussianState, Turn};
use crate::progress::{heard, lemma_heard_more, lemma_heard_nothing, Listener};
use crate::scalar::Scalar;
use vstd::prelude::*;

verus! {

/// Shots between two progress reports.
pub const SHOT_BATCH: u64 = 4096;

/// Bins of the outcome histogram.
pub const HIST_BINS: usize = 41;

/// One circuit element.
#[derive(Debug, Clone, Copy)]
pub enum GaussianOp<T> {
    Squeeze { mode: usize, boost: Boost<T>, turn: Turn<T> },
    Rotate { mode: usize, turn: Turn<T> },
    Displace { mode: usize, re: T, im: T },
    Beamsplitter { mode_a: usize, mode_b: usize, turn: Turn<T> },
    TwoModeSqueeze { mode_a: usize, mode_b: usize, boost: Boost<T> },
}

impl<T: Scalar> GaussianOp<T> {
    /// The element acts on modes of the state, on two different ones where it
    /// takes two.
    pub open spec fn fits(self, n: int) -> bool {
        match self {
            GaussianOp::Squeeze { mode, boost, turn } => mode < n,
            GaussianOp::Rotate { mode, turn } => mode < n,
            GaussianOp::Displace { mode, re, im } => mode < n,
            GaussianOp::Beamsplitter { mode_a, mode_b, turn } => mode_a < n && mode_b < n
                && mode_a != mode_b,
            GaussianOp::TwoModeSqueeze { mode_a, mode_b, boost } => mode_a < n && mode_b < n
                && mode_a != mode_b,
        }
    }

    /// Whether the element acts on modes of the state.
    pub fn is_fit(&self, n: usize) -> (r: bool)
        ensures
            r == self.fits(n as int),
    {
        match *self {
            GaussianOp::Squeeze { mode, boost, turn } => mode < n,
            GaussianOp::Rotate { mode, turn } => mode < n,
            GaussianOp::Displace { mode, re, im } => mode < n,
            GaussianOp::Beamsplitter { mode_a, mode_b, turn } => mode_a < n && mode_b < n
                && mode_a != mode_b,
            GaussianOp::TwoModeSqueeze { mode_a, mode_b, boost } => mode_a < n && mode_b < n
                && mode_a != mode_b,
        }
    }

    /// What the element makes of a state.
    pub open spec fn takes(self, before: &GaussianState<T>, after: &GaussianState<T>) -> bool {
        match self {
            GaussianOp::Squeeze { mode, boost, turn } => before.squeezed_into(
                mode as int,
                boost,
                turn,
                after,
            ),
            GaussianOp::Rotate { mode, turn } => before.rotated(mode as int, turn, after),
            GaussianOp::Displace { mode, re, im } => before.displaced_into(
                mode as int,
                re,
                im,
                after,
            ),
            GaussianOp::Beamsplitter { mode_a, mode_b, turn } => before.mixed_into(
                mode_a as int,
                mode_b as int,
                turn,
                after,
            ),
            GaussianOp::TwoModeSqueeze { mode_a, mode_b, boost } => before.entangled_into(
                mode_a as int,
                mode_b as int,
                boost,
                after,
            ),
        }
    }

    /// Multiply-accumulates of the element on `n` modes: two products of
    /// 2n x 2n matrices and one of a matrix with a vector; a displacement is
    /// two additions.
    pub open spec fn work(self, n: int) -> int {
        let d = 2 * n;
        match self {
            GaussianOp::Displace { mode, re, im } => 2,
            _ => 2 * d * d * d + d * d,
        }
    }
}

/// Applies one circuit element.
pub fn apply_op<T: Scalar>(state: &mut GaussianState<T>, op: &GaussianOp<T>)
    requires
        old(state).wf(),
        op.fits(old(state).modes()),
    ensures
        final(state).wf(),
        final(state).modes() == old(state).modes(),
        op.takes(old(state), final(state)),
{
    match *op {
        GaussianOp::Squeeze { mode, boost, turn } => state.squeeze(mode, boost, turn),
        GaussianOp::Rotate { mode, turn } => state.rotate(mode, turn),
        GaussianOp::Displace { mode, re, im } => state.displace(mode, re, im),
        GaussianOp::Beamsplitter { mode_a, mode_b, turn } => state.beamsplit(
            mode_a,
            mode_b,
            turn,
        ),
        GaussianOp::TwoModeSqueeze { mode_a, mode_b, boost } => state.two_mode_squeeze(
            mode_a,
            mode_b,
            boost,
        ),
    }
}

/// Multiply-accumulates of one circuit element.
pub fn op_macs<T: Scalar>(op: &GaussianOp<T>, n_modes: usize) -> (r: u64)
    requires
        op.work(n_modes as int) <= u64::MAX,
        2 * n_modes <= u64::MAX,
    ensures
        r == op.work(n_modes as int),
{
    match *op {
        GaussianOp::Displace { mode, re, im } => 2,
        _ => {
            let d: u64 = 2 * n_modes as u64;
            proof {
                let x = d as int;
                assert(0 <= x * x <= 2 * x * x * x + x * x && 2 * x <= 2 * x * x * x + x * x && 2 * x
                    * x <= 2 * x * x * x + x * x && 0 <= 2 * x * x * x <= 2 * x * x * x + x * x)
                    by (nonlinear_arith)
                    requires
                        0 <= x,
                ;
            }
            2 * d * d * d + d * d
        },
    }
}

/// Work of the first `k` elements of a circuit.
pub open spec fn circuit_work<T: Scalar>(ops: Seq<GaussianOp<T>>, n: int, k: int) -> int
    decreases k,
{
    if k <= 0 {
        0
    } else {
        circuit_work(ops, n, k - 1) + ops[k - 1].work(n)
    }
}

pub proof fn lemma_work_grows<T: Scalar>(ops: Seq<GaussianOp<T>>, n: int, k: int, m: int)
    requires
        0 <= n,
        k <= m,
    ensures
        circuit_work(ops, n, k) <= circuit_work(ops, n, m),
        0 <= circuit_work(ops, n, k),
    decreases m - k, k,
{
    if k > 0 {
        lemma_work_grows(ops, n, k - 1, k - 1);
        lemma_work_sign(ops[k - 1], n);
    }
    if k < m {
        lemma_work_grows(ops, n, k, m - 1);
        if m > 0 {
            lemma_work_sign(ops[m - 1], n);
        }
    }
}

proof fn lemma_work_sign<T: Scalar>(op: GaussianOp<T>, n: int)
    requires
        0 <= n,
    ensures
        op.work(n) >= 0,
{
    let d = 2 * n;
    assert(2 * d * d * d + d * d >= 0) by (nonlinear_arith)
        requires
            d >= 0,
    ;
}

/// `s` leads from the vacuum to `to`, one element after the other.
pub open spec fn runs<T: Scalar>(
    s: Seq<GaussianState<T>>,
    n: int,
    ops: Seq<GaussianOp<T>>,
    to: GaussianState<T>,
) -> bool {
    &&& s.len() == ops.len() + 1
    &&& s[0].cov.is_identity(2 * n)
    &&& s[0].mean@ == Seq::new((2 * n) as nat, |k: int| T::zero_value())
    &&& s[ops.len() as int] == to
    &&& forall|k: int| #![trigger ops[k]] 0 <= k < ops.len() ==> ops[k].takes(&s[k], &s[k + 1])
}

/// What a job tells of its progress.
#[derive(Debug, Clone, Copy, PartialEq, Eq, Structural)]
pub enum GaussianTick {
    /// Circuit elements applied.
    Elements(usize),
    /// Shots done, after each batch of them.
    Shots(u64),
}

/// The reports of a circuit: one per element.
pub open spec fn element_ticks(n: nat) -> Seq<GaussianTick> {
    Seq::new(n, |k: int| GaussianTick::Elements((k + 1) as usize))
}

/// The reports of the first `k` of `shots` shots: one per batch, the last of
/// which may be short.
pub open spec fn shot_ticks(shots: int, k: int) -> Seq<GaussianTick>
    decreases k,
{
    if k <= 0 {
        Seq::empty()
    } else if k % (SHOT_BATCH as int) == 0 || k == shots {
        shot_ticks(shots, k - 1).push(GaussianTick::Shots(k as u64))
    } else {
        shot_ticks(shots, k - 1)
    }
}

impl GaussianTick {
    /// Progress steps done by then, of a job with a circuit of `circuit`
    /// elements: elements and batches.
    pub fn steps_done(&self, circuit: usize) -> (r: u64)
        requires
            *self matches GaussianTick::Shots(n) ==> circuit + n <= u64::MAX,
        ensures
            match *self {
                GaussianTick::Elements(k) => r == k as u64,
                GaussianTick::Shots(n) => {
                    &&& SHOT_BATCH * (r - circuit) >= n
                    &&& r > circuit ==> SHOT_BATCH * (r - circuit - 1) < n
                    &&& r >= circuit
                },
            },
    {
        match *self {
            GaussianTick::Elements(k) => k as u64,
            GaussianTick::Shots(n) => circuit as u64 + shot_batches(n),
        }
    }
}

/// Executor of Gaussian circuits.
pub struct GaussianExecutor;

impl GaussianExecutor {
    /// Runs a circuit on the vacuum of `n_modes` modes: the state it ends in,
    /// and the work it took. `listener` hears of every element.
    pub fn run_circuit<T: Scalar, L: Listener<GaussianTick>>(
        &self,
        n_modes: usize,
        circuit: &Vec<GaussianOp<T>>,
        listener: &mut L,
    ) -> (r: (GaussianState<T>, u64))
        requires
            2 * n_modes <= usize::MAX,
            (2 * n_modes) * (2 * n_modes) <= usize::MAX,
            forall|k: int|
                0 <= k < circuit@.len() ==> (#[trigger] circuit@[k]).fits(n_modes as int),
            circuit_work(circuit@, n_modes as int, circuit@.len() as int) <= u64::MAX,
        ensures
            r.0.wf(),
            r.0.modes() == n_modes,
            r.1 == circuit_work(circuit@, n_modes as int, circuit@.len() as int),
            exists|s: Seq<GaussianState<T>>| runs(s, n_modes as int, circuit@, r.0),
            heard(*old(listener), element_ticks(circuit@.len()), *final(listener)),
    {
        proof {
            lemma_heard_nothing::<GaussianTick, L>(*listener);
            assert(element_ticks(0) =~= Seq::empty());
        }
        let mut state = GaussianState::vacuum(n_modes);
        let mut macs: u64 = 0;
        let ghost mut s: Seq<GaussianState<T>> = seq![state];
        let mut k: usize = 0;
        while k < circuit.len()
            invariant
                k <= circuit@.len(),
                heard(*old(listener), element_ticks(k as nat), *listener),
                state.wf(),
                state.modes() == n_modes,
                2 * n_modes <= usize::MAX,
                macs == circuit_work(circuit@, n_modes as int, k as int),
                circuit_work(circuit@, n_modes as int, circuit@.len() as int) <= u64::MAX,
                forall|m: int|
                    0 <= m < circuit@.len() ==> (#[trigger] circuit@[m]).fits(n_modes as int),
                s.len() == k + 1,
                s[0].cov.is_identity(2 * n_modes),
                s[0].mean@ == Seq::new((2 * n_modes) as nat, |m: int| T::zero_value()),
                s[k as int] == state,
                forall|m: int|
                    #![trigger circuit@[m]]
                    0 <= m < k ==> circuit@[m].takes(&s[m], &s[m + 1]),
            decreases circuit@.len() - k,
        {
            proof {
                lemma_work_grows(circuit@, n_modes as int, k + 1, circuit@.len() as int);
                lemma_work_grows(circuit@, n_modes as int, k as int, circuit@.len() as int);
            }
            apply_op(&mut state, &circuit[k]);
            macs = macs + op_macs(&circuit[k], n_modes);
            let ghost l = *listener;
            listener.hear(GaussianTick::Elements(k + 1));
            proof {
                s = s.push(state);
                let e = GaussianTick::Elements((k + 1) as usize);
                lemma_heard_more(*old(listener), element_ticks(k as nat), l, e, *listener);
                assert(element_ticks((k + 1) as nat) =~= element_ticks(k as nat).push(e));
            }
            k += 1;
        }
        assert(runs(s, n_modes as int, circuit@, state));
        (state, macs)
    }
}

/// Number of batches of a number of shots.
pub fn shot_batches(shots: u64) -> (r: u64)
    ensures
        SHOT_BATCH * r >= shots,
        r > 0 ==> SHOT_BATCH * (r - 1) < shots,
        r <= shots,
{
    if shots == 0 {
        0
    } else {
        (shots - 1) / SHOT_BATCH + 1
    }
}

/// Progress steps of a job: circuit elements and shot batches, at least one.
pub fn total_steps(circuit: usize, batches: u64) -> (r: u64)
    requires
        circuit + batches <= u64::MAX,
    ensures
        r == (if circuit + batches >= 1 {
            circuit + batches
        } else {
            1
        }),
{
    let n: u64 = circuit as u64 + batches;
    if n >= 1 {
        n
    } else {
        1
    }
}

/// Bin of an outcome that fell into cell `c` counted from the low end:
/// outcomes beyond either end count with the last bin there.
pub open spec fn bin_of(c: int) -> int {
    if c < 0 {
        0
    } else if c > 40 {
        40
    } else {
        c
    }
}

/// Outcomes among the first `n` that fall into bin `b`.
pub open spec fn tally(cells: Seq<i64>, b: int, n: int) -> int
    decreases n,
{
    if n <= 0 {
        0
    } else {
        tally(cells, b, n - 1) + (if bin_of(cells[n - 1] as int) == b {
            1int
        } else {
            0int
        })
    }
}

/// Sum of the first `b` bins.
pub open spec fn binned(cells: Seq<i64>, b: int, n: int) -> int
    decreases b,
{
    if b <= 0 {
        0
    } else {
        binned(cells, b - 1, n) + tally(cells, b - 1, n)
    }
}

/// No outcome is lost or counted twice: the bins add up to the outcomes.
pub proof fn histogram_holds_every_shot(cells: Seq<i64>)
    ensures
        binned(cells, 41, cells.len() as int) == cells.len(),
{
    lemma_binned(cells, 41, cells.len() as int);
}

proof fn lemma_binned(cells: Seq<i64>, b: int, n: int)
    requires
        0 <= b <= 41,
        0 <= n <= cells.len(),
    ensures
        b == 41 ==> binned(cells, b, n) == n,
        n > 0 ==> binned(cells, b, n) == binned(cells, b, n - 1) + (if bin_of(
            cells[n - 1] as int,
        ) < b {
            1int
        } else {
            0int
        }),
    decreases n, b,
{
    if n == 0 {
        lemma_nothing_binned(cells, b);
    } else {
        if b > 0 {
            lemma_binned(cells, b - 1, n);
        }
        lemma_binned(cells, 41, n - 1);
    }
}

proof fn lemma_nothing_binned(cells: Seq<i64>, b: int)
    ensures
        binned(cells, b, 0) == 0,
    decreases b,
{
    if b > 0 {
        lemma_nothing_binned(cells, b - 1);
    }
}

} // verus!
