//! Optical matrix-vector products on a mesh, and their event counts.

use crate::complex::Cx;
use crate::matrix::Matrix;
use crate::photonic::clements::lit;
use crate::photonic::clements::{ClementsMesh, Wave};
use crate::scalar::Scalar;
use vstd::prelude::*;

verus! {

/// Events of a photonic job.
#[derive(Debug, Clone, Copy, PartialEq, Eq, Structural)]
pub struct PhotonicLedger {
    /// Programmed phases.
    pub modulator_events: u64,
    pub macs: u64,
    pub adc_samples: u64,
}

impl PhotonicLedger {
    /// Nothing counted yet.
    pub fn new() -> (r: Self)
        ensures
            r.modulator_events == 0,
            r.macs == 0,
            r.adc_samples == 0,
    {
        PhotonicLedger { modulator_events: 0, macs: 0, adc_samples: 0 }
    }
}

/// A mesh programmed as a multiplier: its settings with the waves they make.
pub struct OpticalMvm<T> {
    pub mesh: ClementsMesh<T>,
    pub waves: Vec<Wave<T>>,
    pub screen: Vec<Cx<T>>,
}

impl<T: Scalar> OpticalMvm<T> {
    /// One wave per interferometer, one phasor per mode.
    pub open spec fn wf(&self) -> bool {
        &&& self.mesh.wf()
        &&& self.waves@.len() == self.mesh.mzis@.len()
        &&& self.screen@.len() == self.mesh.n
    }

    /// Amplitudes at the outputs.
    pub open spec fn output(&self, x: Seq<Cx<T>>, j: int) -> Cx<T> {
        self.screen@[j].product(
            lit(self.mesh.mzis@, self.waves@, x, self.mesh.mzis@.len() as int)[j],
        )
    }

    /// Counts the loading of the weights: one modulator event per phase.
    pub fn program(&self, ledger: &mut PhotonicLedger)
        requires
            2 * self.mesh.mzis@.len() + self.mesh.n <= usize::MAX,
            old(ledger).modulator_events + 2 * self.mesh.mzis@.len() + self.mesh.n <= u64::MAX,
        ensures
            *final(ledger) == (PhotonicLedger {
                modulator_events: (old(ledger).modulator_events + 2 * self.mesh.mzis@.len()
                    + self.mesh.n) as u64,
                macs: old(ledger).macs,
                adc_samples: old(ledger).adc_samples,
            }),
    {
        ledger.modulator_events = ledger.modulator_events + self.mesh.n_phases() as u64;
    }

    /// One product: the detected powers at the outputs. Counts n^2
    /// multiply-accumulates and n samples.
    pub fn forward(&self, x: &Vec<Cx<T>>, ledger: &mut PhotonicLedger) -> (r: Vec<T>)
        requires
            self.wf(),
            x@.len() == self.mesh.n,
            self.mesh.n * self.mesh.n <= usize::MAX,
            old(ledger).macs + self.mesh.n * self.mesh.n <= u64::MAX,
            old(ledger).adc_samples + self.mesh.n <= u64::MAX,
        ensures
            r@ == Seq::new(self.mesh.n as nat, |j: int| self.output(x@, j).power()),
            *final(ledger) == (PhotonicLedger {
                modulator_events: old(ledger).modulator_events,
                macs: (old(ledger).macs + self.mesh.n * self.mesh.n) as u64,
                adc_samples: (old(ledger).adc_samples + self.mesh.n) as u64,
            }),
    {
        let n: usize = self.mesh.n;
        let y = self.mesh.apply(x, &self.waves, &self.screen);
        ledger.macs = ledger.macs + (n * n) as u64;
        ledger.adc_samples = ledger.adc_samples + n as u64;
        let mut r: Vec<T> = Vec::new();
        let mut j: usize = 0;
        while j < n
            invariant
                j <= n,
                n == self.mesh.n,
                y@ == Seq::new(n as nat, |k: int| self.output(x@, k)),
                r@.len() == j,
                forall|k: int| 0 <= k < j ==> #[trigger] r@[k] == self.output(x@, k).power(),
            decreases n - j,
        {
            r.push(y[j].norm_sq());
            j += 1;
        }
        assert(r@ =~= Seq::new(self.mesh.n as nat, |k: int| self.output(x@, k).power()));
        r
    }
}

/// Why a given target matrix is refused.
#[derive(Debug, Clone, Copy, PartialEq, Eq, Structural)]
pub enum TargetError {
    Rows,
    Columns,
}

impl TargetError {
    pub open spec fn line(self) -> Seq<char> {
        match self {
            TargetError::Rows => "unitary row count must equal n"@,
            TargetError::Columns => "unitary column count must equal n"@,
        }
    }

    /// The line that reports the error.
    pub fn message(&self) -> (r: &'static str)
        ensures
            r@ == self.line(),
    {
        match self {
            TargetError::Rows => "unitary row count must equal n",
            TargetError::Columns => "unitary column count must equal n",
        }
    }
}

/// Number of products of a job that names none.
pub fn default_queries() -> (r: usize)
    ensures
        r == 16,
{
    16
}

/// Every row of both parts has `n` entries.
pub open spec fn square_rows<T>(re: Seq<Vec<T>>, im: Seq<Vec<T>>, n: int) -> bool {
    forall|i: int|
        #![trigger re[i]]
        #![trigger im[i]]
        0 <= i < n ==> re[i]@.len() == n && im[i]@.len() == n
}

/// Executor of photonic jobs.
pub struct PhotonicExecutor;

impl PhotonicExecutor {
    /// The target matrix from its real and imaginary rows.
    pub fn build_target<T: Scalar>(n: usize, re: &Vec<Vec<T>>, im: &Vec<Vec<T>>) -> (r: Result<
        Matrix<Cx<T>>,
        TargetError,
    >)
        requires
            n * n <= usize::MAX,
        ensures
            match r {
                Ok(u) => {
                    &&& re@.len() == n
                    &&& im@.len() == n
                    &&& square_rows(re@, im@, n as int)
                    &&& u.shaped(n as int, n as int)
                    &&& forall|i: int, j: int|
                        0 <= i < n && 0 <= j < n ==> #[trigger] u.at(i, j) == (Cx {
                            re: re@[i]@[j],
                            im: im@[i]@[j],
                        })
                },
                Err(TargetError::Rows) => re@.len() != n || im@.len() != n,
                Err(TargetError::Columns) => re@.len() == n && im@.len() == n && !square_rows(
                    re@,
                    im@,
                    n as int,
                ),
            },
    {
        if re.len() != n || im.len() != n {
            return Err(TargetError::Rows);
        }
        let mut i: usize = 0;
        while i < n
            invariant
                i <= n,
                re@.len() == n,
                im@.len() == n,
                forall|k: int|
                    #![trigger re@[k]]
                    #![trigger im@[k]]
                    0 <= k < i ==> re@[k]@.len() == n && im@[k]@.len() == n,
            decreases n - i,
        {
            if re[i].len() != n || im[i].len() != n {
                assert(!(re@[i as int]@.len() == n && im@[i as int]@.len() == n));
                return Err(TargetError::Columns);
            }
            i += 1;
        }
        let entry = |i: usize, j: usize| -> (e: Cx<T>)
            requires
                i < n,
                j < n,
                re@.len() == n,
                im@.len() == n,
                square_rows(re@, im@, n as int),
            ensures
                e == (Cx { re: re@[i as int]@[j as int], im: im@[i as int]@[j as int] }),
            {
                assert(re@[i as int]@.len() == n);
                Cx { re: re[i][j], im: im[i][j] }
            };
        let u = Matrix::build(n, n, entry);
        assert forall|i: int, j: int| 0 <= i < n && 0 <= j < n implies #[trigger] u.at(i, j) == (
        Cx { re: re@[i]@[j], im: im@[i]@[j] }) by {
            let e = u.at(i as usize as int, j as usize as int);
        }
        Ok(u)
    }
}

/// A report is due after query `done` of `total`: every twentieth of the job,
/// and at its end.
pub open spec fn query_due(done: int, total: int) -> bool {
    done % (if total >= 20 {
        total / 20
    } else {
        1
    }) == 0 || done == total
}

/// Whether a report is due after query `done` of `total`.
pub fn query_report_due(done: usize, total: usize) -> (r: bool)
    ensures
        r == query_due(done as int, total as int),
{
    let every: usize = if total >= 20 {
        total / 20
    } else {
        1
    };
    done % every == 0 || done == total
}

} // verus!
