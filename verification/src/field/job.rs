//! 2D jobs: what a job must bring, and which course it takes.

use crate::field::monitor::PortSpec;
use crate::text::{decimal, decimal_text};
use vstd::prelude::*;

verus! {

/// What the planner reads of a job. `guided[k][f]` says whether the mode of
/// port `k` is guided at frequency `f`.
pub struct FieldPlan {
    pub nx: usize,
    pub has_source: bool,
    /// Column of the mode source.
    pub launch: Option<usize>,
    /// Whether the mode of the mode source is guided.
    pub launch_guided: bool,
    /// Whether the layout is a waveguide.
    pub waveguide: bool,
    pub ports: Vec<PortSpec>,
    pub n_frequencies: usize,
    pub guided: Vec<Vec<bool>>,
}

/// Why a job is refused. Ports and frequencies are counted from zero.
#[derive(Debug, Clone, Copy, PartialEq, Eq, Structural)]
pub enum FieldError {
    NoSource,
    LaunchNeedsWaveguide,
    LaunchNotGuided,
    NoFrequencies,
    PortsNeedLaunch,
    PortsNeedWaveguide,
    EmptyPorts,
    /// Mode source column, port 1 column.
    LaunchNotLeft(usize, usize),
    /// Port, its column.
    PortOutside(usize, usize),
    /// Port, frequency.
    PortNotGuided(usize, usize),
    /// The permittivity of a layout is not positive everywhere.
    EpsNotPositive,
    /// Frequency at which no incident wave was seen.
    NoIncidentWave(usize),
}

/// The course of an accepted job.
#[derive(Debug, Clone, Copy, PartialEq, Eq, Structural)]
pub enum Course {
    /// One run.
    Plain,
    /// A reference run and a device run.
    Extraction,
}

impl FieldPlan {
    /// One row of `guided` per port, one entry per frequency.
    pub open spec fn wf(&self) -> bool {
        &&& self.guided@.len() == self.ports@.len()
        &&& forall|k: int|
            0 <= k < self.guided@.len() ==> (#[trigger] self.guided@[k])@.len()
                == self.n_frequencies
    }

    /// Frequencies below `n` are all guided at port `k`.
    pub open spec fn guided_below(&self, k: int, n: int) -> bool {
        forall|f: int| 0 <= f < n ==> #[trigger] self.guided@[k]@[f]
    }

    /// What is wrong with port `k`: its column, else its first frequency that
    /// is not guided.
    pub open spec fn port_fault(&self, k: int, e: FieldError) -> bool {
        let p = self.ports@[k];
        if p.i + 1 >= self.nx {
            e == FieldError::PortOutside(k as usize, p.i)
        } else {
            exists|f: int|
                #![trigger self.guided@[k]@[f]]
                0 <= f < self.n_frequencies && !self.guided@[k]@[f] && self.guided_below(k, f) && e
                    == FieldError::PortNotGuided(k as usize, f as usize)
        }
    }

    /// Nothing is wrong with port `k`.
    pub open spec fn port_ok(&self, k: int) -> bool {
        &&& self.ports@[k].i + 1 < self.nx
        &&& self.guided_below(k, self.n_frequencies as int)
    }

    /// What an extraction owes: the first fault in the order of the checks.
    pub open spec fn extraction_verdict(&self, r: Result<(), FieldError>) -> bool {
        if self.n_frequencies == 0 {
            r == Err::<(), _>(FieldError::NoFrequencies)
        } else if self.launch is None {
            r == Err::<(), _>(FieldError::PortsNeedLaunch)
        } else if !self.waveguide {
            r == Err::<(), _>(FieldError::PortsNeedWaveguide)
        } else if self.ports@.len() == 0 {
            r == Err::<(), _>(FieldError::EmptyPorts)
        } else if self.launch->0 >= self.ports@[0].i {
            r == Err::<(), _>(FieldError::LaunchNotLeft(self.launch->0, self.ports@[0].i))
        } else if exists|k: int| 0 <= k < self.ports@.len() && !#[trigger] self.port_ok(k) {
            match r {
                Ok(_) => false,
                Err(e) => exists|k: int|
                    0 <= k < self.ports@.len() && #[trigger] self.port_fault(k, e) && (forall|m: int|
                        0 <= m < k ==> #[trigger] self.port_ok(m)),
            }
        } else if !self.launch_guided {
            r == Err::<(), _>(FieldError::LaunchNotGuided)
        } else {
            r == Ok::<(), FieldError>(())
        }
    }

    /// Checks what an extraction needs.
    pub fn check_extraction(&self) -> (r: Result<(), FieldError>)
        requires
            self.wf(),
        ensures
            self.extraction_verdict(r),
    {
        if self.n_frequencies == 0 {
            return Err(FieldError::NoFrequencies);
        }
        let launch: usize = match self.launch {
            Some(i) => i,
            None => {
                return Err(FieldError::PortsNeedLaunch);
            },
        };
        if !self.waveguide {
            return Err(FieldError::PortsNeedWaveguide);
        }
        if self.ports.len() == 0 {
            return Err(FieldError::EmptyPorts);
        }
        if launch >= self.ports[0].i {
            return Err(FieldError::LaunchNotLeft(launch, self.ports[0].i));
        }
        let mut k: usize = 0;
        while k < self.ports.len()
            invariant
                self.wf(),
                k <= self.ports@.len(),
                self.n_frequencies > 0,
                self.launch == Some(launch),
                self.waveguide,
                self.ports@.len() > 0,
                launch < self.ports@[0].i,
                forall|m: int| 0 <= m < k ==> #[trigger] self.port_ok(m),
            decreases self.ports@.len() - k,
        {
            let p = self.ports[k];
            if self.nx == 0 || p.i >= self.nx - 1 {
                let e = FieldError::PortOutside(k, p.i);
                assert(!self.port_ok(k as int));
                assert(self.port_fault(k as int, e));
                return Err(e);
            }
            assert(self.guided@[k as int]@.len() == self.n_frequencies);
            let mut f: usize = 0;
            while f < self.n_frequencies
                invariant
                    self.wf(),
                    k < self.ports@.len(),
                    p == self.ports@[k as int],
                    p.i + 1 < self.nx,
                    f <= self.n_frequencies,
                    self.guided@[k as int]@.len() == self.n_frequencies,
                    self.guided_below(k as int, f as int),
                    self.n_frequencies > 0,
                    self.launch == Some(launch),
                    self.waveguide,
                    self.ports@.len() > 0,
                    launch < self.ports@[0].i,
                    forall|m: int| 0 <= m < k ==> #[trigger] self.port_ok(m),
                decreases self.n_frequencies - f,
            {
                if !self.guided[k][f] {
                    let e = FieldError::PortNotGuided(k, f);
                    assert(!self.guided@[k as int]@[f as int]);
                    assert(!self.port_ok(k as int));
                    assert(self.port_fault(k as int, e));
                    return Err(e);
                }
                f += 1;
            }
            assert(self.port_ok(k as int));
            k += 1;
        }
        if !self.launch_guided {
            return Err(FieldError::LaunchNotGuided);
        }
        Ok(())
    }

    /// What becomes of the job: its course, or why it is refused.
    pub open spec fn verdict(&self, r: Result<Course, FieldError>) -> bool {
        if !self.has_source && self.launch is None {
            r == Err::<Course, _>(FieldError::NoSource)
        } else if self.ports@.len() > 0 {
            match r {
                Ok(c) => c == Course::Extraction && self.extraction_verdict(Ok(())),
                Err(e) => self.extraction_verdict(Err(e)),
            }
        } else if self.launch is Some && !self.waveguide {
            r == Err::<Course, _>(FieldError::LaunchNeedsWaveguide)
        } else if self.launch is Some && !self.launch_guided {
            r == Err::<Course, _>(FieldError::LaunchNotGuided)
        } else {
            r == Ok::<_, FieldError>(Course::Plain)
        }
    }

    /// Which course a job takes, or why it is refused: a job needs a source of
    /// some kind; with ports it is an extraction, and a mode source needs a
    /// waveguide that guides its mode.
    pub fn course(&self) -> (r: Result<Course, FieldError>)
        requires
            self.wf(),
        ensures
            self.verdict(r),
    {
        if !self.has_source && self.launch.is_none() {
            return Err(FieldError::NoSource);
        }
        if self.ports.len() > 0 {
            return match self.check_extraction() {
                Ok(_) => Ok(Course::Extraction),
                Err(e) => Err(e),
            };
        }
        if self.launch.is_some() {
            if !self.waveguide {
                return Err(FieldError::LaunchNeedsWaveguide);
            }
            if !self.launch_guided {
                return Err(FieldError::LaunchNotGuided);
            }
        }
        Ok(Course::Plain)
    }
}

impl FieldError {
    /// The line that reports the error; those that quote a frequency are left
    /// to whoever holds the frequencies.
    pub open spec fn line(self) -> Option<Seq<char>> {
        match self {
            FieldError::NoSource => Some("job needs a `source` or a `mode_source`"@),
            FieldError::LaunchNeedsWaveguide => Some(
                "mode_source requires eps.kind = \"waveguide_x\""@,
            ),
            FieldError::NoFrequencies => Some(
                "ports require at least one entry in `frequencies`"@,
            ),
            FieldError::PortsNeedLaunch => Some(
                "ports require a `mode_source` (the launch on port 1)"@,
            ),
            FieldError::PortsNeedWaveguide => Some("ports require eps.kind = \"waveguide_x\""@),
            FieldError::EmptyPorts => Some("empty ports"@),
            FieldError::EpsNotPositive => Some("eps_r must be positive"@),
            FieldError::LaunchNotLeft(i, p) => Some(
                "mode_source column ("@ + decimal(i as nat) + ") must lie left of port 1 ("@
                    + decimal(p as nat)
                    + ") — the extraction convention is source → port 1 → device → ports 2…"@,
            ),
            FieldError::PortOutside(k, i) => Some(
                "port "@ + decimal((k + 1) as nat) + " column "@ + decimal(i as nat)
                    + " outside the grid"@,
            ),
            _ => None,
        }
    }

    /// The line that reports the error.
    pub fn message(&self) -> (r: Option<String>)
        requires
            match *self {
                FieldError::PortOutside(k, i) => k < usize::MAX,
                _ => true,
            },
        ensures
            match r {
                Some(s) => self.line() == Some(s@),
                None => self.line() is None,
            },
    {
        match *self {
            FieldError::NoSource => Some("job needs a `source` or a `mode_source`".to_string()),
            FieldError::LaunchNeedsWaveguide => Some(
                "mode_source requires eps.kind = \"waveguide_x\"".to_string(),
            ),
            FieldError::NoFrequencies => Some(
                "ports require at least one entry in `frequencies`".to_string(),
            ),
            FieldError::PortsNeedLaunch => Some(
                "ports require a `mode_source` (the launch on port 1)".to_string(),
            ),
            FieldError::PortsNeedWaveguide => Some(
                "ports require eps.kind = \"waveguide_x\"".to_string(),
            ),
            FieldError::EmptyPorts => Some("empty ports".to_string()),
            FieldError::EpsNotPositive => Some("eps_r must be positive".to_string()),
            FieldError::LaunchNotLeft(i, p) => {
                let mut s = "mode_source column (".to_string();
                s.append(decimal_text(i as u64).as_str());
                s.append(") must lie left of port 1 (");
                s.append(decimal_text(p as u64).as_str());
                s.append(
                    ") — the extraction convention is source → port 1 → device → ports 2…",
                );
                Some(s)
            },
            FieldError::PortOutside(k, i) => {
                let mut s = "port ".to_string();
                s.append(decimal_text(k as u64 + 1).as_str());
                s.append(" column ");
                s.append(decimal_text(i as u64).as_str());
                s.append(" outside the grid");
                Some(s)
            },
            _ => None,
        }
    }
}

} // verus!
