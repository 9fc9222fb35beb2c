//! Showcase workloads, enumerated from the catalog: one for each substrate
//! that is not universal, and one for each of a few families.

use crate::cost::catalog::{Catalog, Primitive};
use crate::cost::dispatch::Dialect;
use crate::cost::dispatch::BASELINE_NAME;
use crate::scalar::Scalar;
use crate::text::{decimal, decimal_text, same_text};
use vstd::prelude::*;

verus! {

/// Most invocations that a preset holds.
pub const MAX_OPS_PER_PRESET: usize = 6;

/// Operand type of a preset profile.
#[derive(Debug, Clone, Copy, PartialEq, Eq, Structural)]
pub enum Dtype {
    I8,
    F16,
}

/// Shape of one preset invocation; sparsity is nil throughout.
#[derive(Debug, Clone)]
pub struct PresetProfile {
    pub dims: Vec<u64>,
    pub reduce_dim: Option<u64>,
    pub batch: u64,
    pub dtype: Dtype,
    pub sweeps: Option<u64>,
    pub variables: Option<u64>,
}

/// One preset invocation.
#[derive(Debug, Clone)]
pub struct PresetInvocation {
    pub primitive_id: u32,
    pub count: u64,
    pub profile: PresetProfile,
    pub label: String,
}

/// What every preset is held to: cycles per second, watts, units.
pub const PRESET_CONSTRAINTS: (u64, u64, u64) = (30, 5, 10_000);

/// A workload ready to dispatch.
#[derive(Debug, Clone)]
pub struct Preset {
    pub key: String,
    pub label: String,
    pub category: String,
    pub description: String,
    pub goal: String,
    pub invocations: Vec<PresetInvocation>,
}

impl PresetProfile {
    /// Sampling gets 1024 variables and 10 000 sweeps, convolution a residual
    /// network stage, everything else a transformer-style product.
    pub open spec fn suits(&self, p: Primitive) -> bool {
        &&& self.batch == 1
        &&& if p.is_l1 {
            &&& self.dims@ =~= seq![1024u64]
            &&& self.reduce_dim is None
            &&& self.dtype is I8
            &&& self.sweeps == Some(10_000u64)
            &&& self.variables == Some(1024u64)
        } else {
            &&& self.dims@ =~= (if p.id == 24 {
                seq![3136u64, 64u64]
            } else {
                seq![512u64, 2048u64]
            })
            &&& self.reduce_dim == (if p.id == 24 {
                Some(576u64)
            } else {
                Some(768u64)
            })
            &&& self.dtype is F16
            &&& self.sweeps is None
            &&& self.variables is None
        }
    }
}

impl PresetInvocation {
    /// One run of a primitive at its default shape, under its name.
    pub open spec fn calls(&self, p: Primitive) -> bool {
        &&& self.primitive_id == p.id
        &&& self.count == 1
        &&& self.profile.suits(p)
        &&& self.label@ == p.name@
    }
}

/// Default shape of a primitive.
fn default_profile_for(p: &Primitive) -> (r: PresetProfile)
    ensures
        r.suits(*p),
{
    let mut dims: Vec<u64> = Vec::new();
    if p.is_l1 {
        dims.push(1024);
        PresetProfile {
            dims,
            reduce_dim: None,
            batch: 1,
            dtype: Dtype::I8,
            sweeps: Some(10_000),
            variables: Some(1024),
        }
    } else if p.id == 24 {
        dims.push(56 * 56);
        dims.push(64);
        PresetProfile {
            dims,
            reduce_dim: Some(64 * 3 * 3),
            batch: 1,
            dtype: Dtype::F16,
            sweeps: None,
            variables: None,
        }
    } else {
        dims.push(512);
        dims.push(2048);
        PresetProfile {
            dims,
            reduce_dim: Some(768),
            batch: 1,
            dtype: Dtype::F16,
            sweeps: None,
            variables: None,
        }
    }
}

fn build_invocation(p: &Primitive) -> (r: PresetInvocation)
    ensures
        r.calls(*p),
{
    PresetInvocation {
        primitive_id: p.id,
        count: 1,
        profile: default_profile_for(p),
        label: p.name.clone(),
    }
}

/// The first of `s`, as many as a preset holds.
pub open spec fn front(s: Seq<Primitive>) -> Seq<Primitive> {
    if s.len() <= MAX_OPS_PER_PRESET {
        s
    } else {
        s.take(MAX_OPS_PER_PRESET as int)
    }
}

/// What a substrate runs, in catalog order.
pub open spec fn natives<T: Scalar>(all: Seq<Primitive>, d: Dialect<T>) -> Seq<Primitive> {
    all.filter(|p: Primitive| d.runs(p))
}

/// The members of a family, in catalog order.
pub open spec fn members(all: Seq<Primitive>, code: Seq<char>) -> Seq<Primitive> {
    all.filter(|p: Primitive| p.family@ == code)
}

/// One call for each of `ps`, in order.
pub open spec fn calls_all(calls: Seq<PresetInvocation>, ps: Seq<Primitive>) -> bool {
    &&& calls.len() == ps.len()
    &&& forall|k: int| #![trigger calls[k]] 0 <= k < ps.len() ==> calls[k].calls(ps[k])
}

proof fn lemma_filter_push(ps: Seq<Primitive>, keep: spec_fn(Primitive) -> bool, n: int)
    requires
        0 <= n < ps.len(),
    ensures
        ps.take(n + 1).filter(keep) == (if keep(ps[n]) {
            ps.take(n).filter(keep).push(ps[n])
        } else {
            ps.take(n).filter(keep)
        }),
{
    reveal(Seq::filter);
    assert(ps.take(n + 1).drop_last() =~= ps.take(n));
}

proof fn lemma_filter_prefix(ps: Seq<Primitive>, keep: spec_fn(Primitive) -> bool, n: int)
    requires
        0 <= n <= ps.len(),
    ensures
        ps.take(n).filter(keep).is_prefix_of(ps.filter(keep)),
    decreases ps.len() - n,
{
    if n < ps.len() {
        lemma_filter_push(ps, keep, n);
        lemma_filter_prefix(ps, keep, n + 1);
        let (a, b, c) = (
            ps.take(n).filter(keep),
            ps.take(n + 1).filter(keep),
            ps.filter(keep),
        );
        assert(a.is_prefix_of(b));
        assert(a =~= c.take(a.len() as int)) by {
            assert(b == c.take(b.len() as int));
            assert(a =~= b.take(a.len() as int));
        }
    } else {
        assert(ps.take(n) =~= ps);
    }
}

/// Calls of the first natives of a substrate.
fn native_calls<T: Scalar>(catalog: &Catalog, d: &Dialect<T>) -> (r: Vec<PresetInvocation>)
    ensures
        calls_all(r@, front(natives(catalog.primitives@, *d))),
{
    let ghost all = catalog.primitives@;
    let ghost keep = |p: Primitive| d.runs(p);
    let mut out: Vec<PresetInvocation> = Vec::new();
    let mut k: usize = 0;
    proof {
        reveal(Seq::filter);
        assert(all.take(0).filter(keep) =~= Seq::empty());
    }
    while k < catalog.primitives.len() && out.len() < MAX_OPS_PER_PRESET
        invariant
            k <= all.len(),
            all == catalog.primitives@,
            keep == (|p: Primitive| d.runs(p)),
            out@.len() <= MAX_OPS_PER_PRESET,
            calls_all(out@, all.take(k as int).filter(keep)),
        decreases all.len() - k,
    {
        proof {
            lemma_filter_push(all, keep, k as int);
        }
        if d.supports(&catalog.primitives[k]) {
            out.push(build_invocation(&catalog.primitives[k]));
        }
        k += 1;
    }
    proof {
        lemma_filter_prefix(all, keep, k as int);
        let got = all.take(k as int).filter(keep);
        let whole = natives(all, *d);
        assert(whole == all.filter(keep));
        if k == all.len() {
            assert(all.take(k as int) =~= all);
            assert(front(whole) =~= got);
        } else {
            assert(got.len() == MAX_OPS_PER_PRESET);
            assert(front(whole) =~= got);
        }
    }
    out
}

/// Calls of the first members of a family.
fn family_calls(catalog: &Catalog, code: &str) -> (r: Vec<PresetInvocation>)
    ensures
        calls_all(r@, front(members(catalog.primitives@, code@))),
{
    let ghost all = catalog.primitives@;
    let ghost keep = |p: Primitive| p.family@ == code@;
    let mut out: Vec<PresetInvocation> = Vec::new();
    let mut k: usize = 0;
    proof {
        reveal(Seq::filter);
        assert(all.take(0).filter(keep) =~= Seq::empty());
    }
    while k < catalog.primitives.len() && out.len() < MAX_OPS_PER_PRESET
        invariant
            k <= all.len(),
            all == catalog.primitives@,
            keep == (|p: Primitive| p.family@ == code@),
            out@.len() <= MAX_OPS_PER_PRESET,
            calls_all(out@, all.take(k as int).filter(keep)),
        decreases all.len() - k,
    {
        proof {
            lemma_filter_push(all, keep, k as int);
        }
        if same_text(catalog.primitives[k].family.as_str(), code) {
            out.push(build_invocation(&catalog.primitives[k]));
        }
        k += 1;
    }
    proof {
        lemma_filter_prefix(all, keep, k as int);
        let got = all.take(k as int).filter(keep);
        let whole = members(all, code@);
        assert(whole == all.filter(keep));
        if k == all.len() {
            assert(all.take(k as int) =~= all);
            assert(front(whole) =~= got);
        } else {
            assert(got.len() == MAX_OPS_PER_PRESET);
            assert(front(whole) =~= got);
        }
    }
    out
}

impl Preset {
    /// The showcase of a substrate.
    pub open spec fn showcases<T: Scalar>(&self, all: Seq<Primitive>, d: Dialect<T>) -> bool {
        let n = front(natives(all, d)).len();
        &&& self.key@ == "showcase-"@ + d.named()
        &&& self.label@ == d.shown() + " · "@ + decimal(n) + " native op"@ + (if n == 1 {
            Seq::empty()
        } else {
            "s"@
        })
        &&& self.category@ == "Substrate showcase"@
        &&& self.description@
            == "Auto-generated from the Periodic Stack catalog: every primitive "@ + d.shown()
            + " natively supports, at sensible default shapes."@
        &&& self.goal@ == d.shown() + " showcase"@
        &&& calls_all(self.invocations@, front(natives(all, d)))
    }

    /// The scan of a family.
    pub open spec fn scans(&self, all: Seq<Primitive>, f: Family) -> bool {
        let n = front(members(all, f.code@)).len();
        &&& self.key@ == f.key@
        &&& self.label@ == f.label@ + " · "@ + decimal(n) + " primitives"@
        &&& self.category@ == "Family scan"@
        &&& self.description@ == f.description@
        &&& self.goal@ == f.label@
        &&& calls_all(self.invocations@, front(members(all, f.code@)))
    }
}

/// A family that gets a preset.
#[derive(Clone, Copy)]
pub struct Family {
    pub code: &'static str,
    pub key: &'static str,
    pub label: &'static str,
    pub description: &'static str,
}

/// Linear algebra.
pub open spec fn la_family() -> Family {
    Family {
        code: "LA",
        key: "family-la",
        label: "Linear algebra family",
        description:
            "Every native LA primitive at matmul defaults. Tests photonic vs in-memory vs reversible head-to-head.",
    }
}

/// Sampling.
pub open spec fn prob_family() -> Family {
    Family {
        code: "PROB",
        key: "family-prob",
        label: "Probabilistic family",
        description:
            "Sampling-class primitives. Routes everything to the stochastic substrate.",
    }
}

/// Transforms.
pub open spec fn tr_family() -> Family {
    Family {
        code: "TR",
        key: "family-tr",
        label: "Transforms family",
        description:
            "Bijective transforms (FFT, wavelet, …). Where the reversible substrate is at its best.",
    }
}

/// The showcase of a substrate; the comparator, and a substrate without
/// natives, have none.
fn showcase<T: Scalar>(catalog: &Catalog, d: &Dialect<T>) -> (r: Option<Preset>)
    ensures
        match r {
            Some(preset) => has_showcase(catalog.primitives@, *d) && preset.showcases(
                catalog.primitives@,
                *d,
            ),
            None => !has_showcase(catalog.primitives@, *d),
        },
{
    if same_text(d.name(), BASELINE_NAME) {
        return None;
    }
    let invocations = native_calls(catalog, d);
    let n: usize = invocations.len();
    if n == 0 {
        return None;
    }
    let mut key = "showcase-".to_string();
    key.append(d.name());
    let mut label = d.display_name().to_string();
    label.append(" · ");
    label.append(decimal_text(n as u64).as_str());
    label.append(" native op");
    if n != 1 {
        label.append("s");
    }
    let mut description =
        "Auto-generated from the Periodic Stack catalog: every primitive ".to_string();
    description.append(d.display_name());
    description.append(" natively supports, at sensible default shapes.");
    let mut goal = d.display_name().to_string();
    goal.append(" showcase");
    assert(label@ =~= d.shown() + " · "@ + decimal(n as nat) + " native op"@ + (if n == 1 {
        Seq::empty()
    } else {
        "s"@
    }));
    Some(
        Preset {
            key,
            label,
            category: "Substrate showcase".to_string(),
            description,
            goal,
            invocations,
        },
    )
}

/// Whether a substrate gets a showcase.
pub open spec fn has_showcase<T: Scalar>(all: Seq<Primitive>, d: Dialect<T>) -> bool {
    d.named() != BASELINE_NAME@ && natives(all, d).len() > 0
}

/// A showcase asks a substrate only for what it runs, and for at most
/// [`MAX_OPS_PER_PRESET`] invocations.
pub proof fn showcases_stay_native<T: Scalar>(all: Seq<Primitive>, d: Dialect<T>, k: int)
    requires
        0 <= k < front(natives(all, d)).len(),
    ensures
        d.runs(front(natives(all, d))[k]),
        all.contains(front(natives(all, d))[k]),
        front(natives(all, d)).len() <= MAX_OPS_PER_PRESET,
{
    broadcast use vstd::seq_lib::group_filter_ensures;

    assert(front(natives(all, d))[k] == natives(all, d)[k]);
    let keep = |p: Primitive| d.runs(p);
    assert(all.filter(keep).contains(all.filter(keep)[k]));
    all.lemma_filter_contains_rev(keep, all.filter(keep)[k]);
}

/// The scan of a family; an empty family has none.
fn family_preset(catalog: &Catalog, f: &Family) -> (r: Option<Preset>)
    ensures
        match r {
            Some(preset) => members(catalog.primitives@, f.code@).len() > 0 && preset.scans(
                catalog.primitives@,
                *f,
            ),
            None => members(catalog.primitives@, f.code@).len() == 0,
        },
{
    let invocations = family_calls(catalog, f.code);
    let n: usize = invocations.len();
    if n == 0 {
        return None;
    }
    let mut label = f.label.to_string();
    label.append(" · ");
    label.append(decimal_text(n as u64).as_str());
    label.append(" primitives");
    Some(
        Preset {
            key: f.key.to_string(),
            label,
            category: "Family scan".to_string(),
            description: f.description.to_string(),
            goal: f.label.to_string(),
            invocations,
        },
    )
}

/// The substrates that get a showcase, in order.
pub open spec fn showcased<T: Scalar>(
    all: Seq<Primitive>,
    ds: Seq<Dialect<T>>,
) -> Seq<Dialect<T>> {
    ds.filter(|d: Dialect<T>| has_showcase(all, d))
}

/// The families that get a scan, in order.
pub open spec fn scanned(all: Seq<Primitive>) -> Seq<Family> {
    seq![la_family(), prob_family(), tr_family()].filter(
        |f: Family| members(all, f.code@).len() > 0,
    )
}

/// All presets: a showcase for each substrate that has one, in order, then a
/// scan for each family that has members.
pub fn enumerate_presets<T: Scalar>(
    catalog: &Catalog,
    substrates: &Vec<Dialect<T>>,
) -> (r: Vec<Preset>)
    ensures
        ({
            let shown = showcased(catalog.primitives@, substrates@);
            let families = scanned(catalog.primitives@);
            &&& r@.len() == shown.len() + families.len()
            &&& forall|k: int|
                #![trigger r@[k]]
                0 <= k < shown.len() ==> r@[k].showcases(catalog.primitives@, shown[k])
            &&& forall|k: int|
                #![trigger r@[k]]
                shown.len() <= k < r@.len() ==> r@[k].scans(
                    catalog.primitives@,
                    families[k - shown.len()],
                )
        }),
{
    let ghost all = catalog.primitives@;
    let ghost keep = |d: Dialect<T>| has_showcase(all, d);
    let mut out: Vec<Preset> = Vec::new();
    let mut k: usize = 0;
    proof {
        reveal(Seq::filter);
        assert(substrates@.take(0).filter(keep) =~= Seq::empty());
    }
    while k < substrates.len()
        invariant
            k <= substrates@.len(),
            all == catalog.primitives@,
            keep == (|d: Dialect<T>| has_showcase(all, d)),
            out@.len() == substrates@.take(k as int).filter(keep).len(),
            forall|m: int|
                #![trigger out@[m]]
                0 <= m < out@.len() ==> out@[m].showcases(
                    all,
                    substrates@.take(k as int).filter(keep)[m],
                ),
        decreases substrates@.len() - k,
    {
        proof {
            reveal(Seq::filter);
            assert(substrates@.take(k + 1).drop_last() =~= substrates@.take(k as int));
            assert(substrates@.take(k + 1).last() == substrates@[k as int]);
        }
        if let Some(preset) = showcase(catalog, &substrates[k]) {
            out.push(preset);
        }
        k += 1;
    }
    assert(substrates@.take(substrates@.len() as int) =~= substrates@);
    assert(substrates@.filter(keep) == showcased(all, substrates@));
    let ghost shown = showcased(all, substrates@);
    let la = Family {
        code: "LA",
        key: "family-la",
        label: "Linear algebra family",
        description:
            "Every native LA primitive at matmul defaults. Tests photonic vs in-memory vs reversible head-to-head.",
    };
    let prob = Family {
        code: "PROB",
        key: "family-prob",
        label: "Probabilistic family",
        description:
            "Sampling-class primitives. Routes everything to the stochastic substrate.",
    };
    let tr = Family {
        code: "TR",
        key: "family-tr",
        label: "Transforms family",
        description:
            "Bijective transforms (FFT, wavelet, …). Where the reversible substrate is at its best.",
    };
    proof {
        lemma_scanned(all);
    }
    if let Some(preset) = family_preset(catalog, &la) {
        out.push(preset);
    }
    if let Some(preset) = family_preset(catalog, &prob) {
        out.push(preset);
    }
    if let Some(preset) = family_preset(catalog, &tr) {
        out.push(preset);
    }
    out
}

/// `scanned`, family by family.
proof fn lemma_scanned(all: Seq<Primitive>)
    ensures
        scanned(all) == (if members(all, la_family().code@).len() > 0 {
            seq![la_family()]
        } else {
            Seq::empty()
        }) + (if members(all, prob_family().code@).len() > 0 {
            seq![prob_family()]
        } else {
            Seq::empty()
        }) + (if members(all, tr_family().code@).len() > 0 {
            seq![tr_family()]
        } else {
            Seq::empty()
        }),
{
    reveal_with_fuel(Seq::filter, 4);
    let three = seq![la_family(), prob_family(), tr_family()];
    let two = seq![la_family(), prob_family()];
    let one = seq![la_family()];
    assert(three.drop_last() =~= two);
    assert(two.drop_last() =~= one);
    assert(one.drop_last() =~= Seq::empty());
    assert(scanned(all) =~= (if members(all, la_family().code@).len() > 0 {
        seq![la_family()]
    } else {
        Seq::empty()
    }) + (if members(all, prob_family().code@).len() > 0 {
        seq![prob_family()]
    } else {
        Seq::empty()
    }) + (if members(all, tr_family().code@).len() > 0 {
        seq![tr_family()]
    } else {
        Seq::empty()
    }));
}

} // verus!
