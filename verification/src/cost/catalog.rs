//! Primitives and operation profiles, as the dispatcher reads them.

use crate::text::begins_with;
use crate::text::same_text;
use vstd::prelude::*;

verus! {

/// One primitive of the catalog.
#[derive(Debug, Clone)]
pub struct Primitive {
    pub id: u32,
    pub name: String,
    pub family: String,
    /// Thermodynamic class, e.g. `L0`, `L1`, `L2`, `L2max`.
    pub thermo: String,
    /// Whether the catalog counts it as bijective.
    pub is_l0: bool,
    /// Whether the catalog counts it as sampling.
    pub is_l1: bool,
    /// Whether the catalog has a reversible decomposition of it.
    pub has_bennett: bool,
}

/// Thermodynamic class as the cost models tell it apart.
#[derive(Debug, Clone, Copy, PartialEq, Eq, Structural)]
pub enum Thermo {
    L0,
    L1,
    L2,
    L2Max,
}

/// The class that a catalog entry names: anything that begins with `L0`; `L1`
/// and `L2max` as they stand; every other name counts as `L2`.
pub open spec fn thermo_class(name: Seq<char>) -> Thermo {
    if "L0"@.is_prefix_of(name) {
        Thermo::L0
    } else if name == "L1"@ {
        Thermo::L1
    } else if name == "L2max"@ {
        Thermo::L2Max
    } else {
        Thermo::L2
    }
}

impl Primitive {
    /// Thermodynamic class of the primitive.
    pub fn class(&self) -> (r: Thermo)
        ensures
            r == thermo_class(self.thermo@),
    {
        if begins_with(self.thermo.as_str(), "L0") {
            Thermo::L0
        } else if same_text(self.thermo.as_str(), "L1") {
            Thermo::L1
        } else if same_text(self.thermo.as_str(), "L2max") {
            Thermo::L2Max
        } else {
            Thermo::L2
        }
    }
}

/// What one invocation works on.
#[derive(Debug, Clone, Copy)]
pub struct OpProfile<T> {
    /// Elements of the result tensor.
    pub elements: u64,
    /// Reduction dimension.
    pub reduce_dim: Option<u64>,
    pub batch: u64,
    /// Bits of one operand.
    pub operand_bits: u64,
    pub sparsity: T,
    pub sweeps: Option<u64>,
    pub variables: Option<u64>,
    /// Multiply-accumulates of one invocation, where it has that structure.
    pub matmul_macs: Option<u64>,
    /// Sample events of one invocation, where it has that structure.
    pub sample_events: Option<u64>,
}

/// The catalog: primitives in their curated order.
pub struct Catalog {
    pub primitives: Vec<Primitive>,
}

impl Catalog {
    /// Whether `k` is the first place of a primitive with this id.
    pub open spec fn at(&self, id: u32, k: int) -> bool {
        &&& 0 <= k < self.primitives@.len()
        &&& self.primitives@[k].id == id
        &&& forall|m: int| 0 <= m < k ==> (#[trigger] self.primitives@[m]).id != id
    }

    /// Whether a primitive has this id.
    pub open spec fn has(&self, id: u32) -> bool {
        exists|k: int| 0 <= k < self.primitives@.len() && (#[trigger] self.primitives@[k]).id == id
    }

    /// Place of the primitive with this id.
    pub fn get(&self, id: u32) -> (r: Option<usize>)
        ensures
            match r {
                Some(k) => self.at(id, k as int),
                None => !self.has(id),
            },
    {
        let mut k: usize = 0;
        while k < self.primitives.len()
            invariant
                k <= self.primitives@.len(),
                forall|m: int| 0 <= m < k ==> (#[trigger] self.primitives@[m]).id != id,
            decreases self.primitives@.len() - k,
        {
            if self.primitives[k].id == id {
                return Some(k);
            }
            k += 1;
        }
        None
    }
}

} // verus!
