use vstd::prelude::*;

verus! {

/// Why a run was refused or could not produce a result.
#[derive(Clone, Copy, Debug, PartialEq, Eq)]
pub enum OptError {
    /// The four outcome vectors differ in length.
    InputShapeMismatch,
    /// The treatment quota is zero or exceeds the number of units.
    InvalidQuota,
    /// A run setting is out of range: an empty generation, one too large to
    /// also hold the two anchors, or a decay outside `(0, 1]`.
    InvalidSettings,
    /// The final elite tier is empty or holds the whole generation.
    DegenerateResult,
}

/// Per-unit outcome estimates under treatment and control, for two
/// objectives.
#[derive(Clone, Debug)]
pub struct PotentialOutcomes {
    pub obj1_treated: Vec<i64>,
    pub obj1_control: Vec<i64>,
    pub obj2_treated: Vec<i64>,
    pub obj2_control: Vec<i64>,
}

impl PotentialOutcomes {
    /// All four vectors have one entry per unit.
    pub open spec fn wf(&self) -> bool {
        &&& self.obj1_control@.len() == self.obj1_treated@.len()
        &&& self.obj2_treated@.len() == self.obj1_treated@.len()
        &&& self.obj2_control@.len() == self.obj1_treated@.len()
    }

    pub open spec fn units(&self) -> nat {
        self.obj1_treated@.len()
    }

    /// Bundles the four vectors; they must have one common length.
    pub fn new(
        obj1_treated: Vec<i64>,
        obj1_control: Vec<i64>,
        obj2_treated: Vec<i64>,
        obj2_control: Vec<i64>,
    ) -> (r: Result<PotentialOutcomes, OptError>)
        ensures
            (obj1_control@.len() == obj1_treated@.len() && obj2_treated@.len()
                == obj1_treated@.len() && obj2_control@.len() == obj1_treated@.len()) <==> r is Ok,
            r is Err ==> r == Err::<PotentialOutcomes, OptError>(OptError::InputShapeMismatch),
            r matches Ok(o) ==> o.wf() && o.obj1_treated@ == obj1_treated@ && o.obj1_control@
                == obj1_control@ && o.obj2_treated@ == obj2_treated@ && o.obj2_control@
                == obj2_control@,
    {
        let n = obj1_treated.len();
        if obj1_control.len() != n || obj2_treated.len() != n || obj2_control.len() != n {
            return Err(OptError::InputShapeMismatch);
        }
        Ok(PotentialOutcomes { obj1_treated, obj1_control, obj2_treated, obj2_control })
    }

    pub fn len(&self) -> (r: usize)
        ensures
            r == self.units(),
    {
        self.obj1_treated.len()
    }
}

/// Treatment advantage of each unit: treated estimate minus control estimate.
pub open spec fn advantage_of(treated: Seq<i64>, control: Seq<i64>) -> Seq<i128> {
    Seq::new(treated.len(), |u: int| (treated[u] - control[u]) as i128)
}

/// Per-unit treatment advantage.
pub fn advantage(treated: &Vec<i64>, control: &Vec<i64>) -> (r: Vec<i128>)
    requires
        control@.len() == treated@.len(),
    ensures
        r@ == advantage_of(treated@, control@),
        forall|u: int| 0 <= u < r@.len() ==> r@[u] as int == treated@[u] - control@[u],
{
    let mut r: Vec<i128> = Vec::new();
    let mut u: usize = 0;
    while u < treated.len()
        invariant
            u <= treated@.len(),
            control@.len() == treated@.len(),
            r@ =~= advantage_of(treated@, control@).take(u as int),
        decreases treated@.len() - u,
    {
        r.push(treated[u] as i128 - control[u] as i128);
        u = u + 1;
    }
    assert(r@ =~= advantage_of(treated@, control@));
    r
}

} // verus!
