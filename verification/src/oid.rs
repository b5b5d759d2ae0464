//! Object identifiers as arc sequences.

use vstd::prelude::*;

verus! {

/// An object identifier: an ordered, non-empty sequence of unsigned 64-bit
/// arcs. Immutable once built; equality is component-wise.
#[derive(Debug)]
pub struct Oid {
    arcs: Vec<u64>,
}

impl View for Oid {
    type V = Seq<u64>;

    closed spec fn view(&self) -> Seq<u64> {
        self.arcs@
    }
}

impl Oid {
    /// Well-formed: at least one arc.
    pub open spec fn wf(&self) -> bool {
        self@.len() > 0
    }

    pub fn from_slice(arcs: &[u64]) -> (r: Oid)
        requires
            arcs@.len() > 0,
        ensures
            r@ == arcs@,
            r.wf(),
    {
        Oid { arcs: vstd::slice::slice_to_vec(arcs) }
    }

    pub fn from_vec(arcs: Vec<u64>) -> (r: Oid)
        requires
            arcs@.len() > 0,
        ensures
            r@ == arcs@,
            r.wf(),
    {
        Oid { arcs }
    }

    /// The arcs, most significant first.
    pub fn components(&self) -> (r: &Vec<u64>)
        ensures
            r@ == self@,
    {
        &self.arcs
    }
}

impl PartialEq for Oid {
    fn eq(&self, other: &Oid) -> (r: bool) {
        let r = self.arcs == other.arcs;
        proof {
            if r {
                assert(self.arcs@ =~= other.arcs@);
            }
        }
        r
    }
}

impl vstd::std_specs::cmp::PartialEqSpecImpl for Oid {
    open spec fn obeys_eq_spec() -> bool {
        true
    }

    open spec fn eq_spec(&self, other: &Oid) -> bool {
        self@ == other@
    }
}

/// The arcs of `id-ce-nameConstraints` (RFC 5280, 4.2.1.10).
pub open spec fn spec_name_constraints_oid() -> Seq<u64> {
    seq![2u64, 5u64, 29u64, 30u64]
}

/// The arcs of the CT poison extension (RFC 6962, 3.1).
pub open spec fn spec_poison_oid() -> Seq<u64> {
    seq![1u64, 3u64, 6u64, 1u64, 4u64, 1u64, 11129u64, 2u64, 4u64, 3u64]
}

/// `id-ce-nameConstraints`.
pub fn name_constraints_oid() -> (r: Oid)
    ensures
        r@ == spec_name_constraints_oid(),
{
    let arcs: Vec<u64> = vec![2, 5, 29, 30];
    proof {
        assert(arcs@ =~= spec_name_constraints_oid());
    }
    Oid::from_vec(arcs)
}

/// The poison extension OID.
pub fn poison_oid() -> (r: Oid)
    ensures
        r@ == spec_poison_oid(),
{
    let arcs: Vec<u64> = vec![1, 3, 6, 1, 4, 1, 11129, 2, 4, 3];
    proof {
        assert(arcs@ =~= spec_poison_oid());
    }
    Oid::from_vec(arcs)
}

/// The OIDs a scan looks for: currently `nameConstraints` alone.
pub fn interesting_oids() -> (r: Vec<Oid>)
    ensures
        r@.len() == 1,
        r@[0]@ == spec_name_constraints_oid(),
{
    let mut out: Vec<Oid> = Vec::new();
    out.push(name_constraints_oid());
    out
}

} // verus!
