//! Projection: the acceptor of one side of a transducer.

use vstd::prelude::*;
use crate::fst_properties::{FstProperties, ACCEPTOR_BIT};
use crate::fst_traits::MutableFst;
use crate::fst_view::{tr_meets, FstView};
use crate::semirings::semiring::Semiring;
use crate::tr::Tr;

verus! {

/// The side of a transducer that a projection keeps.
#[derive(Clone, Copy, Debug, PartialEq, Eq, Structural)]
pub enum ProjectType {
    /// The input labels are copied onto the output labels.
    ProjectInput,
    /// The output labels are copied onto the input labels.
    ProjectOutput,
}

/// The transition with the label of one side on both sides.
pub open spec fn projected_tr<W: Semiring>(tr: Tr<W>, project_type: ProjectType) -> Tr<W> {
    match project_type {
        ProjectType::ProjectInput => Tr {
            ilabel: tr.ilabel,
            olabel: tr.ilabel,
            weight: tr.weight,
            nextstate: tr.nextstate,
        },
        ProjectType::ProjectOutput => Tr {
            ilabel: tr.olabel,
            olabel: tr.olabel,
            weight: tr.weight,
            nextstate: tr.nextstate,
        },
    }
}

/// The transitions, each with the label of one side on both sides.
pub open spec fn projected_trs<W: Semiring>(trs: Seq<Tr<W>>, project_type: ProjectType) -> Seq<
    Tr<W>,
> {
    Seq::new(trs.len(), |i: int| projected_tr(trs[i], project_type))
}

/// The transducer with the labels of one side copied onto the other in its
/// first `n` states, and with the given property bits.
pub open spec fn projected_upto<W: Semiring>(
    f: FstView<W>,
    project_type: ProjectType,
    n: int,
    properties: Set<u64>,
) -> FstView<W> {
    f.with_states(
        Seq::new(
            f.states.len(),
            |s: int|
                if s < n {
                    f.states[s].with_trs(projected_trs(f.states[s].trs, project_type))
                } else {
                    f.states[s]
                },
        ),
    ).with_properties(properties)
}

/// The acceptor of one side of the transducer: every transition has the
/// label of that side on both sides. All that is known of it is that it is
/// an acceptor.
pub open spec fn projected<W: Semiring>(f: FstView<W>, project_type: ProjectType) -> FstView<W> {
    projected_upto(f, project_type, f.states.len() as int, set![ACCEPTOR_BIT])
}

/// Copies the labels of one side of every transition onto the other side, in
/// place.
pub fn project<W: Semiring, F: MutableFst<W>>(fst: &mut F, project_type: ProjectType)
    requires
        old(fst)@.wf(),
    ensures
        final(fst)@ == projected(old(fst)@, project_type),
        final(fst)@.wf(),
{
    let ghost f = fst@;
    let n = fst.num_states();
    proof {
        f.lemma_with_properties_wf(Set::empty());
        assert(f.with_properties(Set::empty()) =~= projected_upto(
            f,
            project_type,
            0,
            Set::empty(),
        ));
    }
    fst.set_properties(FstProperties::empty());
    let mut s: usize = 0;
    while s < n
        invariant
            s <= n,
            n == f.states.len(),
            f.wf(),
            fst@.wf(),
            fst@ == projected_upto(f, project_type, s as int, Set::empty()),
        decreases n - s,
    {
        let trs = fst.pop_trs_unchecked(s);
        let mut out: Vec<Tr<W>> = Vec::new();
        let mut i: usize = 0;
        while i < trs.len()
            invariant
                i <= trs.len(),
                out@ =~= projected_trs(trs@.take(i as int), project_type),
            decreases trs.len() - i,
        {
            let tr = trs[i];
            let label = match project_type {
                ProjectType::ProjectInput => tr.ilabel,
                ProjectType::ProjectOutput => tr.olabel,
            };
            out.push(Tr::new(label, label, tr.weight, tr.nextstate));
            i += 1;
        }
        proof {
            assert(trs@.take(trs@.len() as int) =~= trs@);
            assert forall|j: int| 0 <= j < out@.len() implies (#[trigger] out@[j]).nextstate
                < fst@.states.len() by {
                assert(f.has_tr(s as int, j));
            }
        }
        fst.set_trs_unchecked(s, out);
        proof {
            let g = projected_upto(f, project_type, s + 1, Set::empty());
            assert(fst@.states =~= g.states);
            assert(fst@ =~= g);
        }
        s += 1;
    }
    proof {
        let g = fst@;
        assert(g.every_tr_meets(ACCEPTOR_BIT)) by {
            assert forall|t: int, i: int| #[trigger] g.has_tr(t, i) implies tr_meets(
                ACCEPTOR_BIT,
                t,
                g.tr(t, i),
            ) by {}
        }
        assert(g.properties_hold(set![ACCEPTOR_BIT])) by {
            assert forall|k: u64| set![ACCEPTOR_BIT].contains(k) implies #[trigger] g.property_fact(
                k,
            ) by {}
        }
    }
    fst.set_properties(FstProperties::empty().insert_bit(ACCEPTOR_BIT));
    proof {
        assert(fst@.properties =~= set![ACCEPTOR_BIT]);
        assert(fst@ =~= projected(f, project_type));
    }
}

} // verus!
