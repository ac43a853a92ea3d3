//! One tick of the consolidator: the eligible nodes are taken in order, and
//! each either registers its handle as canonical, is sent to the canonical
//! handle of its content, or waits for its content.

use vstd::prelude::*;
use crate::fingerprint::{hash_mesh, mesh_fingerprint, MaterialHash, Mesh};
use crate::instances::{
    any_fresh, consistent, drain, lemma_drain_consistent, Instances, InstancesView, Observation,
    Outcome,
};

verus! {

/// An eligible node that holds a resource: the handle it refers to and the
/// content behind the handle, `None` while the content is not resolved.
pub struct Candidate<T> {
    pub handle: u64,
    pub content: Option<T>,
}

/// The two counters reported after a tick that computed a fingerprint.
#[derive(Clone, Copy, Debug, PartialEq, Eq, Structural)]
pub struct Report {
    /// Nodes rewritten to a shared handle since startup.
    pub duplicates: u32,
    /// Distinct canonical resources known.
    pub unique: usize,
}

/// What one tick decided: an outcome for each candidate, in the candidates'
/// order, and the report if one is due.
pub struct Tick {
    pub outcomes: Vec<Outcome>,
    pub report: Option<Report>,
}

/// The fingerprint of a material candidate's content, where it is resolved.
pub open spec fn material_print<M: MaterialHash>(content: Option<M>) -> Option<u64> {
    match content {
        Some(m) => Some(m.fingerprint()),
        None => None,
    }
}

/// The fingerprint of a mesh candidate's content, where it is resolved.
pub open spec fn mesh_print(content: Option<Mesh>) -> Option<u64> {
    match content {
        Some(m) => Some(mesh_fingerprint(m@)),
        None => None,
    }
}

/// The material candidates as the consolidator sees them.
pub open spec fn material_observations<M: MaterialHash>(entities: Seq<Candidate<M>>) -> Seq<
    Observation,
> {
    Seq::new(
        entities.len(),
        |i: int|
            Observation {
                handle: entities[i].handle,
                fingerprint: material_print(entities[i].content),
            },
    )
}

/// The mesh candidates as the consolidator sees them.
pub open spec fn mesh_observations(entities: Seq<Candidate<Mesh>>) -> Seq<Observation> {
    Seq::new(
        entities.len(),
        |i: int|
            Observation {
                handle: entities[i].handle,
                fingerprint: mesh_print(entities[i].content),
            },
    )
}

/// The report that is due after a tick over `obs` from state `before` to
/// state `after`: the counters of `after` if some candidate was fresh.
pub open spec fn report_due(
    before: InstancesView,
    obs: Seq<Observation>,
    report: Option<Report>,
) -> bool {
    let after = drain(before, obs).0;
    if any_fresh(before, obs) {
        report matches Some(r) && r.duplicates == after.duplicates && r.unique
            == after.canonical.len()
    } else {
        report.is_none()
    }
}

proof fn lemma_drain_counts(s: InstancesView, obs: Seq<Observation>)
    ensures
        drain(s, obs).0.duplicates <= s.duplicates + obs.len(),
    decreases obs.len(),
{
    if obs.len() > 0 {
        lemma_drain_counts(s, obs.drop_last());
    }
}

fn report_for(state: &Instances, due: bool) -> (report: Option<Report>)
    requires
        state@.duplicates <= u32::MAX,
    ensures
        if due {
            report matches Some(r) && r.duplicates == state@.duplicates && r.unique
                == state@.canonical.len()
        } else {
            report.is_none()
        },
{
    if due {
        Some(Report { duplicates: state.duplicates(), unique: state.unique() })
    } else {
        None
    }
}

/// Drains the nodes that are eligible for material consolidation.
///
/// A candidate whose handle is already canonical keeps it. One whose content
/// is not resolved is left to a later tick, and to the one after, without
/// limit: nothing is dropped for taking long. Any other has its content
/// fingerprinted: the first handle seen with a fingerprint becomes canonical
/// for it, and every later one is sent to that handle and counted. Contents
/// with one fingerprint are taken to be the same content: a collision of the
/// digest is neither looked for nor reported.
pub fn consolidate_material_instances<M: MaterialHash>(
    entities: &Vec<Candidate<M>>,
    state: &mut Instances,
) -> (tick: Tick)
    requires
        old(state)@.duplicates + entities@.len() <= u32::MAX,
    ensures
        final(state)@ == drain(old(state)@, material_observations(entities@)).0,
        tick.outcomes@ == drain(old(state)@, material_observations(entities@)).1,
        report_due(old(state)@, material_observations(entities@), tick.report),
        consistent(old(state)@) ==> consistent(final(state)@),
{
    let ghost obs = material_observations(entities@);
    let mut outcomes: Vec<Outcome> = Vec::new();
    let mut print = false;
    let mut i: usize = 0;
    while i < entities.len()
        invariant
            i <= entities@.len(),
            obs == material_observations(entities@),
            old(state)@.duplicates + entities@.len() <= u32::MAX,
            state@ == drain(old(state)@, obs.take(i as int)).0,
            outcomes@ == drain(old(state)@, obs.take(i as int)).1,
            print == any_fresh(old(state)@, obs.take(i as int)),
        decreases entities@.len() - i,
    {
        let entity = &entities[i];
        proof {
            lemma_drain_counts(old(state)@, obs.take(i as int));
            assert(obs.take(i + 1).drop_last() =~= obs.take(i as int));
            assert(obs.take(i + 1).last() == obs[i as int]);
        }
        let fingerprint = if state.contains(entity.handle) {
            None
        } else {
            match &entity.content {
                None => None,
                Some(material) => Some(material.generate_hash()),
            }
        };
        if fingerprint.is_some() {
            print = true;
        }
        outcomes.push(state.observe(entity.handle, fingerprint));
        i += 1;
    }
    proof {
        assert(obs.take(entities@.len() as int) =~= obs);
        lemma_drain_counts(old(state)@, obs);
        if consistent(old(state)@) {
            lemma_drain_consistent(old(state)@, obs);
        }
    }
    let report = report_for(state, print);
    Tick { outcomes, report }
}

/// Drains the nodes that are eligible for mesh consolidation, by the same
/// rule as for materials.
pub fn consolidate_mesh_instances(entities: &Vec<Candidate<Mesh>>, state: &mut Instances) -> (tick:
    Tick)
    requires
        old(state)@.duplicates + entities@.len() <= u32::MAX,
    ensures
        final(state)@ == drain(old(state)@, mesh_observations(entities@)).0,
        tick.outcomes@ == drain(old(state)@, mesh_observations(entities@)).1,
        report_due(old(state)@, mesh_observations(entities@), tick.report),
        consistent(old(state)@) ==> consistent(final(state)@),
{
    let ghost obs = mesh_observations(entities@);
    let mut outcomes: Vec<Outcome> = Vec::new();
    let mut print = false;
    let mut i: usize = 0;
    while i < entities.len()
        invariant
            i <= entities@.len(),
            obs == mesh_observations(entities@),
            old(state)@.duplicates + entities@.len() <= u32::MAX,
            state@ == drain(old(state)@, obs.take(i as int)).0,
            outcomes@ == drain(old(state)@, obs.take(i as int)).1,
            print == any_fresh(old(state)@, obs.take(i as int)),
        decreases entities@.len() - i,
    {
        let entity = &entities[i];
        proof {
            lemma_drain_counts(old(state)@, obs.take(i as int));
            assert(obs.take(i + 1).drop_last() =~= obs.take(i as int));
            assert(obs.take(i + 1).last() == obs[i as int]);
        }
        let fingerprint = if state.contains(entity.handle) {
            None
        } else {
            match &entity.content {
                None => None,
                Some(mesh) => Some(hash_mesh(mesh)),
            }
        };
        if fingerprint.is_some() {
            print = true;
        }
        outcomes.push(state.observe(entity.handle, fingerprint));
        i += 1;
    }
    proof {
        assert(obs.take(entities@.len() as int) =~= obs);
        lemma_drain_counts(old(state)@, obs);
        if consistent(old(state)@) {
            lemma_drain_consistent(old(state)@, obs);
        }
    }
    let report = report_for(state, print);
    Tick { outcomes, report }
}

} // verus!
