//! The running state of one consolidator and the rule by which it treats
//! one eligible node after another.

use vstd::prelude::*;
use crate::store::{
    index_entries, index_get, index_insert, index_len, index_new, set_contains, set_insert,
    set_members, set_new, FingerprintIndex, HandleSet,
};

verus! {

/// What the consolidator decides for one eligible node.
#[derive(Clone, Copy, Debug, PartialEq, Eq, Structural)]
pub enum Outcome {
    /// The content is not there yet: the node keeps its eligibility marker
    /// and comes up again on a later tick, for as long as it takes.
    Retry,
    /// The node keeps the handle it has and loses its eligibility marker.
    Keep,
    /// The node's reference is rewritten to the handle given, and the node
    /// loses its eligibility marker.
    Share(u64),
}

/// One eligible node as the consolidator sees it: the handle it holds and,
/// where the content is resolved, the fingerprint of that content.
pub struct Observation {
    pub handle: u64,
    pub fingerprint: Option<u64>,
}

/// The state of a consolidator as mathematics.
pub struct InstancesView {
    /// Fingerprint to the first handle seen with it.
    pub canonical: Map<u64, u64>,
    /// The handles registered as canonical so far.
    pub seen: Set<u64>,
    /// How many nodes were rewritten to a shared handle so far.
    pub duplicates: nat,
}

/// What holds of every state a consolidator is in: both collections are
/// finite, and every canonical handle is among the handles seen.
pub open spec fn consistent(s: InstancesView) -> bool {
    &&& s.canonical.dom().finite()
    &&& s.seen.finite()
    &&& forall|f: u64| #[trigger] s.canonical.contains_key(f) ==> s.seen.contains(s.canonical[f])
}

/// The observation makes the consolidator compute a fingerprint: its handle
/// is new and its content is there.
pub open spec fn fresh(s: InstancesView, o: Observation) -> bool {
    !s.seen.contains(o.handle) && o.fingerprint.is_some()
}

/// The state after one node, and what was decided for it.
pub open spec fn step(s: InstancesView, o: Observation) -> (InstancesView, Outcome) {
    if s.seen.contains(o.handle) {
        (s, Outcome::Keep)
    } else {
        match o.fingerprint {
            None => (s, Outcome::Retry),
            Some(f) => if s.canonical.contains_key(f) {
                (
                    InstancesView { duplicates: s.duplicates + 1, ..s },
                    Outcome::Share(s.canonical[f]),
                )
            } else {
                (
                    InstancesView {
                        canonical: s.canonical.insert(f, o.handle),
                        seen: s.seen.insert(o.handle),
                        duplicates: s.duplicates,
                    },
                    Outcome::Keep,
                )
            },
        }
    }
}

/// The state after the nodes of one tick, taken in order, and what was
/// decided for each.
pub open spec fn drain(s: InstancesView, obs: Seq<Observation>) -> (InstancesView, Seq<Outcome>)
    decreases obs.len(),
{
    if obs.len() == 0 {
        (s, Seq::<Outcome>::empty())
    } else {
        let (before, outcomes) = drain(s, obs.drop_last());
        let (after, outcome) = step(before, obs.last());
        (after, outcomes.push(outcome))
    }
}

/// Some node of the tick was fresh when its turn came.
pub open spec fn any_fresh(s: InstancesView, obs: Seq<Observation>) -> bool
    decreases obs.len(),
{
    if obs.len() == 0 {
        false
    } else {
        any_fresh(s, obs.drop_last()) || fresh(drain(s, obs.drop_last()).0, obs.last())
    }
}

/// How many nodes of the tick were fresh when their turn came.
pub open spec fn fresh_count(s: InstancesView, obs: Seq<Observation>) -> nat
    decreases obs.len(),
{
    if obs.len() == 0 {
        0
    } else {
        fresh_count(s, obs.drop_last()) + if fresh(drain(s, obs.drop_last()).0, obs.last()) {
            1nat
        } else {
            0nat
        }
    }
}

/// The long-lived state of the consolidator of one resource kind.
pub struct Instances {
    instances: FingerprintIndex,
    handles: HandleSet,
    count: u32,
}

impl View for Instances {
    type V = InstancesView;

    closed spec fn view(&self) -> InstancesView {
        InstancesView {
            canonical: index_entries(self.instances),
            seen: set_members(self.handles),
            duplicates: self.count as nat,
        }
    }
}

impl Instances {
    /// The state at startup: nothing seen, nothing counted.
    pub fn new() -> (out: Instances)
        ensures
            out@.canonical == (Map::<u64, u64>::empty()),
            out@.seen == Set::<u64>::empty(),
            out@.duplicates == 0,
            consistent(out@),
    {
        Instances { instances: index_new(), handles: set_new(), count: 0 }
    }

    /// Whether `handle` is registered as canonical.
    pub fn contains(&self, handle: u64) -> (found: bool)
        ensures
            found == self@.seen.contains(handle),
    {
        set_contains(&self.handles, handle)
    }

    /// The canonical handle of `fingerprint`, if one is registered.
    pub fn canonical(&self, fingerprint: u64) -> (handle: Option<u64>)
        ensures
            handle == (if self@.canonical.contains_key(fingerprint) {
                Some(self@.canonical[fingerprint])
            } else {
                None
            }),
    {
        index_get(&self.instances, fingerprint)
    }

    /// How many nodes were rewritten to a shared handle so far.
    pub fn duplicates(&self) -> (n: u32)
        ensures
            n == self@.duplicates,
    {
        self.count
    }

    /// Whether the counter of duplicates has room for `n` more: what a tick
    /// over `n` nodes asks for.
    pub fn has_room(&self, n: usize) -> (ok: bool)
        ensures
            ok == (self@.duplicates + n <= u32::MAX),
    {
        n <= (u32::MAX - self.count) as usize
    }

    /// How many distinct fingerprints have a canonical handle.
    pub fn unique(&self) -> (n: usize)
        ensures
            n == self@.canonical.len(),
    {
        index_len(&self.instances)
    }

    /// Treats one node whose handle is new and whose content has the
    /// fingerprint given: the handle becomes canonical for the fingerprint,
    /// or the node is sent to the handle that already is.
    fn classify(&mut self, handle: u64, fingerprint: u64) -> (outcome: Outcome)
        requires
            !old(self)@.seen.contains(handle),
            old(self)@.duplicates < u32::MAX,
        ensures
            (final(self)@, outcome) == step(
                old(self)@,
                (Observation { handle, fingerprint: Some(fingerprint) }),
            ),
    {
        match index_get(&self.instances, fingerprint) {
            Some(first) => {
                self.count = self.count + 1;
                Outcome::Share(first)
            },
            None => {
                index_insert(&mut self.instances, fingerprint, handle);
                set_insert(&mut self.handles, handle);
                Outcome::Keep
            },
        }
    }

    /// Treats one eligible node: `handle` is what it refers to, and
    /// `fingerprint` that of its content, `None` while unresolved.
    pub fn observe(&mut self, handle: u64, fingerprint: Option<u64>) -> (outcome: Outcome)
        requires
            old(self)@.duplicates < u32::MAX,
        ensures
            (final(self)@, outcome) == step(old(self)@, (Observation { handle, fingerprint })),
            consistent(old(self)@) ==> consistent(final(self)@),
    {
        if self.contains(handle) {
            Outcome::Keep
        } else {
            match fingerprint {
                None => Outcome::Retry,
                Some(f) => self.classify(handle, f),
            }
        }
    }
}

/// A drain decides once for each node.
pub proof fn lemma_drain_len(s: InstancesView, obs: Seq<Observation>)
    ensures
        drain(s, obs).1.len() == obs.len(),
    decreases obs.len(),
{
    if obs.len() > 0 {
        lemma_drain_len(s, obs.drop_last());
    }
}

/// The state only grows: a fingerprint that has a canonical handle keeps that
/// handle for good, a handle once seen stays seen, and the count of
/// duplicates never falls.
pub proof fn lemma_drain_grows(s: InstancesView, obs: Seq<Observation>)
    ensures
        forall|f: u64| #[trigger]
            s.canonical.contains_key(f) ==> drain(s, obs).0.canonical.contains_key(f) && drain(
                s,
                obs,
            ).0.canonical[f] == s.canonical[f],
        s.seen.subset_of(drain(s, obs).0.seen),
        s.duplicates <= drain(s, obs).0.duplicates,
    decreases obs.len(),
{
    if obs.len() > 0 {
        lemma_drain_grows(s, obs.drop_last());
    }
}

/// The collections stay finite, and canonical handles stay among the
/// handles seen.
pub proof fn lemma_drain_consistent(s: InstancesView, obs: Seq<Observation>)
    requires
        consistent(s),
    ensures
        consistent(drain(s, obs).0),
    decreases obs.len(),
{
    if obs.len() > 0 {
        lemma_drain_consistent(s, obs.drop_last());
    }
}

/// A node that is sent elsewhere is sent to the handle that is canonical for
/// its own fingerprint when the tick ends.
pub proof fn lemma_shared_handle_is_canonical(s: InstancesView, obs: Seq<Observation>, i: int)
    requires
        0 <= i < obs.len(),
        drain(s, obs).1[i] is Share,
    ensures
        obs[i].fingerprint is Some,
        drain(s, obs).0.canonical.contains_key(obs[i].fingerprint->Some_0),
        drain(s, obs).1[i] == Outcome::Share(
            drain(s, obs).0.canonical[obs[i].fingerprint->Some_0],
        ),
    decreases obs.len(),
{
    let front = obs.drop_last();
    lemma_drain_len(s, front);
    if i < obs.len() - 1 {
        assert(front[i] == obs[i]);
        assert(drain(s, obs).1[i] == drain(s, front).1[i]);
        lemma_shared_handle_is_canonical(s, front, i);
        let mid = drain(s, front).0;
        let f = obs[i].fingerprint->Some_0;
        assert(mid.canonical.contains_key(f));
        assert(drain(s, obs).0 == step(mid, obs.last()).0);
    } else {
        assert(obs.last() == obs[i]);
    }
}

/// First seen wins. Where the nodes of a tick hold distinct new handles and
/// all have the same fingerprint, new as well, the first node keeps its
/// handle, which becomes canonical, every other node is sent to that handle,
/// and the count of duplicates rises by the number of those others. The map
/// and the set each grow by one.
pub proof fn lemma_first_seen_wins(s: InstancesView, obs: Seq<Observation>, f: u64)
    requires
        obs.len() >= 1,
        !s.canonical.contains_key(f),
        forall|i: int| 0 <= i < obs.len() ==> (#[trigger] obs[i]).fingerprint == Some(f),
        forall|i: int| 0 <= i < obs.len() ==> !s.seen.contains((#[trigger] obs[i]).handle),
        forall|i: int, j: int|
            0 <= i < j < obs.len() ==> (#[trigger] obs[i]).handle != (#[trigger] obs[j]).handle,
    ensures
        drain(s, obs).1.len() == obs.len(),
        drain(s, obs).1[0] == Outcome::Keep,
        forall|i: int|
            1 <= i < obs.len() ==> #[trigger] drain(s, obs).1[i] == Outcome::Share(obs[0].handle),
        drain(s, obs).0.canonical == s.canonical.insert(f, obs[0].handle),
        drain(s, obs).0.seen == s.seen.insert(obs[0].handle),
        drain(s, obs).0.duplicates == s.duplicates + obs.len() - 1,
        consistent(s) ==> drain(s, obs).0.canonical.len() == s.canonical.len() + 1 && drain(
            s,
            obs,
        ).0.seen.len() == s.seen.len() + 1,
    decreases obs.len(),
{
    let front = obs.drop_last();
    if obs.len() == 1 {
        assert(drain(s, front).0 == s);
        assert(obs.last() == obs[0]);
    } else {
        assert forall|i: int| 0 <= i < front.len() implies (#[trigger] front[i]).fingerprint
            == Some(f) by {
            assert(front[i] == obs[i]);
        }
        assert forall|i: int| 0 <= i < front.len() implies !s.seen.contains(
            (#[trigger] front[i]).handle,
        ) by {
            assert(front[i] == obs[i]);
        }
        assert forall|i: int, j: int| 0 <= i < j < front.len() implies (#[trigger] front[i]).handle
            != (#[trigger] front[j]).handle by {
            assert(front[i] == obs[i] && front[j] == obs[j]);
        }
        lemma_first_seen_wins(s, front, f);
        assert(front[0] == obs[0]);
        assert(obs.last() == obs[obs.len() - 1]);
        assert(obs[0].handle != obs[obs.len() - 1].handle);
        let (mid, outcomes) = drain(s, front);
        assert(!mid.seen.contains(obs.last().handle));
        assert(mid.canonical.contains_key(f));
        assert forall|i: int| 1 <= i < obs.len() implies #[trigger] drain(s, obs).1[i]
            == Outcome::Share(obs[0].handle) by {
            if i < obs.len() - 1 {
                assert(drain(s, obs).1[i] == outcomes[i]);
            }
        }
    }
}

/// A tick without work changes nothing. Where every node of a tick holds a
/// handle already seen, or content that is not resolved, the maps and the
/// counter stay as they were and no report is due. A tick without nodes is
/// the plainest case.
pub proof fn lemma_idle_tick(s: InstancesView, obs: Seq<Observation>)
    requires
        forall|i: int|
            0 <= i < obs.len() ==> s.seen.contains((#[trigger] obs[i]).handle)
                || obs[i].fingerprint.is_none(),
    ensures
        drain(s, obs).0 == s,
        !any_fresh(s, obs),
        forall|i: int|
            0 <= i < obs.len() ==> #[trigger] drain(s, obs).1[i] == (if s.seen.contains(
                obs[i].handle,
            ) {
                Outcome::Keep
            } else {
                Outcome::Retry
            }),
    decreases obs.len(),
{
    if obs.len() > 0 {
        let front = obs.drop_last();
        assert forall|i: int| 0 <= i < front.len() implies s.seen.contains(
            (#[trigger] front[i]).handle,
        ) || front[i].fingerprint.is_none() by {
            assert(front[i] == obs[i]);
        }
        lemma_idle_tick(s, front);
        lemma_drain_len(s, front);
        assert(obs.last() == obs[obs.len() - 1]);
        assert forall|i: int| 0 <= i < obs.len() implies #[trigger] drain(s, obs).1[i] == (if s.seen
            .contains(obs[i].handle) {
            Outcome::Keep
        } else {
            Outcome::Retry
        }) by {
            if i < obs.len() - 1 {
                assert(drain(s, obs).1[i] == drain(s, front).1[i]);
                assert(front[i] == obs[i]);
            }
        }
    }
}

/// Each node is decided by the state that the nodes before it have left.
pub proof fn lemma_drain_at(s: InstancesView, obs: Seq<Observation>, i: int)
    requires
        0 <= i < obs.len(),
    ensures
        drain(s, obs).1.len() == obs.len(),
        drain(s, obs).1[i] == step(drain(s, obs.take(i)).0, obs[i]).1,
    decreases obs.len(),
{
    let front = obs.drop_last();
    lemma_drain_len(s, front);
    if i < obs.len() - 1 {
        lemma_drain_at(s, front, i);
        assert(front.take(i) =~= obs.take(i));
        assert(front[i] == obs[i]);
    } else {
        assert(front =~= obs.take(i));
        assert(obs.last() == obs[i]);
    }
}

/// A node waits exactly when its content is not resolved and its handle is
/// not seen when its turn comes: it then keeps its marker for a later tick.
/// Once its content is resolved it is settled on the tick that meets it.
pub proof fn lemma_retry_only_while_unresolved(s: InstancesView, obs: Seq<Observation>, i: int)
    requires
        0 <= i < obs.len(),
    ensures
        drain(s, obs).1[i] == Outcome::Retry <==> obs[i].fingerprint.is_none() && !drain(
            s,
            obs.take(i),
        ).0.seen.contains(obs[i].handle),
{
    lemma_drain_at(s, obs, i);
}

/// A node that waits leaves the state as it found it: the tick ends as if the
/// node had not been there.
pub proof fn lemma_waiting_changes_nothing(s: InstancesView, obs: Seq<Observation>, i: int)
    requires
        0 <= i < obs.len(),
        obs[i].fingerprint.is_none(),
    ensures
        drain(s, obs).0 == drain(s, obs.remove(i)).0,
    decreases obs.len(),
{
    let front = obs.drop_last();
    if i < obs.len() - 1 {
        assert(front[i] == obs[i]);
        lemma_waiting_changes_nothing(s, front, i);
        assert(obs.remove(i).drop_last() =~= front.remove(i));
        assert(obs.remove(i).last() == obs.last());
    } else {
        assert(obs.remove(i) =~= front);
        assert(obs.last() == obs[i]);
    }
}

/// Every fresh node is accounted for once: it either adds a canonical
/// resource or a duplicate. So the two counters together rise by the number
/// of fresh nodes.
pub proof fn lemma_fresh_nodes_are_counted(s: InstancesView, obs: Seq<Observation>)
    requires
        s.canonical.dom().finite(),
    ensures
        drain(s, obs).0.canonical.dom().finite(),
        drain(s, obs).0.canonical.len() + drain(s, obs).0.duplicates == s.canonical.len()
            + s.duplicates + fresh_count(s, obs),
        any_fresh(s, obs) <==> fresh_count(s, obs) > 0,
    decreases obs.len(),
{
    if obs.len() > 0 {
        lemma_fresh_nodes_are_counted(s, obs.drop_last());
    }
}

proof fn lemma_take_step(s: InstancesView, obs: Seq<Observation>, k: int)
    requires
        0 <= k < obs.len(),
    ensures
        drain(s, obs.take(k + 1)).0 == step(drain(s, obs.take(k)).0, obs[k]).0,
{
    assert(obs.take(k + 1).drop_last() =~= obs.take(k));
    assert(obs.take(k + 1).last() == obs[k]);
}

proof fn lemma_prefix_grows(s: InstancesView, obs: Seq<Observation>, a: int, b: int, f: u64)
    requires
        0 <= a <= b <= obs.len(),
        drain(s, obs.take(a)).0.canonical.contains_key(f),
    ensures
        drain(s, obs.take(b)).0.canonical.contains_key(f),
        drain(s, obs.take(b)).0.canonical[f] == drain(s, obs.take(a)).0.canonical[f],
    decreases b - a,
{
    if a < b {
        lemma_prefix_grows(s, obs, a, b - 1, f);
        lemma_take_step(s, obs, b - 1);
    }
}

/// `f` has no canonical handle before the tick, and none of the first `i`
/// nodes is fresh with fingerprint `f`.
pub open spec fn first_with(s: InstancesView, obs: Seq<Observation>, i: int, f: u64) -> bool {
    &&& !s.canonical.contains_key(f)
    &&& forall|k: int|
        0 <= k < i ==> !(#[trigger] fresh(drain(s, obs.take(k)).0, obs[k]) && obs[k].fingerprint
            == Some(f))
}

proof fn lemma_no_key_before(s: InstancesView, obs: Seq<Observation>, i: int, f: u64)
    requires
        0 <= i <= obs.len(),
        first_with(s, obs, i, f),
    ensures
        !drain(s, obs.take(i)).0.canonical.contains_key(f),
    decreases i,
{
    if i == 0 {
        assert(obs.take(0) =~= Seq::<Observation>::empty());
    } else {
        lemma_no_key_before(s, obs, i - 1, f);
        lemma_take_step(s, obs, i - 1);
        assert(!(fresh(drain(s, obs.take(i - 1)).0, obs[i - 1]) && obs[i - 1].fingerprint == Some(
            f,
        )));
    }
}

/// First seen wins, whatever else the tick holds. Let node `i` be the first
/// fresh node with fingerprint `f`, and let `f` have had no canonical handle
/// before. Then node `i` keeps its handle, that handle is canonical for `f`
/// when the tick ends, and every later fresh node with fingerprint `f` is
/// sent to it.
pub proof fn lemma_first_holder_is_canonical(
    s: InstancesView,
    obs: Seq<Observation>,
    i: int,
    f: u64,
)
    requires
        0 <= i < obs.len(),
        first_with(s, obs, i, f),
        fresh(drain(s, obs.take(i)).0, obs[i]),
        obs[i].fingerprint == Some(f),
    ensures
        drain(s, obs).1[i] == Outcome::Keep,
        drain(s, obs).0.canonical.contains_key(f),
        drain(s, obs).0.canonical[f] == obs[i].handle,
        forall|j: int|
            i < j < obs.len() && #[trigger] fresh(drain(s, obs.take(j)).0, obs[j])
                && obs[j].fingerprint == Some(f) ==> drain(s, obs).1[j] == Outcome::Share(
                obs[i].handle,
            ),
{
    lemma_no_key_before(s, obs, i, f);
    lemma_drain_at(s, obs, i);
    lemma_take_step(s, obs, i);
    assert(obs.take(obs.len() as int) =~= obs);
    lemma_prefix_grows(s, obs, i + 1, obs.len() as int, f);
    assert forall|j: int|
        i < j < obs.len() && #[trigger] fresh(drain(s, obs.take(j)).0, obs[j])
            && obs[j].fingerprint == Some(f) implies drain(s, obs).1[j] == Outcome::Share(
        obs[i].handle,
    ) by {
        lemma_prefix_grows(s, obs, i + 1, j, f);
        lemma_drain_at(s, obs, j);
    }
}

/// The fingerprints that occur among the nodes of a tick.
pub open spec fn prints(obs: Seq<Observation>) -> Set<u64> {
    Set::new(
        |f: u64| exists|i: int| 0 <= i < obs.len() && (#[trigger] obs[i]).fingerprint == Some(f),
    )
}

/// Every node of the tick has resolved content and a handle of its own that
/// was not seen before the tick.
pub open spec fn all_new(s: InstancesView, obs: Seq<Observation>) -> bool {
    &&& forall|i: int|
        0 <= i < obs.len() ==> (#[trigger] obs[i]).fingerprint.is_some() && !s.seen.contains(
            obs[i].handle,
        )
    &&& forall|i: int, j: int|
        0 <= i < j < obs.len() ==> (#[trigger] obs[i]).handle != (#[trigger] obs[j]).handle
}

/// In whatever order the nodes of a tick come: where each has resolved
/// content and a new handle of its own, the fingerprints with a canonical
/// handle after the tick are those from before and those of the nodes, and
/// every node adds either a canonical resource or a duplicate. So the number
/// of duplicates is the number of nodes less the number of fingerprints that
/// are new, whichever node of each fingerprint comes first.
pub proof fn lemma_any_order(s: InstancesView, obs: Seq<Observation>)
    requires
        s.canonical.dom().finite(),
        all_new(s, obs),
    ensures
        drain(s, obs).0.canonical.dom().finite(),
        drain(s, obs).0.canonical.dom() == s.canonical.dom().union(prints(obs)),
        drain(s, obs).0.canonical.len() + drain(s, obs).0.duplicates == s.canonical.len()
            + s.duplicates + obs.len(),
        forall|v: u64| #[trigger]
            drain(s, obs).0.seen.contains(v) ==> s.seen.contains(v) || exists|i: int|
                0 <= i < obs.len() && (#[trigger] obs[i]).handle == v,
    decreases obs.len(),
{
    if obs.len() == 0 {
        assert(s.canonical.dom().union(prints(obs)) =~= s.canonical.dom());
    } else {
        let front = obs.drop_last();
        let last = obs.last();
        let f = last.fingerprint->Some_0;
        assert(last == obs[obs.len() - 1]);
        assert forall|i: int| 0 <= i < front.len() implies (#[trigger] front[i]).fingerprint
            .is_some() && !s.seen.contains(front[i].handle) by {
            assert(front[i] == obs[i]);
        }
        assert forall|i: int, j: int| 0 <= i < j < front.len() implies (#[trigger] front[i]).handle
            != (#[trigger] front[j]).handle by {
            assert(front[i] == obs[i] && front[j] == obs[j]);
        }
        lemma_any_order(s, front);
        let mid = drain(s, front).0;
        assert(!mid.seen.contains(last.handle)) by {
            if mid.seen.contains(last.handle) {
                let i = choose|i: int| 0 <= i < front.len() && (#[trigger] front[i]).handle
                    == last.handle;
                assert(front[i] == obs[i]);
            }
        }
        assert(prints(obs) =~= prints(front).insert(f)) by {
            assert forall|x: u64| prints(obs).contains(x) <==> prints(front).insert(f).contains(
                x,
            ) by {
                if prints(obs).contains(x) {
                    let i = choose|i: int| 0 <= i < obs.len() && (#[trigger] obs[i]).fingerprint
                        == Some(x);
                    if i < front.len() {
                        assert(front[i].fingerprint == Some(x));
                    }
                }
                if prints(front).contains(x) {
                    let i = choose|i: int| 0 <= i < front.len() && (#[trigger] front[i]).fingerprint
                        == Some(x);
                    assert(obs[i].fingerprint == Some(x));
                }
                if x == f {
                    assert(obs[obs.len() - 1].fingerprint == Some(x));
                }
            }
        }
        let end = drain(s, obs).0;
        assert(end.canonical.dom() =~= s.canonical.dom().union(prints(obs)));
        assert forall|v: u64| #[trigger] end.seen.contains(v) implies s.seen.contains(v)
            || exists|i: int| 0 <= i < obs.len() && (#[trigger] obs[i]).handle == v by {
            if v == last.handle {
                assert(obs[obs.len() - 1].handle == v);
            } else if !s.seen.contains(v) {
                assert(mid.seen.contains(v));
                let i = choose|i: int| 0 <= i < front.len() && (#[trigger] front[i]).handle == v;
                assert(obs[i].handle == v);
            }
        }
    }
}

} // verus!
