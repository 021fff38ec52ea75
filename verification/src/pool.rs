//! The backend pool: each configured backend with its health flag and its
//! number of active connections.
//!
//! The pool is modelled by the sequence of its backend states. Every
//! operation is stated as a function on that sequence; backends are found by
//! their identifier, and where an operation reads one backend it reads the
//! first one with that identifier.

use vstd::prelude::*;
use vstd::multiset::Multiset;

use crate::config::{BackendCandidate, BackendConfig};

verus! {

/// The state of one backend in the pool.
#[derive(Debug)]
pub struct BackendState {
    pub config: BackendConfig,
    pub healthy: bool,
    pub active_connections: usize,
}

/// The backends of one service.
pub struct BackendPool {
    backends: Vec<BackendState>,
    identity: Ghost<int>,
}

/// The claim on one connection slot of a backend, handed out by
/// `BackendPool::try_acquire` and given back with `BackendPool::release`;
/// the slot stays counted until the guard is given back.
#[must_use]
pub struct BackendGuard {
    backend_id: String,
    pool: Ghost<int>,
}

impl View for BackendPool {
    type V = Seq<BackendState>;

    closed spec fn view(&self) -> Seq<BackendState> {
        self.backends@
    }
}

impl View for BackendGuard {
    type V = Seq<char>;

    /// The identifier of the backend whose slot the guard holds.
    closed spec fn view(&self) -> Seq<char> {
        self.backend_id@
    }
}

impl BackendPool {
    /// The identity of the pool: a guard can only be given back to the pool
    /// that handed it out. Nothing tells two pools' identities apart or equal
    /// to their callers, so a guard from one pool cannot be given to another.
    pub closed spec fn identity(&self) -> int {
        self.identity@
    }
}

impl BackendGuard {
    /// The identity of the pool that handed the guard out.
    pub closed spec fn pool(&self) -> int {
        self.pool@
    }

    /// The identifier of the backend whose slot the guard holds.
    pub fn backend_id(&self) -> (r: &String)
        ensures
            r@ == self@,
    {
        &self.backend_id
    }
}

// ---------------------------------------------------------------------------
// The model of the pool.
// ---------------------------------------------------------------------------

/// Whether a backend state carries the identifier `id`.
pub open spec fn has_id(b: BackendState, id: Seq<char>) -> bool {
    b.config.backend_id@ == id
}

/// The state a configured backend starts in: healthy, with no connection.
pub open spec fn fresh_state(c: BackendConfig) -> BackendState {
    BackendState { config: c, healthy: true, active_connections: 0 }
}

/// The pool that a list of configured backends starts as.
pub open spec fn fresh_states(configs: Seq<BackendConfig>) -> Seq<BackendState> {
    configs.map_values(|c: BackendConfig| fresh_state(c))
}

/// The configurations of the healthy backends, in pool order.
pub open spec fn healthy_configs(s: Seq<BackendState>) -> Seq<BackendConfig>
    decreases s.len(),
{
    if s.len() == 0 {
        Seq::empty()
    } else {
        let rest = healthy_configs(s.drop_last());
        if s.last().healthy {
            rest.push(s.last().config)
        } else {
            rest
        }
    }
}

/// The candidate that a backend state is offered to a strategy as.
pub open spec fn candidate_of(b: BackendState) -> BackendCandidate {
    BackendCandidate { backend: b.config, active_connections: b.active_connections }
}

/// The healthy backends with their connection counts, in pool order.
pub open spec fn healthy_candidates_of(s: Seq<BackendState>) -> Seq<BackendCandidate>
    decreases s.len(),
{
    if s.len() == 0 {
        Seq::empty()
    } else {
        let rest = healthy_candidates_of(s.drop_last());
        if s.last().healthy {
            rest.push(candidate_of(s.last()))
        } else {
            rest
        }
    }
}

/// The configurations of all backends, in pool order.
pub open spec fn configs_of(s: Seq<BackendState>) -> Seq<BackendConfig> {
    s.map_values(|b: BackendState| b.config)
}

/// The pool after every backend with identifier `id` gets the health flag `healthy`.
pub open spec fn with_health(s: Seq<BackendState>, id: Seq<char>, healthy: bool) -> Seq<
    BackendState,
> {
    s.map_values(
        |b: BackendState|
            if has_id(b, id) {
                BackendState { config: b.config, healthy, active_connections: b.active_connections }
            } else {
                b
            },
    )
}

/// Whether every backend with identifier `id` can count one more connection.
pub open spec fn can_increment(s: Seq<BackendState>, id: Seq<char>) -> bool {
    forall|j: int| 0 <= j < s.len() && has_id(#[trigger] s[j], id) ==> s[j].active_connections < usize::MAX
}

/// Whether `b` is the configuration of a healthy backend of the pool.
pub open spec fn is_healthy_backend(s: Seq<BackendState>, b: BackendConfig) -> bool {
    exists|j: int| 0 <= j < s.len() && (#[trigger] s[j]).healthy && s[j].config == b
}

/// The backend state with one more active connection.
pub open spec fn bumped(b: BackendState) -> BackendState {
    BackendState {
        config: b.config,
        healthy: b.healthy,
        active_connections: (b.active_connections + 1) as usize,
    }
}

/// The backend state with one active connection less, or unchanged at zero.
pub open spec fn dropped(b: BackendState) -> BackendState {
    if b.active_connections > 0 {
        BackendState {
            config: b.config,
            healthy: b.healthy,
            active_connections: (b.active_connections - 1) as usize,
        }
    } else {
        b
    }
}

/// The pool after every backend with identifier `id` counts one more connection.
pub open spec fn incremented(s: Seq<BackendState>, id: Seq<char>) -> Seq<BackendState> {
    s.map_values(|b: BackendState| if has_id(b, id) { bumped(b) } else { b })
}

/// The pool after every backend with identifier `id` counts one connection
/// less, where it has one.
pub open spec fn decremented(s: Seq<BackendState>, id: Seq<char>) -> Seq<BackendState> {
    s.map_values(|b: BackendState| if has_id(b, id) { dropped(b) } else { b })
}

/// The index of the first backend at or after `start` with identifier
/// `id`, or -1 where there is none.
pub open spec fn find_from(s: Seq<BackendState>, id: Seq<char>, start: int) -> int
    decreases s.len() - start,
{
    if start < 0 || start >= s.len() {
        -1
    } else if has_id(s[start], id) {
        start
    } else {
        find_from(s, id, start + 1)
    }
}

/// The index of the first backend with identifier `id`, or -1 where there is none.
pub open spec fn find_backend(s: Seq<BackendState>, id: Seq<char>) -> int {
    find_from(s, id, 0)
}

/// The active connections of the first backend with identifier `id`.
pub open spec fn connections_of(s: Seq<BackendState>, id: Seq<char>) -> Option<usize> {
    let i = find_backend(s, id);
    if i >= 0 {
        Some(s[i].active_connections)
    } else {
        None
    }
}

/// Whether a slot of backend `id` can be acquired: the first backend with
/// that identifier exists and is healthy.
pub open spec fn acquire_succeeds(s: Seq<BackendState>, id: Seq<char>) -> bool {
    let i = find_backend(s, id);
    i >= 0 && s[i].healthy
}

/// Whether acquiring a slot of backend `id` stays within the connection
/// counter: where the acquisition succeeds, the first backend with that
/// identifier is below the largest count.
pub open spec fn acquire_fits(s: Seq<BackendState>, id: Seq<char>) -> bool {
    acquire_succeeds(s, id) ==> s[find_backend(s, id)].active_connections < usize::MAX
}

/// The pool after acquiring a slot of backend `id`.
pub open spec fn acquired(s: Seq<BackendState>, id: Seq<char>) -> Seq<BackendState> {
    let i = find_backend(s, id);
    if acquire_succeeds(s, id) {
        s.update(i, bumped(s[i]))
    } else {
        s
    }
}

/// The pool after giving back a slot of backend `id`: the first backend with
/// that identifier counts one connection less, where it has one.
pub open spec fn released(s: Seq<BackendState>, id: Seq<char>) -> Seq<BackendState> {
    let i = find_backend(s, id);
    if i >= 0 {
        s.update(i, dropped(s[i]))
    } else {
        s
    }
}

/// Two pools whose backends carry the same identifiers, position by position.
pub open spec fn same_ids(s: Seq<BackendState>, t: Seq<BackendState>) -> bool {
    &&& s.len() == t.len()
    &&& forall|j: int| 0 <= j < s.len() ==> (#[trigger] s[j]).config.backend_id@ == t[j].config.backend_id@
}

// ---------------------------------------------------------------------------
// Facts about the model.
// ---------------------------------------------------------------------------

/// What `find_from` returns: -1 when no backend from `start` on has the
/// identifier, else the first such index.
pub proof fn lemma_find_from(s: Seq<BackendState>, id: Seq<char>, start: int)
    requires
        0 <= start <= s.len(),
    ensures
        ({
            let r = find_from(s, id, start);
            &&& -1 <= r < s.len()
            &&& r == -1 ==> forall|j: int| start <= j < s.len() ==> !has_id(#[trigger] s[j], id)
            &&& r >= 0 ==> start <= r && has_id(s[r], id) && forall|j: int|
                start <= j < r ==> !has_id(#[trigger] s[j], id)
        }),
    decreases s.len() - start,
{
    if start < s.len() && !has_id(s[start], id) {
        lemma_find_from(s, id, start + 1);
    }
}

/// What `find_backend` returns: -1 when no backend has the identifier, else
/// the first index that has it.
pub proof fn lemma_find_backend(s: Seq<BackendState>, id: Seq<char>)
    ensures
        ({
            let r = find_backend(s, id);
            &&& -1 <= r < s.len()
            &&& r == -1 ==> forall|j: int| 0 <= j < s.len() ==> !has_id(#[trigger] s[j], id)
            &&& r >= 0 ==> has_id(s[r], id) && forall|j: int| 0 <= j < r ==> !has_id(#[trigger] s[j], id)
        }),
{
    lemma_find_from(s, id, 0);
}

/// `find_from` depends only on the identifiers of the pool.
proof fn lemma_find_from_same_ids(s: Seq<BackendState>, t: Seq<BackendState>, id: Seq<char>, start: int)
    requires
        same_ids(s, t),
    ensures
        find_from(s, id, start) == find_from(t, id, start),
    decreases s.len() - start,
{
    if 0 <= start < s.len() {
        assert(s[start].config.backend_id@ == t[start].config.backend_id@);
        if !has_id(s[start], id) {
            lemma_find_from_same_ids(s, t, id, start + 1);
        }
    }
}

/// The first backend with an identifier is the same in two pools that carry
/// the same identifiers.
pub proof fn lemma_find_backend_same_ids(s: Seq<BackendState>, t: Seq<BackendState>, id: Seq<char>)
    requires
        same_ids(s, t),
    ensures
        find_backend(s, id) == find_backend(t, id),
{
    lemma_find_from_same_ids(s, t, id, 0);
}

/// Each healthy configuration is that of a healthy backend of the pool, and
/// every healthy backend's configuration is among them.
pub proof fn lemma_healthy_configs_members(s: Seq<BackendState>)
    ensures
        forall|k: int|
            0 <= k < healthy_configs(s).len() ==> exists|j: int|
                0 <= j < s.len() && s[j].healthy && #[trigger] healthy_configs(s)[k] == s[j].config,
        forall|j: int| 0 <= j < s.len() && (#[trigger] s[j]).healthy ==> healthy_configs(s).contains(s[j].config),
    decreases s.len(),
{
    if s.len() > 0 {
        let rest = s.drop_last();
        lemma_healthy_configs_members(rest);
        let hc = healthy_configs(s);
        assert forall|k: int| 0 <= k < hc.len() implies exists|j: int|
            0 <= j < s.len() && s[j].healthy && #[trigger] hc[k] == s[j].config by {
            if k < healthy_configs(rest).len() {
                let j = choose|j: int| 0 <= j < rest.len() && rest[j].healthy && healthy_configs(rest)[k] == rest[j].config;
                assert(s[j] == rest[j]);
            } else {
                assert(hc[k] == s[s.len() - 1].config);
            }
        }
        assert forall|j: int| 0 <= j < s.len() && (#[trigger] s[j]).healthy implies hc.contains(s[j].config) by {
            if j < s.len() - 1 {
                assert(rest[j] == s[j]);
                let k = choose|k: int| 0 <= k < healthy_configs(rest).len() && healthy_configs(rest)[k] == rest[j].config;
                assert(hc[k] == s[j].config);
            } else {
                assert(hc[hc.len() - 1] == s[j].config);
            }
        }
    }
}

/// Each healthy candidate is offered for a healthy backend of the pool, with
/// its configuration and connection count.
pub proof fn lemma_healthy_candidates_members(s: Seq<BackendState>)
    ensures
        forall|k: int|
            0 <= k < healthy_candidates_of(s).len() ==> exists|j: int|
                0 <= j < s.len() && s[j].healthy && #[trigger] healthy_candidates_of(s)[k] == candidate_of(s[j]),
        healthy_candidates_of(s).len() == 0 <==> forall|j: int| 0 <= j < s.len() ==> !(#[trigger] s[j]).healthy,
    decreases s.len(),
{
    if s.len() > 0 {
        let rest = s.drop_last();
        lemma_healthy_candidates_members(rest);
        let hc = healthy_candidates_of(s);
        assert forall|k: int| 0 <= k < hc.len() implies exists|j: int|
            0 <= j < s.len() && s[j].healthy && #[trigger] hc[k] == candidate_of(s[j]) by {
            if k < healthy_candidates_of(rest).len() {
                let j = choose|j: int| 0 <= j < rest.len() && rest[j].healthy && healthy_candidates_of(rest)[k] == candidate_of(rest[j]);
                assert(s[j] == rest[j]);
            } else {
                assert(hc[k] == candidate_of(s[s.len() - 1]));
            }
        }
        if hc.len() == 0 {
            assert forall|j: int| 0 <= j < s.len() implies !(#[trigger] s[j]).healthy by {
                if j < s.len() - 1 {
                    assert(rest[j] == s[j]);
                }
            }
        } else if forall|j: int| 0 <= j < s.len() ==> !(#[trigger] s[j]).healthy {
            assert(!s[s.len() - 1].healthy);
            assert forall|j: int| 0 <= j < rest.len() implies !(#[trigger] rest[j]).healthy by {
                assert(rest[j] == s[j]);
            }
        }
    }
}

// ---------------------------------------------------------------------------
// Laws of the pool.
// ---------------------------------------------------------------------------

/// Acquiring a slot and giving it back leaves the pool as it was; while the
/// slot is held, the backend counts exactly one connection more.
pub proof fn lemma_acquire_release_roundtrip(s: Seq<BackendState>, id: Seq<char>)
    requires
        acquire_succeeds(s, id),
        acquire_fits(s, id),
    ensures
        connections_of(acquired(s, id), id) == Some((connections_of(s, id)->0 + 1) as usize),
        released(acquired(s, id), id) == s,
{
    lemma_find_backend(s, id);
    let i = find_backend(s, id);
    let t = acquired(s, id);
    assert(same_ids(s, t));
    lemma_find_backend_same_ids(s, t, id);
    assert(released(t, id) =~= s);
}

/// Counting one connection more and then one less on a backend leaves the
/// pool as it was.
pub proof fn lemma_increment_decrement_roundtrip(s: Seq<BackendState>, id: Seq<char>)
    requires
        can_increment(s, id),
    ensures
        decremented(incremented(s, id), id) == s,
{
    assert(decremented(incremented(s, id), id) =~= s);
}

/// Counting one connection less on backends without connections changes nothing.
pub proof fn lemma_decrement_at_zero(s: Seq<BackendState>, id: Seq<char>)
    requires
        forall|j: int| 0 <= j < s.len() && has_id(#[trigger] s[j], id) ==> s[j].active_connections == 0,
    ensures
        decremented(s, id) == s,
{
    assert(decremented(s, id) =~= s);
}

/// Marking a backend unhealthy removes exactly the backends with its
/// identifier from the healthy ones, and keeps the order of the others.
pub proof fn lemma_mark_unhealthy_excludes(s: Seq<BackendState>, id: Seq<char>)
    ensures
        healthy_configs(with_health(s, id, false)) == healthy_configs(s).filter(
            |c: BackendConfig| c.backend_id@ != id,
        ),
    decreases s.len(),
{
    let pred = |c: BackendConfig| c.backend_id@ != id;
    if s.len() > 0 {
        let t = with_health(s, id, false);
        lemma_mark_unhealthy_excludes(s.drop_last(), id);
        assert(t.drop_last() =~= with_health(s.drop_last(), id, false));
        let hs = healthy_configs(s);
        if s.last().healthy {
            assert(hs.drop_last() =~= healthy_configs(s.drop_last()));
            assert(hs.last() == s.last().config);
        } else {
            assert(hs =~= healthy_configs(s.drop_last()));
        }
        reveal_with_fuel(Seq::filter, 2);
        assert(healthy_configs(t) =~= hs.filter(pred));
    } else {
        assert(healthy_configs(s).filter(pred) =~= Seq::<BackendConfig>::empty());
    }
}

/// Marking backends unhealthy and then healthy again gives the same pool as
/// marking them healthy; where they were healthy, it gives back the pool.
pub proof fn lemma_mark_healthy_after_unhealthy(s: Seq<BackendState>, id: Seq<char>)
    ensures
        with_health(with_health(s, id, false), id, true) == with_health(s, id, true),
        (forall|j: int| 0 <= j < s.len() && has_id(#[trigger] s[j], id) ==> s[j].healthy)
            ==> with_health(with_health(s, id, false), id, true) == s,
{
    assert(with_health(with_health(s, id, false), id, true) =~= with_health(s, id, true));
    if forall|j: int| 0 <= j < s.len() && has_id(#[trigger] s[j], id) ==> s[j].healthy {
        assert(with_health(s, id, true) =~= s);
    }
}

/// After backends are marked healthy, each of them is among the healthy ones.
pub proof fn lemma_mark_healthy_includes(s: Seq<BackendState>, id: Seq<char>)
    ensures
        forall|j: int|
            0 <= j < s.len() && has_id(#[trigger] s[j], id) ==> healthy_configs(with_health(s, id, true)).contains(s[j].config),
{
    let t = with_health(s, id, true);
    lemma_healthy_configs_members(t);
    assert forall|j: int| 0 <= j < s.len() && has_id(#[trigger] s[j], id) implies healthy_configs(t).contains(s[j].config) by {
        assert(t[j].healthy);
    }
}

/// A new pool offers every configured backend, in order, as healthy and
/// without connections.
pub proof fn lemma_fresh_pool_all_healthy(configs: Seq<BackendConfig>)
    ensures
        healthy_configs(fresh_states(configs)) == configs,
        healthy_candidates_of(fresh_states(configs)) == configs.map_values(
            |c: BackendConfig| BackendCandidate { backend: c, active_connections: 0 },
        ),
    decreases configs.len(),
{
    if configs.len() > 0 {
        let rest = configs.drop_last();
        lemma_fresh_pool_all_healthy(rest);
        assert(fresh_states(configs).drop_last() =~= fresh_states(rest));
        assert(healthy_configs(fresh_states(configs)) =~= configs);
        assert(healthy_candidates_of(fresh_states(configs)) =~= configs.map_values(
            |c: BackendConfig| BackendCandidate { backend: c, active_connections: 0 },
        ));
    } else {
        assert(healthy_configs(fresh_states(configs)) =~= configs);
        assert(healthy_candidates_of(fresh_states(configs)) =~= configs.map_values(
            |c: BackendConfig| BackendCandidate { backend: c, active_connections: 0 },
        ));
    }
}

/// No operation of the pool adds, removes, reorders or reconfigures a
/// backend; marking health leaves every connection count as it was, and
/// counting connections leaves every health flag as it was.
pub proof fn lemma_operations_keep_backends(s: Seq<BackendState>, id: Seq<char>, healthy: bool)
    ensures
        configs_of(with_health(s, id, healthy)) == configs_of(s),
        configs_of(incremented(s, id)) == configs_of(s),
        configs_of(decremented(s, id)) == configs_of(s),
        configs_of(acquired(s, id)) == configs_of(s),
        configs_of(released(s, id)) == configs_of(s),
        forall|j: int|
            0 <= j < s.len() ==> (#[trigger] with_health(s, id, healthy)[j]).active_connections
                == s[j].active_connections,
        forall|j: int|
            0 <= j < s.len() ==> (#[trigger] incremented(s, id)[j]).healthy == s[j].healthy
                && decremented(s, id)[j].healthy == s[j].healthy && acquired(s, id)[j].healthy
                == s[j].healthy && released(s, id)[j].healthy == s[j].healthy,
{
    lemma_find_backend(s, id);
    assert(configs_of(with_health(s, id, healthy)) =~= configs_of(s));
    assert(configs_of(incremented(s, id)) =~= configs_of(s));
    assert(configs_of(decremented(s, id)) =~= configs_of(s));
    assert(configs_of(acquired(s, id)) =~= configs_of(s));
    assert(configs_of(released(s, id)) =~= configs_of(s));
}

/// No two backends of the pool share an identifier.
pub open spec fn distinct_ids(s: Seq<BackendState>) -> bool {
    forall|i: int, j: int|
        0 <= i < j < s.len() ==> (#[trigger] s[i]).config.backend_id@ != (#[trigger] s[j]).config.backend_id@
}

/// Each backend counts exactly as many connections as there are guards held
/// for its identifier in `held`.
pub open spec fn counts_match_guards(s: Seq<BackendState>, held: Multiset<Seq<char>>) -> bool {
    forall|j: int|
        0 <= j < s.len() ==> (#[trigger] s[j]).active_connections == held.count(s[j].config.backend_id@)
}

/// A new pool, with no guard held, counts no connection.
pub proof fn lemma_guards_fresh(configs: Seq<BackendConfig>)
    ensures
        counts_match_guards(fresh_states(configs), Multiset::empty()),
{
}

/// Where the identifiers are distinct and the counts match the guards held,
/// a successful acquisition adds its guard and keeps them matching; a failed
/// one changes nothing.
pub proof fn lemma_guards_acquire(s: Seq<BackendState>, held: Multiset<Seq<char>>, id: Seq<char>)
    requires
        distinct_ids(s),
        counts_match_guards(s, held),
        acquire_fits(s, id),
    ensures
        distinct_ids(acquired(s, id)),
        acquire_succeeds(s, id) ==> counts_match_guards(acquired(s, id), held.insert(id)),
        !acquire_succeeds(s, id) ==> acquired(s, id) == s,
{
    lemma_find_backend(s, id);
    let t = acquired(s, id);
    assert(same_ids(s, t));
    if acquire_succeeds(s, id) {
        let i = find_backend(s, id);
        assert forall|j: int| 0 <= j < t.len() implies (#[trigger] t[j]).active_connections == held.insert(
            id,
        ).count(t[j].config.backend_id@) by {
            if j != i {
                if j < i {
                    assert(s[j].config.backend_id@ != s[i].config.backend_id@);
                } else {
                    assert(s[i].config.backend_id@ != s[j].config.backend_id@);
                }
            }
        }
    }
}

/// Where the identifiers are distinct, the counts match the guards held and
/// one of them is a guard for `id`, giving it back removes that guard and
/// keeps the counts matching; no count goes below zero.
pub proof fn lemma_guards_release(s: Seq<BackendState>, held: Multiset<Seq<char>>, id: Seq<char>)
    requires
        distinct_ids(s),
        counts_match_guards(s, held),
        held.count(id) > 0,
    ensures
        distinct_ids(released(s, id)),
        counts_match_guards(released(s, id), held.remove(id)),
{
    lemma_find_backend(s, id);
    let t = released(s, id);
    assert(same_ids(s, t));
    let i = find_backend(s, id);
    assert forall|j: int| 0 <= j < t.len() implies (#[trigger] t[j]).active_connections == held.remove(
        id,
    ).count(t[j].config.backend_id@) by {
        if i >= 0 && j != i {
            if j < i {
                assert(s[j].config.backend_id@ != s[i].config.backend_id@);
            } else {
                assert(s[i].config.backend_id@ != s[j].config.backend_id@);
            }
        }
        if i < 0 {
            assert(!has_id(s[j], id));
        }
    }
}

/// Marking health keeps the counts matching the guards held.
pub proof fn lemma_guards_health(s: Seq<BackendState>, held: Multiset<Seq<char>>, id: Seq<char>, healthy: bool)
    requires
        counts_match_guards(s, held),
    ensures
        counts_match_guards(with_health(s, id, healthy), held),
{
}

/// Two pools with the same backends and health flags, position by position,
/// offer the same healthy backends in the same order.
pub proof fn lemma_same_health_same_offers(s: Seq<BackendState>, t: Seq<BackendState>)
    requires
        s.len() == t.len(),
        forall|j: int| 0 <= j < s.len() ==> (#[trigger] t[j]).config == s[j].config && t[j].healthy == s[j].healthy,
    ensures
        healthy_configs(t) == healthy_configs(s),
        healthy_candidates_of(t).len() == healthy_candidates_of(s).len(),
        forall|k: int|
            0 <= k < healthy_candidates_of(s).len() ==> (#[trigger] healthy_candidates_of(t)[k]).backend
                == healthy_candidates_of(s)[k].backend,
    decreases s.len(),
{
    if s.len() > 0 {
        lemma_same_health_same_offers(s.drop_last(), t.drop_last());
        assert(t.last() == t[t.len() - 1]);
        let hs = healthy_candidates_of(s);
        let ht = healthy_candidates_of(t);
        assert forall|k: int| 0 <= k < hs.len() implies (#[trigger] ht[k]).backend == hs[k].backend by {
            if k < healthy_candidates_of(s.drop_last()).len() {
                assert(ht[k] == healthy_candidates_of(t.drop_last())[k]);
            }
        }
    }
}

/// Counting connections, by acquiring, releasing, incrementing or
/// decrementing, never changes which backends are offered to a strategy, nor
/// their order.
pub proof fn lemma_counting_keeps_offers(s: Seq<BackendState>, id: Seq<char>)
    ensures
        healthy_configs(acquired(s, id)) == healthy_configs(s),
        healthy_configs(released(s, id)) == healthy_configs(s),
        healthy_configs(incremented(s, id)) == healthy_configs(s),
        healthy_configs(decremented(s, id)) == healthy_configs(s),
        healthy_candidates_of(acquired(s, id)).len() == healthy_candidates_of(s).len(),
        healthy_candidates_of(released(s, id)).len() == healthy_candidates_of(s).len(),
        forall|k: int|
            0 <= k < healthy_candidates_of(s).len() ==> (#[trigger] healthy_candidates_of(acquired(s, id))[k]).backend
                == healthy_candidates_of(s)[k].backend,
        forall|k: int|
            0 <= k < healthy_candidates_of(s).len() ==> (#[trigger] healthy_candidates_of(released(s, id))[k]).backend
                == healthy_candidates_of(s)[k].backend,
{
    lemma_find_backend(s, id);
    lemma_same_health_same_offers(s, acquired(s, id));
    lemma_same_health_same_offers(s, released(s, id));
    lemma_same_health_same_offers(s, incremented(s, id));
    lemma_same_health_same_offers(s, decremented(s, id));
}

/// The candidates offered to a strategy are exactly the healthy backends, in
/// pool order, each with its configuration and active connections; the
/// healthy configurations are those same backends' configurations.
pub proof fn lemma_offers_are_the_healthy_backends(s: Seq<BackendState>)
    ensures
        healthy_candidates_of(s) == s.filter(|b: BackendState| b.healthy).map_values(
            |b: BackendState| BackendCandidate { backend: b.config, active_connections: b.active_connections },
        ),
        healthy_configs(s) == s.filter(|b: BackendState| b.healthy).map_values(|b: BackendState| b.config),
    decreases s.len(),
{
    let pred = |b: BackendState| b.healthy;
    let to_candidate = |b: BackendState| BackendCandidate { backend: b.config, active_connections: b.active_connections };
    let to_config = |b: BackendState| b.config;
    if s.len() == 0 {
        assert(s.filter(pred) =~= Seq::<BackendState>::empty());
        assert(healthy_candidates_of(s) =~= s.filter(pred).map_values(to_candidate));
        assert(healthy_configs(s) =~= s.filter(pred).map_values(to_config));
    } else {
        lemma_offers_are_the_healthy_backends(s.drop_last());
        let f = s.filter(pred);
        let fr = s.drop_last().filter(pred);
        reveal_with_fuel(Seq::filter, 2);
        assert(f == (if pred(s.last()) { fr.push(s.last()) } else { fr }));
        assert(healthy_candidates_of(s) =~= f.map_values(to_candidate));
        assert(healthy_configs(s) =~= f.map_values(to_config));
    }
}

/// Taking a slot of backend `id` succeeds exactly when the first backend with
/// that identifier exists and is healthy, whatever its connection count; it
/// then counts one more connection on that backend and changes nothing else,
/// and otherwise changes nothing. It stays within the counter exactly when
/// that backend, where the slot is taken, is below the largest count.
pub proof fn lemma_acquire_exactly_when_first_is_healthy(s: Seq<BackendState>, id: Seq<char>)
    ensures
        acquire_succeeds(s, id) <==> exists|i: int|
            #![trigger s[i]]
            0 <= i < s.len() && s[i].config.backend_id@ == id && s[i].healthy && forall|j: int|
                0 <= j < i ==> (#[trigger] s[j]).config.backend_id@ != id,
        forall|i: int|
            #![trigger s[i]]
            0 <= i < s.len() && s[i].config.backend_id@ == id && (forall|j: int|
                0 <= j < i ==> (#[trigger] s[j]).config.backend_id@ != id) ==> {
                &&& acquired(s, id) == (if s[i].healthy {
                    s.update(
                        i,
                        BackendState {
                            config: s[i].config,
                            healthy: true,
                            active_connections: (s[i].active_connections + 1) as usize,
                        },
                    )
                } else {
                    s
                })
                &&& acquire_fits(s, id) == (s[i].healthy ==> s[i].active_connections < usize::MAX)
            },
        (forall|i: int| 0 <= i < s.len() ==> (#[trigger] s[i]).config.backend_id@ != id) ==> {
            &&& !acquire_succeeds(s, id)
            &&& acquired(s, id) == s
            &&& acquire_fits(s, id)
        },
{
    lemma_find_backend(s, id);
    let r = find_backend(s, id);
    if r >= 0 {
        assert forall|i: int|
            #![trigger s[i]]
            0 <= i < s.len() && s[i].config.backend_id@ == id && (forall|j: int|
                0 <= j < i ==> (#[trigger] s[j]).config.backend_id@ != id) implies i == r by {
            if i < r {
                assert(!has_id(s[i], id));
            } else if r < i {
                assert(s[r].config.backend_id@ != id);
            }
        }
        if acquire_succeeds(s, id) {
            assert(acquired(s, id) =~= s.update(
                r,
                BackendState {
                    config: s[r].config,
                    healthy: true,
                    active_connections: (s[r].active_connections + 1) as usize,
                },
            ));
        }
    }
}

/// The backend listing has one entry per backend of the pool, in pool order:
/// each backend's configuration.
pub proof fn lemma_listing_is_every_backend(s: Seq<BackendState>)
    ensures
        configs_of(s).len() == s.len(),
        forall|j: int| 0 <= j < s.len() ==> #[trigger] configs_of(s)[j] == s[j].config,
{
}

// ---------------------------------------------------------------------------
// The pool's operations.
// ---------------------------------------------------------------------------

impl BackendPool {
    /// A pool of the given backends, in the given order, each healthy and
    /// without connections.
    pub fn new(backends: Vec<BackendConfig>) -> (r: Self)
        ensures
            r@ == fresh_states(backends@),
    {
        let mut state: Vec<BackendState> = Vec::new();
        let n = backends.len();
        let mut i: usize = 0;
        while i < n
            invariant
                n == backends@.len(),
                0 <= i <= n,
                state@ =~= fresh_states(backends@.take(i as int)),
            decreases n - i,
        {
            let backend = backends[i].clone();
            state.push(BackendState { config: backend, healthy: true, active_connections: 0 });
            i = i + 1;
            assert(state@ =~= fresh_states(backends@.take(i as int)));
        }
        assert(backends@.take(n as int) =~= backends@);
        BackendPool { backends: state, identity: Ghost(0) }
    }

    /// Whether taking a slot of backend `backend_id` stays within its
    /// connection counter.
    pub fn acquire_fits(&self, backend_id: &str) -> (r: bool)
        ensures
            r == acquire_fits(self@, backend_id@),
    {
        let id = backend_id.to_owned();
        match self.position(&id) {
            None => true,
            Some(i) => !self.backends[i].healthy || self.backends[i].active_connections < usize::MAX,
        }
    }

    /// The configurations of all backends, in pool order.
    pub fn backends(&self) -> (r: Vec<BackendConfig>)
        ensures
            r@ == configs_of(self@),
    {
        let mut out: Vec<BackendConfig> = Vec::new();
        let n = self.backends.len();
        let mut i: usize = 0;
        while i < n
            invariant
                n == self@.len(),
                0 <= i <= n,
                out@ =~= configs_of(self@.take(i as int)),
            decreases n - i,
        {
            out.push(self.backends[i].config.clone());
            i = i + 1;
            assert(out@ =~= configs_of(self@.take(i as int)));
        }
        assert(self@.take(n as int) =~= self@);
        out
    }

    /// The configurations of the healthy backends, in pool order.
    pub fn healthy_backends(&self) -> (r: Vec<BackendConfig>)
        ensures
            r@ == healthy_configs(self@),
    {
        let mut out: Vec<BackendConfig> = Vec::new();
        let n = self.backends.len();
        let mut i: usize = 0;
        while i < n
            invariant
                n == self@.len(),
                0 <= i <= n,
                out@ == healthy_configs(self@.take(i as int)),
            decreases n - i,
        {
            assert(self@.take(i + 1).drop_last() =~= self@.take(i as int));
            if self.backends[i].healthy {
                out.push(self.backends[i].config.clone());
            }
            i = i + 1;
        }
        assert(self@.take(n as int) =~= self@);
        out
    }

    /// The healthy backends with their active connections, in pool order.
    pub fn healthy_candidates(&self) -> (r: Vec<BackendCandidate>)
        ensures
            r@ == healthy_candidates_of(self@),
    {
        let mut out: Vec<BackendCandidate> = Vec::new();
        let n = self.backends.len();
        let mut i: usize = 0;
        while i < n
            invariant
                n == self@.len(),
                0 <= i <= n,
                out@ == healthy_candidates_of(self@.take(i as int)),
            decreases n - i,
        {
            assert(self@.take(i + 1).drop_last() =~= self@.take(i as int));
            if self.backends[i].healthy {
                out.push(
                    BackendCandidate {
                        backend: self.backends[i].config.clone(),
                        active_connections: self.backends[i].active_connections,
                    },
                );
            }
            i = i + 1;
        }
        assert(self@.take(n as int) =~= self@);
        out
    }

    /// Sets the health flag of every backend with the given identifier.
    fn set_health(&mut self, backend_id: &String, healthy: bool)
        ensures
            final(self).identity() == old(self).identity(),
            final(self)@ == with_health(old(self)@, backend_id@, healthy),
    {
        let n = self.backends.len();
        let mut i: usize = 0;
        while i < n
            invariant
                n == self@.len(),
                n == old(self)@.len(),
                self.identity() == old(self).identity(),
                0 <= i <= n,
                forall|j: int|
                    0 <= j < i ==> #[trigger] self@[j] == with_health(old(self)@, backend_id@, healthy)[j],
                forall|j: int| i <= j < n ==> #[trigger] self@[j] == old(self)@[j],
            decreases n - i,
        {
            if self.backends[i].config.backend_id == *backend_id {
                self.backends[i].healthy = healthy;
            }
            i = i + 1;
        }
        assert(self@ =~= with_health(old(self)@, backend_id@, healthy));
    }

    /// Marks every backend with the given identifier healthy.
    pub fn mark_healthy(&mut self, backend_id: String)
        ensures
            final(self).identity() == old(self).identity(),
            final(self)@ == with_health(old(self)@, backend_id@, true),
    {
        self.set_health(&backend_id, true);
    }

    /// Marks every backend with the given identifier unhealthy.
    pub fn mark_unhealthy(&mut self, backend_id: String)
        ensures
            final(self).identity() == old(self).identity(),
            final(self)@ == with_health(old(self)@, backend_id@, false),
    {
        self.set_health(&backend_id, false);
    }

    /// Counts one more active connection on every backend with the given identifier.
    pub fn increment_connections(&mut self, backend_id: String)
        requires
            can_increment(old(self)@, backend_id@),
        ensures
            final(self).identity() == old(self).identity(),
            final(self)@ == incremented(old(self)@, backend_id@),
    {
        let n = self.backends.len();
        let mut i: usize = 0;
        while i < n
            invariant
                n == self@.len(),
                n == old(self)@.len(),
                self.identity() == old(self).identity(),
                0 <= i <= n,
                can_increment(old(self)@, backend_id@),
                forall|j: int|
                    0 <= j < i ==> #[trigger] self@[j] == incremented(old(self)@, backend_id@)[j],
                forall|j: int| i <= j < n ==> #[trigger] self@[j] == old(self)@[j],
            decreases n - i,
        {
            if self.backends[i].config.backend_id == backend_id {
                assert(has_id(old(self)@[i as int], backend_id@));
                self.backends[i].active_connections = self.backends[i].active_connections + 1;
            }
            i = i + 1;
        }
        assert(self@ =~= incremented(old(self)@, backend_id@));
    }

    /// Counts one active connection less on every backend with the given
    /// identifier that has one; a count at zero stays at zero.
    pub fn decrement_connections(&mut self, backend_id: String)
        ensures
            final(self).identity() == old(self).identity(),
            final(self)@ == decremented(old(self)@, backend_id@),
    {
        let n = self.backends.len();
        let mut i: usize = 0;
        while i < n
            invariant
                n == self@.len(),
                n == old(self)@.len(),
                self.identity() == old(self).identity(),
                0 <= i <= n,
                forall|j: int|
                    0 <= j < i ==> #[trigger] self@[j] == decremented(old(self)@, backend_id@)[j],
                forall|j: int| i <= j < n ==> #[trigger] self@[j] == old(self)@[j],
            decreases n - i,
        {
            if self.backends[i].config.backend_id == backend_id
                && self.backends[i].active_connections > 0 {
                self.backends[i].active_connections = self.backends[i].active_connections - 1;
            }
            i = i + 1;
        }
        assert(self@ =~= decremented(old(self)@, backend_id@));
    }

    /// The index of the first backend with the given identifier.
    fn position(&self, backend_id: &String) -> (r: Option<usize>)
        ensures
            match r {
                Some(i) => i < self@.len() && i as int == find_backend(self@, backend_id@),
                None => find_backend(self@, backend_id@) == -1,
            },
    {
        proof {
            lemma_find_backend(self@, backend_id@);
        }
        let n = self.backends.len();
        let mut i: usize = 0;
        while i < n
            invariant
                n == self@.len(),
                0 <= i <= n,
                forall|j: int| 0 <= j < i ==> !has_id(#[trigger] self@[j], backend_id@),
                ({
                    let r = find_backend(self@, backend_id@);
                    &&& -1 <= r < self@.len()
                    &&& r == -1 ==> forall|j: int| 0 <= j < self@.len() ==> !has_id(#[trigger] self@[j], backend_id@)
                    &&& r >= 0 ==> has_id(self@[r], backend_id@) && forall|j: int| 0 <= j < r ==> !has_id(#[trigger] self@[j], backend_id@)
                }),
            decreases n - i,
        {
            if self.backends[i].config.backend_id == *backend_id {
                return Some(i);
            }
            i = i + 1;
        }
        None
    }

    /// The active connections of the first backend with the given identifier,
    /// or `None` where no backend has it.
    pub fn active_connections(&self, backend_id: &str) -> (r: Option<usize>)
        ensures
            r == connections_of(self@, backend_id@),
    {
        let id = backend_id.to_owned();
        match self.position(&id) {
            Some(i) => Some(self.backends[i].active_connections),
            None => None,
        }
    }

    /// Takes a connection slot of the first backend with the given identifier:
    /// where that backend exists and is healthy, its count goes up by one and
    /// a guard for it is returned; else the pool is left as it is.
    pub fn try_acquire(&mut self, backend_id: &str) -> (r: Option<BackendGuard>)
        requires
            acquire_fits(old(self)@, backend_id@),
        ensures
            final(self).identity() == old(self).identity(),
            r is Some <==> acquire_succeeds(old(self)@, backend_id@),
            r matches Some(g) ==> g@ == backend_id@ && g.pool() == old(self).identity(),
            final(self)@ == acquired(old(self)@, backend_id@),
    {
        let id = backend_id.to_owned();
        proof {
            lemma_find_backend(old(self)@, backend_id@);
        }
        match self.position(&id) {
            None => None,
            Some(i) => {
                if !self.backends[i].healthy {
                    return None;
                }
                self.backends[i].active_connections = self.backends[i].active_connections + 1;
                assert(self@ =~= acquired(old(self)@, backend_id@));
                let guard_id = self.backends[i].config.backend_id.clone();
                Some(BackendGuard { backend_id: guard_id, pool: Ghost(self.identity@) })
            },
        }
    }

    /// Gives back the slot a guard holds: the first backend with the guard's
    /// identifier counts one connection less, where it has one.
    pub fn release(&mut self, guard: BackendGuard)
        requires
            guard.pool() == old(self).identity(),
        ensures
            final(self).identity() == old(self).identity(),
            final(self)@ == released(old(self)@, guard@),
    {
        match self.position(&guard.backend_id) {
            None => {},
            Some(i) => {
                if self.backends[i].active_connections > 0 {
                    self.backends[i].active_connections = self.backends[i].active_connections - 1;
                }
                assert(self@ =~= released(old(self)@, guard@));
            },
        }
    }
}

} // verus!
